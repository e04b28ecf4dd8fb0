//! Properties that hold across calls and inputs of the library, proved over the specifications
//! that the functions' contracts use.
use crate::aur::mock::{names_key, scripted, Script};
use crate::aur::comments::{comment_headers, first_of_its_id, gives_comment, ids_of, CommentHeader};
use crate::aur::official::{
    describes, detail_answer, first_n, first_selected, matches_selector, row_selected,
    OfficialPackage,
};
use crate::aur::utils::{encode_byte, hex_digit, is_unreserved, percent_encoded, JsonValue};
use crate::error::ArchToolkitError;
use crate::cache::{join_comma, strs_view};
use crate::client::{retry_base_delay, min_int, RetryPolicy};
use crate::deps::graph::{
    child_names, edge_targets, intersect, lower_after, memo_get, range_ok, tree_children, tree_node,
    tree_roots, tree_universe, upper_after, BoundView, DependencyGraphEdge, DependencyGraphResolution,
};
use crate::deps::parse::{si_conflicts, si_deps};
use crate::deps::version::{major_bump, satisfies, version_order, lemma_version_order_reflexive};
use crate::text::{lex_leq, Order};
use vstd::prelude::*;

verus! {

/// Requirements follow version comparison: `>=x` accepts exactly the versions that compare not
/// below `x`, `<=x` those not above, `=x` those equal, and (for `x` not starting with `=`)
/// `>x` those above and `<x` those below.
pub proof fn law_requirement_follows_comparison(v: Seq<char>, x: Seq<char>)
    ensures
        satisfies(v, ">="@ + x) == (version_order(v, x) != Order::Less),
        satisfies(v, "<="@ + x) == (version_order(v, x) != Order::Greater),
        satisfies(v, "="@ + x) == (version_order(v, x) == Order::Equal),
        (x.len() == 0 || x[0] != '=') ==> satisfies(v, ">"@ + x) == (version_order(v, x)
            == Order::Greater),
        (x.len() == 0 || x[0] != '=') ==> satisfies(v, "<"@ + x) == (version_order(v, x)
            == Order::Less),
{
    reveal_strlit(">=");
    reveal_strlit("<=");
    reveal_strlit("=");
    reveal_strlit(">");
    reveal_strlit("<");
    assert((">="@ + x).skip(2) =~= x);
    assert(("<="@ + x).skip(2) =~= x);
    assert(("="@ + x).skip(1) =~= x);
    assert((">"@ + x).skip(1) =~= x);
    assert(("<"@ + x).skip(1) =~= x);
    assert((">="@ + x).take(2) =~= ">="@);
    assert(("<="@ + x).take(2) =~= "<="@);
    assert(("="@ + x).take(1) =~= "="@);
    assert((">"@ + x).take(1) =~= ">"@);
    assert(("<"@ + x).take(1) =~= "<"@);
    if x.len() > 0 && x[0] != '=' {
        assert((">"@ + x).take(2)[1] == x[0]);
        assert(("<"@ + x).take(2)[1] == x[0]);
        assert(">="@[1] == '=' && "<="@[1] == '=');
        assert(!crate::text::starts_with(">"@ + x, ">="@));
        assert(!crate::text::starts_with(">"@ + x, "<="@));
        assert(!crate::text::starts_with("<"@ + x, ">="@));
        assert(!crate::text::starts_with("<"@ + x, "<="@));
    }
    assert(("<="@ + x)[0] == '<' && ("="@ + x)[0] == '=' && ">="@[0] == '>' && "<="@[0] == '<');
    assert(("<="@ + x).take(2)[0] == '<');
    if ("="@ + x).len() >= 2 {
        assert(("="@ + x).take(2)[0] == '=');
    }
    assert(!crate::text::starts_with("<="@ + x, ">="@));
    assert(!crate::text::starts_with("="@ + x, ">="@));
    assert(!crate::text::starts_with("="@ + x, "<="@));
    assert((">"@ + x).take(1)[0] == '>');
    assert(("<"@ + x).take(1)[0] == '<');
    assert(!crate::text::starts_with("<"@ + x, ">="@) && !crate::text::starts_with("<"@ + x, "="@));
    assert(!crate::text::starts_with(">"@ + x, "="@));
}

/// A major-version bump goes one way: no version is a bump of itself, and when `new` bumps
/// `old`, `old` does not bump `new`.
pub proof fn law_major_bump_is_strict(old: Seq<char>, new: Seq<char>)
    ensures
        !major_bump(old, old),
        major_bump(old, new) ==> !major_bump(new, old),
{
}

/// The `Depends On` and `Conflicts With` lists read from `pacman -Si` output never repeat an
/// entry.
pub proof fn law_si_lists_have_no_repeats(text: Seq<char>)
    ensures
        si_deps(text).no_duplicates(),
        si_conflicts(text).no_duplicates(),
{
    let a = crate::deps::parse::field_tokens(text, "Depends On"@, "Depends"@, "On"@);
    let b = crate::deps::parse::spec_names(
        crate::deps::parse::field_tokens(text, "Conflicts With"@, "Conflicts"@, "With"@),
    );
    crate::text::lemma_dedup_distinct(a);
    crate::text::lemma_dedup_distinct(b);
}

/// Lemma: two lists of names with the same elements sort to the same list.
proof fn lemma_same_names_same_order(a: Seq<Seq<char>>, b: Seq<Seq<char>>)
    requires
        a.to_multiset() == b.to_multiset(),
    ensures
        a.sort_by(lex_leq()) == b.sort_by(lex_leq()),
{
    crate::text::lemma_lex_leq_total();
    a.lemma_sort_by_ensures(lex_leq());
    b.lemma_sort_by_ensures(lex_leq());
    vstd::seq_lib::lemma_sorted_unique(a.sort_by(lex_leq()), b.sort_by(lex_leq()), lex_leq());
}

/// The cache key of a package-information request does not depend on the order of the names.
pub proof fn law_info_cache_key_ignores_order(a: Seq<&str>, b: Seq<&str>)
    requires
        strs_view(a).to_multiset() == strs_view(b).to_multiset(),
    ensures
        "info:"@ + join_comma(strs_view(a).sort_by(lex_leq())) == "info:"@ + join_comma(
            strs_view(b).sort_by(lex_leq()),
        ),
{
    lemma_same_names_same_order(strs_view(a), strs_view(b));
}

/// The stand-in answers a details request for the same packages in any order alike.
pub proof fn law_mock_info_ignores_order(a: Seq<&str>, b: Seq<&str>)
    requires
        a.map_values(|n: &str| n@).to_multiset() == b.map_values(|n: &str| n@).to_multiset(),
    ensures
        names_key(a) == names_key(b),
{
    lemma_same_names_same_order(a.map_values(|n: &str| n@), b.map_values(|n: &str| n@));
}

/// The stand-in answers what was set last for an argument; answers set for other arguments are
/// unaffected.
pub proof fn law_mock_latest_answer_wins<X>(s: Script<X>, q: Seq<char>, a: X, b: X, k: Seq<char>)
    ensures
        scripted((s.0.push((q, a)).push((q, b)), s.1), q) == Some(b),
        k != q ==> scripted((s.0.push((q, b)), s.1), k) == scripted(s, k),
{
    assert(s.0.push((q, b)).drop_last() =~= s.0);
}

/// Characters that need no further escaping in a URL.
pub open spec fn url_safe(c: char) -> bool {
    ('A' <= c <= 'Z') || ('a' <= c <= 'z') || ('0' <= c <= '9') || c == '-' || c == '.' || c
        == '_' || c == '~' || c == '%'
}

/// Percent-encoding yields only unreserved characters, `%` and hexadecimal digits.
pub proof fn law_percent_encoding_is_url_safe(bytes: Seq<u8>)
    ensures
        forall|i: int| 0 <= i < percent_encoded(bytes).len() ==> url_safe(#[trigger] percent_encoded(bytes)[i]),
    decreases bytes.len(),
{
    if bytes.len() > 0 {
        law_percent_encoding_is_url_safe(bytes.drop_last());
        let p = percent_encoded(bytes.drop_last());
        let e = encode_byte(bytes.last());
        let b = bytes.last();
        assert(b / 16 < 16);
        assert(forall|j: int| 0 <= j < e.len() ==> url_safe(#[trigger] e[j]));
        assert forall|i: int| 0 <= i < percent_encoded(bytes).len() implies url_safe(
            #[trigger] percent_encoded(bytes)[i],
        ) by {
            if i < p.len() {
                assert(percent_encoded(bytes)[i] == p[i]);
            } else {
                assert(percent_encoded(bytes)[i] == e[i - p.len()]);
            }
        }
    }
}

/// Number of characters that percent-encoding gives `bytes`: one per unreserved byte, three
/// per other byte.
pub open spec fn encoded_len(bytes: Seq<u8>) -> int
    decreases bytes.len(),
{
    if bytes.len() == 0 {
        0
    } else {
        encoded_len(bytes.drop_last()) + if is_unreserved(bytes.last()) {
            1int
        } else {
            3int
        }
    }
}

/// Whether `c` is an uppercase hexadecimal digit.
pub open spec fn is_hex_upper(c: char) -> bool {
    ('0' <= c <= '9') || ('A' <= c <= 'F')
}

/// Value of an uppercase hexadecimal digit.
pub open spec fn hex_value(c: char) -> int {
    if '0' <= c <= '9' {
        c as int - 48
    } else {
        c as int - 55
    }
}

/// Bytes that a percent-encoded text stands for, read from its end: a `%XY` triple gives the
/// byte `XY`, any other character the byte of its code.
pub open spec fn percent_decoded(s: Seq<char>) -> Seq<u8>
    decreases s.len(),
{
    if s.len() == 0 {
        seq![]
    } else if s.len() >= 3 && s[s.len() - 3] == '%' {
        percent_decoded(s.take(s.len() - 3)).push(
            (16 * hex_value(s[s.len() - 2]) + hex_value(s[s.len() - 1])) as u8,
        )
    } else {
        percent_decoded(s.drop_last()).push(s.last() as u8)
    }
}

/// Lemma: `hex_digit` gives an uppercase hexadecimal digit whose value is the digit.
proof fn lemma_hex_digit(n: int)
    requires
        0 <= n < 16,
    ensures
        is_hex_upper(hex_digit(n)),
        hex_value(hex_digit(n)) == n,
{
}

/// Percent-encoding of `bytes` has one character per unreserved byte and three per other byte;
/// each `%` begins a `%XY` with `X` and `Y` uppercase hexadecimal digits; and decoding it gives
/// back exactly `bytes`.
pub proof fn law_percent_encoding_shape_and_roundtrip(bytes: Seq<u8>)
    ensures
        percent_encoded(bytes).len() == encoded_len(bytes),
        forall|i: int|
            0 <= i < percent_encoded(bytes).len() && #[trigger] percent_encoded(bytes)[i] == '%' ==> i + 2
                < percent_encoded(bytes).len() && is_hex_upper(percent_encoded(bytes)[i + 1])
                && is_hex_upper(percent_encoded(bytes)[i + 2]),
        percent_decoded(percent_encoded(bytes)) == bytes,
    decreases bytes.len(),
{
    if bytes.len() > 0 {
        let init = bytes.drop_last();
        let b = bytes.last();
        law_percent_encoding_shape_and_roundtrip(init);
        let p = percent_encoded(init);
        let e = encode_byte(b);
        let s = percent_encoded(bytes);
        assert(s == p + e);
        assert(b as int / 16 < 16);
        lemma_hex_digit(b as int / 16);
        lemma_hex_digit(b as int % 16);
        assert(hex_digit(2) == '2' && hex_digit(0) == '0');
        assert forall|i: int| 0 <= i < s.len() && #[trigger] s[i] == '%' implies i + 2 < s.len()
            && is_hex_upper(s[i + 1]) && is_hex_upper(s[i + 2]) by {
            if i < p.len() {
                assert(s[i] == p[i]);
                assert(p[i] == '%');
                assert(s[i + 1] == p[i + 1] && s[i + 2] == p[i + 2]);
            } else {
                assert(s[i] == e[i - p.len()]);
            }
        }
        if is_unreserved(b) {
            assert(e =~= seq![b as char]);
            if s.len() >= 3 {
                assert(s[s.len() - 3] == p[p.len() - 2]);
                if p[p.len() - 2] == '%' {
                    assert(p[p.len() - 2] == '%');
                }
            }
            assert(s.drop_last() =~= p);
            assert((b as char) as u8 == b);
        } else {
            assert(s[s.len() - 3] == '%');
            assert(s.take(s.len() - 3) =~= p);
            assert(16 * (b as int / 16) + b as int % 16 == b as int);
        }
        assert(init.push(b) =~= bytes);
    }
}

/// Narrowing an interval twice by the same requirement narrows it once: the second time leaves
/// it unchanged. The empty requirement leaves every interval unchanged.
pub proof fn law_intersection_is_idempotent(lo: Option<BoundView>, up: Option<BoundView>, req: Seq<char>)
    ensures
        intersect(lo, up, seq![]) == Some((lo, up)),
        intersect(lo, up, req) matches Some((l, u)) ==> intersect(l, u, req) == Some((l, u)),
{
    if req.len() > 0 {
        if let Some((op, v)) = crate::deps::version::requirement_parts(req) {
            if v.len() > 0 {
                lemma_version_order_reflexive(v);
                let inclusive = op == crate::deps::version::ReqOp::Ge || op
                    == crate::deps::version::ReqOp::Le || op == crate::deps::version::ReqOp::Eq;
                let bnd = (v, inclusive);
                let l1 = lower_after(lo, bnd);
                let u1 = upper_after(up, bnd);
                if l1 == Some(bnd) {
                    assert(lower_after(l1, bnd) == l1);
                } else {
                    assert(l1 == lo);
                }
                if u1 == Some(bnd) {
                    assert(upper_after(u1, bnd) == u1);
                } else {
                    assert(u1 == up);
                }
            }
        }
    }
}

/// A package granted expansion at depth `d` is granted again only from a strictly shallower
/// depth: the memo, once it records `d`, refuses every depth from `d` on.
pub proof fn law_expansion_only_shallower(m: Seq<(Seq<char>, usize)>, p: Seq<char>, d: usize, e: usize)
    requires
        memo_get(m, p, 0) == Some(d),
    ensures
        crate::deps::graph::expansion_granted(m, p, e) == (e < d),
{
}

/// Retry delays never shrink from one attempt to the next and never exceed `max_delay_ms`.
pub proof fn law_retry_delays_grow_to_cap(p: RetryPolicy, attempt: u32)
    requires
        attempt < u32::MAX,
    ensures
        retry_base_delay(p, attempt, None) <= retry_base_delay(p, (attempt + 1) as u32, None),
        retry_base_delay(p, attempt, None) <= p.max_delay_ms,
{
    let k = min_int(attempt as int, 20);
    let k1 = min_int(attempt + 1, 20);
    vstd::arithmetic::power2::lemma_pow2_pos(k as nat);
    if k1 > k {
        vstd::arithmetic::power2::lemma_pow2_unfold(k1 as nat);
        assert(vstd::arithmetic::power2::pow2(k1 as nat) == 2 * vstd::arithmetic::power2::pow2(k as nat));
    }
    let a = vstd::arithmetic::power2::pow2(k as nat);
    let b = vstd::arithmetic::power2::pow2(k1 as nat);
    assert(a <= b);
    assert(p.initial_delay_ms * a <= p.initial_delay_ms * b) by (nonlinear_arith)
        requires
            a <= b,
            p.initial_delay_ms >= 0,
    ;
}

/// The row that `first_selected` picks is one of the rows, and one the selector asks for.
proof fn lemma_first_selected_is_selected(rows: Seq<JsonValue>, selector: OfficialPackage)
    ensures
        first_selected(rows, selector) matches Some(row) ==> row_selected(row, selector)
            && rows.contains(row),
    decreases rows.len(),
{
    if rows.len() > 0 && !row_selected(rows[0], selector) {
        lemma_first_selected_is_selected(rows.drop_first(), selector);
        if let Some(row) = first_selected(rows.drop_first(), selector) {
            let k = choose|k: int| 0 <= k < rows.drop_first().len() && rows.drop_first()[k] == row;
            assert(rows[k + 1] == row);
        }
    } else if rows.len() > 0 {
        assert(rows[0] == rows[0]);
    }
}

/// A package-detail answer only ever gives a package that the selector asks for: the same
/// name, and the same repository and architecture where the selector names them.
pub proof fn law_detail_answer_matches_selector(
    document: JsonValue,
    selector: OfficialPackage,
    maximum_candidates: usize,
    p: OfficialPackage,
)
    requires
        detail_answer(
            document,
            selector,
            maximum_candidates,
            Ok::<Option<OfficialPackage>, ArchToolkitError>(Some(p)),
        ),
    ensures
        matches_selector(p, selector),
{
    let rows = crate::aur::official::results_of(document).unwrap();
    lemma_first_selected_is_selected(first_n(rows, maximum_candidates), selector);
    let row = first_selected(first_n(rows, maximum_candidates), selector).unwrap();
    assert(describes(row, p));
}

/// Every earlier header's id is among the ids of a prefix.
proof fn lemma_ids_of_contains(headers: Seq<CommentHeader>, j: int)
    requires
        0 <= j < headers.len(),
        headers[j].id is Some,
    ensures
        ids_of(headers).contains(headers[j].id.unwrap()@),
    decreases headers.len(),
{
    if j < headers.len() - 1 {
        lemma_ids_of_contains(headers.drop_last(), j);
        let before = ids_of(headers.drop_last());
        let k = choose|k: int| 0 <= k < before.len() && before[k] == headers[j].id.unwrap()@;
        match headers.last().id {
            Some(i) => assert(ids_of(headers)[k] == before[k]),
            None => {},
        }
    } else {
        match headers.last().id {
            Some(i) => assert(ids_of(headers)[ids_of(headers).len() - 1] == i@),
            None => {},
        }
    }
}

/// `first_of_its_id` of a header looks only at the headers before it.
proof fn lemma_comment_headers_prefix(headers: Seq<CommentHeader>, n: int)
    requires
        0 <= n <= headers.len(),
    ensures
        forall|i: int|
            0 <= i < comment_headers(headers.take(n)).len() ==> 0 <= #[trigger] comment_headers(
                headers.take(n),
            )[i] < n && first_of_its_id(headers, comment_headers(headers.take(n))[i]),
        forall|i: int, j: int|
            0 <= i < j < comment_headers(headers.take(n)).len() ==> #[trigger] comment_headers(
                headers.take(n),
            )[i] < #[trigger] comment_headers(headers.take(n))[j],
    decreases n,
{
    if n > 0 {
        lemma_comment_headers_prefix(headers, n - 1);
        let t = headers.take(n);
        assert(t.drop_last() =~= headers.take(n - 1));
        assert(t.take(n - 1) =~= headers.take(n - 1));
        assert(headers.take(n - 1) =~= headers.take(n - 1).take(n - 1));
        assert forall|i: int| 0 <= i < comment_headers(t).len() implies 0
            <= #[trigger] comment_headers(t)[i] < n && first_of_its_id(
            headers,
            comment_headers(t)[i],
        ) by {
            let k = comment_headers(t)[i];
            assert(headers.take(k) =~= t.take(k));
            if i < comment_headers(headers.take(n - 1)).len() {
                assert(comment_headers(t)[i] == comment_headers(headers.take(n - 1))[i]);
            }
        }
    } else {
        assert(headers.take(0) =~= Seq::<CommentHeader>::empty());
    }
}

/// The comments of a page never come from two headers with the same id: a repeated id is
/// collected once.
pub proof fn law_collected_ids_are_distinct(headers: Seq<CommentHeader>, i: int, j: int)
    requires
        0 <= i < j < comment_headers(headers).len(),
        headers[comment_headers(headers)[i]].id is Some,
        headers[comment_headers(headers)[j]].id is Some,
    ensures
        headers[comment_headers(headers)[i]].id.unwrap()@ != headers[comment_headers(
            headers,
        )[j]].id.unwrap()@,
{
    assert(headers.take(headers.len() as int) =~= headers);
    lemma_comment_headers_prefix(headers, headers.len() as int);
    let a = comment_headers(headers)[i];
    let b = comment_headers(headers)[j];
    assert(a < b);
    lemma_ids_of_contains(headers.take(b), a);
    assert(headers.take(b)[a] == headers[a]);
}

/// Lemma: removing edge `j` removes its target (when it leaves `name`) from the targets of
/// `name`, counted as a multiset.
proof fn lemma_edge_targets_remove(e: Seq<DependencyGraphEdge>, name: Seq<char>, j: int)
    requires
        0 <= j < e.len(),
    ensures
        edge_targets(e, name).to_multiset() == if e[j].from@ == name {
            edge_targets(e.remove(j), name).to_multiset().insert(e[j].to@)
        } else {
            edge_targets(e.remove(j), name).to_multiset()
        },
    decreases e.len(),
{
    broadcast use vstd::seq_lib::group_to_multiset_ensures;

    if j == e.len() - 1 {
        assert(e.remove(j) =~= e.drop_last());
    } else {
        lemma_edge_targets_remove(e.drop_last(), name, j);
        assert(e.remove(j).drop_last() =~= e.drop_last().remove(j));
        assert(e.remove(j).last() == e.last());
        assert(e.drop_last()[j] == e[j]);
        broadcast use vstd::multiset::group_multiset_axioms;
    }
}

/// Lemma: edge lists with the same edges give every name the same targets, counted as a
/// multiset.
proof fn lemma_edge_targets_permutation(e: Seq<DependencyGraphEdge>, e2: Seq<DependencyGraphEdge>, name: Seq<char>)
    requires
        e.to_multiset() == e2.to_multiset(),
    ensures
        edge_targets(e, name).to_multiset() == edge_targets(e2, name).to_multiset(),
    decreases e.len(),
{
    broadcast use vstd::seq_lib::group_to_multiset_ensures, vstd::multiset::group_multiset_axioms;

    vstd::seq_lib::to_multiset_len(e);
    vstd::seq_lib::to_multiset_len(e2);
    if e.len() == 0 {
        assert(e2.len() == 0);
        assert(e2 =~= Seq::<DependencyGraphEdge>::empty());
    } else {
        let x = e.last();
        assert(e.drop_last().push(x) =~= e);
        assert(e.to_multiset().count(x) > 0);
        assert(e2.contains(x));
        let j = choose|j: int| 0 <= j < e2.len() && e2[j] == x;
        vstd::seq_lib::to_multiset_remove(e2, j);
        assert(e2.remove(j).to_multiset() =~= e.drop_last().to_multiset());
        lemma_edge_targets_permutation(e.drop_last(), e2.remove(j), name);
        lemma_edge_targets_remove(e2, name, j);
    }
}

/// Whether two graphs differ at most in the order of their edges.
pub open spec fn same_but_edge_order(g: DependencyGraphResolution, g2: DependencyGraphResolution) -> bool {
    &&& g2.roots@ == g.roots@
    &&& g2.nodes@ == g.nodes@
    &&& g2.edges@.to_multiset() == g.edges@.to_multiset()
}

/// Lemma: graphs that differ in edge order give every name the same children.
proof fn lemma_same_children(g: DependencyGraphResolution, g2: DependencyGraphResolution, name: Seq<char>)
    requires
        same_but_edge_order(g, g2),
    ensures
        child_names(g2, name) == child_names(g, name),
{
    lemma_edge_targets_permutation(g.edges@, g2.edges@, name);
    let a = edge_targets(g.edges@, name);
    let b = edge_targets(g2.edges@, name);
    crate::text::lemma_lex_leq_total();
    a.lemma_sort_by_ensures(lex_leq());
    b.lemma_sort_by_ensures(lex_leq());
    vstd::seq_lib::lemma_sorted_unique(a.sort_by(lex_leq()), b.sort_by(lex_leq()), lex_leq());
}

/// Lemma: the subtree of a name does not depend on edge order.
proof fn lemma_same_tree_node(
    g: DependencyGraphResolution,
    g2: DependencyGraphResolution,
    name: Seq<char>,
    prefix: Seq<char>,
    has_next: bool,
    path: Seq<Seq<char>>,
)
    requires
        same_but_edge_order(g, g2),
    ensures
        tree_node(g2, name, prefix, has_next, path) == tree_node(g, name, prefix, has_next, path),
    decreases tree_universe(g).len() - path.len(), 0int,
{
    broadcast use vstd::seq_lib::group_to_multiset_ensures;

    vstd::seq_lib::to_multiset_len(g.edges@);
    vstd::seq_lib::to_multiset_len(g2.edges@);
    assert(tree_universe(g2).len() == tree_universe(g).len());
    if !path.contains(name) && path.len() < tree_universe(g).len() {
        lemma_same_children(g, g2, name);
        lemma_same_tree_children(g, g2, child_names(g, name), 0, prefix + crate::deps::graph::indent(has_next), path.push(name));
    }
}

/// Lemma: the subtrees of children do not depend on edge order.
proof fn lemma_same_tree_children(
    g: DependencyGraphResolution,
    g2: DependencyGraphResolution,
    kids: Seq<Seq<char>>,
    k: int,
    prefix: Seq<char>,
    path: Seq<Seq<char>>,
)
    requires
        same_but_edge_order(g, g2),
    ensures
        tree_children(g2, kids, k, prefix, path) == tree_children(g, kids, k, prefix, path),
    decreases tree_universe(g).len() - path.len(), kids.len() - k + 1,
{
    if 0 <= k < kids.len() {
        lemma_same_tree_node(g, g2, kids[k], prefix, k + 1 < kids.len(), path);
        lemma_same_tree_children(g, g2, kids, k + 1, prefix, path);
    }
}

/// Lemma: the trees of the roots from the `k`-th on do not depend on edge order.
proof fn lemma_same_tree_roots(g: DependencyGraphResolution, g2: DependencyGraphResolution, k: int)
    requires
        same_but_edge_order(g, g2),
    ensures
        tree_roots(g2, k) == tree_roots(g, k),
    decreases g.roots@.len() - k,
{
    if 0 <= k < g.roots@.len() {
        lemma_same_tree_node(g, g2, g.roots@[k]@, seq![], k + 1 < g.roots@.len(), seq![]);
        lemma_same_tree_roots(g, g2, k + 1);
    }
}

/// The rendered tree of a graph does not depend on the order of its edges.
pub proof fn law_render_tree_ignores_edge_order(g: DependencyGraphResolution, g2: DependencyGraphResolution)
    requires
        same_but_edge_order(g, g2),
    ensures
        tree_roots(g2, 0) == tree_roots(g, 0),
{
    lemma_same_tree_roots(g, g2, 0);
}

/// Lemma: a subtree's text is not empty and ends with a line break.
proof fn lemma_tree_node_ends_line(
    g: DependencyGraphResolution,
    name: Seq<char>,
    prefix: Seq<char>,
    has_next: bool,
    path: Seq<Seq<char>>,
)
    ensures
        tree_node(g, name, prefix, has_next, path).len() > 0,
        tree_node(g, name, prefix, has_next, path).last() == '\n',
    decreases tree_universe(g).len() - path.len(), 0int,
{
    if !path.contains(name) && path.len() < tree_universe(g).len() {
        lemma_tree_children_ends_line(g, child_names(g, name), 0, prefix + crate::deps::graph::indent(has_next), path.push(name));
    }
}

/// Lemma: the text of children's subtrees is empty or ends with a line break.
proof fn lemma_tree_children_ends_line(
    g: DependencyGraphResolution,
    kids: Seq<Seq<char>>,
    k: int,
    prefix: Seq<char>,
    path: Seq<Seq<char>>,
)
    ensures
        tree_children(g, kids, k, prefix, path).len() == 0 || tree_children(g, kids, k, prefix, path).last()
            == '\n',
    decreases tree_universe(g).len() - path.len(), kids.len() - k + 1,
{
    if 0 <= k < kids.len() {
        lemma_tree_node_ends_line(g, kids[k], prefix, k + 1 < kids.len(), path);
        lemma_tree_children_ends_line(g, kids, k + 1, prefix, path);
    }
}

/// Lemma: the trees of the roots from the `k`-th on are empty exactly when no root is left,
/// and otherwise end with a line break.
proof fn lemma_tree_roots_shape(g: DependencyGraphResolution, k: int)
    requires
        0 <= k,
    ensures
        (tree_roots(g, k).len() == 0) == (k >= g.roots@.len()),
        k < g.roots@.len() ==> tree_roots(g, k).last() == '\n',
    decreases g.roots@.len() - k,
{
    if k < g.roots@.len() {
        lemma_tree_node_ends_line(g, g.roots@[k]@, seq![], k + 1 < g.roots@.len(), seq![]);
        lemma_tree_roots_shape(g, k + 1);
    }
}

/// The rendered tree is empty exactly when the graph has no roots, and otherwise ends with a
/// line break.
pub proof fn law_render_tree_shape(g: DependencyGraphResolution)
    ensures
        (tree_roots(g, 0).len() == 0) == (g.roots@.len() == 0),
        g.roots@.len() > 0 ==> tree_roots(g, 0).last() == '\n',
{
    lemma_tree_roots_shape(g, 0);
}

} // verus!
