//! Parsing of dependency specifications and of `pacman -Si` dependency and conflict fields.
use crate::text::{
    alphanumeric, char_is_alphanumeric, chars_eq_ignore_ascii_case, chars_eq_str, chars_to_string,
    contains, contains_str, dedup, ends_with, ends_with_str, eq_ignore_ascii_case, extend_chars,
    find, find_chars, find_char, find_char_in, is_ws, lead_ws_len, lower_chars, lowercase, lines,
    occurs_at, push_unique, slice_chars, split_lines, split_ws, split_ws_chars, starts_with,
    starts_with_str, to_chars, to_strings, trim, trim_chars, trim_start, trim_start_chars,
    utf8_len, utf8_len_chars, vv, char_is_ws, sv,
};
use crate::types::DependencySpec;
use vstd::prelude::*;

verus! {

// ---------------------------------------------------------------------------------------------
// Specification
// ---------------------------------------------------------------------------------------------

/// Position of the first version operator, trying `<=`, `>=`, `=`, `<`, `>` in that order.
pub open spec fn operator_position(s: Seq<char>) -> Option<int> {
    if find(s, "<="@) is Some {
        find(s, "<="@)
    } else if find(s, ">="@) is Some {
        find(s, ">="@)
    } else if find(s, "="@) is Some {
        find(s, "="@)
    } else if find(s, "<"@) is Some {
        find(s, "<"@)
    } else if find(s, ">"@) is Some {
        find(s, ">"@)
    } else {
        None
    }
}

/// Name and version requirement of a dependency specification: the text before and from the
/// first operator, each trimmed; the whole trimmed text and no requirement without operator.
pub open spec fn dep_spec_parts(s: Seq<char>) -> (Seq<char>, Seq<char>) {
    match operator_position(s) {
        Some(p) => (trim(s.take(p)), trim(s.skip(p))),
        None => (trim(s), Seq::empty()),
    }
}

/// Shared-library (virtual) dependency names: `.so`, `.so.N` or `.so=V`, case-insensitively.
pub open spec fn is_so_name(v: Seq<char>) -> bool {
    let lo = lowercase(v);
    ends_with(lo, ".so"@) || contains(lo, ".so."@) || contains(lo, ".so="@)
}

/// English words that occur in pacman descriptions and are never package names.
pub open spec fn is_common_word(w: Seq<char>) -> bool {
    ||| w == "for"@
    ||| w == "to"@
    ||| w == "with"@
    ||| w == "is"@
    ||| w == "that"@
    ||| w == "using"@
    ||| w == "usually"@
    ||| w == "bundled"@
    ||| w == "bindings"@
    ||| w == "tooling"@
    ||| w == "the"@
    ||| w == "and"@
    ||| w == "or"@
    ||| w == "in"@
    ||| w == "on"@
    ||| w == "at"@
    ||| w == "by"@
    ||| w == "from"@
    ||| w == "as"@
    ||| w == "if"@
    ||| w == "when"@
    ||| w == "where"@
    ||| w == "which"@
    ||| w == "what"@
    ||| w == "how"@
    ||| w == "why"@
}

/// Whether a token from pacman output looks like a package name: at least two bytes long, not a
/// shared library, not a common word, starting with an alphanumeric character, `-` or `_`, not
/// ending with `:`, and containing an alphanumeric character.
pub open spec fn valid_package_token(t: Seq<char>) -> bool {
    &&& utf8_len(t) >= 2
    &&& !is_so_name(t)
    &&& !is_common_word(lowercase(t))
    &&& (alphanumeric(t[0]) || t[0] == '-' || t[0] == '_')
    &&& !ends_with(t, ":"@)
    &&& exists|i: int| 0 <= i < t.len() && alphanumeric(#[trigger] t[i])
}

/// `acc` extended by the indented continuation lines starting at line `k`, each joined with a
/// space after its leading whitespace is removed; a blank or unindented line ends the value.
pub open spec fn continuation(lines: Seq<Seq<char>>, k: int, acc: Seq<char>) -> Seq<char>
    decreases lines.len() - k,
{
    if k < 0 || k >= lines.len() {
        acc
    } else if trim(lines[k]).len() == 0 {
        acc
    } else if lines[k].len() > 0 && is_ws(lines[k][0]) {
        continuation(lines, k + 1, acc + seq![' '] + trim_start(lines[k]))
    } else {
        acc
    }
}

/// Whether `line` introduces the field: it starts with `label` or mentions both words.
pub open spec fn is_field_line(line: Seq<char>, label: Seq<char>, w1: Seq<char>, w2: Seq<char>) -> bool {
    starts_with(line, label) || (contains(line, w1) && contains(line, w2))
}

/// Index of the first field line (with a colon) at or after `k`.
pub open spec fn field_line_index(
    lines: Seq<Seq<char>>,
    k: int,
    label: Seq<char>,
    w1: Seq<char>,
    w2: Seq<char>,
) -> Option<int>
    decreases lines.len() - k,
{
    if k < 0 || k >= lines.len() {
        None
    } else if is_field_line(lines[k], label, w1, w2) && find_char(lines[k], ':') is Some {
        Some(k)
    } else {
        field_line_index(lines, k + 1, label, w1, w2)
    }
}

/// The trimmed value of the field introduced at line `i`, continuation lines included.
pub open spec fn field_value(lines: Seq<Seq<char>>, i: int) -> Seq<char> {
    let p = find_char(lines[i], ':')->0;
    trim(continuation(lines, i + 1, trim(lines[i].skip(p + 1))))
}

/// Whether a field value means "nothing".
pub open spec fn is_none_value(t: Seq<char>) -> bool {
    t.len() == 0 || eq_ignore_ascii_case(t, "None"@)
}

/// The tokens of `ws` that look like package names, in order.
pub open spec fn valid_tokens(ws: Seq<Seq<char>>) -> Seq<Seq<char>>
    decreases ws.len(),
{
    if ws.len() == 0 {
        seq![]
    } else {
        let r = valid_tokens(ws.drop_last());
        if valid_package_token(ws.last()) {
            r.push(ws.last())
        } else {
            r
        }
    }
}

/// Package names (without version constraints) of a sequence of specifications.
pub open spec fn spec_names(ws: Seq<Seq<char>>) -> Seq<Seq<char>> {
    ws.map_values(|w: Seq<char>| dep_spec_parts(w).0)
}

/// The raw tokens of the field value introduced by the first matching line of `text`, or
/// `None` when there is no such line or the value means "nothing".
pub open spec fn field_tokens(text: Seq<char>, label: Seq<char>, w1: Seq<char>, w2: Seq<char>) -> Seq<
    Seq<char>,
> {
    let ls = lines(text);
    match field_line_index(ls, 0, label, w1, w2) {
        Some(i) => {
            let t = field_value(ls, i);
            if is_none_value(t) {
                seq![]
            } else {
                valid_tokens(split_ws(t))
            }
        },
        None => seq![],
    }
}

/// Dependencies listed in the `Depends On` field of `pacman -Si` output, without repetitions.
pub open spec fn si_deps(text: Seq<char>) -> Seq<Seq<char>> {
    dedup(field_tokens(text, "Depends On"@, "Depends"@, "On"@))
}

/// Conflicting package names of the `Conflicts With` field, without repetitions.
pub open spec fn si_conflicts(text: Seq<char>) -> Seq<Seq<char>> {
    dedup(spec_names(field_tokens(text, "Conflicts With"@, "Conflicts"@, "With"@)))
}

// ---------------------------------------------------------------------------------------------
// Executable code
// ---------------------------------------------------------------------------------------------

/// Position of the first version operator in `v`.
fn operator_position_chars(v: &[char]) -> (r: Option<usize>)
    ensures
        match r {
            Some(p) => operator_position(v@) == Some(p as int) && p <= v@.len(),
            None => operator_position(v@) is None,
        },
{
    let a = to_chars("<=");
    if let Some(p) = find_chars(v, a.as_slice()) {
        return Some(p);
    }
    let b = to_chars(">=");
    if let Some(p) = find_chars(v, b.as_slice()) {
        return Some(p);
    }
    let c = to_chars("=");
    if let Some(p) = find_chars(v, c.as_slice()) {
        return Some(p);
    }
    let d = to_chars("<");
    if let Some(p) = find_chars(v, d.as_slice()) {
        return Some(p);
    }
    let e = to_chars(">");
    if let Some(p) = find_chars(v, e.as_slice()) {
        return Some(p);
    }
    None
}

/// Name and version requirement of a dependency specification given as characters.
pub fn dep_spec_chars(v: &[char]) -> (r: (Vec<char>, Vec<char>))
    ensures
        (r.0@, r.1@) == dep_spec_parts(v@),
{
    match operator_position_chars(v) {
        Some(p) => {
            let n = v.len();
            let a = slice_chars(v, 0, p);
            let b = slice_chars(v, p, n);
            assert(a@ =~= v@.take(p as int));
            assert(b@ =~= v@.skip(p as int));
            (trim_chars(a.as_slice()), trim_chars(b.as_slice()))
        },
        None => {
            let e: Vec<char> = Vec::new();
            assert(e@ =~= Seq::<char>::empty());
            (trim_chars(v), e)
        },
    }
}

/// Splits a dependency specification such as `python>=3.12` into name and requirement.
pub fn parse_dep_spec(spec: &str) -> (r: DependencySpec)
    ensures
        (r.name@, r.version_req@) == dep_spec_parts(spec@),
{
    let v = to_chars(spec);
    let (n, q) = dep_spec_chars(v.as_slice());
    DependencySpec { name: chars_to_string(n.as_slice()), version_req: chars_to_string(q.as_slice()) }
}

/// Whether `v` names a shared library.
pub fn is_so_name_chars(v: &[char]) -> (r: bool)
    ensures
        r == is_so_name(v@),
{
    let lo = lower_chars(v);
    ends_with_str(lo.as_slice(), ".so") || contains_str(lo.as_slice(), ".so.") || contains_str(
        lo.as_slice(),
        ".so=",
    )
}

/// Whether `w` is one of the common English words.
fn is_common_word_chars(w: &[char]) -> (r: bool)
    ensures
        r == is_common_word(w@),
{
    chars_eq_str(w, "for") || chars_eq_str(w, "to") || chars_eq_str(w, "with") || chars_eq_str(
        w,
        "is",
    ) || chars_eq_str(w, "that") || chars_eq_str(w, "using") || chars_eq_str(w, "usually")
        || chars_eq_str(w, "bundled") || chars_eq_str(w, "bindings") || chars_eq_str(w, "tooling")
        || chars_eq_str(w, "the") || chars_eq_str(w, "and") || chars_eq_str(w, "or")
        || chars_eq_str(w, "in") || chars_eq_str(w, "on") || chars_eq_str(w, "at")
        || chars_eq_str(w, "by") || chars_eq_str(w, "from") || chars_eq_str(w, "as")
        || chars_eq_str(w, "if") || chars_eq_str(w, "when") || chars_eq_str(w, "where")
        || chars_eq_str(w, "which") || chars_eq_str(w, "what") || chars_eq_str(w, "how")
        || chars_eq_str(w, "why")
}

/// Whether some character of `v` is alphanumeric.
pub fn any_alphanumeric(v: &[char]) -> (r: bool)
    ensures
        r == exists|i: int| 0 <= i < v@.len() && alphanumeric(#[trigger] v@[i]),
{
    let mut i: usize = 0;
    while i < v.len()
        invariant
            i <= v@.len(),
            forall|k: int| 0 <= k < i ==> !alphanumeric(#[trigger] v@[k]),
        decreases v@.len() - i,
    {
        if char_is_alphanumeric(v[i]) {
            return true;
        }
        i += 1;
    }
    false
}

/// Whether a token given as characters looks like a package name.
pub fn valid_package_token_chars(t: &[char]) -> (r: bool)
    ensures
        r == valid_package_token(t@),
{
    let n = utf8_len_chars(t);
    if n < 2 {
        return false;
    }
    proof {
        crate::text::lemma_utf8_len_ge(t@);
    }
    if t.len() == 0 {
        return false;
    }
    if is_so_name_chars(t) {
        return false;
    }
    let lo = lower_chars(t);
    if is_common_word_chars(lo.as_slice()) {
        return false;
    }
    let first = t[0];
    if !char_is_alphanumeric(first) && first != '-' && first != '_' {
        return false;
    }
    if ends_with_str(t, ":") {
        return false;
    }
    any_alphanumeric(t)
}

/// Whether a whitespace-separated token of pacman output looks like a package name.
pub fn is_valid_package_token(token: &str) -> (r: bool)
    ensures
        r == valid_package_token(token@),
{
    let t = to_chars(token);
    valid_package_token_chars(t.as_slice())
}

/// The field value at line `k` extended by its continuation lines.
fn collect_continuation_lines(lines: &Vec<Vec<char>>, k: usize, init: Vec<char>) -> (r: Vec<char>)
    ensures
        r@ == continuation(vv(lines@), k as int, init@),
{
    let mut acc = init;
    let mut j = k;
    while j < lines.len()
        invariant
            k <= j,
            continuation(vv(lines@), k as int, init@) == continuation(
                vv(lines@),
                j as int,
                acc@,
            ),
        decreases lines@.len() - j,
    {
        let line = &lines[j];
        assert(vv(lines@)[j as int] == line@);
        let t = trim_chars(line.as_slice());
        if t.len() == 0 {
            return acc;
        }
        if line.len() > 0 && char_is_ws(line[0]) {
            let rest = trim_start_chars(line.as_slice());
            let ghost prev = acc@;
            acc.push(' ');
            extend_chars(&mut acc, rest.as_slice());
            assert(acc@ =~= prev + seq![' '] + trim_start(vv(lines@)[j as int]));
            j += 1;
        } else {
            return acc;
        }
    }
    acc
}

/// Index of the first field line with a colon at or after `k`, and the colon position.
fn field_line_index_chars(lines: &Vec<Vec<char>>, label: &str, w1: &str, w2: &str) -> (r: Option<
    (usize, usize),
>)
    ensures
        match r {
            Some((i, p)) => {
                &&& field_line_index(vv(lines@), 0, label@, w1@, w2@) == Some(i as int)
                &&& i < lines@.len()
                &&& find_char(lines@[i as int]@, ':') == Some(p as int)
                &&& p < lines@[i as int]@.len()
            },
            None => field_line_index(vv(lines@), 0, label@, w1@, w2@) is None,
        },
{
    let mut i: usize = 0;
    while i < lines.len()
        invariant
            i <= lines@.len(),
            field_line_index(vv(lines@), 0, label@, w1@, w2@) == field_line_index(
                vv(lines@),
                i as int,
                label@,
                w1@,
                w2@,
            ),
        decreases lines@.len() - i,
    {
        let line = lines[i].as_slice();
        assert(vv(lines@)[i as int] == line@);
        let is_field = starts_with_str(line, label) || (contains_str(line, w1) && contains_str(
            line,
            w2,
        ));
        if is_field {
            match find_char_in(line, ':') {
                Some(p) => {
                    return Some((i, p));
                },
                None => {},
            }
        }
        i += 1;
    }
    None
}

/// The raw field tokens of `text`.
fn field_tokens_chars(text: &str, label: &str, w1: &str, w2: &str) -> (r: Vec<Vec<char>>)
    ensures
        vv(r@) == field_tokens(text@, label@, w1@, w2@),
{
    let v = to_chars(text);
    let ls = split_lines(v.as_slice());
    let nl = ls.len();
    match field_line_index_chars(&ls, label, w1, w2) {
        Some((i, p)) => {
            let line = ls[i].as_slice();
            assert(vv(ls@)[i as int] == line@);
            let n = line.len();
            let after = slice_chars(line, p + 1, n);
            assert(after@ =~= line@.skip(p + 1));
            let first = trim_chars(after.as_slice());
            let full = collect_continuation_lines(&ls, i + 1, first);
            let t = trim_chars(full.as_slice());
            let none = to_chars("None");
            if t.len() == 0 || chars_eq_ignore_ascii_case(t.as_slice(), none.as_slice()) {
                let e: Vec<Vec<char>> = Vec::new();
                assert(vv(e@) =~= Seq::<Seq<char>>::empty());
                return e;
            }
            let words = split_ws_chars(t.as_slice());
            let mut out: Vec<Vec<char>> = Vec::new();
            let mut k: usize = 0;
            assert(vv(out@) =~= valid_tokens(vv(words@).take(0)));
            while k < words.len()
                invariant
                    k <= words@.len(),
                    vv(out@) == valid_tokens(vv(words@).take(k as int)),
                decreases words@.len() - k,
            {
                let w = &words[k];
                assert(vv(words@)[k as int] == w@);
                assert(vv(words@).take(k + 1).drop_last() =~= vv(words@).take(k as int));
                if valid_package_token_chars(w.as_slice()) {
                    let ghost before = vv(out@);
                    out.push(w.clone());
                    assert(vv(out@) =~= before.push(w@));
                }
                k += 1;
            }
            assert(vv(words@).take(words@.len() as int) =~= vv(words@));
            out
        },
        None => {
            let e: Vec<Vec<char>> = Vec::new();
            assert(vv(e@) =~= Seq::<Seq<char>>::empty());
            e
        },
    }
}

/// Removes repetitions, keeping first occurrences in order.
pub fn dedup_chars(ws: &Vec<Vec<char>>) -> (r: Vec<Vec<char>>)
    ensures
        vv(r@) == dedup(vv(ws@)),
{
    let mut out: Vec<Vec<char>> = Vec::new();
    let mut k: usize = 0;
    assert(vv(out@) =~= dedup(vv(ws@).take(0)));
    while k < ws.len()
        invariant
            k <= ws@.len(),
            vv(out@) == dedup(vv(ws@).take(k as int)),
        decreases ws@.len() - k,
    {
        assert(vv(ws@)[k as int] == ws@[k as int]@);
        assert(vv(ws@).take(k + 1).drop_last() =~= vv(ws@).take(k as int));
        push_unique(&mut out, ws[k].clone());
        k += 1;
    }
    assert(vv(ws@).take(ws@.len() as int) =~= vv(ws@));
    out
}

/// Dependency specifications of the `Depends On` field of `pacman -Si` output, without
/// shared-library entries, non-package words or repetitions.
pub fn parse_pacman_si_deps(text: &str) -> (r: Vec<String>)
    ensures
        sv(r@) == si_deps(text@),
{
    let toks = field_tokens_chars(text, "Depends On", "Depends", "On");
    let d = dedup_chars(&toks);
    to_strings(&d)
}

/// Conflicting package names (version constraints removed) of the `Conflicts With` field of
/// `pacman -Si` output, without repetitions.
pub fn parse_pacman_si_conflicts(text: &str) -> (r: Vec<String>)
    ensures
        sv(r@) == si_conflicts(text@),
{
    let toks = field_tokens_chars(text, "Conflicts With", "Conflicts", "With");
    let mut names: Vec<Vec<char>> = Vec::new();
    let mut k: usize = 0;
    while k < toks.len()
        invariant
            k <= toks@.len(),
            vv(names@) == spec_names(vv(toks@).take(k as int)),
        decreases toks@.len() - k,
    {
        let (n, _) = dep_spec_chars(toks[k].as_slice());
        assert(vv(toks@)[k as int] == toks@[k as int]@);
        let ghost before = vv(names@);
        let ghost nv = n@;
        names.push(n);
        assert(vv(toks@).take(k + 1) =~= vv(toks@).take(k as int).push(toks@[k as int]@));
        assert(spec_names(vv(toks@).take(k + 1)) =~= before.push(nv));
        assert(vv(names@) =~= before.push(nv));
        k += 1;
    }
    assert(vv(toks@).take(toks@.len() as int) =~= vv(toks@));
    let d = dedup_chars(&names);
    to_strings(&d)
}

/// Blocks collected and the block in progress after the lines `ls`: a blank line closes the
/// block in progress (when it has lines); every other line is added to it with a newline.
pub open spec fn block_state(ls: Seq<Seq<char>>) -> (Seq<Seq<char>>, Seq<char>)
    decreases ls.len(),
{
    if ls.len() == 0 {
        (seq![], seq![])
    } else {
        let (acc, cur) = block_state(ls.drop_last());
        let l = ls.last();
        if crate::text::trim(l).len() == 0 {
            if cur.len() > 0 {
                (acc.push(cur), seq![])
            } else {
                (acc, seq![])
            }
        } else {
            (acc, cur + l + seq!['\n'])
        }
    }
}

/// The blank-line-separated blocks of `text`, each line followed by a newline.
pub open spec fn package_blocks_of(text: Seq<char>) -> Seq<Seq<char>> {
    let (acc, cur) = block_state(crate::text::lines(text));
    if cur.len() > 0 {
        acc.push(cur)
    } else {
        acc
    }
}

/// The blocks of multi-package `pacman -Si` output: runs of non-blank lines, each line
/// followed by a newline.
pub fn package_blocks(text: &str) -> (r: Vec<String>)
    ensures
        sv(r@) == package_blocks_of(text@),
{
    let tc = crate::text::to_chars(text);
    let ls = crate::text::split_lines(tc.as_slice());
    let mut acc: Vec<Vec<char>> = Vec::new();
    let mut cur: Vec<char> = Vec::new();
    let mut i: usize = 0;
    while i < ls.len()
        invariant
            i <= ls@.len(),
            vv(ls@) == crate::text::lines(text@),
            (vv(acc@), cur@) == block_state(vv(ls@).take(i as int)),
        decreases ls@.len() - i,
    {
        assert(vv(ls@).take(i + 1).drop_last() =~= vv(ls@).take(i as int));
        assert(vv(ls@).take(i + 1).last() == ls@[i as int]@);
        let t = crate::text::trim_chars(ls[i].as_slice());
        if t.len() == 0 {
            if cur.len() > 0 {
                let ghost before = vv(acc@);
                let done = cur;
                acc.push(done);
                cur = Vec::new();
                assert(vv(acc@) =~= before.push(done@));
            } else {
                cur = Vec::new();
            }
            assert(cur@ =~= Seq::<char>::empty());
        } else {
            crate::text::extend_chars(&mut cur, ls[i].as_slice());
            cur.push('\n');
        }
        i += 1;
    }
    assert(vv(ls@).take(ls@.len() as int) =~= vv(ls@));
    if cur.len() > 0 {
        let ghost before = vv(acc@);
        let done = cur;
        acc.push(done);
        assert(vv(acc@) =~= before.push(done@));
    }
    crate::text::to_strings(&acc)
}

/// Name given by a block's first line starting (after whitespace) with `Name`: the trimmed
/// text after its first colon, if it has one.
pub open spec fn block_name_from(ls: Seq<Seq<char>>) -> Option<Seq<char>>
    decreases ls.len(),
{
    if ls.len() == 0 {
        None
    } else if crate::text::starts_with(crate::text::trim_start(ls[0]), "Name"@) {
        match crate::text::split_once(ls[0], ':') {
            Some((_, v)) => Some(crate::text::trim(v)),
            None => None,
        }
    } else {
        block_name_from(ls.drop_first())
    }
}

/// The package named by a block, if any.
pub fn block_name(block: &str) -> (r: Option<String>)
    ensures
        match r {
            Some(n) => block_name_from(crate::text::lines(block@)) == Some(n@),
            None => block_name_from(crate::text::lines(block@)) is None,
        },
{
    let bc = crate::text::to_chars(block);
    let ls = crate::text::split_lines(bc.as_slice());
    let mut i: usize = 0;
    assert(vv(ls@).skip(0) =~= vv(ls@));
    while i < ls.len()
        invariant
            i <= ls@.len(),
            vv(ls@) == crate::text::lines(block@),
            block_name_from(vv(ls@)) == block_name_from(vv(ls@).skip(i as int)),
        decreases ls@.len() - i,
    {
        assert(vv(ls@).skip(i as int)[0] == ls@[i as int]@);
        assert(vv(ls@).skip(i as int).drop_first() =~= vv(ls@).skip(i + 1));
        let ts = crate::text::trim_start_chars(ls[i].as_slice());
        if crate::text::starts_with_str(ts.as_slice(), "Name") {
            return match crate::text::split_once_chars(ls[i].as_slice(), ':') {
                Some((_, v)) => {
                    let t = crate::text::trim_chars(v.as_slice());
                    Some(crate::text::chars_to_string(t.as_slice()))
                },
                None => None,
            };
        }
        i += 1;
    }
    assert(vv(ls@).skip(i as int) =~= Seq::<Seq<char>>::empty());
    None
}

/// The entries that a run of blocks gives: for each block with a name, in block order, the
/// name and the block's `Depends On` list.
pub open spec fn batch_entries(blocks: Seq<Seq<char>>) -> Seq<(Seq<char>, Seq<Seq<char>>)>
    decreases blocks.len(),
{
    if blocks.len() == 0 {
        Seq::empty()
    } else {
        let before = batch_entries(blocks.drop_last());
        match block_name_from(crate::text::lines(blocks.last())) {
            Some(n) => before.push((n, si_deps(blocks.last()))),
            None => before,
        }
    }
}

/// Dependencies of each named package of multi-package `pacman -Si` output, in block order:
/// the block's name and its `Depends On` list (see `parse_pacman_si_deps`); blocks without a
/// name are left out.
pub fn parse_batch_si_output(text: &str) -> (r: Vec<(String, Vec<String>)>)
    ensures
        r@.len() == batch_entries(package_blocks_of(text@)).len(),
        forall|i: int|
            #![trigger r@[i]]
            0 <= i < r@.len() ==> (r@[i].0@, sv(r@[i].1@)) == batch_entries(
                package_blocks_of(text@),
            )[i],
{
    let blocks = package_blocks(text);
    let ghost bs = package_blocks_of(text@);
    let mut out: Vec<(String, Vec<String>)> = Vec::new();
    let mut k: usize = 0;
    while k < blocks.len()
        invariant
            k <= blocks@.len(),
            sv(blocks@) == bs,
            bs == package_blocks_of(text@),
            out@.len() == batch_entries(bs.take(k as int)).len(),
            forall|i: int|
                #![trigger out@[i]]
                0 <= i < out@.len() ==> (out@[i].0@, sv(out@[i].1@)) == batch_entries(
                    bs.take(k as int),
                )[i],
        decreases blocks@.len() - k,
    {
        let block = blocks[k].as_str();
        assert(bs.take(k + 1).drop_last() =~= bs.take(k as int));
        assert(bs.take(k + 1).last() == block@);
        let deps = parse_pacman_si_deps(block);
        let ghost prev = out@;
        match block_name(block) {
            Some(name) => {
                out.push((name, deps));
                assert forall|i: int| 0 <= i < out@.len() implies (out@[i].0@, sv(out@[i].1@))
                    == #[trigger] batch_entries(bs.take(k + 1))[i] by {
                    if i < prev.len() {
                        assert(out@[i] == prev[i]);
                    }
                }
            },
            None => {},
        }
        k += 1;
    }
    assert(bs.take(blocks@.len() as int) =~= bs);
    out
}

} // verus!
