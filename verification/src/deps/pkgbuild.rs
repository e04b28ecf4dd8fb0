//! Dependency and conflict arrays of `PKGBUILD` scripts.
//!
//! A `PKGBUILD` is read line by line. A line `depends=(...)`, `depends+=(...)` (and likewise for
//! `makedepends`, `checkdepends`, `optdepends` or `conflicts`) declares an array; an array whose
//! closing parenthesis is not on the declaration line continues over the following lines until
//! a line holding `)`.
use crate::deps::parse::{dep_spec_chars, dep_spec_parts};
use crate::deps::srcinfo::fv;
use crate::text::{
    alphanumeric, char_is_alphanumeric, char_is_ws, chars_eq_ignore_ascii_case, chars_eq_str,
    chars_to_string, contains, contains_str, ends_with, ends_with_str, eq_ignore_ascii_case,
    extend_chars, find_char, find_char_in, is_ws, lines, lower_chars, lowercase, slice_chars,
    split_lines, split_once, split_once_chars, to_chars, to_strings, trim, trim_chars, utf8_len,
    utf8_len_chars, vv,
};
use vstd::prelude::*;

verus! {

// ---------------------------------------------------------------------------------------------
// Specification
// ---------------------------------------------------------------------------------------------

/// Extension of a path as `std::path::Path::extension` computes it. This is a function of the
/// path text under the path rules of the platform that the crate is built for (Unix rules on
/// the Arch Linux hosts it serves: `/` separates components).
pub uninterp spec fn path_extension(path: Seq<char>) -> Option<Seq<char>>;

/// State of the array-content scanner: finished values, whether a quote is open, the opening
/// quote character, and the value being read.
pub type ArrayScan = (Seq<Seq<char>>, bool, char, Seq<char>);

/// One character of bash array content: quotes delimit values and keep their inner whitespace;
/// outside quotes whitespace separates values.
pub open spec fn array_step(st: ArrayScan, ch: char) -> ArrayScan {
    let (vals, inq, q, cur) = st;
    if ch == '\'' || ch == '"' {
        if !inq {
            (vals, true, ch, cur)
        } else if ch == q {
            (if cur.len() > 0 { vals.push(cur) } else { vals }, false, '\0', seq![])
        } else {
            (vals, inq, q, cur.push(ch))
        }
    } else if inq {
        (vals, inq, q, cur.push(ch))
    } else if is_ws(ch) {
        (if cur.len() > 0 { vals.push(cur) } else { vals }, inq, q, seq![])
    } else {
        (vals, inq, q, cur.push(ch))
    }
}

/// Scanner state after the characters of `s`.
pub open spec fn array_scan(s: Seq<char>) -> ArrayScan
    decreases s.len(),
{
    if s.len() == 0 {
        (seq![], false, '\0', seq![])
    } else {
        array_step(array_scan(s.drop_last()), s.last())
    }
}

/// The values of bash array content: quoted or whitespace-separated words; a value left open at
/// the end (an unclosed quote or a final word) is kept.
pub open spec fn array_values(s: Seq<char>) -> Seq<Seq<char>> {
    let st = array_scan(s);
    if st.3.len() > 0 {
        st.0.push(st.3)
    } else {
        st.0
    }
}

/// State of the parenthesis matcher: nesting depth, whether a quote is open, the opening quote,
/// and the position of the matching parenthesis once found.
pub type ParenScan = (int, bool, char, Option<int>);

/// One character at position `pos` for the parenthesis matcher.
pub open spec fn paren_step(st: ParenScan, ch: char, pos: int) -> ParenScan {
    let (d, inq, q, found) = st;
    if ch == '\'' || ch == '"' {
        if !inq {
            (d, true, ch, found)
        } else if ch == q {
            (d, false, '\0', found)
        } else {
            st
        }
    } else if ch == '(' && !inq {
        (d + 1, inq, q, found)
    } else if ch == ')' && !inq {
        (d - 1, inq, q, if d - 1 == 0 { Some(pos) } else { found })
    } else {
        st
    }
}

/// Matcher state after the characters of `s`; it stops changing once the match is found.
pub open spec fn paren_scan(s: Seq<char>) -> ParenScan
    decreases s.len(),
{
    if s.len() == 0 {
        (0, false, '\0', None)
    } else {
        let st = paren_scan(s.drop_last());
        if st.3 is Some {
            st
        } else {
            paren_step(st, s.last(), s.len() - 1)
        }
    }
}

/// Position of the parenthesis that brings the depth back to zero, quotes excluded.
pub open spec fn matching_paren(s: Seq<char>) -> Option<int> {
    paren_scan(s).3
}

/// Array index of a declared key: `conflicts` when reading conflicts; `depends`,
/// `makedepends`, `checkdepends`, `optdepends` otherwise; -1 for any other key.
pub open spec fn field_of_key(key: Seq<char>, conf: bool) -> int {
    if conf {
        if key == "conflicts"@ {
            0
        } else {
            -1
        }
    } else if key == "depends"@ {
        0
    } else if key == "makedepends"@ {
        1
    } else if key == "checkdepends"@ {
        2
    } else if key == "optdepends"@ {
        3
    } else {
        -1
    }
}

/// Number of arrays read: one for conflicts, four for dependencies.
pub open spec fn field_count(conf: bool) -> int {
    if conf {
        1
    } else {
        4
    }
}

/// A key without one final `+` (the append form).
pub open spec fn strip_plus(k: Seq<char>) -> Seq<char> {
    if k.len() > 0 && k.last() == '+' {
        k.drop_last()
    } else {
        k
    }
}

/// Array index and trimmed value of a trimmed line that declares a watched array: not blank,
/// not a comment, `key=value` or `key+=value` with the value starting with `(`.
pub open spec fn array_declaration(line: Seq<char>, conf: bool) -> Option<(int, Seq<char>)> {
    if line.len() == 0 || line[0] == '#' {
        None
    } else {
        match split_once(line, '=') {
            Some((k, v)) => {
                let f = field_of_key(strip_plus(trim(k)), conf);
                if f >= 0 && trim(v).len() > 0 && trim(v)[0] == '(' {
                    Some((f, trim(v)))
                } else {
                    None
                }
            },
            None => None,
        }
    }
}

/// Whether `lo`'s path extension is `so`, ignoring ASCII case.
pub open spec fn so_extension(lo: Seq<char>) -> bool {
    match path_extension(lo) {
        Some(e) => eq_ignore_ascii_case(e, "so"@),
        None => false,
    }
}

/// Whether an array value names a package: its lower-cased form has no `so` extension and holds
/// neither `.so.` nor `.so=`; it does not end with `)`; it starts with an alphanumeric character
/// or `_`; it is at least two bytes long; and it holds an alphanumeric character, `-` or `_`.
pub open spec fn valid_dependency(d: Seq<char>) -> bool {
    let lo = lowercase(d);
    &&& !so_extension(lo)
    &&& !contains(lo, ".so."@)
    &&& !contains(lo, ".so="@)
    &&& !ends_with(d, ")"@)
    &&& d.len() > 0
    &&& (alphanumeric(d[0]) || d[0] == '_')
    &&& utf8_len(d) >= 2
    &&& exists|i: int| 0 <= i < d.len() && (alphanumeric(#[trigger] d[i]) || d[i] == '-' || d[i] == '_')
}

/// What an array value contributes: for dependencies the trimmed value; for conflicts the
/// package name of the trimmed value; nothing when blank, invalid or without name.
pub open spec fn accepted_value(v: Seq<char>, conf: bool) -> Option<Seq<char>> {
    let t = trim(v);
    if t.len() == 0 || !valid_dependency(t) {
        None
    } else if conf {
        let n = dep_spec_parts(t).0;
        if n.len() == 0 {
            None
        } else {
            Some(n)
        }
    } else {
        Some(t)
    }
}

/// `list` extended by the accepted values of `vals` it does not hold yet, in order.
pub open spec fn add_values(list: Seq<Seq<char>>, vals: Seq<Seq<char>>, conf: bool) -> Seq<
    Seq<char>,
>
    decreases vals.len(),
{
    if vals.len() == 0 {
        list
    } else {
        let l = add_values(list, vals.drop_last(), conf);
        match accepted_value(vals.last(), conf) {
            Some(x) => if l.contains(x) {
                l
            } else {
                l.push(x)
            },
            None => l,
        }
    }
}

/// Parts joined with single spaces.
pub open spec fn join_space(parts: Seq<Seq<char>>) -> Seq<char>
    decreases parts.len(),
{
    if parts.len() == 0 {
        seq![]
    } else if parts.len() == 1 {
        parts[0]
    } else {
        join_space(parts.drop_last()) + seq![' '] + parts.last()
    }
}

/// Arrays with the values of the multi-line array `f`, collected as `parts`, added.
pub open spec fn close_array(
    fields: Seq<Seq<Seq<char>>>,
    f: int,
    parts: Seq<Seq<char>>,
    conf: bool,
) -> Seq<Seq<Seq<char>>> {
    fields.update(f, add_values(fields[f], array_values(join_space(parts)), conf))
}

/// Reader state: the open multi-line array (its index and collected lines), and the arrays.
pub type ScanState = (Option<(int, Seq<Seq<char>>)>, Seq<Seq<Seq<char>>>);

/// One line of the script. Inside a multi-line array blank and comment lines are skipped, a
/// line `)` closes it, a line holding `)` contributes its trimmed text before it and closes it,
/// and any other line is collected. Outside, a declaration with its matching `)` on the line
/// contributes the values between the parentheses; otherwise it opens a multi-line array whose
/// first line keeps the text after `(` when reading dependencies (not a blank or a comment).
pub open spec fn scan_step(st: ScanState, raw: Seq<char>, conf: bool) -> ScanState {
    let line = trim(raw);
    let (mode, fields) = st;
    match mode {
        Some((f, parts)) => {
            if line.len() == 0 || line[0] == '#' {
                st
            } else if line == ")"@ {
                (None, close_array(fields, f, parts, conf))
            } else {
                match find_char(line, ')') {
                    Some(c) => {
                        let content = trim(line.take(c));
                        (
                            None,
                            close_array(
                                fields,
                                f,
                                if content.len() > 0 {
                                    parts.push(content)
                                } else {
                                    parts
                                },
                                conf,
                            ),
                        )
                    },
                    None => (Some((f, parts.push(line))), fields),
                }
            }
        },
        None => match array_declaration(line, conf) {
            None => st,
            Some((f, v)) => match matching_paren(v) {
                Some(c) => (
                    None,
                    fields.update(f, add_values(fields[f], array_values(v.subrange(1, c)), conf)),
                ),
                None => {
                    let first = trim(v.skip(1));
                    (
                        Some(
                            (
                                f,
                                if !conf && first.len() > 0 && first[0] != '#' {
                                    seq![first]
                                } else {
                                    seq![]
                                },
                            ),
                        ),
                        fields,
                    )
                },
            },
        },
    }
}

/// Reader state after the lines `ls`.
pub open spec fn scan_lines(ls: Seq<Seq<char>>, conf: bool) -> ScanState
    decreases ls.len(),
{
    if ls.len() == 0 {
        (None, Seq::new(field_count(conf) as nat, |i: int| Seq::<Seq<char>>::empty()))
    } else {
        scan_step(scan_lines(ls.drop_last(), conf), ls.last(), conf)
    }
}

/// The arrays read from a script; an array still open at the end keeps what was collected.
pub open spec fn pkgbuild_arrays(text: Seq<char>, conf: bool) -> Seq<Seq<Seq<char>>> {
    let st = scan_lines(lines(text), conf);
    match st.0 {
        Some((f, parts)) => close_array(st.1, f, parts, conf),
        None => st.1,
    }
}

/// Lemma: once the matching parenthesis is found, later characters leave the state unchanged.
pub proof fn lemma_paren_found_stable(s: Seq<char>, i: int)
    requires
        0 <= i <= s.len(),
        paren_scan(s.take(i)).3 is Some,
    ensures
        paren_scan(s) == paren_scan(s.take(i)),
    decreases s.len() - i,
{
    if i < s.len() {
        assert(s.take(i + 1).drop_last() =~= s.take(i));
        lemma_paren_found_stable(s, i + 1);
    } else {
        assert(s.take(i) =~= s);
    }
}

// ---------------------------------------------------------------------------------------------
// Executable parser
// ---------------------------------------------------------------------------------------------

/// `Path::extension` of `s`: the text after the last dot of the file name.
#[verifier::external_body]
fn file_extension(s: &str) -> (r: Option<String>)
    ensures
        match r {
            Some(e) => path_extension(s@) == Some(e@),
            None => path_extension(s@) is None,
        },
{
    std::path::Path::new(s).extension().map(|e| e.to_string_lossy().into_owned())
}

/// Position of the parenthesis matching the one that opens `s`.
fn matching_paren_chars(s: &[char]) -> (r: Option<usize>)
    ensures
        match r {
            Some(p) => matching_paren(s@) == Some(p as int) && p < s@.len() && s@[p as int] == ')',
            None => matching_paren(s@) is None,
        },
{
    let mut depth: i128 = 0;
    let mut inq = false;
    let mut q: char = '\0';
    let mut i: usize = 0;
    assert(s@.take(0) =~= Seq::<char>::empty());
    while i < s.len()
        invariant
            i <= s@.len(),
            -(i as int) <= depth <= i as int,
            paren_scan(s@.take(i as int)) == (depth as int, inq, q, None::<int>),
        decreases s@.len() - i,
    {
        let ch = s[i];
        assert(s@.take(i + 1).drop_last() =~= s@.take(i as int));
        if ch == '\'' || ch == '"' {
            if !inq {
                inq = true;
                q = ch;
            } else if ch == q {
                inq = false;
                q = '\0';
            }
        } else if ch == '(' && !inq {
            depth = depth + 1;
        } else if ch == ')' && !inq {
            depth = depth - 1;
            if depth == 0 {
                proof {
                    lemma_paren_found_stable(s@, i + 1);
                }
                return Some(i);
            }
        }
        i += 1;
    }
    assert(s@.take(s@.len() as int) =~= s@);
    None
}

/// Values of bash array content.
fn array_values_chars(s: &[char]) -> (r: Vec<Vec<char>>)
    ensures
        vv(r@) == array_values(s@),
{
    let mut vals: Vec<Vec<char>> = Vec::new();
    let mut inq = false;
    let mut q: char = '\0';
    let mut cur: Vec<char> = Vec::new();
    let mut i: usize = 0;
    assert(s@.take(0) =~= Seq::<char>::empty());
    assert(vv(vals@) =~= Seq::<Seq<char>>::empty());
    while i < s.len()
        invariant
            i <= s@.len(),
            array_scan(s@.take(i as int)) == (vv(vals@), inq, q, cur@),
        decreases s@.len() - i,
    {
        let ch = s[i];
        assert(s@.take(i + 1).drop_last() =~= s@.take(i as int));
        let ghost before = vv(vals@);
        if ch == '\'' || ch == '"' {
            if !inq {
                inq = true;
                q = ch;
            } else if ch == q {
                if cur.len() > 0 {
                    let ghost c = cur@;
                    vals.push(cur);
                    assert(vv(vals@) =~= before.push(c));
                }
                cur = Vec::new();
                inq = false;
                q = '\0';
            } else {
                cur.push(ch);
            }
        } else if inq {
            cur.push(ch);
        } else if char_is_ws(ch) {
            if cur.len() > 0 {
                let ghost c = cur@;
                vals.push(cur);
                assert(vv(vals@) =~= before.push(c));
            }
            cur = Vec::new();
        } else {
            cur.push(ch);
        }
        assert(cur@ == array_scan(s@.take(i + 1)).3);
        i += 1;
    }
    assert(s@.take(s@.len() as int) =~= s@);
    if cur.len() > 0 {
        let ghost before = vv(vals@);
        let ghost c = cur@;
        vals.push(cur);
        assert(vv(vals@) =~= before.push(c));
    }
    vals
}

/// Parts joined with single spaces.
fn join_space_chars(parts: &Vec<Vec<char>>) -> (r: Vec<char>)
    ensures
        r@ == join_space(vv(parts@)),
{
    let mut out: Vec<char> = Vec::new();
    let mut k: usize = 0;
    assert(vv(parts@).take(0) =~= Seq::<Seq<char>>::empty());
    while k < parts.len()
        invariant
            k <= parts@.len(),
            out@ == join_space(vv(parts@).take(k as int)),
        decreases parts@.len() - k,
    {
        assert(vv(parts@).take(k + 1).drop_last() =~= vv(parts@).take(k as int));
        assert(vv(parts@)[k as int] == parts@[k as int]@);
        if k > 0 {
            out.push(' ');
        }
        extend_chars(&mut out, parts[k].as_slice());
        k += 1;
    }
    assert(vv(parts@).take(parts@.len() as int) =~= vv(parts@));
    out
}

/// Array index of a key.
fn field_of_key_chars(key: &[char], conf: bool) -> (r: Option<usize>)
    ensures
        match r {
            Some(f) => field_of_key(key@, conf) == f as int && (f as int) < field_count(conf),
            None => field_of_key(key@, conf) == -1,
        },
{
    if conf {
        if chars_eq_str(key, "conflicts") {
            Some(0)
        } else {
            None
        }
    } else if chars_eq_str(key, "depends") {
        Some(0)
    } else if chars_eq_str(key, "makedepends") {
        Some(1)
    } else if chars_eq_str(key, "checkdepends") {
        Some(2)
    } else if chars_eq_str(key, "optdepends") {
        Some(3)
    } else {
        None
    }
}

/// Array index and value of a declaration line.
fn array_declaration_chars(line: &[char], conf: bool) -> (r: Option<(usize, Vec<char>)>)
    ensures
        match r {
            Some((f, v)) => array_declaration(line@, conf) == Some((f as int, v@)) && (f as int)
                < field_count(conf),
            None => array_declaration(line@, conf) is None,
        },
{
    if line.len() == 0 || line[0] == '#' {
        return None;
    }
    match split_once_chars(line, '=') {
        Some((k, v)) => {
            let kt = trim_chars(k.as_slice());
            let key = if kt.len() > 0 && kt[kt.len() - 1] == '+' {
                slice_chars(kt.as_slice(), 0, kt.len() - 1)
            } else {
                kt
            };
            assert(key@ == strip_plus(trim(k@))) by {
                if kt@.len() > 0 && kt@.last() == '+' {
                    assert(kt@.subrange(0, kt@.len() - 1) =~= kt@.drop_last());
                }
            }
            match field_of_key_chars(key.as_slice(), conf) {
                Some(f) => {
                    let vt = trim_chars(v.as_slice());
                    if vt.len() > 0 && vt[0] == '(' {
                        Some((f, vt))
                    } else {
                        None
                    }
                },
                None => None,
            }
        },
        None => None,
    }
}

/// Whether some character of `d` is alphanumeric, `-` or `_`.
fn any_name_char(d: &[char]) -> (r: bool)
    ensures
        r == exists|i: int|
            0 <= i < d@.len() && (alphanumeric(#[trigger] d@[i]) || d@[i] == '-' || d@[i] == '_'),
{
    let mut i: usize = 0;
    while i < d.len()
        invariant
            i <= d@.len(),
            forall|k: int|
                0 <= k < i ==> !(alphanumeric(#[trigger] d@[k]) || d@[k] == '-' || d@[k] == '_'),
        decreases d@.len() - i,
    {
        let c = d[i];
        if char_is_alphanumeric(c) || c == '-' || c == '_' {
            assert(alphanumeric(d@[i as int]) || d@[i as int] == '-' || d@[i as int] == '_');
            return true;
        }
        i += 1;
    }
    false
}

/// Whether an array value names a package.
fn valid_dependency_chars(d: &[char]) -> (r: bool)
    ensures
        r == valid_dependency(d@),
{
    let lo = lower_chars(d);
    let los = chars_to_string(lo.as_slice());
    let so_ext = match file_extension(los.as_str()) {
        Some(e) => {
            let ec = to_chars(e.as_str());
            let so = to_chars("so");
            chars_eq_ignore_ascii_case(ec.as_slice(), so.as_slice())
        },
        None => false,
    };
    if so_ext || contains_str(lo.as_slice(), ".so.") || contains_str(lo.as_slice(), ".so=") {
        return false;
    }
    if ends_with_str(d, ")") {
        return false;
    }
    if d.len() == 0 {
        return false;
    }
    let first = d[0];
    if !char_is_alphanumeric(first) && first != '_' {
        return false;
    }
    if utf8_len_chars(d) < 2 {
        return false;
    }
    any_name_char(d)
}

/// What an array value contributes.
fn accepted_value_chars(v: &[char], conf: bool) -> (r: Option<Vec<char>>)
    ensures
        match r {
            Some(x) => accepted_value(v@, conf) == Some(x@),
            None => accepted_value(v@, conf) is None,
        },
{
    let t = trim_chars(v);
    if t.len() == 0 || !valid_dependency_chars(t.as_slice()) {
        return None;
    }
    if conf {
        let (n, _) = dep_spec_chars(t.as_slice());
        if n.len() == 0 {
            None
        } else {
            Some(n)
        }
    } else {
        Some(t)
    }
}

/// Adds the accepted values of `vals` to `list`, each once.
fn add_values_chars(list: &mut Vec<Vec<char>>, vals: &Vec<Vec<char>>, conf: bool)
    ensures
        vv(final(list)@) == add_values(vv(old(list)@), vv(vals@), conf),
{
    let mut k: usize = 0;
    assert(vv(vals@).take(0) =~= Seq::<Seq<char>>::empty());
    while k < vals.len()
        invariant
            k <= vals@.len(),
            vv(list@) == add_values(vv(old(list)@), vv(vals@).take(k as int), conf),
        decreases vals@.len() - k,
    {
        assert(vv(vals@).take(k + 1).drop_last() =~= vv(vals@).take(k as int));
        assert(vv(vals@)[k as int] == vals@[k as int]@);
        match accepted_value_chars(vals[k].as_slice(), conf) {
            Some(x) => {
                crate::text::push_unique(list, x);
            },
            None => {},
        }
        k += 1;
    }
    assert(vv(vals@).take(vals@.len() as int) =~= vv(vals@));
}

/// Adds accepted values to array `f`.
fn add_to_field(fields: &mut Vec<Vec<Vec<char>>>, f: usize, vals: &Vec<Vec<char>>, conf: bool)
    requires
        f < old(fields)@.len(),
    ensures
        final(fields)@.len() == old(fields)@.len(),
        fv(final(fields)@) == fv(old(fields)@).update(
            f as int,
            add_values(fv(old(fields)@)[f as int], vv(vals@), conf),
        ),
{
    let mut list = fields[f].clone();
    assert(vv(list@) == fv(fields@)[f as int]);
    add_values_chars(&mut list, vals, conf);
    let ghost nl = vv(list@);
    fields.set(f, list);
    assert(fv(fields@) =~= fv(old(fields)@).update(f as int, nl));
}

/// Abstract state of the executable reader.
pub open spec fn mode_view(mode: Option<usize>, parts: Seq<Vec<char>>) -> Option<
    (int, Seq<Seq<char>>),
> {
    match mode {
        Some(f) => Some((f as int, vv(parts))),
        None => None,
    }
}

/// Closes the multi-line array `f` collected as `parts`.
fn close_array_chars(
    fields: &mut Vec<Vec<Vec<char>>>,
    f: usize,
    parts: &Vec<Vec<char>>,
    conf: bool,
)
    requires
        f < old(fields)@.len(),
    ensures
        final(fields)@.len() == old(fields)@.len(),
        fv(final(fields)@) == close_array(fv(old(fields)@), f as int, vv(parts@), conf),
{
    let joined = join_space_chars(parts);
    let vals = array_values_chars(joined.as_slice());
    add_to_field(fields, f, &vals, conf);
}

/// Reads one line of the script.
fn scan_step_chars(
    mode: &mut Option<usize>,
    parts: &mut Vec<Vec<char>>,
    fields: &mut Vec<Vec<Vec<char>>>,
    raw: &[char],
    conf: bool,
)
    requires
        old(fields)@.len() == field_count(conf),
        *old(mode) matches Some(f) ==> (f as int) < field_count(conf),
    ensures
        final(fields)@.len() == field_count(conf),
        *final(mode) matches Some(f) ==> (f as int) < field_count(conf),
        (mode_view(*final(mode), final(parts)@), fv(final(fields)@)) == scan_step(
            (mode_view(*old(mode), old(parts)@), fv(old(fields)@)),
            raw@,
            conf,
        ),
{
    let line = trim_chars(raw);
    match *mode {
        Some(f) => {
            if line.len() == 0 || line[0] == '#' {
                return ;
            }
            if chars_eq_str(line.as_slice(), ")") {
                close_array_chars(fields, f, parts, conf);
                *mode = None;
                return ;
            }
            match find_char_in(line.as_slice(), ')') {
                Some(c) => {
                    let head = slice_chars(line.as_slice(), 0, c);
                    let content = trim_chars(head.as_slice());
                    assert(head@ == line@.take(c as int));
                    if content.len() > 0 {
                        let ghost before = vv(parts@);
                        let ghost cc = content@;
                        parts.push(content);
                        assert(vv(parts@) =~= before.push(cc));
                    }
                    close_array_chars(fields, f, parts, conf);
                    *mode = None;
                },
                None => {
                    let ghost before = vv(parts@);
                    let ghost l = line@;
                    parts.push(line);
                    assert(vv(parts@) =~= before.push(l));
                },
            }
        },
        None => {
            match array_declaration_chars(line.as_slice(), conf) {
                None => {},
                Some((f, v)) => {
                    match matching_paren_chars(v.as_slice()) {
                        Some(c) => {
                            assert(c >= 1) by {
                                if c == 0 {
                                    assert(v@[0] == '(');
                                }
                            }
                            let inner = slice_chars(v.as_slice(), 1, c);
                            let vals = array_values_chars(inner.as_slice());
                            add_to_field(fields, f, &vals, conf);
                        },
                        None => {
                            let rest = slice_chars(v.as_slice(), 1, v.len());
                            assert(rest@ == v@.skip(1));
                            let first = trim_chars(rest.as_slice());
                            let mut init: Vec<Vec<char>> = Vec::new();
                            if !conf && first.len() > 0 && first[0] != '#' {
                                let ghost fc = first@;
                                init.push(first);
                                assert(vv(init@) =~= seq![fc]);
                            } else {
                                assert(vv(init@) =~= Seq::<Seq<char>>::empty());
                            }
                            *parts = init;
                            *mode = Some(f);
                        },
                    }
                },
            }
        },
    }
}

/// Reads the watched arrays of a script.
fn pkgbuild_arrays_chars(text: &str, conf: bool) -> (r: Vec<Vec<Vec<char>>>)
    ensures
        r@.len() == field_count(conf),
        fv(r@) == pkgbuild_arrays(text@, conf),
{
    let v = to_chars(text);
    let ls = split_lines(v.as_slice());
    let n: usize = if conf {
        1
    } else {
        4
    };
    let mut fields: Vec<Vec<Vec<char>>> = Vec::new();
    let mut j: usize = 0;
    while j < n
        invariant
            j <= n,
            n == field_count(conf),
            fields@.len() == j,
            forall|k: int| 0 <= k < j ==> (#[trigger] fields@[k])@.len() == 0,
        decreases n - j,
    {
        fields.push(Vec::new());
        j += 1;
    }
    let mut mode: Option<usize> = None;
    let mut parts: Vec<Vec<char>> = Vec::new();
    let ghost l = vv(ls@);
    assert(l.take(0) =~= Seq::<Seq<char>>::empty());
    assert forall|k: int| 0 <= k < n implies #[trigger] fv(fields@)[k] == Seq::<Seq<char>>::empty() by {
        assert(vv(fields@[k]@) =~= Seq::<Seq<char>>::empty());
    }
    assert(fv(fields@) =~= scan_lines(l.take(0), conf).1);
    let mut i: usize = 0;
    while i < ls.len()
        invariant
            i <= ls@.len(),
            l == vv(ls@),
            l == lines(text@),
            fields@.len() == field_count(conf),
            mode matches Some(f) ==> (f as int) < field_count(conf),
            (mode_view(mode, parts@), fv(fields@)) == scan_lines(l.take(i as int), conf),
        decreases ls@.len() - i,
    {
        assert(l.take(i + 1).drop_last() =~= l.take(i as int));
        assert(l[i as int] == ls@[i as int]@);
        scan_step_chars(&mut mode, &mut parts, &mut fields, ls[i].as_slice(), conf);
        i += 1;
    }
    assert(l.take(ls@.len() as int) =~= l);
    match mode {
        Some(f) => {
            close_array_chars(&mut fields, f, &parts, conf);
        },
        None => {},
    }
    fields
}

/// Parses the `depends`, `makedepends`, `checkdepends` and `optdepends` arrays of a `PKGBUILD`
/// (assignment or append form, single- or multi-line), keeping valid package names once each
/// in order of appearance.
pub fn parse_pkgbuild_deps(pkgbuild: &str) -> (r: (Vec<String>, Vec<String>, Vec<String>, Vec<String>))
    ensures
        sv4(r) == pkgbuild_arrays(pkgbuild@, false),
{
    let f = pkgbuild_arrays_chars(pkgbuild, false);
    let r = (to_strings(&f[0]), to_strings(&f[1]), to_strings(&f[2]), to_strings(&f[3]));
    assert(sv4(r) =~= fv(f@));
    r
}

/// Views of the four dependency lists.
pub open spec fn sv4(r: (Vec<String>, Vec<String>, Vec<String>, Vec<String>)) -> Seq<Seq<Seq<char>>> {
    seq![crate::text::sv(r.0@), crate::text::sv(r.1@), crate::text::sv(r.2@), crate::text::sv(r.3@)]
}

/// Parses the `conflicts` arrays of a `PKGBUILD` (assignment or append form, single- or
/// multi-line), keeping the package names of valid entries once each in order of appearance.
pub fn parse_pkgbuild_conflicts(pkgbuild: &str) -> (r: Vec<String>)
    ensures
        crate::text::sv(r@) == pkgbuild_arrays(pkgbuild@, true)[0],
{
    let f = pkgbuild_arrays_chars(pkgbuild, true);
    to_strings(&f[0])
}

} // verus!
