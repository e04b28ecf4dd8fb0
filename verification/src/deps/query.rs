//! Reading the output of local package-database queries (`pacman -Qq`, `-Qu`, `-Q`, `-Si`).
//!
//! The queries themselves run outside the library; these functions read their text output.
use crate::text::{
    chars_to_string, find_char, find_char_in, lines, push_unique, slice_chars, split_lines,
    starts_with, starts_with_str, to_chars, to_strings, trim, trim_chars, vv, sv,
};
use vstd::prelude::*;

verus! {

// ---------------------------------------------------------------------------------------------
// Specification
// ---------------------------------------------------------------------------------------------

/// The text of `s` before its first `-` (all of `s` without one).
pub open spec fn before_dash(s: Seq<char>) -> Seq<char> {
    match find_char(s, '-') {
        Some(p) => s.take(p),
        None => s,
    }
}

/// Trimmed text after the colon of the first line at or after `k` that starts with `label` and
/// holds a colon.
pub open spec fn labeled_value(ls: Seq<Seq<char>>, k: int, label: Seq<char>) -> Option<Seq<char>>
    decreases ls.len() - k,
{
    if k < 0 || k >= ls.len() {
        None
    } else if starts_with(ls[k], label) && find_char(ls[k], ':') is Some {
        Some(trim(ls[k].skip(find_char(ls[k], ':')->0 + 1)))
    } else {
        labeled_value(ls, k + 1, label)
    }
}

/// Package name of one output line: the trimmed line for `pacman -Qq`; for `pacman -Qu` the
/// trimmed text before the first space of the trimmed line.
pub open spec fn line_name(line: Seq<char>, upgradable: bool) -> Seq<char> {
    let t = trim(line);
    if upgradable {
        match find_char(t, ' ') {
            Some(p) => trim(t.take(p)),
            None => t,
        }
    } else {
        t
    }
}

/// Distinct package names of the non-blank lines `ls`, in order of first appearance.
pub open spec fn package_names(ls: Seq<Seq<char>>, upgradable: bool) -> Seq<Seq<char>>
    decreases ls.len(),
{
    if ls.len() == 0 {
        seq![]
    } else {
        let r = package_names(ls.drop_last(), upgradable);
        let n = line_name(ls.last(), upgradable);
        if trim(ls.last()).len() == 0 || r.contains(n) {
            r
        } else {
            r.push(n)
        }
    }
}

/// Version in `pacman -Q` output: on the first line, the trimmed text after the first space,
/// cut at its first `-`.
pub open spec fn installed_version_of(text: Seq<char>) -> Option<Seq<char>> {
    let ls = lines(text);
    if ls.len() == 0 {
        None
    } else {
        match find_char(ls[0], ' ') {
            Some(p) => Some(before_dash(trim(ls[0].skip(p + 1)))),
            None => None,
        }
    }
}

/// Version in `pacman -Si` output: the `Version` field cut at its first `-`.
pub open spec fn available_version_of(text: Seq<char>) -> Option<Seq<char>> {
    match labeled_value(lines(text), 0, "Version"@) {
        Some(v) => Some(before_dash(v)),
        None => None,
    }
}

/// View of an optional string.
pub open spec fn opt_view(o: Option<String>) -> Option<Seq<char>> {
    match o {
        Some(s) => Some(s@),
        None => None,
    }
}

// ---------------------------------------------------------------------------------------------
// Executable functions
// ---------------------------------------------------------------------------------------------

/// The text before the first `-`.
pub fn before_dash_chars(s: &[char]) -> (r: Vec<char>)
    ensures
        r@ == before_dash(s@),
{
    match find_char_in(s, '-') {
        Some(p) => slice_chars(s, 0, p),
        None => slice_chars(s, 0, s.len()),
    }
}

/// Value of the first line starting with `label` and holding a colon.
pub fn labeled_value_chars(ls: &Vec<Vec<char>>, label: &str) -> (r: Option<Vec<char>>)
    ensures
        match r {
            Some(v) => labeled_value(vv(ls@), 0, label@) == Some(v@),
            None => labeled_value(vv(ls@), 0, label@) is None,
        },
{
    let mut k: usize = 0;
    while k < ls.len()
        invariant
            k <= ls@.len(),
            labeled_value(vv(ls@), 0, label@) == labeled_value(vv(ls@), k as int, label@),
        decreases ls@.len() - k,
    {
        assert(vv(ls@)[k as int] == ls@[k as int]@);
        let line = ls[k].as_slice();
        if starts_with_str(line, label) {
            match find_char_in(line, ':') {
                Some(c) => {
                    let n = line.len();
                    let rest = slice_chars(line, c + 1, n);
                    assert(rest@ == ls@[k as int]@.skip(c + 1));
                    return Some(trim_chars(rest.as_slice()));
                },
                None => {},
            }
        }
        k += 1;
    }
    None
}

/// Package name of one output line.
fn line_name_chars(line: &[char], upgradable: bool) -> (r: Vec<char>)
    ensures
        r@ == line_name(line@, upgradable),
{
    let t = trim_chars(line);
    if upgradable {
        match find_char_in(t.as_slice(), ' ') {
            Some(p) => {
                let head = slice_chars(t.as_slice(), 0, p);
                trim_chars(head.as_slice())
            },
            None => t,
        }
    } else {
        t
    }
}

/// Distinct package names of query output lines.
fn package_names_chars(text: &str, upgradable: bool) -> (r: Vec<String>)
    ensures
        sv(r@) == package_names(lines(text@), upgradable),
{
    let v = to_chars(text);
    let ls = split_lines(v.as_slice());
    let ghost l = vv(ls@);
    let mut out: Vec<Vec<char>> = Vec::new();
    let mut i: usize = 0;
    assert(l.take(0) =~= Seq::<Seq<char>>::empty());
    assert(vv(out@) =~= Seq::<Seq<char>>::empty());
    while i < ls.len()
        invariant
            i <= ls@.len(),
            l == vv(ls@),
            vv(out@) == package_names(l.take(i as int), upgradable),
        decreases ls@.len() - i,
    {
        assert(l.take(i + 1).drop_last() =~= l.take(i as int));
        assert(l[i as int] == ls@[i as int]@);
        let t = trim_chars(ls[i].as_slice());
        if t.len() > 0 {
            let n = line_name_chars(ls[i].as_slice(), upgradable);
            push_unique(&mut out, n);
        }
        i += 1;
    }
    assert(l.take(ls@.len() as int) =~= l);
    to_strings(&out)
}

/// Installed package names from `pacman -Qq` output: each non-blank trimmed line, once.
pub fn parse_installed_packages(output: &str) -> (r: Vec<String>)
    ensures
        sv(r@) == package_names(lines(output@), false),
{
    package_names_chars(output, false)
}

/// Upgradable package names from `pacman -Qu` output: the first word of each non-blank line,
/// once.
pub fn parse_upgradable_packages(output: &str) -> (r: Vec<String>)
    ensures
        sv(r@) == package_names(lines(output@), true),
{
    package_names_chars(output, true)
}

/// Installed version from `pacman -Q <name>` output (`name version-pkgrel`), without the
/// release; `None` when the first line has no space or there is no line.
pub fn parse_installed_version(output: &str) -> (r: Option<String>)
    ensures
        opt_view(r) == installed_version_of(output@),
{
    let v = to_chars(output);
    let ls = split_lines(v.as_slice());
    if ls.len() == 0 {
        return None;
    }
    assert(vv(ls@)[0] == ls@[0]@);
    let first = ls[0].as_slice();
    match find_char_in(first, ' ') {
        Some(p) => {
            let n = first.len();
            let rest = slice_chars(first, p + 1, n);
            assert(rest@ == ls@[0]@.skip(p + 1));
            let t = trim_chars(rest.as_slice());
            let b = before_dash_chars(t.as_slice());
            Some(chars_to_string(b.as_slice()))
        },
        None => None,
    }
}

/// Available version from `pacman -Si <name>` output (its `Version` field), without the
/// release; `None` without such a field.
pub fn parse_available_version(output: &str) -> (r: Option<String>)
    ensures
        opt_view(r) == available_version_of(output@),
{
    let v = to_chars(output);
    let ls = split_lines(v.as_slice());
    match labeled_value_chars(&ls, "Version") {
        Some(val) => {
            let b = before_dash_chars(val.as_slice());
            Some(chars_to_string(b.as_slice()))
        },
        None => None,
    }
}

/// Names provided by installed packages, built eagerly: none (provides are looked up on demand
/// with `pacman -Qqo`).
pub fn get_provided_packages(installed: &[String]) -> (r: Vec<String>)
    ensures
        r@.len() == 0,
{
    Vec::new()
}

/// Whether `names` holds `name`.
pub fn names_contain(names: &[String], name: &str) -> (r: bool)
    ensures
        r == sv(names@).contains(name@),
{
    let mut i: usize = 0;
    while i < names.len()
        invariant
            i <= names@.len(),
            forall|k: int| 0 <= k < i ==> sv(names@)[k] != name@,
        decreases names@.len() - i,
    {
        if crate::text::str_eq(names[i].as_str(), name) {
            assert(sv(names@)[i as int] == name@);
            return true;
        }
        i += 1;
    }
    false
}

/// The installed package that provides a name, read from what `pacman -Qqo NAME` printed when
/// it succeeded: its first line, trimmed; none when the query failed or printed nothing.
pub open spec fn provider_of(answer: Option<Seq<char>>) -> Option<Seq<char>> {
    match answer {
        Some(t) => if lines(t).len() > 0 {
            Some(trim(lines(t)[0]))
        } else {
            None
        },
        None => None,
    }
}

/// The installed package that provides a name (see `provider_of`).
pub fn check_if_provided(provider_answer: Option<&str>) -> (r: Option<String>)
    ensures
        opt_view(r) == provider_of(crate::deps::resolve::opt_str(provider_answer)),
{
    match provider_answer {
        Some(t) => {
            let v = to_chars(t);
            let ls = split_lines(v.as_slice());
            assert(vv(ls@) == lines(t@));
            if ls.len() > 0 {
                assert(vv(ls@)[0] == ls@[0]@);
                let first = trim_chars(ls[0].as_slice());
                Some(chars_to_string(first.as_slice()))
            } else {
                None
            }
        },
        None => None,
    }
}

/// Whether `name` is installed or provided by an installed package. `provider_answer` is what
/// `pacman -Qqo NAME` printed when it succeeded, `None` when it failed; it counts only for a name
/// that is not installed. `provided` plays no part (providers are asked for on demand).
pub fn is_package_installed_or_provided(
    name: &str,
    installed: &[String],
    provided: &[String],
    provider_answer: Option<&str>,
) -> (r: bool)
    ensures
        r == (sv(installed@).contains(name@) || provider_of(
            crate::deps::resolve::opt_str(provider_answer),
        ) is Some),
{
    if names_contain(installed, name) {
        return true;
    }
    check_if_provided(provider_answer).is_some()
}

} // verus!
