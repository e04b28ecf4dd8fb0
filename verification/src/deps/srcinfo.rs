//! Parser for AUR `.SRCINFO` files.
use crate::deps::parse::{dep_spec_chars, dep_spec_parts, dedup_chars, is_so_name, is_so_name_chars};
use crate::text::{
    chars_eq, chars_eq_str, chars_to_string, dedup, find_char, find_char_in, lemma_dedup_push,
    lines, push_unique, slice_chars, split_lines, split_once, split_once_chars, sv, to_chars,
    to_strings, trim, trim_chars, vv,
};
use vstd::prelude::*;

verus! {

// ---------------------------------------------------------------------------------------------
// Specification
// ---------------------------------------------------------------------------------------------

/// The key and value of a `.SRCINFO` line: blank lines, `#` comments and lines without `=` have
/// none; otherwise the text around the first `=`, each trimmed.
pub open spec fn srcinfo_entry(line: Seq<char>) -> Option<(Seq<char>, Seq<char>)> {
    let l = trim(line);
    if l.len() == 0 || l[0] == '#' {
        None
    } else {
        match split_once(l, '=') {
            Some((k, v)) => Some((trim(k), trim(v))),
            None => None,
        }
    }
}

/// A key without its architecture suffix (`depends_x86_64` belongs to `depends`).
pub open spec fn base_key(k: Seq<char>) -> Seq<char> {
    match find_char(k, '_') {
        Some(p) => k.take(p),
        None => k,
    }
}

/// Whether line `l` is an entry of key family `field`, and its value.
pub open spec fn field_entry(l: Seq<char>, field: Seq<char>) -> Option<Seq<char>> {
    match srcinfo_entry(l) {
        Some((k, v)) => if base_key(k) == field {
            Some(v)
        } else {
            None
        },
        None => None,
    }
}

/// All values of key family `field`, in order; with `skip_so`, shared-library values are left
/// out.
pub open spec fn field_values(ls: Seq<Seq<char>>, field: Seq<char>, skip_so: bool) -> Seq<
    Seq<char>,
>
    decreases ls.len(),
{
    if ls.len() == 0 {
        seq![]
    } else {
        let r = field_values(ls.drop_last(), field, skip_so);
        match field_entry(ls.last(), field) {
            Some(v) => if skip_so && is_so_name(v) {
                r
            } else {
                r.push(v)
            },
            None => r,
        }
    }
}

/// Non-empty package names of the non-shared-library `conflicts` values, in order.
pub open spec fn conflict_names(ls: Seq<Seq<char>>) -> Seq<Seq<char>>
    decreases ls.len(),
{
    if ls.len() == 0 {
        seq![]
    } else {
        let r = conflict_names(ls.drop_last());
        match field_entry(ls.last(), "conflicts"@) {
            Some(v) => if !is_so_name(v) && dep_spec_parts(v).0.len() > 0 {
                r.push(dep_spec_parts(v).0)
            } else {
                r
            },
            None => r,
        }
    }
}

/// The first non-empty value of key family `field`, or the empty text.
pub open spec fn first_nonempty(ls: Seq<Seq<char>>, field: Seq<char>) -> Seq<char>
    decreases ls.len(),
{
    if ls.len() == 0 {
        seq![]
    } else {
        let r = first_nonempty(ls.drop_last(), field);
        if r.len() > 0 {
            r
        } else {
            match field_entry(ls.last(), field) {
                Some(v) => v,
                None => r,
            }
        }
    }
}

/// The first value of key family `field`, if there is one.
pub open spec fn first_value(ls: Seq<Seq<char>>, field: Seq<char>) -> Option<Seq<char>>
    decreases ls.len(),
{
    if ls.len() == 0 {
        None
    } else {
        let r = first_value(ls.drop_last(), field);
        if r is Some {
            r
        } else {
            field_entry(ls.last(), field)
        }
    }
}

/// Unique dependency values of key family `field` in `.SRCINFO` text, shared libraries left out.
pub open spec fn srcinfo_deps_of(text: Seq<char>, field: Seq<char>) -> Seq<Seq<char>> {
    dedup(field_values(lines(text), field, true))
}

/// Unique conflicting package names in `.SRCINFO` text.
pub open spec fn srcinfo_conflicts_of(text: Seq<char>) -> Seq<Seq<char>> {
    dedup(conflict_names(lines(text)))
}

/// Parsed aggregate `.SRCINFO` metadata.
pub struct SrcinfoData {
    /// Package base name.
    pub pkgbase: String,
    /// First package name.
    pub pkgname: String,
    /// Package version.
    pub pkgver: String,
    /// Package release.
    pub pkgrel: String,
    /// Runtime dependencies.
    pub depends: Vec<String>,
    /// Build dependencies.
    pub makedepends: Vec<String>,
    /// Test dependencies.
    pub checkdepends: Vec<String>,
    /// Optional dependencies.
    pub optdepends: Vec<String>,
    /// Conflicting package names.
    pub conflicts: Vec<String>,
    /// Provided names.
    pub provides: Vec<String>,
    /// Replaced names.
    pub replaces: Vec<String>,
}

/// What `parse_srcinfo` yields for `text`.
pub open spec fn srcinfo_data_matches(d: SrcinfoData, text: Seq<char>) -> bool {
    let ls = lines(text);
    &&& d.pkgbase@ == first_nonempty(ls, "pkgbase"@)
    &&& d.pkgname@ == (match first_value(ls, "pkgname"@) {
        Some(v) => v,
        None => Seq::empty(),
    })
    &&& d.pkgver@ == first_nonempty(ls, "pkgver"@)
    &&& d.pkgrel@ == first_nonempty(ls, "pkgrel"@)
    &&& sv(d.depends@) == srcinfo_deps_of(text, "depends"@)
    &&& sv(d.makedepends@) == srcinfo_deps_of(text, "makedepends"@)
    &&& sv(d.checkdepends@) == srcinfo_deps_of(text, "checkdepends"@)
    &&& sv(d.optdepends@) == srcinfo_deps_of(text, "optdepends"@)
    &&& sv(d.conflicts@) == srcinfo_conflicts_of(text)
    &&& sv(d.provides@) == dedup(field_values(ls, "provides"@, false))
    &&& sv(d.replaces@) == dedup(field_values(ls, "replaces"@, false))
}

/// Lemma: the values of key family `field` are exactly the values of its lines, without
/// shared libraries when `skip_so`.
proof fn lemma_field_values_all(ls: Seq<Seq<char>>, field: Seq<char>, skip_so: bool, v: Seq<char>)
    ensures
        field_values(ls, field, skip_so).contains(v) <==> (exists|i: int|
            0 <= i < ls.len() && #[trigger] field_entry(ls[i], field) == Some(v)) && !(skip_so
            && is_so_name(v)),
    decreases ls.len(),
{
    if ls.len() > 0 {
        let p = ls.drop_last();
        lemma_field_values_all(p, field, skip_so, v);
        let r = field_values(p, field, skip_so);
        if (exists|i: int| 0 <= i < ls.len() && #[trigger] field_entry(ls[i], field) == Some(v))
            && !(skip_so && is_so_name(v)) {
            let i = choose|i: int| 0 <= i < ls.len() && #[trigger] field_entry(ls[i], field) == Some(v);
            if i < p.len() {
                assert(p[i] == ls[i]);
                assert(field_entry(p[i], field) == Some(v));
                let k = choose|k: int| 0 <= k < r.len() && r[k] == v;
                match field_entry(ls.last(), field) {
                    Some(w) => {
                        assert(r.push(w)[k] == v);
                    },
                    None => {},
                }
            } else {
                assert(r.push(v)[r.len() as int] == v);
            }
        }
        if field_values(ls, field, skip_so).contains(v) {
            match field_entry(ls.last(), field) {
                Some(w) => {
                    if skip_so && is_so_name(w) {
                        let i = choose|i: int| 0 <= i < p.len() && #[trigger] field_entry(p[i], field) == Some(v);
                        assert(ls[i] == p[i]);
                    } else {
                        let k = choose|k: int| 0 <= k < r.push(w).len() && r.push(w)[k] == v;
                        if k < r.len() {
                            assert(r[k] == v);
                            let i = choose|i: int| 0 <= i < p.len() && #[trigger] field_entry(p[i], field) == Some(v);
                            assert(ls[i] == p[i]);
                        } else {
                            assert(field_entry(ls[ls.len() - 1], field) == Some(v));
                        }
                    }
                },
                None => {
                    let i = choose|i: int| 0 <= i < p.len() && #[trigger] field_entry(p[i], field) == Some(v);
                    assert(ls[i] == p[i]);
                },
            }
        }
    }
}

/// The dependency lists of `parse_srcinfo` (`depends`, `makedepends`, `checkdepends`,
/// `optdepends`) hold the value of every line of their key (of any architecture) except shared
/// libraries, each once and nothing else.
pub proof fn law_srcinfo_deps_skip_only_shared_libraries(d: SrcinfoData, text: Seq<char>, v: Seq<char>)
    requires
        srcinfo_data_matches(d, text),
    ensures
        sv(d.depends@).contains(v) <==> (exists|i: int|
            0 <= i < lines(text).len() && #[trigger] field_entry(lines(text)[i], "depends"@) == Some(v))
            && !is_so_name(v),
        sv(d.makedepends@).contains(v) <==> (exists|i: int|
            0 <= i < lines(text).len() && #[trigger] field_entry(lines(text)[i], "makedepends"@) == Some(v))
            && !is_so_name(v),
        sv(d.checkdepends@).contains(v) <==> (exists|i: int|
            0 <= i < lines(text).len() && #[trigger] field_entry(lines(text)[i], "checkdepends"@) == Some(v))
            && !is_so_name(v),
        sv(d.optdepends@).contains(v) <==> (exists|i: int|
            0 <= i < lines(text).len() && #[trigger] field_entry(lines(text)[i], "optdepends"@) == Some(v))
            && !is_so_name(v),
{
    let ls = lines(text);
    crate::text::lemma_dedup_contains(field_values(ls, "depends"@, true), v);
    crate::text::lemma_dedup_contains(field_values(ls, "makedepends"@, true), v);
    crate::text::lemma_dedup_contains(field_values(ls, "checkdepends"@, true), v);
    crate::text::lemma_dedup_contains(field_values(ls, "optdepends"@, true), v);
    lemma_field_values_all(ls, "depends"@, true, v);
    lemma_field_values_all(ls, "makedepends"@, true, v);
    lemma_field_values_all(ls, "checkdepends"@, true, v);
    lemma_field_values_all(ls, "optdepends"@, true, v);
}

/// The `provides` list of `parse_srcinfo` holds the value of every `provides` line (of any
/// architecture), whatever its form, shared libraries such as `libfoo.so=1-64` included, each
/// once and nothing else; so does the `replaces` list for `replaces` lines.
pub proof fn law_srcinfo_provides_keep_every_value(d: SrcinfoData, text: Seq<char>, v: Seq<char>)
    requires
        srcinfo_data_matches(d, text),
    ensures
        sv(d.provides@).contains(v) <==> exists|i: int|
            0 <= i < lines(text).len() && #[trigger] field_entry(lines(text)[i], "provides"@) == Some(v),
        sv(d.replaces@).contains(v) <==> exists|i: int|
            0 <= i < lines(text).len() && #[trigger] field_entry(lines(text)[i], "replaces"@) == Some(v),
        forall|i: int, j: int|
            0 <= i < j < d.provides@.len() ==> sv(d.provides@)[i] != sv(d.provides@)[j],
        forall|i: int, j: int|
            0 <= i < j < d.replaces@.len() ==> sv(d.replaces@)[i] != sv(d.replaces@)[j],
{
    let ls = lines(text);
    crate::text::lemma_dedup_contains(field_values(ls, "provides"@, false), v);
    crate::text::lemma_dedup_contains(field_values(ls, "replaces"@, false), v);
    lemma_field_values_all(ls, "provides"@, false, v);
    lemma_field_values_all(ls, "replaces"@, false, v);
    crate::text::lemma_dedup_distinct(field_values(ls, "provides"@, false));
    crate::text::lemma_dedup_distinct(field_values(ls, "replaces"@, false));
}


// ---------------------------------------------------------------------------------------------
// Executable code
// ---------------------------------------------------------------------------------------------

/// Key and value of a `.SRCINFO` line.
pub fn srcinfo_entry_chars(line: &[char]) -> (r: Option<(Vec<char>, Vec<char>)>)
    ensures
        match (r, srcinfo_entry(line@)) {
            (Some((k, v)), Some((sk, svv))) => k@ == sk && v@ == svv,
            (None, None) => true,
            _ => false,
        },
{
    let l = trim_chars(line);
    if l.len() == 0 || l[0] == '#' {
        return None;
    }
    match split_once_chars(l.as_slice(), '=') {
        Some((k, v)) => Some((trim_chars(k.as_slice()), trim_chars(v.as_slice()))),
        None => None,
    }
}

/// A key without its architecture suffix.
pub fn base_key_chars(k: &[char]) -> (r: Vec<char>)
    ensures
        r@ == base_key(k@),
{
    match find_char_in(k, '_') {
        Some(p) => {
            let r = slice_chars(k, 0, p);
            assert(r@ =~= k@.take(p as int));
            r
        },
        None => slice_chars(k, 0, k.len()),
    }
}

/// Value of line `l` for key family `field`.
pub fn field_entry_chars(l: &[char], field: &str) -> (r: Option<Vec<char>>)
    ensures
        match (r, field_entry(l@, field@)) {
            (Some(v), Some(sv)) => v@ == sv,
            (None, None) => true,
            _ => false,
        },
{
    match srcinfo_entry_chars(l) {
        Some((k, v)) => {
            let b = base_key_chars(k.as_slice());
            if chars_eq_str(b.as_slice(), field) {
                Some(v)
            } else {
                None
            }
        },
        None => None,
    }
}

/// All values of key family `field` among `ls`.
pub fn field_values_chars(ls: &Vec<Vec<char>>, field: &str, skip_so: bool) -> (r: Vec<Vec<char>>)
    ensures
        vv(r@) == field_values(vv(ls@), field@, skip_so),
{
    let mut out: Vec<Vec<char>> = Vec::new();
    let mut i: usize = 0;
    assert(vv(out@) =~= field_values(vv(ls@).take(0), field@, skip_so));
    while i < ls.len()
        invariant
            i <= ls@.len(),
            vv(out@) == field_values(vv(ls@).take(i as int), field@, skip_so),
        decreases ls@.len() - i,
    {
        assert(vv(ls@)[i as int] == ls@[i as int]@);
        assert(vv(ls@).take(i + 1).drop_last() =~= vv(ls@).take(i as int));
        match field_entry_chars(ls[i].as_slice(), field) {
            Some(v) => {
                if !(skip_so && is_so_name_chars(v.as_slice())) {
                    let ghost before = vv(out@);
                    let ghost x = v@;
                    out.push(v);
                    assert(vv(out@) =~= before.push(x));
                }
            },
            None => {},
        }
        i += 1;
    }
    assert(vv(ls@).take(ls@.len() as int) =~= vv(ls@));
    out
}

/// Non-empty names of non-shared-library `conflicts` values among `ls`.
fn conflict_names_chars(ls: &Vec<Vec<char>>) -> (r: Vec<Vec<char>>)
    ensures
        vv(r@) == conflict_names(vv(ls@)),
{
    let mut out: Vec<Vec<char>> = Vec::new();
    let mut i: usize = 0;
    assert(vv(out@) =~= conflict_names(vv(ls@).take(0)));
    while i < ls.len()
        invariant
            i <= ls@.len(),
            vv(out@) == conflict_names(vv(ls@).take(i as int)),
        decreases ls@.len() - i,
    {
        assert(vv(ls@)[i as int] == ls@[i as int]@);
        assert(vv(ls@).take(i + 1).drop_last() =~= vv(ls@).take(i as int));
        match field_entry_chars(ls[i].as_slice(), "conflicts") {
            Some(v) => {
                if !is_so_name_chars(v.as_slice()) {
                    let (name, _) = dep_spec_chars(v.as_slice());
                    if name.len() > 0 {
                        let ghost before = vv(out@);
                        let ghost x = name@;
                        out.push(name);
                        assert(vv(out@) =~= before.push(x));
                    }
                }
            },
            None => {},
        }
        i += 1;
    }
    assert(vv(ls@).take(ls@.len() as int) =~= vv(ls@));
    out
}

/// The first non-empty value of key family `field` among `ls`.
fn first_nonempty_chars(ls: &Vec<Vec<char>>, field: &str) -> (r: Vec<char>)
    ensures
        r@ == first_nonempty(vv(ls@), field@),
{
    let mut out: Vec<char> = Vec::new();
    let mut i: usize = 0;
    assert(out@ =~= first_nonempty(vv(ls@).take(0), field@));
    while i < ls.len()
        invariant
            i <= ls@.len(),
            out@ == first_nonempty(vv(ls@).take(i as int), field@),
        decreases ls@.len() - i,
    {
        assert(vv(ls@)[i as int] == ls@[i as int]@);
        assert(vv(ls@).take(i + 1).drop_last() =~= vv(ls@).take(i as int));
        if out.len() == 0 {
            match field_entry_chars(ls[i].as_slice(), field) {
                Some(v) => {
                    out = v;
                },
                None => {},
            }
        }
        i += 1;
    }
    assert(vv(ls@).take(ls@.len() as int) =~= vv(ls@));
    out
}

/// The first value of key family `field` among `ls`.
fn first_value_chars(ls: &Vec<Vec<char>>, field: &str) -> (r: Option<Vec<char>>)
    ensures
        match (r, first_value(vv(ls@), field@)) {
            (Some(v), Some(sv)) => v@ == sv,
            (None, None) => true,
            _ => false,
        },
{
    let mut out: Option<Vec<char>> = None;
    let mut i: usize = 0;
    while i < ls.len()
        invariant
            i <= ls@.len(),
            match (out, first_value(vv(ls@).take(i as int), field@)) {
                (Some(v), Some(sv)) => v@ == sv,
                (None, None) => true,
                _ => false,
            },
        decreases ls@.len() - i,
    {
        assert(vv(ls@)[i as int] == ls@[i as int]@);
        assert(vv(ls@).take(i + 1).drop_last() =~= vv(ls@).take(i as int));
        if out.is_none() {
            out = field_entry_chars(ls[i].as_slice(), field);
        }
        i += 1;
    }
    assert(vv(ls@).take(ls@.len() as int) =~= vv(ls@));
    out
}

/// Unique dependency values of key family `field`.
fn deps_of(ls: &Vec<Vec<char>>, field: &str) -> (r: Vec<String>)
    ensures
        sv(r@) == dedup(field_values(vv(ls@), field@, true)),
{
    let raw = field_values_chars(ls, field, true);
    let d = dedup_chars(&raw);
    to_strings(&d)
}

/// Dependencies of `.SRCINFO` content: `(depends, makedepends, checkdepends, optdepends)`, each
/// merging architecture-specific keys, without shared-library entries or repetitions.
pub fn parse_srcinfo_deps(srcinfo: &str) -> (r: (Vec<String>, Vec<String>, Vec<String>, Vec<String>))
    ensures
        sv(r.0@) == srcinfo_deps_of(srcinfo@, "depends"@),
        sv(r.1@) == srcinfo_deps_of(srcinfo@, "makedepends"@),
        sv(r.2@) == srcinfo_deps_of(srcinfo@, "checkdepends"@),
        sv(r.3@) == srcinfo_deps_of(srcinfo@, "optdepends"@),
{
    let v = to_chars(srcinfo);
    let ls = split_lines(v.as_slice());
    (deps_of(&ls, "depends"), deps_of(&ls, "makedepends"), deps_of(&ls, "checkdepends"), deps_of(
        &ls,
        "optdepends",
    ))
}

/// Conflicting package names of `.SRCINFO` content (version constraints removed), without
/// shared-library entries or repetitions.
pub fn parse_srcinfo_conflicts(srcinfo: &str) -> (r: Vec<String>)
    ensures
        sv(r@) == srcinfo_conflicts_of(srcinfo@),
{
    let v = to_chars(srcinfo);
    let ls = split_lines(v.as_slice());
    let raw = conflict_names_chars(&ls);
    let d = dedup_chars(&raw);
    to_strings(&d)
}

/// Parses full `.SRCINFO` content: the first non-empty `pkgbase`, `pkgver` and `pkgrel`, the
/// first `pkgname`, and the merged dependency, conflict, provides and replaces lists.
pub fn parse_srcinfo(content: &str) -> (r: SrcinfoData)
    ensures
        srcinfo_data_matches(r, content@),
{
    let v = to_chars(content);
    let ls = split_lines(v.as_slice());
    let (depends, makedepends, checkdepends, optdepends) = parse_srcinfo_deps(content);
    let conflicts = parse_srcinfo_conflicts(content);
    let pkgbase = first_nonempty_chars(&ls, "pkgbase");
    let pkgname = match first_value_chars(&ls, "pkgname") {
        Some(n) => n,
        None => Vec::new(),
    };
    let pkgver = first_nonempty_chars(&ls, "pkgver");
    let pkgrel = first_nonempty_chars(&ls, "pkgrel");
    let provides_raw = field_values_chars(&ls, "provides", false);
    let provides_d = dedup_chars(&provides_raw);
    let replaces_raw = field_values_chars(&ls, "replaces", false);
    let replaces_d = dedup_chars(&replaces_raw);
    let data = SrcinfoData {
        pkgbase: chars_to_string(pkgbase.as_slice()),
        pkgname: chars_to_string(pkgname.as_slice()),
        pkgver: chars_to_string(pkgver.as_slice()),
        pkgrel: chars_to_string(pkgrel.as_slice()),
        depends,
        makedepends,
        checkdepends,
        optdepends,
        conflicts,
        provides: to_strings(&provides_d),
        replaces: to_strings(&replaces_d),
    };
    assert(data.pkgname@ == (match first_value(lines(content@), "pkgname"@) {
        Some(v) => v,
        None => Seq::empty(),
    }));
    data
}

// ---------------------------------------------------------------------------------------------
// Split-package metadata for graph resolution
// ---------------------------------------------------------------------------------------------

/// Index of the metadata list of key family `k`: depends, makedepends, checkdepends,
/// optdepends, conflicts, provides, replaces; `-1` for any other key.
pub open spec fn package_field_index(k: Seq<char>) -> int {
    if k == "depends"@ {
        0
    } else if k == "makedepends"@ {
        1
    } else if k == "checkdepends"@ {
        2
    } else if k == "optdepends"@ {
        3
    } else if k == "conflicts"@ {
        4
    } else if k == "provides"@ {
        5
    } else if k == "replaces"@ {
        6
    } else {
        -1
    }
}

/// Seven empty metadata lists.
pub open spec fn empty_fields() -> Seq<Seq<Seq<char>>> {
    Seq::new(7, |i: int| Seq::<Seq<char>>::empty())
}

/// `fields` with `v` added once to the list of key family `k`.
pub open spec fn add_field_value(fields: Seq<Seq<Seq<char>>>, k: Seq<char>, v: Seq<char>) -> Seq<
    Seq<Seq<char>>,
> {
    let i = package_field_index(k);
    if 0 <= i < fields.len() && !fields[i].contains(v) {
        fields.update(i, fields[i].push(v))
    } else {
        fields
    }
}

/// Package-base metadata and the packages (name and own metadata) declared by `ls`: a
/// `pkgname` entry starts a package; other entries belong to the latest package, or to the
/// package base before the first `pkgname`.
pub open spec fn packages_state(ls: Seq<Seq<char>>) -> (
    Seq<Seq<Seq<char>>>,
    Seq<(Seq<char>, Seq<Seq<Seq<char>>>)>,
)
    decreases ls.len(),
{
    if ls.len() == 0 {
        (empty_fields(), seq![])
    } else {
        let (base, pkgs) = packages_state(ls.drop_last());
        match srcinfo_entry(ls.last()) {
            Some((k, v)) => {
                let key = base_key(k);
                if key == "pkgname"@ {
                    (base, pkgs.push((v, empty_fields())))
                } else if pkgs.len() > 0 {
                    (
                        base,
                        pkgs.update(
                            pkgs.len() - 1,
                            (pkgs.last().0, add_field_value(pkgs.last().1, key, v)),
                        ),
                    )
                } else {
                    (add_field_value(base, key, v), pkgs)
                }
            },
            None => (base, pkgs),
        }
    }
}

/// `a` extended by the values of `b` it does not already hold, in order.
pub open spec fn merge_values(a: Seq<Seq<char>>, b: Seq<Seq<char>>) -> Seq<Seq<char>>
    decreases b.len(),
{
    if b.len() == 0 {
        a
    } else {
        let m = merge_values(a, b.drop_last());
        if m.contains(b.last()) {
            m
        } else {
            m.push(b.last())
        }
    }
}

/// A package's own metadata extended by the package-base metadata.
pub open spec fn merge_fields(own: Seq<Seq<Seq<char>>>, base: Seq<Seq<Seq<char>>>) -> Seq<
    Seq<Seq<char>>,
> {
    Seq::new(own.len(), |i: int| merge_values(own[i], base[i]))
}

/// Every split package of `.SRCINFO` text with its merged metadata.
pub open spec fn srcinfo_packages(text: Seq<char>) -> Seq<(Seq<char>, Seq<Seq<Seq<char>>>)> {
    let (base, pkgs) = packages_state(lines(text));
    pkgs.map_values(|p: (Seq<char>, Seq<Seq<Seq<char>>>)| (p.0, merge_fields(p.1, base)))
}

/// One split package of a `.SRCINFO` document with its dependency, provider, conflict and
/// replacement lists (shared-library entries retained).
#[derive(Clone, Debug)]
pub struct SrcinfoPackage {
    /// Package output name.
    pub name: String,
    /// Runtime dependency specifications.
    pub depends: Vec<String>,
    /// Build dependency specifications.
    pub makedepends: Vec<String>,
    /// Check dependency specifications.
    pub checkdepends: Vec<String>,
    /// Optional dependency specifications.
    pub optdepends: Vec<String>,
    /// Conflict specifications.
    pub conflicts: Vec<String>,
    /// Provided names.
    pub provides: Vec<String>,
    /// Replaced names.
    pub replaces: Vec<String>,
}

/// The metadata lists of a package, in field-index order.
pub open spec fn package_fields(p: SrcinfoPackage) -> Seq<Seq<Seq<char>>> {
    seq![
        sv(p.depends@),
        sv(p.makedepends@),
        sv(p.checkdepends@),
        sv(p.optdepends@),
        sv(p.conflicts@),
        sv(p.provides@),
        sv(p.replaces@),
    ]
}

/// Package-base header and split packages of a `.SRCINFO` document.
pub struct GraphSrcinfoData {
    /// Package base name.
    pub pkgbase: String,
    /// Epoch, empty when not declared.
    pub epoch: String,
    /// Package version.
    pub pkgver: String,
    /// Package release.
    pub pkgrel: String,
    /// Split packages.
    pub packages: Vec<SrcinfoPackage>,
}

/// What `parse_srcinfo_graph` yields for `text`.
pub open spec fn graph_data_matches(d: GraphSrcinfoData, text: Seq<char>) -> bool {
    let ls = lines(text);
    let pk = srcinfo_packages(text);
    &&& d.pkgbase@ == first_nonempty(ls, "pkgbase"@)
    &&& d.epoch@ == first_nonempty(ls, "epoch"@)
    &&& d.pkgver@ == first_nonempty(ls, "pkgver"@)
    &&& d.pkgrel@ == first_nonempty(ls, "pkgrel"@)
    &&& d.packages@.len() == pk.len()
    &&& forall|j: int|
        0 <= j < pk.len() ==> (#[trigger] d.packages@[j]).name@ == pk[j].0 && package_fields(
            d.packages@[j],
        ) == pk[j].1
}

/// Views of metadata lists.
pub open spec fn fv(f: Seq<Vec<Vec<char>>>) -> Seq<Seq<Seq<char>>> {
    f.map_values(|x: Vec<Vec<char>>| vv(x@))
}

/// Views of packages under construction.
pub open spec fn pv(p: Seq<(Vec<char>, Vec<Vec<Vec<char>>>)>) -> Seq<(Seq<char>, Seq<Seq<Seq<char>>>)> {
    p.map_values(|x: (Vec<char>, Vec<Vec<Vec<char>>>)| (x.0@, fv(x.1@)))
}

/// Seven empty metadata lists.
fn new_fields() -> (r: Vec<Vec<Vec<char>>>)
    ensures
        r@.len() == 7,
        fv(r@) == empty_fields(),
{
    let mut r: Vec<Vec<Vec<char>>> = Vec::new();
    let mut i: usize = 0;
    while i < 7
        invariant
            i <= 7,
            r@.len() == i,
            forall|k: int| 0 <= k < i ==> (#[trigger] r@[k])@.len() == 0,
        decreases 7 - i,
    {
        r.push(Vec::new());
        i += 1;
    }
    assert forall|k: int| 0 <= k < 7 implies #[trigger] fv(r@)[k] == empty_fields()[k] by {
        assert(vv(r@[k]@) =~= Seq::<Seq<char>>::empty());
    }
    assert(fv(r@) =~= empty_fields());
    r
}

/// Field index of a key family.
fn package_field_index_chars(k: &[char]) -> (r: Option<usize>)
    ensures
        match r {
            Some(i) => package_field_index(k@) == i as int && i < 7,
            None => package_field_index(k@) == -1,
        },
{
    if chars_eq_str(k, "depends") {
        Some(0)
    } else if chars_eq_str(k, "makedepends") {
        Some(1)
    } else if chars_eq_str(k, "checkdepends") {
        Some(2)
    } else if chars_eq_str(k, "optdepends") {
        Some(3)
    } else if chars_eq_str(k, "conflicts") {
        Some(4)
    } else if chars_eq_str(k, "provides") {
        Some(5)
    } else if chars_eq_str(k, "replaces") {
        Some(6)
    } else {
        None
    }
}

/// Adds `v` once to the list of key family `k`.
fn add_field_value_chars(fields: &mut Vec<Vec<Vec<char>>>, k: &[char], v: Vec<char>)
    requires
        old(fields)@.len() == 7,
    ensures
        final(fields)@.len() == 7,
        fv(final(fields)@) == add_field_value(fv(old(fields)@), k@, v@),
{
    match package_field_index_chars(k) {
        Some(i) => {
            let mut list = fields[i].clone();
            assert(vv(list@) == fv(fields@)[i as int]);
            let ghost before = vv(list@);
            let ghost x = v@;
            push_unique(&mut list, v);
            let ghost after = vv(list@);
            fields.set(i, list);
            assert(fv(fields@) =~= (if before.contains(x) {
                fv(old(fields)@)
            } else {
                fv(old(fields)@).update(i as int, before.push(x))
            }));
        },
        None => {},
    }
}

/// Package base and packages declared by lines `ls`.
fn packages_state_chars(ls: &Vec<Vec<char>>) -> (r: (
    Vec<Vec<Vec<char>>>,
    Vec<(Vec<char>, Vec<Vec<Vec<char>>>)>,
))
    ensures
        r.0@.len() == 7,
        forall|j: int| 0 <= j < r.1@.len() ==> (#[trigger] r.1@[j]).1@.len() == 7,
        (fv(r.0@), pv(r.1@)) == packages_state(vv(ls@)),
{
    let mut base = new_fields();
    let mut pkgs: Vec<(Vec<char>, Vec<Vec<Vec<char>>>)> = Vec::new();
    let mut i: usize = 0;
    assert(pv(pkgs@) =~= Seq::<(Seq<char>, Seq<Seq<Seq<char>>>)>::empty());
    assert(vv(ls@).take(0) =~= Seq::<Seq<char>>::empty());
    while i < ls.len()
        invariant
            i <= ls@.len(),
            base@.len() == 7,
            forall|j: int| 0 <= j < pkgs@.len() ==> (#[trigger] pkgs@[j]).1@.len() == 7,
            (fv(base@), pv(pkgs@)) == packages_state(vv(ls@).take(i as int)),
        decreases ls@.len() - i,
    {
        assert(vv(ls@)[i as int] == ls@[i as int]@);
        assert(vv(ls@).take(i + 1).drop_last() =~= vv(ls@).take(i as int));
        match srcinfo_entry_chars(ls[i].as_slice()) {
            Some((k, v)) => {
                let key = base_key_chars(k.as_slice());
                if chars_eq_str(key.as_slice(), "pkgname") {
                    let f = new_fields();
                    let ghost before = pv(pkgs@);
                    let ghost nv = v@;
                    pkgs.push((v, f));
                    assert(pv(pkgs@) =~= before.push((nv, empty_fields())));
                } else if pkgs.len() > 0 {
                    let ghost last = pkgs@.len() - 1;
                    let ghost before = pv(pkgs@);
                    let (name, mut fields) = pkgs.pop().unwrap();
                    assert(name@ == before[last].0);
                    assert(fv(fields@) == before[last].1);
                    add_field_value_chars(&mut fields, key.as_slice(), v);
                    let ghost nf = fv(fields@);
                    let ghost nn = name@;
                    pkgs.push((name, fields));
                    assert(pv(pkgs@) =~= before.update(last, (nn, nf)));
                } else {
                    add_field_value_chars(&mut base, key.as_slice(), v);
                }
            },
            None => {},
        }
        i += 1;
    }
    assert(vv(ls@).take(ls@.len() as int) =~= vv(ls@));
    (base, pkgs)
}

/// `a` extended by the values of `b` it does not already hold.
fn merge_values_chars(a: &Vec<Vec<char>>, b: &Vec<Vec<char>>) -> (r: Vec<Vec<char>>)
    ensures
        vv(r@) == merge_values(vv(a@), vv(b@)),
{
    let mut out = a.clone();
    assert(vv(out@) =~= vv(a@));
    let mut k: usize = 0;
    while k < b.len()
        invariant
            k <= b@.len(),
            vv(out@) == merge_values(vv(a@), vv(b@).take(k as int)),
        decreases b@.len() - k,
    {
        assert(vv(b@)[k as int] == b@[k as int]@);
        assert(vv(b@).take(k + 1).drop_last() =~= vv(b@).take(k as int));
        push_unique(&mut out, b[k].clone());
        k += 1;
    }
    assert(vv(b@).take(b@.len() as int) =~= vv(b@));
    out
}

/// Builds a package record from a name and merged metadata lists.
fn make_package(name: &Vec<char>, own: &Vec<Vec<Vec<char>>>, base: &Vec<Vec<Vec<char>>>) -> (r:
    SrcinfoPackage)
    requires
        own@.len() == 7,
        base@.len() == 7,
    ensures
        r.name@ == name@,
        package_fields(r) == merge_fields(fv(own@), fv(base@)),
{
    let d = merge_values_chars(&own[0], &base[0]);
    let m = merge_values_chars(&own[1], &base[1]);
    let c = merge_values_chars(&own[2], &base[2]);
    let o = merge_values_chars(&own[3], &base[3]);
    let f = merge_values_chars(&own[4], &base[4]);
    let p = merge_values_chars(&own[5], &base[5]);
    let r = merge_values_chars(&own[6], &base[6]);
    let pkg = SrcinfoPackage {
        name: chars_to_string(name.as_slice()),
        depends: to_strings(&d),
        makedepends: to_strings(&m),
        checkdepends: to_strings(&c),
        optdepends: to_strings(&o),
        conflicts: to_strings(&f),
        provides: to_strings(&p),
        replaces: to_strings(&r),
    };
    assert(package_fields(pkg) =~= merge_fields(fv(own@), fv(base@)));
    pkg
}

/// Parses every split package of `.SRCINFO` content with package-base metadata merged in;
/// shared-library entries are retained.
pub fn parse_srcinfo_packages(content: &str) -> (r: Vec<SrcinfoPackage>)
    ensures
        r@.len() == srcinfo_packages(content@).len(),
        forall|j: int|
            0 <= j < r@.len() ==> (#[trigger] r@[j]).name@ == srcinfo_packages(content@)[j].0
                && package_fields(r@[j]) == srcinfo_packages(content@)[j].1,
{
    let v = to_chars(content);
    let ls = split_lines(v.as_slice());
    let (base, pkgs) = packages_state_chars(&ls);
    let ghost pk = srcinfo_packages(content@);
    let mut out: Vec<SrcinfoPackage> = Vec::new();
    let mut j: usize = 0;
    while j < pkgs.len()
        invariant
            j <= pkgs@.len(),
            base@.len() == 7,
            forall|q: int| 0 <= q < pkgs@.len() ==> (#[trigger] pkgs@[q]).1@.len() == 7,
            pk == pv(pkgs@).map_values(
                |p: (Seq<char>, Seq<Seq<Seq<char>>>)| (p.0, merge_fields(p.1, fv(base@))),
            ),
            out@.len() == j,
            forall|q: int|
                0 <= q < j ==> (#[trigger] out@[q]).name@ == pk[q].0 && package_fields(out@[q])
                    == pk[q].1,
        decreases pkgs@.len() - j,
    {
        let pkg = make_package(&pkgs[j].0, &pkgs[j].1, &base);
        assert(pv(pkgs@)[j as int] == (pkgs@[j as int].0@, fv(pkgs@[j as int].1@)));
        out.push(pkg);
        j += 1;
    }
    out
}

/// Parses package-base header fields and split packages of `.SRCINFO` content.
pub fn parse_srcinfo_graph(content: &str) -> (r: GraphSrcinfoData)
    ensures
        graph_data_matches(r, content@),
{
    let v = to_chars(content);
    let ls = split_lines(v.as_slice());
    let packages = parse_srcinfo_packages(content);
    let pkgbase = first_nonempty_chars(&ls, "pkgbase");
    let epoch = first_nonempty_chars(&ls, "epoch");
    let pkgver = first_nonempty_chars(&ls, "pkgver");
    let pkgrel = first_nonempty_chars(&ls, "pkgrel");
    GraphSrcinfoData {
        pkgbase: chars_to_string(pkgbase.as_slice()),
        epoch: chars_to_string(epoch.as_slice()),
        pkgver: chars_to_string(pkgver.as_slice()),
        pkgrel: chars_to_string(pkgrel.as_slice()),
        packages,
    }
}

/// Largest `.SRCINFO` response accepted, in bytes.
pub const MAX_AUR_SRCINFO_RESPONSE_BYTES: usize = 10485760;

/// Address of the `.SRCINFO` of an AUR package.
pub fn srcinfo_url(name: &str) -> (r: String)
    ensures
        r@ == "https://aur.archlinux.org/cgit/aur.git/plain/.SRCINFO?h="@
            + crate::aur::utils::percent_encoded(vstd::utf8::encode_utf8(name@)),
{
    let mut v = crate::text::to_chars("https://aur.archlinux.org/cgit/aur.git/plain/.SRCINFO?h=");
    let e = crate::aur::utils::percent_encode(name);
    let ec = crate::text::to_chars(e.as_str());
    crate::text::extend_chars(&mut v, ec.as_slice());
    crate::text::chars_to_string(v.as_slice())
}

/// `'` + `name` + `'` after `prefix`, then `suffix`.
fn quoted(prefix: &str, name: &str, suffix: &str) -> (r: String)
    ensures
        r@ == prefix@ + "'"@ + name@ + "'"@ + suffix@,
{
    let mut v = crate::text::to_chars(prefix);
    v.push('\'');
    let n = crate::text::to_chars(name);
    crate::text::extend_chars(&mut v, n.as_slice());
    v.push('\'');
    let t = crate::text::to_chars(suffix);
    crate::text::extend_chars(&mut v, t.as_slice());
    proof {
        reveal_strlit("'");
    }
    assert(v@ =~= prefix@ + "'"@ + name@ + "'"@ + suffix@);
    crate::text::chars_to_string(v.as_slice())
}

/// Why a downloaded `.SRCINFO` of package `name` is refused: it is blank; it is an HTML page
/// (starting, after whitespace, with `<html` or `<!DOCTYPE`); or it has neither `pkgbase =`
/// nor `pkgname =`.
pub fn check_srcinfo_text(name: &str, text: &str) -> (r: Result<(), crate::error::ArchToolkitError>)
    ensures
        crate::text::trim(text@).len() == 0 ==> (r matches Err(
            crate::error::ArchToolkitError::EmptyInput { field, message },
        ) && field@ == "AUR .SRCINFO response for package "@ + "'"@ + name@ + "'"@ && message@
            == "response body was empty"@),
        crate::text::trim(text@).len() > 0 && (crate::text::starts_with(
            crate::text::trim_start(text@),
            "<html"@,
        ) || crate::text::starts_with(crate::text::trim_start(text@), "<!DOCTYPE"@)) ==> (r matches Err(
            crate::error::ArchToolkitError::Parse(m),
        ) && m@ == "AUR .SRCINFO fetch for package "@ + "'"@ + name@ + "'"@
            + " received an HTML error page"@),
        crate::text::trim(text@).len() > 0 && !crate::text::starts_with(
            crate::text::trim_start(text@),
            "<html"@,
        ) && !crate::text::starts_with(crate::text::trim_start(text@), "<!DOCTYPE"@) ==> (if !crate::text::contains(
            text@,
            "pkgbase ="@,
        ) && !crate::text::contains(text@, "pkgname ="@) {
            r matches Err(crate::error::ArchToolkitError::Parse(m)) && m@
                == "AUR .SRCINFO response for package "@ + "'"@ + name@ + "'"@
                + " is not valid .SRCINFO format"@
        } else {
            r is Ok
        }),
{
    let t = crate::text::trim_str(text);
    if t.is_empty() {
        proof {
            reveal_strlit("");
        }
        assert(("AUR .SRCINFO response for package "@ + "'"@ + name@ + "'"@ + ""@) =~= (
        "AUR .SRCINFO response for package "@ + "'"@ + name@ + "'"@));
        return Err(
            crate::error::ArchToolkitError::EmptyInput {
                field: quoted("AUR .SRCINFO response for package ", name, ""),
                message: "response body was empty".to_owned(),
            },
        );
    }
    let tc = crate::text::to_chars(text);
    let ts = crate::text::trim_start_chars(tc.as_slice());
    if crate::text::starts_with_str(ts.as_slice(), "<html") || crate::text::starts_with_str(
        ts.as_slice(),
        "<!DOCTYPE",
    ) {
        return Err(
            crate::error::ArchToolkitError::Parse(
                quoted("AUR .SRCINFO fetch for package ", name, " received an HTML error page"),
            ),
        );
    }
    if !crate::text::contains_str(tc.as_slice(), "pkgbase =") && !crate::text::contains_str(
        tc.as_slice(),
        "pkgname =",
    ) {
        return Err(
            crate::error::ArchToolkitError::Parse(
                quoted(
                    "AUR .SRCINFO response for package ",
                    name,
                    " is not valid .SRCINFO format",
                ),
            ),
        );
    }
    Ok(())
}

} // verus!
