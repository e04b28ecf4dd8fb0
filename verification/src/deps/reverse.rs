//! Reverse dependencies: which installed packages depend, directly or through others, on
//! packages about to be removed.
//!
//! Package records come from `pacman -Qi` output, read by [`pkg_info_from_output`]; the
//! analyzer walks the `Required By` relation of those records.
use crate::deps::query::opt_view;
use crate::deps::source::source_view;
use crate::error::{decimal, decimal_chars};
use crate::text::{
    chars_eq_ignore_ascii_case, chars_eq_str, chars_to_string, contains, contains_str, dedup,
    ends_with, eq_ignore_ascii_case, extend_chars, join_sep, join_sep_chars, lex_leq, lines,
    lower_chars, lowercase, push_unique, sort_by_key, sort_chars_vec, split_lines, split_once,
    split_once_chars, split_ws, split_ws_chars, strings_to_chars, sv, to_chars, to_strings, trim,
    trim_chars, vv, keys_of, lex_order, Order,
};
use crate::types::{
    Dependency, DependencySource, DependencyStatus, PackageRef, ReverseDependencyReport,
    ReverseDependencySummary,
};
use vstd::prelude::*;
use vstd::relations::sorted_by;

verus! {

// ---------------------------------------------------------------------------------------------
// Package records
// ---------------------------------------------------------------------------------------------

/// Fields of `pacman -Qi` output as (key, value) pairs, each key once.
pub type Fields = Seq<(Seq<char>, Seq<char>)>;

/// Index of the pair with key `k` at or after `i`.
pub open spec fn field_index(m: Fields, k: Seq<char>, i: int) -> Option<int>
    decreases m.len() - i,
{
    if i < 0 || i >= m.len() {
        None
    } else if m[i].0 == k {
        Some(i)
    } else {
        field_index(m, k, i + 1)
    }
}

/// Value of key `k`.
pub open spec fn field_value(m: Fields, k: Seq<char>) -> Option<Seq<char>> {
    match field_index(m, k, 0) {
        Some(i) => Some(m[i].1),
        None => None,
    }
}

/// `m` with key `k` set to `v` (replacing its value, or added at the end).
pub open spec fn field_set(m: Fields, k: Seq<char>, v: Seq<char>) -> Fields {
    match field_index(m, k, 0) {
        Some(i) => m.update(i, (k, v)),
        None => m.push((k, v)),
    }
}

/// One output line: `key: value` sets a field (keys and values trimmed); an indented line
/// without colon continues the last field, joined with one space; blank lines are skipped.
pub open spec fn fields_step(st: (Fields, Option<Seq<char>>), line: Seq<char>) -> (
    Fields,
    Option<Seq<char>>,
) {
    if trim(line).len() == 0 {
        st
    } else {
        match split_once(line, ':') {
            Some((k, v)) => (field_set(st.0, trim(k), trim(v)), Some(trim(k))),
            None => if line.len() > 0 && (line[0] == ' ' || line[0] == '\t') && st.1 is Some {
                let key = st.1->0;
                let cur = match field_value(st.0, key) {
                    Some(e) => e,
                    None => seq![],
                };
                let sep = if ends_with(cur, " "@) {
                    cur
                } else {
                    cur.push(' ')
                };
                (field_set(st.0, key, sep + trim(line)), st.1)
            } else {
                st
            },
        }
    }
}

/// Fields read from the lines `ls`.
pub open spec fn fields_scan(ls: Seq<Seq<char>>) -> (Fields, Option<Seq<char>>)
    decreases ls.len(),
{
    if ls.len() == 0 {
        (seq![], None)
    } else {
        fields_step(fields_scan(ls.drop_last()), ls.last())
    }
}

/// Fields of query output.
pub open spec fn output_fields(text: Seq<char>) -> Fields {
    fields_scan(lines(text)).0
}

/// Words of a list field; none for a missing field, a blank one, or `None` (in any case).
pub open spec fn ws_or_none(field: Option<Seq<char>>) -> Seq<Seq<char>> {
    match field {
        None => seq![],
        Some(v) => {
            let t = trim(v);
            if t.len() == 0 || eq_ignore_ascii_case(t, "none"@) {
                seq![]
            } else {
                split_ws(t)
            }
        },
    }
}

/// What the reverse-dependency walk knows of an installed package.
#[derive(Clone, Debug)]
pub struct PkgInfo {
    /// Package name.
    pub name: String,
    /// Installed version.
    pub version: String,
    /// Repository it came from, when known.
    pub repo: Option<String>,
    /// Package groups.
    pub groups: Vec<String>,
    /// Installed packages that depend on it.
    pub required_by: Vec<String>,
    /// Whether it was installed explicitly.
    pub explicit: bool,
}

/// Views of field pairs.
pub open spec fn fields_view(v: Seq<(Vec<char>, Vec<char>)>) -> Fields {
    v.map_values(|p: (Vec<char>, Vec<char>)| (p.0@, p.1@))
}

/// Views of string pairs.
pub open spec fn pairs_view(v: Seq<(String, String)>) -> Fields {
    v.map_values(|p: (String, String)| (p.0@, p.1@))
}

/// Index of key `k` in `m`.
fn field_index_chars(m: &Vec<(Vec<char>, Vec<char>)>, k: &[char]) -> (r: Option<usize>)
    ensures
        match r {
            Some(i) => field_index(fields_view(m@), k@, 0) == Some(i as int) && i < m@.len(),
            None => field_index(fields_view(m@), k@, 0) is None,
        },
{
    let mut i: usize = 0;
    while i < m.len()
        invariant
            i <= m@.len(),
            field_index(fields_view(m@), k@, 0) == field_index(fields_view(m@), k@, i as int),
        decreases m@.len() - i,
    {
        if crate::text::chars_eq(m[i].0.as_slice(), k) {
            return Some(i);
        }
        i += 1;
    }
    None
}

/// Sets key `k` to `v`.
fn field_set_chars(m: &mut Vec<(Vec<char>, Vec<char>)>, k: Vec<char>, v: Vec<char>)
    ensures
        fields_view(final(m)@) == field_set(fields_view(old(m)@), k@, v@),
{
    let ghost kv = k@;
    let ghost vv2 = v@;
    match field_index_chars(m, k.as_slice()) {
        Some(i) => {
            m.set(i, (k, v));
            assert(fields_view(m@) =~= fields_view(old(m)@).update(i as int, (kv, vv2)));
        },
        None => {
            m.push((k, v));
            assert(fields_view(m@) =~= fields_view(old(m)@).push((kv, vv2)));
        },
    }
}

/// Reads the fields of `pacman -Qi` output; continuation lines extend the previous field.
fn output_fields_chars(text: &str) -> (r: Vec<(Vec<char>, Vec<char>)>)
    ensures
        fields_view(r@) == output_fields(text@),
{
    let t = to_chars(text);
    let ls = split_lines(t.as_slice());
    let ghost l = vv(ls@);
    let mut m: Vec<(Vec<char>, Vec<char>)> = Vec::new();
    let mut last: Option<Vec<char>> = None;
    let mut i: usize = 0;
    assert(l.take(0) =~= Seq::<Seq<char>>::empty());
    assert(fields_view(m@) =~= Seq::<(Seq<char>, Seq<char>)>::empty());
    while i < ls.len()
        invariant
            i <= ls@.len(),
            l == vv(ls@),
            (fields_view(m@), opt_chars(last)) == fields_scan(l.take(i as int)),
        decreases ls@.len() - i,
    {
        assert(l.take(i + 1).drop_last() =~= l.take(i as int));
        assert(l[i as int] == ls@[i as int]@);
        let line = ls[i].as_slice();
        let tl = trim_chars(line);
        let ghost prev = (fields_view(m@), opt_chars(last));
        assert(prev == fields_scan(l.take(i as int)));
        if tl.len() > 0 {
            match split_once_chars(line, ':') {
                Some((k, v)) => {
                    let key = trim_chars(k.as_slice());
                    let val = trim_chars(v.as_slice());
                    let key2 = trim_chars(k.as_slice());
                    field_set_chars(&mut m, key, val);
                    last = Some(key2);
                    assert((fields_view(m@), opt_chars(last)) == fields_step(prev, line@));
                },
                None => {
                    if line.len() > 0 && (line[0] == ' ' || line[0] == '\t') {
                        match &last {
                            Some(key) => {
                                let cur = match field_index_chars(&m, key.as_slice()) {
                                    Some(j) => crate::text::slice_chars(
                                        m[j].1.as_slice(),
                                        0,
                                        m[j].1.len(),
                                    ),
                                    None => Vec::new(),
                                };
                                assert(cur@ == (match field_value(fields_view(m@), key@) {
                                    Some(e) => e,
                                    None => seq![],
                                }));
                                let mut next = cur;
                                if !crate::text::ends_with_str(next.as_slice(), " ") {
                                    next.push(' ');
                                }
                                extend_chars(&mut next, tl.as_slice());
                                let k2 = crate::text::slice_chars(key.as_slice(), 0, key.len());
                                assert(k2@ == key@);
                                field_set_chars(&mut m, k2, next);
                                assert(fields_view(m@) == fields_step(prev, line@).0);
                            },
                            None => {},
                        }
                    }
                },
            }
        }
        i += 1;
    }
    assert(l.take(ls@.len() as int) =~= l);
    m
}

/// View of an optional character vector.
pub open spec fn opt_chars(o: Option<Vec<char>>) -> Option<Seq<char>> {
    match o {
        Some(v) => Some(v@),
        None => None,
    }
}

/// Fields of `pacman -Qi` output, each key once with its (possibly continued) value.
pub fn parse_key_value_output(text: &str) -> (r: Vec<(String, String)>)
    ensures
        pairs_view(r@) == output_fields(text@),
{
    let m = output_fields_chars(text);
    let mut out: Vec<(String, String)> = Vec::new();
    let mut i: usize = 0;
    while i < m.len()
        invariant
            i <= m@.len(),
            pairs_view(out@) == fields_view(m@).take(i as int),
        decreases m@.len() - i,
    {
        let a = chars_to_string(m[i].0.as_slice());
        let b = chars_to_string(m[i].1.as_slice());
        let ghost before = pairs_view(out@);
        out.push((a, b));
        assert(pairs_view(out@) =~= before.push((m@[i as int].0@, m@[i as int].1@)));
        assert(fields_view(m@).take(i + 1) =~= fields_view(m@).take(i as int).push(
            (m@[i as int].0@, m@[i as int].1@),
        ));
        i += 1;
    }
    assert(fields_view(m@).take(m@.len() as int) =~= fields_view(m@));
    out
}

/// Value of a field read by [`parse_key_value_output`].
pub fn field_get<'a>(fields: &'a Vec<(String, String)>, key: &str) -> (r: Option<&'a String>)
    ensures
        match r {
            Some(v) => field_value(pairs_view(fields@), key@) == Some(v@),
            None => field_value(pairs_view(fields@), key@) is None,
        },
{
    let mut i: usize = 0;
    while i < fields.len()
        invariant
            i <= fields@.len(),
            field_index(pairs_view(fields@), key@, 0) == field_index(
                pairs_view(fields@),
                key@,
                i as int,
            ),
        decreases fields@.len() - i,
    {
        if crate::text::str_eq(fields[i].0.as_str(), key) {
            return Some(&fields[i].1);
        }
        i += 1;
    }
    None
}

/// Words of a list field; none for a missing field, a blank one, or `None` (in any case).
pub fn split_ws_or_none(field: Option<&String>) -> (r: Vec<String>)
    ensures
        sv(r@) == ws_or_none(
            match field {
                Some(v) => Some(v@),
                None => None,
            },
        ),
{
    match field {
        None => Vec::new(),
        Some(v) => {
            let c = to_chars(v.as_str());
            let t = trim_chars(c.as_slice());
            let none = to_chars("none");
            if t.len() == 0 || chars_eq_ignore_ascii_case(t.as_slice(), none.as_slice()) {
                Vec::new()
            } else {
                let w = split_ws_chars(t.as_slice());
                to_strings(&w)
            }
        },
    }
}

/// Value of a field, or empty.
fn field_or_empty(fields: &Vec<(String, String)>, key: &str) -> (r: String)
    ensures
        r@ == (match field_value(pairs_view(fields@), key@) {
            Some(v) => v,
            None => seq![],
        }),
{
    match field_get(fields, key) {
        Some(v) => v.clone(),
        None => String::new(),
    }
}

/// The package record described by `pacman -Qi <name>` output: its `Name` (else `name`),
/// `Version`, `Repository`, `Groups` and `Required By` fields, and whether its `Install Reason`
/// mentions `explicit` (in any case).
pub fn pkg_info_from_output(name: &str, text: &str) -> (r: PkgInfo)
    ensures
        ({
            let m = output_fields(text@);
            &&& r.name@ == (match field_value(m, "Name"@) {
                Some(v) => v,
                None => name@,
            })
            &&& r.version@ == (match field_value(m, "Version"@) {
                Some(v) => v,
                None => seq![],
            })
            &&& opt_view(r.repo) == field_value(m, "Repository"@)
            &&& sv(r.groups@) == ws_or_none(field_value(m, "Groups"@))
            &&& sv(r.required_by@) == ws_or_none(field_value(m, "Required By"@))
            &&& r.explicit == contains(
                lowercase(
                    match field_value(m, "Install Reason"@) {
                        Some(v) => v,
                        None => seq![],
                    },
                ),
                "explicit"@,
            )
        }),
{
    let map = parse_key_value_output(text);
    let required_by = split_ws_or_none(field_get(&map, "Required By"));
    let groups = split_ws_or_none(field_get(&map, "Groups"));
    let version = field_or_empty(&map, "Version");
    let repo = match field_get(&map, "Repository") {
        Some(v) => Some(v.clone()),
        None => None,
    };
    let reason = field_or_empty(&map, "Install Reason");
    let rc = to_chars(reason.as_str());
    let lo = lower_chars(rc.as_slice());
    let explicit = contains_str(lo.as_slice(), "explicit");
    let pname = match field_get(&map, "Name") {
        Some(v) => v.clone(),
        None => name.to_owned(),
    };
    PkgInfo { name: pname, version, repo, groups, required_by, explicit }
}

// ---------------------------------------------------------------------------------------------
// Relations to removal targets
// ---------------------------------------------------------------------------------------------

/// How a dependent relates to one removal target: the packages through which it depends on the
/// target, and the length of its shortest dependency path to it.
#[derive(Clone, Debug)]
pub struct RootRelation {
    /// Parents on the dependency paths, each once.
    pub parents: Vec<String>,
    /// Shortest path length seen (`usize::MAX` before any).
    pub min_depth: usize,
}

impl RootRelation {
    /// No parent, no depth yet.
    pub fn new() -> (r: RootRelation)
        ensures
            r.parents@.len() == 0,
            r.min_depth == usize::MAX,
    {
        RootRelation { parents: Vec::new(), min_depth: usize::MAX }
    }

    /// Records a path through `parent` (ignored when empty) of length `depth`.
    pub fn record(&mut self, parent: &str, depth: usize)
        ensures
            sv(final(self).parents@) == (if parent@.len() == 0 || sv(old(self).parents@).contains(
                parent@,
            ) {
                sv(old(self).parents@)
            } else {
                sv(old(self).parents@).push(parent@)
            }),
            final(self).min_depth == (if depth < old(self).min_depth {
                depth
            } else {
                old(self).min_depth
            }),
    {
        if !parent.is_empty() {
            if !crate::deps::query::names_contain(&self.parents, parent) {
                let ghost before = sv(self.parents@);
                self.parents.push(parent.to_owned());
                assert(sv(self.parents@) =~= before.push(parent@));
            }
        }
        if depth < self.min_depth {
            self.min_depth = depth;
        }
    }

    /// Shortest path length seen.
    pub fn min_depth(&self) -> (r: usize)
        ensures
            r == self.min_depth,
    {
        self.min_depth
    }
}

/// What is known of a dependent: its record, its relation to each target, and whether it is
/// itself a removal target.
#[derive(Clone, Debug)]
pub struct AggregatedEntry {
    /// Its package record.
    pub info: PkgInfo,
    /// Relation to each target that reaches it.
    pub per_root: Vec<(String, RootRelation)>,
    /// Whether it is one of the removal targets.
    pub selected_for_removal: bool,
}

/// Explanation of one target relation: `requires <root>` at depth at most 1, otherwise
/// `blocks <root> (depth <d> via <parents>)` with the parents in order (or `unknown`).
pub open spec fn root_reason(root: Seq<char>, parents: Seq<Seq<char>>, depth: usize) -> Seq<char> {
    if depth <= 1 {
        "requires "@ + root
    } else {
        "blocks "@ + root + " (depth "@ + decimal(depth as nat) + " via "@ + (if parents.len() == 0 {
            "unknown"@
        } else {
            join_sep(parents.sort_by(lex_leq()), ", "@)
        }) + ")"@
    }
}

/// Target relations as (target, parents, depth).
pub open spec fn relations_view(per_root: Seq<(String, RootRelation)>) -> Seq<
    (Seq<char>, Seq<Seq<char>>, usize),
> {
    per_root.map_values(|p: (String, RootRelation)| (p.0@, sv(p.1.parents@), p.1.min_depth))
}

/// Explanations of a dependent: one per target relation, then `already selected for removal`
/// and `explicitly installed` when they hold.
pub open spec fn reason_parts(
    rels: Seq<(Seq<char>, Seq<Seq<char>>, usize)>,
    selected: bool,
    explicit: bool,
) -> Seq<Seq<char>> {
    rels.map_values(|r: (Seq<char>, Seq<Seq<char>>, usize)| root_reason(r.0, r.1, r.2)) + (if selected {
        seq!["already selected for removal"@]
    } else {
        seq![]
    }) + (if explicit {
        seq!["explicitly installed"@]
    } else {
        seq![]
    })
}

/// The conflict reason of a dependent: its explanations in order joined with `; `, or
/// `required by removal targets` without any.
pub open spec fn entry_reason(rels: Seq<(Seq<char>, Seq<Seq<char>>, usize)>, selected: bool, explicit: bool) -> Seq<char> {
    let parts = reason_parts(rels, selected, explicit).sort_by(lex_leq());
    if parts.len() == 0 {
        "required by removal targets"@
    } else {
        join_sep(parts, "; "@)
    }
}

/// All parents of the relations, in order, each once.
pub open spec fn all_parents(rels: Seq<(Seq<char>, Seq<Seq<char>>, usize)>) -> Seq<Seq<char>>
    decreases rels.len(),
{
    if rels.len() == 0 {
        seq![]
    } else {
        all_parents(rels.drop_last()) + rels.last().1
    }
}

/// Source of a dependent: local without repository, for `local` (in any case) or an empty one;
/// otherwise that repository.
pub open spec fn repo_source(repo: Option<Seq<char>>) -> (int, Seq<char>) {
    match repo {
        Some(r) => if eq_ignore_ascii_case(r, "local"@) || r.len() == 0 {
            (2, Seq::empty())
        } else {
            (0, r)
        },
        None => (2, Seq::empty()),
    }
}

/// Explanations of the relations.
fn relation_reasons(per_root: &Vec<(String, RootRelation)>) -> (r: Vec<Vec<char>>)
    ensures
        vv(r@) == relations_view(per_root@).map_values(
            |x: (Seq<char>, Seq<Seq<char>>, usize)| root_reason(x.0, x.1, x.2),
        ),
{
    let ghost rels = relations_view(per_root@);
    let ghost target = rels.map_values(
        |x: (Seq<char>, Seq<Seq<char>>, usize)| root_reason(x.0, x.1, x.2),
    );
    let mut out: Vec<Vec<char>> = Vec::new();
    let mut i: usize = 0;
    while i < per_root.len()
        invariant
            i <= per_root@.len(),
            rels == relations_view(per_root@),
            target == rels.map_values(
                |x: (Seq<char>, Seq<Seq<char>>, usize)| root_reason(x.0, x.1, x.2),
            ),
            vv(out@) == target.take(i as int),
        decreases per_root@.len() - i,
    {
        let root = to_chars(per_root[i].0.as_str());
        let rel = &per_root[i].1;
        let depth = rel.min_depth;
        let mut part: Vec<char>;
        if depth <= 1 {
            part = to_chars("requires ");
            extend_chars(&mut part, root.as_slice());
        } else {
            part = to_chars("blocks ");
            extend_chars(&mut part, root.as_slice());
            let s1 = to_chars(" (depth ");
            extend_chars(&mut part, s1.as_slice());
            let d = decimal_chars(depth as u64);
            extend_chars(&mut part, d.as_slice());
            let s2 = to_chars(" via ");
            extend_chars(&mut part, s2.as_slice());
            if rel.parents.len() == 0 {
                let u = to_chars("unknown");
                extend_chars(&mut part, u.as_slice());
            } else {
                let pc = strings_to_chars(&rel.parents);
                let sorted = sort_chars_vec(&pc);
                let j = join_sep_chars(&sorted, ", ");
                extend_chars(&mut part, j.as_slice());
            }
            let s3 = to_chars(")");
            extend_chars(&mut part, s3.as_slice());
        }
        assert(part@ == target[i as int]);
        let ghost before = vv(out@);
        out.push(part);
        assert(vv(out@) =~= before.push(target[i as int]));
        assert(target.take(i + 1) =~= target.take(i as int).push(target[i as int]));
        i += 1;
    }
    assert(target.take(per_root@.len() as int) =~= target);
    out
}

/// The dependency record of a dependent (a conflict, since removing the targets breaks it):
/// its name (else `name`), the targets it relates to in order, all its parents in order, the
/// reason, its source, whether it comes from `core` and whether it belongs to `base` or
/// `base-devel`.
#[verifier::spinoff_prover]
#[verifier::rlimit(40)]
pub fn convert_entry(name: String, entry: AggregatedEntry) -> (r: Dependency)
    ensures
        ({
            let rels = relations_view(entry.per_root@);
            &&& r.name@ == (if entry.info.name@.len() == 0 {
                name@
            } else {
                entry.info.name@
            })
            &&& r.version_req@.len() == 0
            &&& r.status matches DependencyStatus::Conflict { reason } && reason@ == entry_reason(
                rels,
                entry.selected_for_removal,
                entry.info.explicit,
            )
            &&& source_view(r.source) == repo_source(opt_view(entry.info.repo))
            &&& sv(r.required_by@) == rels.map_values(
                |x: (Seq<char>, Seq<Seq<char>>, usize)| x.0,
            ).sort_by(lex_leq())
            &&& sv(r.depends_on@) == dedup(all_parents(rels)).sort_by(lex_leq())
            &&& r.is_core == (match opt_view(entry.info.repo) {
                Some(x) => eq_ignore_ascii_case(x, "core"@),
                None => false,
            })
            &&& r.is_system == (sv(entry.info.groups@).contains("base"@) || sv(
                entry.info.groups@,
            ).contains("base-devel"@))
        }),
{
    let ghost rels = relations_view(entry.per_root@);
    // Targets, in order.
    let mut roots: Vec<Vec<char>> = Vec::new();
    let mut parents: Vec<Vec<char>> = Vec::new();
    let mut i: usize = 0;
    let ghost root_names = rels.map_values(|x: (Seq<char>, Seq<Seq<char>>, usize)| x.0);
    assert(rels.take(0) =~= Seq::<(Seq<char>, Seq<Seq<char>>, usize)>::empty());
    assert(vv(parents@) =~= dedup(all_parents(rels.take(0))));
    while i < entry.per_root.len()
        invariant
            i <= entry.per_root@.len(),
            rels == relations_view(entry.per_root@),
            root_names == rels.map_values(|x: (Seq<char>, Seq<Seq<char>>, usize)| x.0),
            vv(roots@) == root_names.take(i as int),
            vv(parents@) == dedup(all_parents(rels.take(i as int))),
        decreases entry.per_root@.len() - i,
    {
        let c = to_chars(entry.per_root[i].0.as_str());
        let ghost before = vv(roots@);
        roots.push(c);
        assert(vv(roots@) =~= before.push(root_names[i as int]));
        assert(root_names.take(i + 1) =~= root_names.take(i as int).push(root_names[i as int]));
        let ps = &entry.per_root[i].1.parents;
        let ghost base = all_parents(rels.take(i as int));
        let mut k: usize = 0;
        assert(base + sv(ps@).take(0) =~= base);
        while k < ps.len()
            invariant
                k <= ps@.len(),
                vv(parents@) == dedup(base + sv(ps@).take(k as int)),
            decreases ps@.len() - k,
        {
            let pc = to_chars(ps[k].as_str());
            crate::text::push_unique(&mut parents, pc);
            assert((base + sv(ps@).take(k + 1)).drop_last() =~= base + sv(ps@).take(k as int));
            k += 1;
        }
        assert(rels.take(i + 1).drop_last() =~= rels.take(i as int));
        assert(base + sv(ps@).take(ps@.len() as int) =~= all_parents(rels.take(i + 1)));
        i += 1;
    }
    assert(root_names.take(entry.per_root@.len() as int) =~= root_names);
    assert(rels.take(entry.per_root@.len() as int) =~= rels);
    let sorted_roots = sort_chars_vec(&roots);
    let sorted_parents = sort_chars_vec(&parents);
    // Reason.
    let mut parts = relation_reasons(&entry.per_root);
    let ghost p0 = vv(parts@);
    if entry.selected_for_removal {
        parts.push(to_chars("already selected for removal"));
    }
    let ghost p1 = vv(parts@);
    if entry.info.explicit {
        parts.push(to_chars("explicitly installed"));
    }
    assert(vv(parts@) =~= reason_parts(rels, entry.selected_for_removal, entry.info.explicit));
    let sorted_parts = sort_chars_vec(&parts);
    let reason_chars = if sorted_parts.len() == 0 {
        to_chars("required by removal targets")
    } else {
        join_sep_chars(&sorted_parts, "; ")
    };
    let reason = chars_to_string(reason_chars.as_slice());
    // Source and flags.
    let (source, is_core) = match &entry.info.repo {
        Some(r) => {
            let rc = to_chars(r.as_str());
            let local = to_chars("local");
            let core = to_chars("core");
            let c = chars_eq_ignore_ascii_case(rc.as_slice(), core.as_slice());
            if chars_eq_ignore_ascii_case(rc.as_slice(), local.as_slice()) || rc.len() == 0 {
                (DependencySource::Local, c)
            } else {
                (DependencySource::Official { repo: r.clone() }, c)
            }
        },
        None => (DependencySource::Local, false),
    };
    let is_system = crate::deps::query::names_contain(&entry.info.groups, "base")
        || crate::deps::query::names_contain(&entry.info.groups, "base-devel");
    let display = if entry.info.name.as_str().is_empty() {
        name
    } else {
        entry.info.name
    };
    Dependency {
        name: display,
        version_req: String::new(),
        status: DependencyStatus::Conflict { reason },
        source,
        required_by: to_strings(&sorted_roots),
        depends_on: to_strings(&sorted_parents),
        is_core,
        is_system,
    }
}

} // verus!

verus! {

// ---------------------------------------------------------------------------------------------
// The walk over installed packages
// ---------------------------------------------------------------------------------------------

/// View of a package record: name, version, repository, groups, dependents, explicit flag.
pub type InfoView = (Seq<char>, Seq<char>, Option<Seq<char>>, Seq<Seq<char>>, Seq<Seq<char>>, bool);

/// View of a package record.
pub open spec fn info_view(i: PkgInfo) -> InfoView {
    (i.name@, i.version@, opt_view(i.repo), sv(i.groups@), sv(i.required_by@), i.explicit)
}

/// View of a target relation: parents and shortest depth.
pub type RelView = (Seq<Seq<char>>, usize);

/// View of the relations of an entry, by target.
pub type RootsView = Seq<(Seq<char>, RelView)>;

/// View of the aggregated entries: dependent name, record, relations, selection flag.
pub type AggView = Seq<(Seq<char>, (InfoView, RootsView, bool))>;

/// View of relations by target.
pub open spec fn roots_view(p: Seq<(String, RootRelation)>) -> RootsView {
    p.map_values(|x: (String, RootRelation)| (x.0@, (sv(x.1.parents@), x.1.min_depth)))
}

/// View of aggregated entries.
pub open spec fn agg_view(a: Seq<(String, AggregatedEntry)>) -> AggView {
    a.map_values(
        |x: (String, AggregatedEntry)|
            (x.0@, (info_view(x.1.info), roots_view(x.1.per_root@), x.1.selected_for_removal)),
    )
}

/// Index of the first element of `s` whose key is `k`, at or after `i`.
pub open spec fn key_index<V>(s: Seq<(Seq<char>, V)>, k: Seq<char>, i: int) -> Option<int>
    decreases s.len() - i,
{
    if i < 0 || i >= s.len() {
        None
    } else if s[i].0 == k {
        Some(i)
    } else {
        key_index(s, k, i + 1)
    }
}

/// Record of the installed package named `name`.
pub open spec fn db_lookup(db: Seq<InfoView>, name: Seq<char>, i: int) -> Option<InfoView>
    decreases db.len() - i,
{
    if i < 0 || i >= db.len() {
        None
    } else if db[i].0 == name {
        Some(db[i])
    } else {
        db_lookup(db, name, i + 1)
    }
}

/// A relation after recording a path through `parent` of length `depth`.
pub open spec fn rel_record(r: RelView, parent: Seq<char>, depth: usize) -> RelView {
    (
        if parent.len() == 0 || r.0.contains(parent) {
            r.0
        } else {
            r.0.push(parent)
        },
        if depth < r.1 {
            depth
        } else {
            r.1
        },
    )
}

/// Relations after recording, for target `root`, a path through `parent` of length `depth`.
pub open spec fn roots_record(p: RootsView, root: Seq<char>, parent: Seq<char>, depth: usize) -> RootsView {
    match key_index(p, root, 0) {
        Some(i) => p.update(i, (root, rel_record(p[i].1, parent, depth))),
        None => p.push((root, rel_record((seq![], usize::MAX), parent, depth))),
    }
}

/// Aggregated entries after `dependent` was reached from `parent` at depth `depth` while
/// walking from target `root`: nothing changes for the target itself (in any case) or for a
/// package without record; otherwise the dependent's entry takes the current record, is marked
/// selected when it is a target, and records the path for `root`.
pub open spec fn agg_update(
    agg: AggView,
    db: Seq<InfoView>,
    targets: Seq<Seq<char>>,
    dependent: Seq<char>,
    parent: Seq<char>,
    root: Seq<char>,
    depth: usize,
) -> AggView {
    if eq_ignore_ascii_case(dependent, root) {
        agg
    } else {
        match db_lookup(db, dependent, 0) {
            None => agg,
            Some(info) => {
                let selected = targets.contains(dependent);
                match key_index(agg, dependent, 0) {
                    Some(i) => agg.update(
                        i,
                        (
                            dependent,
                            (
                                info,
                                roots_record(agg[i].1.1, root, parent, depth),
                                agg[i].1.2 || selected,
                            ),
                        ),
                    ),
                    None => agg.push(
                        (
                            dependent,
                            (info, roots_record(seq![], root, parent, depth), selected),
                        ),
                    ),
                }
            },
        }
    }
}

/// Whether an aggregated view has an entry for `k`.
pub open spec fn has_key(agg: AggView, k: Seq<char>) -> bool {
    exists|i: int| 0 <= i < agg.len() && #[trigger] agg[i].0 == k
}

/// Whether each entry holds the record named like the entry.
pub open spec fn agg_named(agg: AggView) -> bool {
    forall|i: int|
        #![trigger agg[i]]
        0 <= i < agg.len() ==> {
            let (key, (info, _rels, _selected)) = agg[i];
            info.0 == key
        }
}

/// Whether the record of installed package `a` names `b` (not empty) among the packages that
/// require it.
pub open spec fn required_by_edge(db: Seq<InfoView>, a: Seq<char>, b: Seq<char>) -> bool {
    b.len() > 0 && match db_lookup(db, a, 0) {
        Some(i) => i.4.contains(b),
        None => false,
    }
}

/// Whether each package of `path` is named, in the record of the one before it, among the
/// packages that require it.
pub open spec fn is_chain(db: Seq<InfoView>, path: Seq<Seq<char>>) -> bool {
    forall|i: int, j: int|
        #![trigger path[i], path[j]]
        0 <= i && j == i + 1 && j < path.len() ==> required_by_edge(db, path[i], path[j])
}

/// Whether `d` depends, directly or through others, on `root`: a chain of `Required By` lists
/// leads from `root` to `d` (`d` is `root` itself when the chain has one package).
pub open spec fn depends_on(db: Seq<InfoView>, root: Seq<char>, d: Seq<char>) -> bool {
    exists|path: Seq<Seq<char>>|
        #[trigger] is_chain(db, path) && path.len() > 0 && path[0] == root && path.last() == d
}

/// Whether `d` blocks the removal of `root`: an installed package, other than `root` (in any
/// letter case), that depends on it.
pub open spec fn blocking(db: Seq<InfoView>, root: Seq<char>, d: Seq<char>) -> bool {
    depends_on(db, root, d) && db_lookup(db, d, 0) is Some && !eq_ignore_ascii_case(d, root)
}

/// Lemma: a record found by name carries that name.
proof fn lemma_db_lookup_named(db: Seq<InfoView>, name: Seq<char>, i: int)
    requires
        db_lookup(db, name, i) is Some,
    ensures
        db_lookup(db, name, i).unwrap().0 == name,
    decreases db.len() - i,
{
    if 0 <= i < db.len() && db[i].0 != name {
        lemma_db_lookup_named(db, name, i + 1);
    }
}

/// Lemma: recording a reached dependent adds its entry exactly when it is installed and not
/// the target, keeps the other entries, and keeps records named like their entries.
proof fn lemma_agg_update_keys(
    agg: AggView,
    db: Seq<InfoView>,
    targets: Seq<Seq<char>>,
    dependent: Seq<char>,
    parent: Seq<char>,
    root: Seq<char>,
    depth: usize,
)
    ensures
        forall|k: Seq<char>|
            #[trigger] has_key(agg_update(agg, db, targets, dependent, parent, root, depth), k)
                <==> has_key(agg, k) || (k == dependent && !eq_ignore_ascii_case(dependent, root)
                && db_lookup(db, dependent, 0) is Some),
        agg_named(agg) ==> agg_named(agg_update(agg, db, targets, dependent, parent, root, depth)),
{
    let n = agg_update(agg, db, targets, dependent, parent, root, depth);
    if !eq_ignore_ascii_case(dependent, root) && db_lookup(db, dependent, 0) is Some {
        lemma_key_index(agg, dependent, 0);
        lemma_db_lookup_named(db, dependent, 0);
        match key_index(agg, dependent, 0) {
            Some(j) => {
                assert forall|k: Seq<char>| #[trigger] has_key(n, k) <==> has_key(agg, k) || (k
                    == dependent && !eq_ignore_ascii_case(dependent, root) && db_lookup(
                    db,
                    dependent,
                    0,
                ) is Some) by {
                    if has_key(agg, k) {
                        let x = choose|x: int| 0 <= x < agg.len() && #[trigger] agg[x].0 == k;
                        assert(n[x].0 == k);
                    }
                    if has_key(n, k) {
                        let x = choose|x: int| 0 <= x < n.len() && #[trigger] n[x].0 == k;
                        assert(agg[x].0 == k);
                    }
                }
            },
            None => {
                assert forall|k: Seq<char>| #[trigger] has_key(n, k) <==> has_key(agg, k) || (k
                    == dependent && !eq_ignore_ascii_case(dependent, root) && db_lookup(
                    db,
                    dependent,
                    0,
                ) is Some) by {
                    if has_key(agg, k) {
                        let x = choose|x: int| 0 <= x < agg.len() && #[trigger] agg[x].0 == k;
                        assert(n[x].0 == k);
                    }
                    if k == dependent {
                        assert(n[agg.len() as int].0 == k);
                    }
                    if has_key(n, k) {
                        let x = choose|x: int| 0 <= x < n.len() && #[trigger] n[x].0 == k;
                        if x < agg.len() {
                            assert(agg[x].0 == k);
                        }
                    }
                }
            },
        }
    }
}

/// Each dependent occurs once, and each of its targets once.
pub open spec fn agg_wf(agg: AggView) -> bool {
    &&& forall|i: int, j: int|
        0 <= i < j < agg.len() ==> (#[trigger] agg[i]).0 != (#[trigger] agg[j]).0
    &&& forall|i: int, a: int, b: int|
        0 <= i < agg.len() && 0 <= a < b < agg[i].1.1.len() ==> (#[trigger] agg[i].1.1[a]).0
            != (#[trigger] agg[i].1.1[b]).0
}

/// Copies a list of strings.
pub(crate) fn clone_strings(v: &Vec<String>) -> (r: Vec<String>)
    ensures
        sv(r@) == sv(v@),
{
    let mut out: Vec<String> = Vec::new();
    let mut i: usize = 0;
    while i < v.len()
        invariant
            i <= v@.len(),
            sv(out@) == sv(v@).take(i as int),
        decreases v@.len() - i,
    {
        let ghost before = sv(out@);
        out.push(v[i].clone());
        assert(sv(out@) =~= before.push(v@[i as int]@));
        assert(sv(v@).take(i + 1) =~= sv(v@).take(i as int).push(v@[i as int]@));
        i += 1;
    }
    assert(sv(v@).take(v@.len() as int) =~= sv(v@));
    out
}

/// Copies a package record.
fn clone_info(i: &PkgInfo) -> (r: PkgInfo)
    ensures
        info_view(r) == info_view(*i),
{
    PkgInfo {
        name: i.name.clone(),
        version: i.version.clone(),
        repo: match &i.repo {
            Some(s) => Some(s.clone()),
            None => None,
        },
        groups: clone_strings(&i.groups),
        required_by: clone_strings(&i.required_by),
        explicit: i.explicit,
    }
}

/// Views of package records.
pub open spec fn db_view(db: Seq<PkgInfo>) -> Seq<InfoView> {
    db.map_values(|i: PkgInfo| info_view(i))
}

/// Record of the installed package `name`.
fn db_lookup_exec(db: &Vec<PkgInfo>, name: &str) -> (r: Option<PkgInfo>)
    ensures
        match r {
            Some(i) => db_lookup(db_view(db@), name@, 0) == Some(info_view(i)),
            None => db_lookup(db_view(db@), name@, 0) is None,
        },
{
    let mut k: usize = 0;
    while k < db.len()
        invariant
            k <= db@.len(),
            db_lookup(db_view(db@), name@, 0) == db_lookup(db_view(db@), name@, k as int),
        decreases db@.len() - k,
    {
        if crate::text::str_eq(db[k].name.as_str(), name) {
            return Some(clone_info(&db[k]));
        }
        k += 1;
    }
    None
}

/// Index of the entry with key `k`.
fn entry_index(agg: &Vec<(String, AggregatedEntry)>, k: &str) -> (r: Option<usize>)
    ensures
        match r {
            Some(i) => key_index(agg_view(agg@), k@, 0) == Some(i as int) && i < agg@.len(),
            None => key_index(agg_view(agg@), k@, 0) is None,
        },
{
    let mut i: usize = 0;
    while i < agg.len()
        invariant
            i <= agg@.len(),
            key_index(agg_view(agg@), k@, 0) == key_index(agg_view(agg@), k@, i as int),
        decreases agg@.len() - i,
    {
        if crate::text::str_eq(agg[i].0.as_str(), k) {
            return Some(i);
        }
        i += 1;
    }
    None
}

/// Index of the relation for target `k`.
fn relation_index(p: &Vec<(String, RootRelation)>, k: &str) -> (r: Option<usize>)
    ensures
        match r {
            Some(i) => key_index(roots_view(p@), k@, 0) == Some(i as int) && i < p@.len(),
            None => key_index(roots_view(p@), k@, 0) is None,
        },
{
    let mut i: usize = 0;
    while i < p.len()
        invariant
            i <= p@.len(),
            key_index(roots_view(p@), k@, 0) == key_index(roots_view(p@), k@, i as int),
        decreases p@.len() - i,
    {
        if crate::text::str_eq(p[i].0.as_str(), k) {
            return Some(i);
        }
        i += 1;
    }
    None
}

/// Lemma: a key found by `key_index` is at that index, and a missing key occurs nowhere.
proof fn lemma_key_index<V>(s: Seq<(Seq<char>, V)>, k: Seq<char>, i: int)
    requires
        0 <= i <= s.len(),
    ensures
        match key_index(s, k, i) {
            Some(j) => i <= j < s.len() && s[j].0 == k && forall|m: int| i <= m < j ==> s[m].0 != k,
            None => forall|m: int| i <= m < s.len() ==> s[m].0 != k,
        },
    decreases s.len() - i,
{
    if i < s.len() {
        lemma_key_index(s, k, i + 1);
    }
}

/// Records a relation for target `root` in the relations `p`.
fn record_relation(p: &mut Vec<(String, RootRelation)>, root: &str, parent: &str, depth: usize)
    requires
        forall|a: int, b: int|
            0 <= a < b < old(p)@.len() ==> (#[trigger] roots_view(old(p)@)[a]).0 != (
            #[trigger] roots_view(old(p)@)[b]).0,
    ensures
        roots_view(final(p)@) == roots_record(roots_view(old(p)@), root@, parent@, depth),
        forall|a: int, b: int|
            0 <= a < b < final(p)@.len() ==> (#[trigger] roots_view(final(p)@)[a]).0 != (
            #[trigger] roots_view(final(p)@)[b]).0,
{
    proof {
        lemma_key_index(roots_view(p@), root@, 0);
    }
    match relation_index(p, root) {
        Some(i) => {
            let (k, mut rel) = p.remove(i);
            let ghost removed = p@;
            rel.record(parent, depth);
            let ghost nr = (k@, (sv(rel.parents@), rel.min_depth));
            p.insert(i, (k, rel));
            assert(roots_view(p@) =~= roots_view(old(p)@).update(i as int, nr));
        },
        None => {
            let mut rel = RootRelation::new();
            assert(sv(rel.parents@) =~= Seq::<Seq<char>>::empty());
            rel.record(parent, depth);
            let ghost nr = (root@, (sv(rel.parents@), rel.min_depth));
            p.push((root.to_owned(), rel));
            assert(roots_view(p@) =~= roots_view(old(p)@).push(nr));
        },
    }
}

/// The state of a reverse-dependency walk: the dependents found so far, the removal targets,
/// and the records of the installed packages.
pub struct ReverseResolverState {
    /// Dependents found, with their relations to the targets.
    pub aggregated: Vec<(String, AggregatedEntry)>,
    /// Names of the removal targets.
    pub target_names: Vec<String>,
    /// Records of the installed packages.
    pub db: Vec<PkgInfo>,
}

impl ReverseResolverState {
    /// A walk over `db` for the removal `targets`, with nothing found yet.
    pub fn new(targets: &[PackageRef], db: Vec<PkgInfo>) -> (r: ReverseResolverState)
        ensures
            r.aggregated@.len() == 0,
            sv(r.target_names@) == targets@.map_values(|p: PackageRef| p.name@),
            db_view(r.db@) == db_view(db@),
    {
        let mut names: Vec<String> = Vec::new();
        let mut i: usize = 0;
        while i < targets.len()
            invariant
                i <= targets@.len(),
                sv(names@) == targets@.map_values(|p: PackageRef| p.name@).take(i as int),
            decreases targets@.len() - i,
        {
            let ghost before = sv(names@);
            names.push(targets[i].name.clone());
            assert(sv(names@) =~= before.push(targets@[i as int].name@));
            assert(targets@.map_values(|p: PackageRef| p.name@).take(i + 1) =~= targets@.map_values(
                |p: PackageRef| p.name@,
            ).take(i as int).push(targets@[i as int].name@));
            i += 1;
        }
        assert(targets@.map_values(|p: PackageRef| p.name@).take(targets@.len() as int)
            =~= targets@.map_values(|p: PackageRef| p.name@));
        ReverseResolverState { aggregated: Vec::new(), target_names: names, db }
    }

    /// Record of the installed package `name`.
    pub fn pkg_info(&self, name: &str) -> (r: Option<PkgInfo>)
        ensures
            match r {
                Some(i) => db_lookup(db_view(self.db@), name@, 0) == Some(info_view(i)),
                None => db_lookup(db_view(self.db@), name@, 0) is None,
            },
    {
        db_lookup_exec(&self.db, name)
    }

    /// Records that `dependent` depends on `parent`, at depth `depth` of the walk from `root`.
    pub fn update_entry(&mut self, dependent: &str, parent: &str, root: &str, depth: usize)
        requires
            agg_wf(agg_view(old(self).aggregated@)),
        ensures
            agg_wf(agg_view(final(self).aggregated@)),
            agg_view(final(self).aggregated@) == agg_update(
                agg_view(old(self).aggregated@),
                db_view(old(self).db@),
                sv(old(self).target_names@),
                dependent@,
                parent@,
                root@,
                depth,
            ),
            db_view(final(self).db@) == db_view(old(self).db@),
            sv(final(self).target_names@) == sv(old(self).target_names@),
    {
        let d = to_chars(dependent);
        let r = to_chars(root);
        if chars_eq_ignore_ascii_case(d.as_slice(), r.as_slice()) {
            return ;
        }
        let info = match self.pkg_info(dependent) {
            Some(i) => i,
            None => {
                return ;
            },
        };
        let selected = crate::deps::query::names_contain(&self.target_names, dependent);
        let ghost agg0 = agg_view(self.aggregated@);
        proof {
            lemma_key_index(agg0, dependent@, 0);
        }
        match entry_index(&self.aggregated, dependent) {
            Some(i) => {
                let (k, mut data) = self.aggregated.remove(i);
                proof {
                    assert(agg0[i as int].1.1 == roots_view(data.per_root@));
                    assert forall|a: int, b: int|
                        0 <= a < b < data.per_root@.len() implies (
                        #[trigger] roots_view(data.per_root@)[a]).0 != (
                        #[trigger] roots_view(data.per_root@)[b]).0 by {
                        assert(agg0[i as int].1.1[a] == roots_view(data.per_root@)[a]);
                        assert(agg0[i as int].1.1[b] == roots_view(data.per_root@)[b]);
                    }
                }
                data.info = info;
                if selected {
                    data.selected_for_removal = true;
                }
                record_relation(&mut data.per_root, root, parent, depth);
                let ghost ne = (k@, (info_view(data.info), roots_view(data.per_root@), data.selected_for_removal));
                self.aggregated.insert(i, (k, data));
                assert(agg_view(self.aggregated@) =~= agg0.update(i as int, ne));
                proof {
                    let n = agg_view(self.aggregated@);
                    assert forall|x: int, y: int| 0 <= x < y < n.len() implies (#[trigger] n[x]).0
                        != (#[trigger] n[y]).0 by {
                        if x != i && y != i {
                            assert(n[x] == agg0[x] && n[y] == agg0[y]);
                        } else if x == i {
                            assert(n[y] == agg0[y]);
                            assert(n[x].0 == agg0[x].0);
                        } else {
                            assert(n[x] == agg0[x]);
                            assert(n[y].0 == agg0[y].0);
                        }
                    }
                    assert forall|x: int, a: int, b: int|
                        0 <= x < n.len() && 0 <= a < b < n[x].1.1.len() implies (
                        #[trigger] n[x].1.1[a]).0 != (#[trigger] n[x].1.1[b]).0 by {
                        if x != i {
                            assert(n[x] == agg0[x]);
                        } else {
                            assert(n[x].1.1 == roots_view(data.per_root@));
                            assert(n[x].1.1[a] == roots_view(data.per_root@)[a]);
                            assert(n[x].1.1[b] == roots_view(data.per_root@)[b]);
                        }
                    }
                }
            },
            None => {
                let mut per_root: Vec<(String, RootRelation)> = Vec::new();
                assert(roots_view(per_root@) =~= Seq::<(Seq<char>, RelView)>::empty());
                record_relation(&mut per_root, root, parent, depth);
                let data = AggregatedEntry { info, per_root, selected_for_removal: selected };
                let ghost ne = (dependent@, (info_view(data.info), roots_view(data.per_root@), selected));
                self.aggregated.push((dependent.to_owned(), data));
                assert(agg_view(self.aggregated@) =~= agg0.push(ne));
                proof {
                    let n = agg_view(self.aggregated@);
                    assert forall|x: int, a: int, b: int|
                        0 <= x < n.len() && 0 <= a < b < n[x].1.1.len() implies (
                        #[trigger] n[x].1.1[a]).0 != (#[trigger] n[x].1.1[b]).0 by {
                        if x < agg0.len() {
                            assert(n[x] == agg0[x]);
                        } else {
                            assert(n[x].1.1[a] == roots_view(data.per_root@)[a]);
                            assert(n[x].1.1[b] == roots_view(data.per_root@)[b]);
                        }
                    }
                }
            },
        }
    }
}

} // verus!

verus! {

/// Every dependent named by the records.
pub open spec fn all_required(db: Seq<InfoView>) -> Seq<Seq<char>>
    decreases db.len(),
{
    if db.len() == 0 {
        seq![]
    } else {
        all_required(db.drop_last()) + db.last().4
    }
}

/// Lemma: each dependent of each record is among all dependents.
proof fn lemma_all_required(db: Seq<InfoView>, j: int, k: int)
    requires
        0 <= j < db.len(),
        0 <= k < db[j].4.len(),
    ensures
        all_required(db).contains(db[j].4[k]),
    decreases db.len(),
{
    let a = all_required(db.drop_last());
    if j == db.len() - 1 {
        assert((a + db.last().4)[a.len() + k] == db[j].4[k]);
    } else {
        lemma_all_required(db.drop_last(), j, k);
        let w = choose|w: int| 0 <= w < a.len() && a[w] == db[j].4[k];
        assert((a + db.last().4)[w] == db[j].4[k]);
    }
}

/// Lemma: a record found by name is one of the records.
proof fn lemma_db_lookup_in(db: Seq<InfoView>, name: Seq<char>, i: int) -> (j: int)
    requires
        0 <= i,
        db_lookup(db, name, i) is Some,
    ensures
        0 <= j < db.len(),
        db[j] == db_lookup(db, name, i)->0,
    decreases db.len() - i,
{
    if db[i].0 == name {
        i
    } else {
        lemma_db_lookup_in(db, name, i + 1)
    }
}

/// Lemma: distinct elements of `u` are at most as many as the elements of `u`.
proof fn lemma_distinct_len(a: Seq<Seq<char>>, u: Seq<Seq<char>>)
    requires
        a.no_duplicates(),
        forall|i: int| 0 <= i < a.len() ==> u.contains(#[trigger] a[i]),
    ensures
        a.len() <= u.len(),
{
    a.unique_seq_to_set();
    u.lemma_cardinality_of_set();
    assert(a.to_set().subset_of(u.to_set()));
    vstd::seq_lib::seq_to_set_is_finite(u);
    vstd::set_lib::lemma_len_subset(a.to_set(), u.to_set());
}

/// Lemma: a chain extended by a package that requires its last one is a chain.
proof fn lemma_chain_push(db: Seq<InfoView>, path: Seq<Seq<char>>, d: Seq<char>)
    requires
        is_chain(db, path),
        path.len() > 0,
        required_by_edge(db, path.last(), d),
    ensures
        is_chain(db, path.push(d)),
        path.push(d).len() > 0,
        path.push(d)[0] == path[0],
        path.push(d).last() == d,
{
    let q = path.push(d);
    assert forall|i: int, j: int|
        #![trigger q[i], q[j]]
        0 <= i && j == i + 1 && j < q.len() implies required_by_edge(db, q[i], q[j]) by {
        if j < path.len() {
            assert(q[i] == path[i] && q[j] == path[j]);
            assert(required_by_edge(db, path[i], path[j]));
        } else {
            assert(q[i] == path.last());
        }
    }
}

/// Lemma: a package that requires one depending on `root` depends on `root` too.
proof fn lemma_depends_step(db: Seq<InfoView>, root: Seq<char>, m: Seq<char>, d: Seq<char>)
    requires
        depends_on(db, root, m),
        required_by_edge(db, m, d),
    ensures
        depends_on(db, root, d),
{
    let path = choose|path: Seq<Seq<char>>|
        #[trigger] is_chain(db, path) && path.len() > 0 && path[0] == root && path.last() == m;
    lemma_chain_push(db, path, d);
}

/// Lemma: the packages of a chain from `root` lie among `visited` when `visited` holds `root`
/// and, for each of its packages, every package that its record names as requiring it.
proof fn lemma_chain_in_closed(
    db: Seq<InfoView>,
    root: Seq<char>,
    visited: Seq<Seq<char>>,
    path: Seq<Seq<char>>,
    i: int,
)
    requires
        visited.contains(root),
        forall|j: int, e: Seq<char>|
            0 <= j < visited.len() && #[trigger] required_by_edge(db, visited[j], e)
                ==> visited.contains(e),
        is_chain(db, path),
        path.len() > 0,
        path[0] == root,
        0 <= i < path.len(),
    ensures
        visited.contains(path[i]),
    decreases i,
{
    if i > 0 {
        lemma_chain_in_closed(db, root, visited, path, i - 1);
        assert(required_by_edge(db, path[i - 1], path[i]));
        let j = choose|j: int| 0 <= j < visited.len() && visited[j] == path[i - 1];
        assert(required_by_edge(db, visited[j], path[i]));
    }
}

/// Whether a chain of `n` steps leads from `root` to `d` (see `is_chain`).
pub open spec fn chain_of_len(db: Seq<InfoView>, root: Seq<char>, d: Seq<char>, n: nat) -> bool {
    exists|path: Seq<Seq<char>>|
        #[trigger] is_chain(db, path) && path.len() == n + 1 && path[0] == root && path.last() == d
}

/// Whether `n` is the breadth-first depth of `d` in the walk from `root`: the number of steps
/// of the shortest chain from `root` to `d`.
pub open spec fn bfs_depth(db: Seq<InfoView>, root: Seq<char>, d: Seq<char>, n: nat) -> bool {
    &&& chain_of_len(db, root, d, n)
    &&& forall|m: nat| m < n ==> !#[trigger] chain_of_len(db, root, d, m)
}

/// Lemma: the first `n` packages of a chain form a chain.
proof fn lemma_chain_prefix(db: Seq<InfoView>, path: Seq<Seq<char>>, n: int)
    requires
        is_chain(db, path),
        0 < n <= path.len(),
    ensures
        is_chain(db, path.take(n)),
        path.take(n).len() == n,
        path.take(n)[0] == path[0],
        path.take(n).last() == path[n - 1],
{
    let q = path.take(n);
    assert forall|i: int, j: int|
        #![trigger q[i], q[j]]
        0 <= i && j == i + 1 && j < q.len() implies required_by_edge(db, q[i], q[j]) by {
        assert(q[i] == path[i] && q[j] == path[j]);
        assert(required_by_edge(db, path[i], path[j]));
    }
}

/// Lemma: when every package that a reached package leads to is reached at most one step
/// deeper, the `i`-th package of a chain from `root` is reached at depth at most `i`.
proof fn lemma_bfs_reaches(
    db: Seq<InfoView>,
    root: Seq<char>,
    vis: Seq<Seq<char>>,
    dep: Seq<usize>,
    path: Seq<Seq<char>>,
    i: int,
)
    requires
        vis.len() == dep.len(),
        vis.len() > 0,
        vis[0] == root,
        dep[0] == 0,
        forall|j: int, e: Seq<char>|
            0 <= j < vis.len() && #[trigger] required_by_edge(db, vis[j], e) ==> exists|k: int|
                0 <= k < vis.len() && #[trigger] vis[k] == e && dep[k] <= dep[j] + 1,
        is_chain(db, path),
        path.len() > 0,
        path[0] == root,
        0 <= i < path.len(),
    ensures
        exists|k: int| 0 <= k < vis.len() && #[trigger] vis[k] == path[i] && dep[k] <= i,
    decreases i,
{
    if i == 0 {
        assert(vis[0] == path[0] && dep[0] <= 0);
    } else {
        lemma_bfs_reaches(db, root, vis, dep, path, i - 1);
        let k = choose|k: int| 0 <= k < vis.len() && #[trigger] vis[k] == path[i - 1] && dep[k] <= i - 1;
        assert(required_by_edge(db, path[i - 1], path[i]));
        assert(required_by_edge(db, vis[k], path[i]));
        let k2 = choose|k2: int| 0 <= k2 < vis.len() && #[trigger] vis[k2] == path[i] && dep[k2] <= dep[k] + 1;
        assert(vis[k2] == path[i] && dep[k2] <= i);
    }
}

/// Walks breadth first from `root` along the `Required By` lists of the records `db`: the
/// packages reached, each once and `root` first, each with its breadth-first depth.
fn reach_depths(db: &Vec<PkgInfo>, root: &str) -> (r: (Vec<Vec<char>>, Vec<usize>))
    requires
        root@.len() > 0,
    ensures
        r.0@.len() == r.1@.len(),
        r.0@.len() > 0,
        vv(r.0@)[0] == root@,
        vv(r.0@).no_duplicates(),
        forall|j: int| 0 <= j < r.0@.len() ==> (#[trigger] vv(r.0@)[j]).len() > 0,
        forall|j: int| 0 <= j < r.1@.len() ==> #[trigger] r.1@[j] <= j,
        forall|j: int|
            0 <= j < r.0@.len() ==> bfs_depth(
                db_view(db@),
                root@,
                #[trigger] vv(r.0@)[j],
                r.1@[j] as nat,
            ),
        forall|c: Seq<char>|
            #![trigger vv(r.0@).contains(c)]
            #![trigger depends_on(db_view(db@), root@, c)]
            vv(r.0@).contains(c) <==> depends_on(db_view(db@), root@, c),
{
    let ghost dbv = db_view(db@);
    let ghost u = seq![root@] + all_required(dbv);
    let mut visited: Vec<Vec<char>> = Vec::new();
    let mut depths: Vec<usize> = Vec::new();
    visited.push(to_chars(root));
    depths.push(0);
    proof {
        let single = seq![root@];
        assert(is_chain(dbv, single));
        assert(single.last() == root@);
        assert(chain_of_len(dbv, root@, root@, 0));
        assert(vv(visited@)[0] == root@);
        assert(u[0] == root@);
    }
    let mut head: usize = 0;
    while head < visited.len()
        invariant
            dbv == db_view(db@),
            u == seq![root@] + all_required(dbv),
            root@.len() > 0,
            head <= visited@.len(),
            depths@.len() == visited@.len(),
            visited@.len() <= u.len(),
            visited@.len() > 0,
            vv(visited@).no_duplicates(),
            vv(visited@)[0] == root@,
            depths@[0] == 0,
            head == 0 ==> visited@.len() == 1,
            forall|i: int| 0 <= i < visited@.len() ==> u.contains(#[trigger] vv(visited@)[i]),
            forall|i: int| 0 <= i < visited@.len() ==> (#[trigger] vv(visited@)[i]).len() > 0,
            forall|j: int| 0 <= j < depths@.len() ==> #[trigger] depths@[j] <= j,
            forall|i: int, j: int|
                0 <= i <= j < depths@.len() ==> #[trigger] depths@[i] <= #[trigger] depths@[j],
            head > 0 ==> forall|k: int|
                0 <= k < depths@.len() ==> #[trigger] depths@[k] <= depths@[head - 1] + 1,
            forall|j: int|
                0 <= j < visited@.len() ==> chain_of_len(
                    dbv,
                    root@,
                    #[trigger] vv(visited@)[j],
                    depths@[j] as nat,
                ),
            forall|j: int, e: Seq<char>|
                0 <= j < head && #[trigger] required_by_edge(dbv, vv(visited@)[j], e) ==> exists|k: int|
                    0 <= k < visited@.len() && #[trigger] vv(visited@)[k] == e && depths@[k]
                        <= depths@[j] + 1,
        decreases u.len() - head,
    {
        let cur = head;
        let current = crate::text::slice_chars(visited[cur].as_slice(), 0, visited[cur].len());
        let depth = depths[cur];
        head += 1;
        assert(current@ =~= vv(visited@)[cur as int]);
        let cs = chars_to_string(current.as_slice());
        proof {
            if cur > 0 {
                assert forall|k: int| 0 <= k < depths@.len() implies #[trigger] depths@[k] <= depths@[cur as int] + 1 by {
                    assert(depths@[cur - 1] <= depths@[cur as int]);
                }
            }
        }
        let info = match db_lookup_exec(db, cs.as_str()) {
            Some(i) => i,
            None => {
                proof {
                    assert forall|j: int, e: Seq<char>|
                        0 <= j < head && #[trigger] required_by_edge(dbv, vv(visited@)[j], e) implies exists|k: int|
                            0 <= k < visited@.len() && #[trigger] vv(visited@)[k] == e && depths@[k]
                                <= depths@[j] + 1 by {
                        if j == cur {
                            assert(db_lookup(dbv, cs@, 0) is None);
                        }
                    }
                }
                continue;
            },
        };
        let ghost jdb = lemma_db_lookup_in(dbv, cs@, 0);
        let deps = &info.required_by;
        let mut k: usize = 0;
        while k < deps.len()
            invariant
                dbv == db_view(db@),
                u == seq![root@] + all_required(dbv),
                0 <= jdb < dbv.len(),
                dbv[jdb] == info_view(info),
                db_lookup(dbv, cs@, 0) == Some(info_view(info)),
                deps@ == info.required_by@,
                cur + 1 == head,
                head <= visited@.len(),
                depth == depths@[cur as int],
                depth <= cur,
                cs@ == vv(visited@)[cur as int],
                depths@.len() == visited@.len(),
                visited@.len() <= u.len(),
                visited@.len() > 0,
                vv(visited@).no_duplicates(),
                vv(visited@)[0] == root@,
                depths@[0] == 0,
                forall|i: int| 0 <= i < visited@.len() ==> u.contains(#[trigger] vv(visited@)[i]),
                forall|i: int| 0 <= i < visited@.len() ==> (#[trigger] vv(visited@)[i]).len() > 0,
                forall|j: int| 0 <= j < depths@.len() ==> #[trigger] depths@[j] <= j,
                forall|i: int, j: int|
                    0 <= i <= j < depths@.len() ==> #[trigger] depths@[i] <= #[trigger] depths@[j],
                forall|k2: int| 0 <= k2 < depths@.len() ==> #[trigger] depths@[k2] <= depth + 1,
                forall|j: int|
                    0 <= j < visited@.len() ==> chain_of_len(
                        dbv,
                        root@,
                        #[trigger] vv(visited@)[j],
                        depths@[j] as nat,
                    ),
                forall|j: int, e: Seq<char>|
                    0 <= j < cur && #[trigger] required_by_edge(dbv, vv(visited@)[j], e) ==> exists|kk: int|
                        0 <= kk < visited@.len() && #[trigger] vv(visited@)[kk] == e && depths@[kk]
                            <= depths@[j] + 1,
                forall|q: int|
                    0 <= q < k && (#[trigger] deps@[q])@.len() > 0 ==> exists|kk: int|
                        0 <= kk < visited@.len() && #[trigger] vv(visited@)[kk] == deps@[q]@
                            && depths@[kk] <= depth + 1,
            decreases deps@.len() - k,
        {
            let d = deps[k].as_str();
            if !d.is_empty() {
                let dc = to_chars(d);
                if !crate::text::vec_contains(&visited, dc.as_slice()) {
                    proof {
                        lemma_all_required(dbv, jdb, k as int);
                        assert(dbv[jdb].4[k as int] == d@);
                        let w = choose|w: int|
                            0 <= w < all_required(dbv).len() && all_required(dbv)[w] == d@;
                        assert(u[w + 1] == d@);
                    }
                    let ghost before = vv(visited@);
                    let ghost dbefore = depths@;
                    proof {
                        assert(sv(info.required_by@)[k as int] == info.required_by@[k as int]@);
                        assert(info_view(info).4.contains(d@));
                        assert(required_by_edge(dbv, cs@, d@));
                        let path = choose|path: Seq<Seq<char>>|
                            #[trigger] is_chain(dbv, path) && path.len() == depth + 1 && path[0] == root@
                                && path.last() == cs@;
                        lemma_chain_push(dbv, path, d@);
                        assert(chain_of_len(dbv, root@, d@, (depth + 1) as nat));
                    }
                    visited.push(dc);
                    depths.push(depth + 1);
                    proof {
                        let n = vv(visited@);
                        assert(n =~= before.push(d@));
                        assert(depths@ =~= dbefore.push((depth + 1) as usize));
                        assert forall|x: int, y: int| 0 <= x < y < n.len() implies n[x] != n[y] by {
                            if y == n.len() - 1 {
                                assert(!before.contains(d@));
                                assert(n[x] == before[x]);
                            } else {
                                assert(n[x] == before[x] && n[y] == before[y]);
                            }
                        }
                        assert forall|i: int| 0 <= i < n.len() implies u.contains(#[trigger] n[i]) by {
                            if i < before.len() {
                                assert(n[i] == before[i]);
                            }
                        }
                        lemma_distinct_len(n, u);
                        assert forall|i: int| 0 <= i < n.len() implies (#[trigger] n[i]).len() > 0 by {
                            if i < before.len() {
                                assert(n[i] == before[i]);
                            }
                        }
                        assert forall|i: int, j: int|
                            0 <= i <= j < depths@.len() implies #[trigger] depths@[i] <= #[trigger] depths@[j] by {
                            if j < dbefore.len() {
                                assert(depths@[i] == dbefore[i] && depths@[j] == dbefore[j]);
                            } else if i < dbefore.len() {
                                assert(depths@[i] == dbefore[i]);
                                assert(dbefore[i] <= depth + 1);
                            }
                        }
                        assert forall|k2: int| 0 <= k2 < depths@.len() implies #[trigger] depths@[k2] <= depth + 1 by {
                            if k2 < dbefore.len() {
                                assert(depths@[k2] == dbefore[k2]);
                            }
                        }
                        assert forall|j: int| 0 <= j < depths@.len() implies #[trigger] depths@[j] <= j by {
                            if j < dbefore.len() {
                                assert(depths@[j] == dbefore[j]);
                            }
                        }
                        assert forall|j: int| 0 <= j < n.len() implies chain_of_len(
                            dbv,
                            root@,
                            #[trigger] n[j],
                            depths@[j] as nat,
                        ) by {
                            if j < before.len() {
                                assert(n[j] == before[j] && depths@[j] == dbefore[j]);
                            }
                        }
                        assert forall|j: int, e: Seq<char>|
                            0 <= j < cur && #[trigger] required_by_edge(dbv, n[j], e) implies exists|kk: int|
                                0 <= kk < n.len() && #[trigger] n[kk] == e && depths@[kk] <= depths@[j] + 1 by {
                            assert(n[j] == before[j]);
                            let kk = choose|kk: int|
                                0 <= kk < before.len() && #[trigger] before[kk] == e && dbefore[kk] <= dbefore[j] + 1;
                            assert(n[kk] == e && depths@[kk] == dbefore[kk]);
                        }
                        assert forall|q: int|
                            0 <= q < k + 1 && (#[trigger] deps@[q])@.len() > 0 implies exists|kk: int|
                                0 <= kk < n.len() && #[trigger] n[kk] == deps@[q]@ && depths@[kk] <= depth + 1 by {
                            if q < k {
                                let kk = choose|kk: int|
                                    0 <= kk < before.len() && #[trigger] before[kk] == deps@[q]@ && dbefore[kk] <= depth + 1;
                                assert(n[kk] == deps@[q]@ && depths@[kk] == dbefore[kk]);
                            } else {
                                assert(n[n.len() - 1] == deps@[q]@);
                            }
                        }
                    }
                } else {
                    proof {
                        let kk = choose|kk: int| 0 <= kk < vv(visited@).len() && vv(visited@)[kk] == dc@;
                        assert(depths@[kk] <= depth + 1);
                        assert(vv(visited@)[kk] == deps@[k as int]@);
                    }
                }
            }
            k += 1;
        }
        proof {
            assert forall|j: int, e: Seq<char>|
                0 <= j < head && #[trigger] required_by_edge(dbv, vv(visited@)[j], e) implies exists|kk: int|
                    0 <= kk < visited@.len() && #[trigger] vv(visited@)[kk] == e && depths@[kk] <= depths@[j] + 1 by {
                if j == cur {
                    let q = choose|q: int| 0 <= q < info_view(info).4.len() && info_view(info).4[q] == e;
                    assert(sv(deps@)[q] == deps@[q]@);
                    assert((deps@[q])@.len() > 0);
                }
            }
            assert forall|k2: int| 0 <= k2 < depths@.len() implies #[trigger] depths@[k2] <= depths@[head - 1] + 1 by {}
        }
    }
    proof {
        let n = vv(visited@);
        let dv = depths@;
        assert(n.contains(root@)) by {
            assert(n[0] == root@);
        }
        assert forall|j: int, e: Seq<char>|
            0 <= j < n.len() && #[trigger] required_by_edge(dbv, n[j], e) implies n.contains(e) by {
            let kk = choose|kk: int| 0 <= kk < n.len() && #[trigger] n[kk] == e && dv[kk] <= dv[j] + 1;
        }
        assert forall|c: Seq<char>| #[trigger] depends_on(dbv, root@, c) implies n.contains(c) by {
            let path = choose|path: Seq<Seq<char>>|
                #[trigger] is_chain(dbv, path) && path.len() > 0 && path[0] == root@ && path.last() == c;
            lemma_chain_in_closed(dbv, root@, n, path, path.len() - 1);
        }
        assert forall|c: Seq<char>| #[trigger] n.contains(c) implies depends_on(dbv, root@, c) by {
            let j = choose|j: int| 0 <= j < n.len() && n[j] == c;
            assert(chain_of_len(dbv, root@, n[j], dv[j] as nat));
            let path = choose|path: Seq<Seq<char>>|
                #[trigger] is_chain(dbv, path) && path.len() == dv[j] + 1 && path[0] == root@ && path.last() == n[j];
        }
        assert forall|j: int| 0 <= j < n.len() implies bfs_depth(dbv, root@, #[trigger] n[j], dv[j] as nat) by {
            assert(chain_of_len(dbv, root@, n[j], dv[j] as nat));
            assert forall|m: nat| m < dv[j] implies !#[trigger] chain_of_len(dbv, root@, n[j], m) by {
                if chain_of_len(dbv, root@, n[j], m) {
                    let path = choose|path: Seq<Seq<char>>|
                        #[trigger] is_chain(dbv, path) && path.len() == m + 1 && path[0] == root@ && path.last() == n[j];
                    lemma_bfs_reaches(dbv, root@, n, dv, path, m as int);
                    let k = choose|k: int| 0 <= k < n.len() && #[trigger] n[k] == path[m as int] && dv[k] <= m;
                    assert(n[k] == n[j]);
                }
            }
        }
    }
    (visited, depths)
}

/// The packages that the record of `c` names as requiring it (none without record).
pub open spec fn deps_of(db: Seq<InfoView>, c: Seq<char>) -> Seq<Seq<char>> {
    match db_lookup(db, c, 0) {
        Some(i) => i.4,
        None => seq![],
    }
}

/// Whether a walk over the reached packages `vis`, having handled the first `j` of them and the
/// first `k` dependents of the next, has followed the edge from `vis[x]` to `d`.
pub open spec fn followed(db: Seq<InfoView>, vis: Seq<Seq<char>>, j: int, k: int, x: int, d: Seq<char>) -> bool {
    &&& 0 <= x < vis.len()
    &&& d.len() > 0
    &&& (x < j && deps_of(db, vis[x]).contains(d) || x == j && deps_of(db, vis[x]).take(k).contains(d))
}

/// Whether `rel` is what such a walk from `root` has recorded for `d`: its parents are the
/// packages of the followed edges into `d`, each once, and its depth the least depth of those
/// packages plus one.
pub open spec fn rel_walked(
    db: Seq<InfoView>,
    vis: Seq<Seq<char>>,
    dep: Seq<usize>,
    j: int,
    k: int,
    root: Seq<char>,
    d: Seq<char>,
    rel: RelView,
) -> bool {
    &&& !eq_ignore_ascii_case(d, root)
    &&& db_lookup(db, d, 0) is Some
    &&& rel.0.no_duplicates()
    &&& forall|c: Seq<char>|
        #[trigger] rel.0.contains(c) <==> exists|x: int| #[trigger] followed(db, vis, j, k, x, d) && vis[x] == c
    &&& forall|x: int| #[trigger] followed(db, vis, j, k, x, d) ==> rel.1 <= dep[x] + 1
    &&& exists|x: int| #[trigger] followed(db, vis, j, k, x, d) && rel.1 == dep[x] + 1
}

/// Whether each entry holds the record of its package and is selected exactly when that package
/// is one of the targets `names`.
pub open spec fn entries_known(agg: AggView, db: Seq<InfoView>, names: Seq<Seq<char>>) -> bool {
    forall|i: int|
        0 <= i < agg.len() ==> db_lookup(db, (#[trigger] agg[i]).0, 0) == Some(agg[i].1.0)
            && agg[i].1.2 == names.contains(agg[i].0)
}

/// What a walk from `root` (handled as `followed` says) has made of the entries `agg0`: the
/// entries keep their places and their relations to other targets, new entries relate to
/// `root` only, each relation to `root` is what the walk recorded, and each followed edge into
/// an installed package other than `root` has its relation.
pub open spec fn walk_effect(
    agg0: AggView,
    agg: AggView,
    db: Seq<InfoView>,
    vis: Seq<Seq<char>>,
    dep: Seq<usize>,
    j: int,
    k: int,
    root: Seq<char>,
) -> bool {
    &&& agg0.len() <= agg.len()
    &&& forall|i: int| 0 <= i < agg0.len() ==> (#[trigger] agg[i]).0 == agg0[i].0
    &&& forall|i: int, z: int|
        0 <= i < agg0.len() && 0 <= z < agg[i].1.1.len() && (#[trigger] agg[i].1.1[z]).0 != root
            ==> agg0[i].1.1.contains(agg[i].1.1[z])
    &&& forall|i: int, z: int|
        0 <= i < agg0.len() && 0 <= z < agg0[i].1.1.len() ==> agg[i].1.1.contains(
            #[trigger] agg0[i].1.1[z],
        )
    &&& forall|i: int, z: int|
        agg0.len() <= i < agg.len() && 0 <= z < agg[i].1.1.len() ==> (#[trigger] agg[i].1.1[z]).0
            == root
    &&& forall|i: int|
        agg0.len() <= i < agg.len() ==> (#[trigger] agg[i]).1.1.len() > 0
    &&& forall|i: int, z: int|
        0 <= i < agg.len() && 0 <= z < agg[i].1.1.len() && (#[trigger] agg[i].1.1[z]).0 == root
            ==> rel_walked(db, vis, dep, j, k, root, agg[i].0, agg[i].1.1[z].1)
    &&& forall|x: int, d: Seq<char>|
        #[trigger] followed(db, vis, j, k, x, d) && db_lookup(db, d, 0) is Some
            && !eq_ignore_ascii_case(d, root) ==> exists|i: int, z: int|
            0 <= i < agg.len() && 0 <= z < agg[i].1.1.len() && agg[i].0 == d && (
            #[trigger] agg[i].1.1[z]).0 == root
}

/// Whether relations `p` have a relation for target `root`.
pub open spec fn has_root(p: RootsView, root: Seq<char>) -> bool {
    exists|z: int| 0 <= z < p.len() && #[trigger] p[z].0 == root
}

/// Lemma: recording a path for `root` updates the relation for `root`, or adds one at the end,
/// and keeps the others.
proof fn lemma_roots_record_shape(p: RootsView, root: Seq<char>, parent: Seq<char>, depth: usize)
    requires
        forall|a: int, b: int| 0 <= a < b < p.len() ==> (#[trigger] p[a]).0 != (#[trigger] p[b]).0,
    ensures
        has_root(p, root) ==> roots_record(p, root, parent, depth).len() == p.len() && forall|z: int|
            0 <= z < p.len() ==> #[trigger] roots_record(p, root, parent, depth)[z] == (if p[z].0 == root {
                (root, rel_record(p[z].1, parent, depth))
            } else {
                p[z]
            }),
        !has_root(p, root) ==> roots_record(p, root, parent, depth) == p.push(
            (root, rel_record((seq![], usize::MAX), parent, depth)),
        ),
{
    lemma_key_index(p, root, 0);
    match key_index(p, root, 0) {
        Some(i) => {
            assert forall|z: int| 0 <= z < p.len() implies #[trigger] roots_record(p, root, parent, depth)[z] == (if p[z].0 == root {
                (root, rel_record(p[z].1, parent, depth))
            } else {
                p[z]
            }) by {
                if p[z].0 == root && z != i {
                    if z < i {
                        assert(p[z].0 != p[i].0);
                    } else {
                        assert(p[i].0 != p[z].0);
                    }
                }
            }
        },
        None => {
            if has_root(p, root) {
                let z = choose|z: int| 0 <= z < p.len() && #[trigger] p[z].0 == root;
            }
        },
    }
}

/// Lemma: recording a reached dependent leaves everything alone for the target itself or a
/// package without record; otherwise it updates the dependent's entry, or adds one at the end,
/// and keeps the others.
proof fn lemma_agg_update_shape(
    agg: AggView,
    db: Seq<InfoView>,
    targets: Seq<Seq<char>>,
    d: Seq<char>,
    parent: Seq<char>,
    root: Seq<char>,
    depth: usize,
)
    requires
        agg_wf(agg),
    ensures
        eq_ignore_ascii_case(d, root) || db_lookup(db, d, 0) is None ==> agg_update(
            agg,
            db,
            targets,
            d,
            parent,
            root,
            depth,
        ) == agg,
        !eq_ignore_ascii_case(d, root) && db_lookup(db, d, 0) is Some && has_key(agg, d) ==> {
            let n = agg_update(agg, db, targets, d, parent, root, depth);
            &&& n.len() == agg.len()
            &&& forall|i: int|
                0 <= i < agg.len() ==> #[trigger] n[i] == (if agg[i].0 == d {
                    (
                        d,
                        (
                            db_lookup(db, d, 0)->0,
                            roots_record(agg[i].1.1, root, parent, depth),
                            agg[i].1.2 || targets.contains(d),
                        ),
                    )
                } else {
                    agg[i]
                })
        },
        !eq_ignore_ascii_case(d, root) && db_lookup(db, d, 0) is Some && !has_key(agg, d)
            ==> agg_update(agg, db, targets, d, parent, root, depth) == agg.push(
            (d, (db_lookup(db, d, 0)->0, roots_record(seq![], root, parent, depth), targets.contains(d))),
        ),
{
    lemma_key_index(agg, d, 0);
    if !eq_ignore_ascii_case(d, root) && db_lookup(db, d, 0) is Some {
        match key_index(agg, d, 0) {
            Some(i) => {
                let n = agg_update(agg, db, targets, d, parent, root, depth);
                assert forall|x: int| 0 <= x < agg.len() implies #[trigger] n[x] == (if agg[x].0 == d {
                    (
                        d,
                        (
                            db_lookup(db, d, 0)->0,
                            roots_record(agg[x].1.1, root, parent, depth),
                            agg[x].1.2 || targets.contains(d),
                        ),
                    )
                } else {
                    agg[x]
                }) by {
                    if agg[x].0 == d && x != i {
                        if x < i {
                            assert(agg[x].0 != agg[i].0);
                        } else {
                            assert(agg[i].0 != agg[x].0);
                        }
                    }
                }
            },
            None => {
                if has_key(agg, d) {
                    let x = choose|x: int| 0 <= x < agg.len() && #[trigger] agg[x].0 == d;
                }
            },
        }
    }
}

/// Lemma: handling one more dependent `deps_of(vis[j])[k]` adds exactly its edge from `vis[j]`
/// (when it is not empty).
proof fn lemma_followed_step(db: Seq<InfoView>, vis: Seq<Seq<char>>, j: int, k: int)
    requires
        0 <= j < vis.len(),
        0 <= k < deps_of(db, vis[j]).len(),
    ensures
        forall|x: int, e: Seq<char>|
            #[trigger] followed(db, vis, j, k + 1, x, e) == (followed(db, vis, j, k, x, e) || (x == j
                && e == deps_of(db, vis[j])[k] && e.len() > 0)),
{
    let ds = deps_of(db, vis[j]);
    assert(ds.take(k + 1) =~= ds.take(k).push(ds[k]));
    assert forall|x: int, e: Seq<char>|
        #[trigger] followed(db, vis, j, k + 1, x, e) == (followed(db, vis, j, k, x, e) || (x == j
            && e == ds[k] && e.len() > 0)) by {
        if x == j {
            if ds.take(k + 1).contains(e) && e != ds[k] {
                let w = choose|w: int| 0 <= w < ds.take(k + 1).len() && #[trigger] ds.take(k + 1)[w] == e;
                assert(w < k);
                assert(ds.take(k)[w] == e);
            }
            if ds.take(k).contains(e) {
                let w = choose|w: int| 0 <= w < ds.take(k).len() && #[trigger] ds.take(k)[w] == e;
                assert(ds.take(k + 1)[w] == e);
            }
            if e == ds[k] {
                assert(ds.take(k + 1)[k] == e);
            }
        }
    }
}

/// Lemma: having handled all dependents of `vis[j]` is having handled the first `j + 1`
/// packages.
proof fn lemma_followed_next(db: Seq<InfoView>, vis: Seq<Seq<char>>, j: int)
    requires
        0 <= j < vis.len(),
    ensures
        forall|x: int, e: Seq<char>|
            #[trigger] followed(db, vis, j + 1, 0, x, e) == followed(
                db,
                vis,
                j,
                deps_of(db, vis[j]).len() as int,
                x,
                e,
            ),
{
    let ds = deps_of(db, vis[j]);
    assert(ds.take(ds.len() as int) =~= ds);
    assert forall|x: int, e: Seq<char>|
        #[trigger] followed(db, vis, j + 1, 0, x, e) == followed(db, vis, j, ds.len() as int, x, e) by {
        assert(ds.take(0).len() == 0);
    }
}

/// Lemma: a recorded relation stays what the walk recorded while the edges into its package
/// stay the same.
proof fn lemma_rel_walked_transfer(
    db: Seq<InfoView>,
    vis: Seq<Seq<char>>,
    dep: Seq<usize>,
    j: int,
    k: int,
    j2: int,
    k2: int,
    root: Seq<char>,
    d: Seq<char>,
    rel: RelView,
)
    requires
        rel_walked(db, vis, dep, j, k, root, d, rel),
        forall|x: int| #[trigger] followed(db, vis, j, k, x, d) == followed(db, vis, j2, k2, x, d),
    ensures
        rel_walked(db, vis, dep, j2, k2, root, d, rel),
{
    assert forall|c: Seq<char>| #[trigger] rel.0.contains(c) <==> exists|x: int|
        #[trigger] followed(db, vis, j2, k2, x, d) && vis[x] == c by {
        if rel.0.contains(c) {
            let x = choose|x: int| #[trigger] followed(db, vis, j, k, x, d) && vis[x] == c;
            assert(followed(db, vis, j2, k2, x, d));
        }
        if exists|x: int| #[trigger] followed(db, vis, j2, k2, x, d) && vis[x] == c {
            let x = choose|x: int| #[trigger] followed(db, vis, j2, k2, x, d) && vis[x] == c;
            assert(followed(db, vis, j, k, x, d));
        }
    }
    assert forall|x: int| #[trigger] followed(db, vis, j2, k2, x, d) implies rel.1 <= dep[x] + 1 by {
        assert(followed(db, vis, j, k, x, d));
    }
    let x = choose|x: int| #[trigger] followed(db, vis, j, k, x, d) && rel.1 == dep[x] + 1;
    assert(followed(db, vis, j2, k2, x, d));
}

/// Lemma: the effect of a walk stays the same while the followed edges stay the same.
proof fn lemma_walk_effect_transfer(
    agg0: AggView,
    agg: AggView,
    db: Seq<InfoView>,
    vis: Seq<Seq<char>>,
    dep: Seq<usize>,
    j: int,
    k: int,
    j2: int,
    k2: int,
    root: Seq<char>,
)
    requires
        walk_effect(agg0, agg, db, vis, dep, j, k, root),
        forall|x: int, e: Seq<char>| #[trigger] followed(db, vis, j, k, x, e) == followed(db, vis, j2, k2, x, e),
    ensures
        walk_effect(agg0, agg, db, vis, dep, j2, k2, root),
{
    assert forall|i: int, z: int|
        0 <= i < agg.len() && 0 <= z < agg[i].1.1.len() && (#[trigger] agg[i].1.1[z]).0 == root
            implies rel_walked(db, vis, dep, j2, k2, root, agg[i].0, agg[i].1.1[z].1) by {
        lemma_rel_walked_transfer(db, vis, dep, j, k, j2, k2, root, agg[i].0, agg[i].1.1[z].1);
    }
    assert forall|x: int, d: Seq<char>|
        #[trigger] followed(db, vis, j2, k2, x, d) && db_lookup(db, d, 0) is Some
            && !eq_ignore_ascii_case(d, root) implies exists|i: int, z: int|
            0 <= i < agg.len() && 0 <= z < agg[i].1.1.len() && agg[i].0 == d && (
            #[trigger] agg[i].1.1[z]).0 == root by {
        assert(followed(db, vis, j, k, x, d));
    }
}

/// Lemma: recording the edge from `vis[j]` to `d` in the relation for `d` keeps it what the walk
/// recorded, one dependent further.
proof fn lemma_rel_walked_record(
    db: Seq<InfoView>,
    vis: Seq<Seq<char>>,
    dep: Seq<usize>,
    j: int,
    k: int,
    root: Seq<char>,
    d: Seq<char>,
    rel: RelView,
    fresh: bool,
)
    requires
        0 <= j < vis.len(),
        vis.len() == dep.len(),
        vis[j].len() > 0,
        dep[j] + 1 <= usize::MAX,
        0 <= k < deps_of(db, vis[j]).len(),
        d == deps_of(db, vis[j])[k],
        d.len() > 0,
        !eq_ignore_ascii_case(d, root),
        db_lookup(db, d, 0) is Some,
        forall|x: int, e: Seq<char>|
            #[trigger] followed(db, vis, j, k + 1, x, e) == (followed(db, vis, j, k, x, e) || (x == j
                && e == deps_of(db, vis[j])[k] && e.len() > 0)),
        fresh ==> rel == (Seq::<Seq<char>>::empty(), usize::MAX) && forall|x: int|
            !#[trigger] followed(db, vis, j, k, x, d),
        !fresh ==> rel_walked(db, vis, dep, j, k, root, d, rel),
    ensures
        rel_walked(db, vis, dep, j, k + 1, root, d, rel_record(rel, vis[j], (dep[j] + 1) as usize)),
{
    let m = (dep[j] + 1) as usize;
    let nr = rel_record(rel, vis[j], m);
    assert(followed(db, vis, j, k + 1, j, d));
    if !rel.0.contains(vis[j]) {
        assert forall|a: int, b: int| 0 <= a < b < nr.0.len() implies nr.0[a] != nr.0[b] by {
            if b == nr.0.len() - 1 {
                assert(nr.0[a] == rel.0[a]);
            } else {
                assert(nr.0[a] == rel.0[a] && nr.0[b] == rel.0[b]);
            }
        }
    }
    assert forall|c: Seq<char>| #[trigger] nr.0.contains(c) <==> exists|x: int|
        #[trigger] followed(db, vis, j, k + 1, x, d) && vis[x] == c by {
        if nr.0.contains(c) {
            if c == vis[j] {
                assert(followed(db, vis, j, k + 1, j, d) && vis[j] == c);
            } else {
                let w = choose|w: int| 0 <= w < nr.0.len() && nr.0[w] == c;
                if rel.0.contains(vis[j]) {
                    assert(rel.0[w] == c);
                } else {
                    assert(w < rel.0.len());
                    assert(rel.0[w] == c);
                }
                assert(rel.0.contains(c));
                let x = choose|x: int| #[trigger] followed(db, vis, j, k, x, d) && vis[x] == c;
                assert(followed(db, vis, j, k + 1, x, d));
            }
        }
        if exists|x: int| #[trigger] followed(db, vis, j, k + 1, x, d) && vis[x] == c {
            let x = choose|x: int| #[trigger] followed(db, vis, j, k + 1, x, d) && vis[x] == c;
            if x == j {
                if !rel.0.contains(vis[j]) {
                    assert(nr.0[rel.0.len() as int] == c);
                }
            } else {
                assert(followed(db, vis, j, k, x, d));
                assert(rel.0.contains(c));
                let w = choose|w: int| 0 <= w < rel.0.len() && rel.0[w] == c;
                assert(nr.0[w] == c);
            }
        }
    }
    assert forall|x: int| #[trigger] followed(db, vis, j, k + 1, x, d) implies nr.1 <= dep[x] + 1 by {
        if x != j {
            assert(followed(db, vis, j, k, x, d));
        }
    }
    if fresh || m < rel.1 {
        assert(followed(db, vis, j, k + 1, j, d) && nr.1 == dep[j] + 1);
    } else {
        let x = choose|x: int| #[trigger] followed(db, vis, j, k, x, d) && rel.1 == dep[x] + 1;
        assert(followed(db, vis, j, k + 1, x, d) && nr.1 == dep[x] + 1);
    }
}

/// Lemma: recording the edge from `vis[j]` to its `k`-th dependent keeps the effect of the walk
/// what was followed, one dependent further, and keeps each entry's record and selection.
#[verifier::rlimit(60)]
#[verifier::spinoff_prover]
proof fn lemma_walk_step(
    agg0: AggView,
    agg: AggView,
    n: AggView,
    db: Seq<InfoView>,
    tn: Seq<Seq<char>>,
    vis: Seq<Seq<char>>,
    dep: Seq<usize>,
    j: int,
    k: int,
    root: Seq<char>,
)
    requires
        agg_wf(agg),
        entries_known(agg, db, tn),
        walk_effect(agg0, agg, db, vis, dep, j, k, root),
        forall|i: int, z: int|
            0 <= i < agg0.len() && 0 <= z < agg0[i].1.1.len() ==> (#[trigger] agg0[i].1.1[z]).0 != root,
        0 <= j < vis.len(),
        vis.len() == dep.len(),
        vis[j].len() > 0,
        dep[j] + 1 <= usize::MAX,
        0 <= k < deps_of(db, vis[j]).len(),
        deps_of(db, vis[j])[k].len() > 0,
        n == agg_update(agg, db, tn, deps_of(db, vis[j])[k], vis[j], root, (dep[j] + 1) as usize),
    ensures
        walk_effect(agg0, n, db, vis, dep, j, k + 1, root),
        entries_known(n, db, tn),
{
    let d = deps_of(db, vis[j])[k];
    let m = (dep[j] + 1) as usize;
    lemma_followed_step(db, vis, j, k);
    lemma_agg_update_shape(agg, db, tn, d, vis[j], root, m);
    if eq_ignore_ascii_case(d, root) || db_lookup(db, d, 0) is None {
        assert forall|i: int, z: int|
            0 <= i < n.len() && 0 <= z < n[i].1.1.len() && (#[trigger] n[i].1.1[z]).0 == root
                implies rel_walked(db, vis, dep, j, k + 1, root, n[i].0, n[i].1.1[z].1) by {
            let key = agg[i].0;
            assert(rel_walked(db, vis, dep, j, k, root, key, agg[i].1.1[z].1));
            assert forall|x: int| #[trigger] followed(db, vis, j, k, x, key) == followed(
                db,
                vis,
                j,
                k + 1,
                x,
                key,
            ) by {}
            lemma_rel_walked_transfer(db, vis, dep, j, k, j, k + 1, root, key, agg[i].1.1[z].1);
        }
        assert forall|x: int, e: Seq<char>|
            #[trigger] followed(db, vis, j, k + 1, x, e) && db_lookup(db, e, 0) is Some
                && !eq_ignore_ascii_case(e, root) implies exists|i: int, z: int|
                0 <= i < n.len() && 0 <= z < n[i].1.1.len() && n[i].0 == e && (
                #[trigger] n[i].1.1[z]).0 == root by {
            assert(followed(db, vis, j, k, x, e));
        }
    } else {
        let info = db_lookup(db, d, 0)->0;
        // No relation to `root` yet means no edge into `d` was followed yet.
        assert(forall|x: int| #[trigger] followed(db, vis, j, k, x, d) ==> exists|i: int, z: int|
            0 <= i < agg.len() && 0 <= z < agg[i].1.1.len() && agg[i].0 == d && (
            #[trigger] agg[i].1.1[z]).0 == root);
        if has_key(agg, d) {
            let i0 = choose|i: int| 0 <= i < agg.len() && #[trigger] agg[i].0 == d;
            let rv = agg[i0].1.1;
            assert forall|a: int, b: int| 0 <= a < b < rv.len() implies (#[trigger] rv[a]).0 != (
            #[trigger] rv[b]).0 by {
                assert(agg[i0].1.1[a] == rv[a] && agg[i0].1.1[b] == rv[b]);
            }
            lemma_roots_record_shape(rv, root, vis[j], m);
            let nv = roots_record(rv, root, vis[j], m);
            assert(n[i0] == (d, (info, nv, agg[i0].1.2 || tn.contains(d))));
            assert forall|i: int| 0 <= i < n.len() && i != i0 implies #[trigger] n[i] == agg[i] by {
                if agg[i].0 == d {
                    if i < i0 {
                        assert(agg[i].0 != agg[i0].0);
                    } else {
                        assert(agg[i0].0 != agg[i].0);
                    }
                }
            }
            // Relations of the updated entry other than to `root` are kept.
            assert forall|z: int| 0 <= z < nv.len() && (#[trigger] nv[z]).0 != root implies z < rv.len()
                && nv[z] == rv[z] by {
                if !has_root(rv, root) && z == rv.len() {
                    assert(nv[z].0 == root);
                }
            }
            assert forall|z: int| 0 <= z < rv.len() && (#[trigger] rv[z]).0 != root implies nv[z] == rv[z] by {}
            let fresh = !has_root(rv, root);
            if fresh {
                assert forall|x: int| !#[trigger] followed(db, vis, j, k, x, d) by {
                    if followed(db, vis, j, k, x, d) {
                        let (i1, z1) = choose|i1: int, z1: int|
                            0 <= i1 < agg.len() && 0 <= z1 < agg[i1].1.1.len() && agg[i1].0 == d && (
                            #[trigger] agg[i1].1.1[z1]).0 == root;
                        if i1 != i0 {
                            if i1 < i0 {
                                assert(agg[i1].0 != agg[i0].0);
                            } else {
                                assert(agg[i0].0 != agg[i1].0);
                            }
                        }
                        assert(rv[z1].0 == root);
                    }
                }
                lemma_rel_walked_record(db, vis, dep, j, k, root, d, (Seq::<Seq<char>>::empty(), usize::MAX), true);
                assert(nv[rv.len() as int] == (root, rel_record((seq![], usize::MAX), vis[j], m)));
            }
            assert forall|z: int| 0 <= z < nv.len() && (#[trigger] nv[z]).0 == root implies rel_walked(
                db,
                vis,
                dep,
                j,
                k + 1,
                root,
                d,
                nv[z].1,
            ) by {
                if !fresh {
                    assert(z < rv.len());
                    assert(rv[z].0 == root);
                    assert(agg[i0].1.1[z] == rv[z]);
                    assert(rel_walked(db, vis, dep, j, k, root, d, rv[z].1));
                    lemma_rel_walked_record(db, vis, dep, j, k, root, d, rv[z].1, false);
                } else {
                    assert(z == rv.len());
                }
            }
            assert forall|i: int, z: int|
                0 <= i < agg0.len() && 0 <= z < n[i].1.1.len() && (#[trigger] n[i].1.1[z]).0 != root
                    implies agg0[i].1.1.contains(n[i].1.1[z]) by {
                if i == i0 {
                    assert(nv[z] == rv[z]);
                    assert(agg[i].1.1[z] == rv[z]);
                }
            }
            assert forall|i: int, z: int|
                0 <= i < agg0.len() && 0 <= z < agg0[i].1.1.len() implies n[i].1.1.contains(
                    #[trigger] agg0[i].1.1[z],
                ) by {
                if i == i0 {
                    let e = agg0[i].1.1[z];
                    assert(rv.contains(e));
                    let w = choose|w: int| 0 <= w < rv.len() && rv[w] == e;
                    assert(rv[w].0 != root);
                    assert(nv[w] == e);
                }
            }
            assert forall|i: int, z: int|
                agg0.len() <= i < n.len() && 0 <= z < n[i].1.1.len() implies (#[trigger] n[i].1.1[z]).0
                    == root by {
                if i == i0 && z < rv.len() {
                    assert(agg[i].1.1[z] == rv[z]);
                }
            }
            assert forall|i: int| agg0.len() <= i < n.len() implies (#[trigger] n[i]).1.1.len() > 0 by {
                if i == i0 {
                    assert(agg[i].1.1.len() > 0);
                }
            }
            assert forall|i: int, z: int|
                0 <= i < n.len() && 0 <= z < n[i].1.1.len() && (#[trigger] n[i].1.1[z]).0 == root
                    implies rel_walked(db, vis, dep, j, k + 1, root, n[i].0, n[i].1.1[z].1) by {
                if i != i0 {
                    let key = agg[i].0;
                    assert(rel_walked(db, vis, dep, j, k, root, key, agg[i].1.1[z].1));
                    assert forall|x: int| #[trigger] followed(db, vis, j, k, x, key) == followed(
                        db,
                        vis,
                        j,
                        k + 1,
                        x,
                        key,
                    ) by {}
                    lemma_rel_walked_transfer(db, vis, dep, j, k, j, k + 1, root, key, agg[i].1.1[z].1);
                }
            }
            assert forall|x: int, e: Seq<char>|
                #[trigger] followed(db, vis, j, k + 1, x, e) && db_lookup(db, e, 0) is Some
                    && !eq_ignore_ascii_case(e, root) implies exists|i: int, z: int|
                    0 <= i < n.len() && 0 <= z < n[i].1.1.len() && n[i].0 == e && (
                    #[trigger] n[i].1.1[z]).0 == root by {
                if e == d {
                    if fresh {
                        assert(n[i0].1.1[rv.len() as int].0 == root);
                    } else {
                        let z = choose|z: int| 0 <= z < rv.len() && #[trigger] rv[z].0 == root;
                        assert(n[i0].1.1[z].0 == root);
                    }
                } else {
                    assert(followed(db, vis, j, k, x, e));
                    let (i1, z1) = choose|i1: int, z1: int|
                        0 <= i1 < agg.len() && 0 <= z1 < agg[i1].1.1.len() && agg[i1].0 == e && (
                        #[trigger] agg[i1].1.1[z1]).0 == root;
                    assert(n[i1] == agg[i1]);
                    assert(n[i1].1.1[z1].0 == root);
                }
            }
        } else {
            lemma_roots_record_shape(seq![], root, vis[j], m);
            let nv = roots_record(seq![], root, vis[j], m);
            assert(nv == seq![(root, rel_record((seq![], usize::MAX), vis[j], m))]);
            assert(n[agg.len() as int] == (d, (info, nv, tn.contains(d))));
            assert forall|x: int| !#[trigger] followed(db, vis, j, k, x, d) by {
                if followed(db, vis, j, k, x, d) {
                    let (i1, z1) = choose|i1: int, z1: int|
                        0 <= i1 < agg.len() && 0 <= z1 < agg[i1].1.1.len() && agg[i1].0 == d && (
                        #[trigger] agg[i1].1.1[z1]).0 == root;
                    assert(has_key(agg, d));
                }
            }
            lemma_rel_walked_record(db, vis, dep, j, k, root, d, (Seq::<Seq<char>>::empty(), usize::MAX), true);
            assert forall|i: int| 0 <= i < agg.len() implies #[trigger] n[i] == agg[i] by {}
            assert forall|i: int, z: int|
                0 <= i < n.len() && 0 <= z < n[i].1.1.len() && (#[trigger] n[i].1.1[z]).0 == root
                    implies rel_walked(db, vis, dep, j, k + 1, root, n[i].0, n[i].1.1[z].1) by {
                if i < agg.len() {
                    let key = agg[i].0;
                    assert(n[i] == agg[i]);
                    assert(rel_walked(db, vis, dep, j, k, root, key, agg[i].1.1[z].1));
                    assert(key != d);
                    assert forall|x: int| #[trigger] followed(db, vis, j, k, x, key) == followed(
                        db,
                        vis,
                        j,
                        k + 1,
                        x,
                        key,
                    ) by {}
                    lemma_rel_walked_transfer(db, vis, dep, j, k, j, k + 1, root, key, agg[i].1.1[z].1);
                } else {
                    assert(z == 0);
                }
            }
            assert forall|i: int, z: int|
                agg0.len() <= i < n.len() && 0 <= z < n[i].1.1.len() implies (#[trigger] n[i].1.1[z]).0
                    == root by {
                if i < agg.len() {
                    assert(n[i] == agg[i]);
                }
            }
            assert forall|i: int| agg0.len() <= i < n.len() implies (#[trigger] n[i]).1.1.len() > 0 by {
                if i < agg.len() {
                    assert(n[i] == agg[i]);
                }
            }
            assert forall|x: int, e: Seq<char>|
                #[trigger] followed(db, vis, j, k + 1, x, e) && db_lookup(db, e, 0) is Some
                    && !eq_ignore_ascii_case(e, root) implies exists|i: int, z: int|
                    0 <= i < n.len() && 0 <= z < n[i].1.1.len() && n[i].0 == e && (
                    #[trigger] n[i].1.1[z]).0 == root by {
                if e == d {
                    assert(n[agg.len() as int].1.1[0].0 == root);
                } else {
                    assert(followed(db, vis, j, k, x, e));
                    let (i1, z1) = choose|i1: int, z1: int|
                        0 <= i1 < agg.len() && 0 <= z1 < agg[i1].1.1.len() && agg[i1].0 == e && (
                        #[trigger] agg[i1].1.1[z1]).0 == root;
                    assert(n[i1] == agg[i1]);
                    assert(n[i1].1.1[z1].0 == root);
                }
            }
            assert forall|i: int, z: int|
                0 <= i < agg0.len() && 0 <= z < agg0[i].1.1.len() implies n[i].1.1.contains(
                    #[trigger] agg0[i].1.1[z],
                ) by {
                assert(n[i] == agg[i]);
            }
            assert forall|i: int, z: int|
                0 <= i < agg0.len() && 0 <= z < n[i].1.1.len() && (#[trigger] n[i].1.1[z]).0 != root
                    implies agg0[i].1.1.contains(n[i].1.1[z]) by {
                assert(n[i] == agg[i]);
            }
        }
    }
}

/// Whether `c` is a parent of `d` in the walk from `root`: a package that depends on `root` and
/// whose record names `d` among the packages requiring it.
pub open spec fn is_parent(db: Seq<InfoView>, root: Seq<char>, c: Seq<char>, d: Seq<char>) -> bool {
    depends_on(db, root, c) && required_by_edge(db, c, d)
}

/// Whether `rel` is the relation of `d` to target `root` that the installed records `db` give:
/// `d` blocks the removal of `root`, the parents are exactly the parents of `d`, each once, and
/// the depth is the breadth-first depth of `d`.
pub open spec fn relation_exact(db: Seq<InfoView>, root: Seq<char>, d: Seq<char>, rel: RelView) -> bool {
    &&& blocking(db, root, d)
    &&& rel.0.no_duplicates()
    &&& forall|c: Seq<char>| #[trigger] rel.0.contains(c) <==> is_parent(db, root, c, d)
    &&& bfs_depth(db, root, d, rel.1 as nat)
}

/// What the walk from `root` made of the entries `agg0`: the entries keep their places and
/// their relations to other targets, new entries relate to `root` only, each relation to `root`
/// is exact, and each package blocking the removal of `root` has one.
pub open spec fn walk_result(agg0: AggView, agg: AggView, db: Seq<InfoView>, root: Seq<char>) -> bool {
    &&& agg0.len() <= agg.len()
    &&& forall|i: int| 0 <= i < agg0.len() ==> (#[trigger] agg[i]).0 == agg0[i].0
    &&& forall|i: int, z: int|
        0 <= i < agg0.len() && 0 <= z < agg[i].1.1.len() && (#[trigger] agg[i].1.1[z]).0 != root
            ==> agg0[i].1.1.contains(agg[i].1.1[z])
    &&& forall|i: int, z: int|
        0 <= i < agg0.len() && 0 <= z < agg0[i].1.1.len() ==> agg[i].1.1.contains(
            #[trigger] agg0[i].1.1[z],
        )
    &&& forall|i: int, z: int|
        agg0.len() <= i < agg.len() && 0 <= z < agg[i].1.1.len() ==> (#[trigger] agg[i].1.1[z]).0
            == root
    &&& forall|i: int, z: int|
        0 <= i < agg.len() && 0 <= z < agg[i].1.1.len() && (#[trigger] agg[i].1.1[z]).0 == root
            ==> relation_exact(db, root, agg[i].0, agg[i].1.1[z].1)
    &&& forall|d: Seq<char>|
        #[trigger] blocking(db, root, d) ==> exists|i: int, z: int|
            0 <= i < agg.len() && 0 <= z < agg[i].1.1.len() && agg[i].0 == d && (
            #[trigger] agg[i].1.1[z]).0 == root
}

/// Lemma: with the packages reached from `root` and their breadth-first depths, a relation that
/// the walk recorded from all of them is exact.
proof fn lemma_rel_exact(
    db: Seq<InfoView>,
    root: Seq<char>,
    vis: Seq<Seq<char>>,
    dep: Seq<usize>,
    d: Seq<char>,
    rel: RelView,
)
    requires
        vis.len() == dep.len(),
        forall|j: int| 0 <= j < vis.len() ==> bfs_depth(db, root, #[trigger] vis[j], dep[j] as nat),
        forall|c: Seq<char>|
            #![trigger vis.contains(c)]
            #![trigger depends_on(db, root, c)]
            vis.contains(c) <==> depends_on(db, root, c),
        rel_walked(db, vis, dep, vis.len() as int, 0, root, d, rel),
    ensures
        relation_exact(db, root, d, rel),
{
    let len = vis.len() as int;
    let x0 = choose|x: int| #[trigger] followed(db, vis, len, 0, x, d) && rel.1 == dep[x] + 1;
    assert(vis.contains(vis[x0]));
    assert(required_by_edge(db, vis[x0], d));
    lemma_depends_step(db, root, vis[x0], d);
    assert(blocking(db, root, d));
    assert forall|c: Seq<char>| #[trigger] rel.0.contains(c) <==> is_parent(db, root, c, d) by {
        if rel.0.contains(c) {
            let x = choose|x: int| #[trigger] followed(db, vis, len, 0, x, d) && vis[x] == c;
            assert(vis.contains(vis[x]));
        }
        if is_parent(db, root, c, d) {
            assert(vis.contains(c));
            let x = choose|x: int| 0 <= x < vis.len() && vis[x] == c;
            assert(followed(db, vis, len, 0, x, d));
        }
    }
    assert(bfs_depth(db, root, vis[x0], dep[x0] as nat));
    let p0 = choose|path: Seq<Seq<char>>|
        #[trigger] is_chain(db, path) && path.len() == dep[x0] + 1 && path[0] == root && path.last() == vis[x0];
    lemma_chain_push(db, p0, d);
    assert(chain_of_len(db, root, d, rel.1 as nat));
    assert forall|m: nat| m < rel.1 implies !#[trigger] chain_of_len(db, root, d, m) by {
        if chain_of_len(db, root, d, m) {
            let p = choose|path: Seq<Seq<char>>|
                #[trigger] is_chain(db, path) && path.len() == m + 1 && path[0] == root && path.last() == d;
            if m == 0 {
                assert(d == root);
                assert(eq_ignore_ascii_case(d, root));
            } else {
                let c = p[m - 1];
                lemma_chain_prefix(db, p, m as int);
                let q = p.take(m as int);
                assert(chain_of_len(db, root, c, (m - 1) as nat));
                assert(depends_on(db, root, c));
                assert(vis.contains(c));
                let x = choose|x: int| 0 <= x < vis.len() && vis[x] == c;
                assert(bfs_depth(db, root, vis[x], dep[x] as nat));
                assert(dep[x] <= m - 1);
                assert(required_by_edge(db, p[m - 1], p[m as int]));
                assert(followed(db, vis, len, 0, x, d));
            }
        }
    }
}

/// Lemma: each package blocking the removal of `root` is reached by an edge from a reached
/// package.
proof fn lemma_blocking_followed(db: Seq<InfoView>, root: Seq<char>, vis: Seq<Seq<char>>, d: Seq<char>)
    requires
        forall|c: Seq<char>|
            #![trigger vis.contains(c)]
            #![trigger depends_on(db, root, c)]
            vis.contains(c) <==> depends_on(db, root, c),
        blocking(db, root, d),
    ensures
        exists|x: int| #[trigger] followed(db, vis, vis.len() as int, 0, x, d),
{
    let p = choose|path: Seq<Seq<char>>|
        #[trigger] is_chain(db, path) && path.len() > 0 && path[0] == root && path.last() == d;
    assert(d != root) by {
        if d == root {
            assert(eq_ignore_ascii_case(d, root));
        }
    }
    let m = p.len() - 1;
    assert(m >= 1);
    let c = p[m - 1];
    lemma_chain_prefix(db, p, m);
    assert(p.take(m).last() == c);
    assert(depends_on(db, root, c));
    assert(vis.contains(c));
    let x = choose|x: int| 0 <= x < vis.len() && vis[x] == c;
    assert(required_by_edge(db, p[m - 1], p[m]));
    assert(followed(db, vis, vis.len() as int, 0, x, d));
}

/// Records, for each package reached from `root` in the order reached (`vis`, with depths
/// `dep`), each non-empty package that its record names as requiring it, as a dependent one step
/// deeper.
#[verifier::rlimit(40)]
fn record_reached(state: &mut ReverseResolverState, root: &str, vis: &Vec<Vec<char>>, dep: &Vec<usize>)
    requires
        agg_wf(agg_view(old(state).aggregated@)),
        agg_named(agg_view(old(state).aggregated@)),
        entries_known(agg_view(old(state).aggregated@), db_view(old(state).db@), sv(old(state).target_names@)),
        forall|i: int, z: int|
            0 <= i < agg_view(old(state).aggregated@).len() && 0 <= z < agg_view(
                old(state).aggregated@,
            )[i].1.1.len() ==> (#[trigger] agg_view(old(state).aggregated@)[i].1.1[z]).0 != root@,
        vis@.len() == dep@.len(),
        forall|j: int| 0 <= j < vis@.len() ==> (#[trigger] vv(vis@)[j]).len() > 0,
        forall|j: int| 0 <= j < dep@.len() ==> #[trigger] dep@[j] <= j,
    ensures
        agg_wf(agg_view(final(state).aggregated@)),
        agg_named(agg_view(final(state).aggregated@)),
        db_view(final(state).db@) == db_view(old(state).db@),
        sv(final(state).target_names@) == sv(old(state).target_names@),
        entries_known(agg_view(final(state).aggregated@), db_view(old(state).db@), sv(old(state).target_names@)),
        walk_effect(
            agg_view(old(state).aggregated@),
            agg_view(final(state).aggregated@),
            db_view(old(state).db@),
            vv(vis@),
            dep@,
            vis@.len() as int,
            0,
            root@,
        ),
{
    let ghost agg0 = agg_view(state.aggregated@);
    let ghost dbv = db_view(state.db@);
    let ghost tn = sv(state.target_names@);
    let ghost vs = vv(vis@);
    proof {
        assert forall|x: int, e: Seq<char>| !#[trigger] followed(dbv, vs, 0, 0, x, e) by {
            if 0 <= x < vs.len() {
                assert(deps_of(dbv, vs[x]).take(0).len() == 0);
            }
        }
    }
    let mut j: usize = 0;
    while j < vis.len()
        invariant
            j <= vis@.len(),
            vs == vv(vis@),
            vis@.len() == dep@.len(),
            forall|x: int| 0 <= x < vis@.len() ==> (#[trigger] vv(vis@)[x]).len() > 0,
            forall|x: int| 0 <= x < dep@.len() ==> #[trigger] dep@[x] <= x,
            agg_wf(agg_view(state.aggregated@)),
            agg_named(agg_view(state.aggregated@)),
            db_view(state.db@) == dbv,
            sv(state.target_names@) == tn,
            agg0 == agg_view(old(state).aggregated@),
            dbv == db_view(old(state).db@),
            tn == sv(old(state).target_names@),
            forall|i: int, z: int|
                0 <= i < agg0.len() && 0 <= z < agg0[i].1.1.len() ==> (#[trigger] agg0[i].1.1[z]).0 != root@,
            entries_known(agg_view(state.aggregated@), dbv, tn),
            walk_effect(agg0, agg_view(state.aggregated@), dbv, vs, dep@, j as int, 0, root@),
        decreases vis@.len() - j,
    {
        let cs = chars_to_string(vis[j].as_slice());
        assert(cs@ == vs[j as int]);
        match state.pkg_info(cs.as_str()) {
            None => {
                proof {
                    lemma_followed_next(dbv, vs, j as int);
                    assert(deps_of(dbv, vs[j as int]).len() == 0);
                    lemma_walk_effect_transfer(agg0, agg_view(state.aggregated@), dbv, vs, dep@, j as int, 0, j + 1, 0, root@);
                }
            },
            Some(info) => {
                let deps = &info.required_by;
                assert(deps_of(dbv, vs[j as int]) == sv(deps@));
                let mut k: usize = 0;
                while k < deps.len()
                    invariant
                        j < vis@.len() <= usize::MAX,
                        k <= deps@.len(),
                        vs == vv(vis@),
                        cs@ == vs[j as int],
                        deps_of(dbv, vs[j as int]) == sv(deps@),
                        vis@.len() == dep@.len(),
                        forall|x: int| 0 <= x < vis@.len() ==> (#[trigger] vv(vis@)[x]).len() > 0,
                        forall|x: int| 0 <= x < dep@.len() ==> #[trigger] dep@[x] <= x,
                        agg_wf(agg_view(state.aggregated@)),
                        agg_named(agg_view(state.aggregated@)),
                        db_view(state.db@) == dbv,
                        sv(state.target_names@) == tn,
                        forall|i: int, z: int|
                            0 <= i < agg0.len() && 0 <= z < agg0[i].1.1.len() ==> (#[trigger] agg0[i].1.1[z]).0 != root@,
                        entries_known(agg_view(state.aggregated@), dbv, tn),
                        walk_effect(agg0, agg_view(state.aggregated@), dbv, vs, dep@, j as int, k as int, root@),
                    decreases deps@.len() - k,
                {
                    let d = deps[k].as_str();
                    assert(sv(deps@)[k as int] == d@);
                    if !d.is_empty() {
                        let ghost before = agg_view(state.aggregated@);
                        assert(dep@[j as int] <= j);
                        state.update_entry(d, cs.as_str(), root, dep[j] + 1);
                        proof {
                            lemma_agg_update_keys(before, dbv, tn, d@, cs@, root@, (dep@[j as int] + 1) as usize);
                            lemma_walk_step(
                                agg0,
                                before,
                                agg_view(state.aggregated@),
                                dbv,
                                tn,
                                vs,
                                dep@,
                                j as int,
                                k as int,
                                root@,
                            );
                        }
                    } else {
                        proof {
                            lemma_followed_step(dbv, vs, j as int, k as int);
                            lemma_walk_effect_transfer(agg0, agg_view(state.aggregated@), dbv, vs, dep@, j as int, k as int, j as int, k + 1, root@);
                        }
                    }
                    k += 1;
                }
                proof {
                    lemma_followed_next(dbv, vs, j as int);
                    lemma_walk_effect_transfer(agg0, agg_view(state.aggregated@), dbv, vs, dep@, j as int, k as int, j + 1, 0, root@);
                }
            },
        }
        j += 1;
    }
}

/// Walks the dependents of target `root`, breadth first, recording each reached dependent with
/// the package through which it was reached and its depth: afterwards each package blocking the
/// removal of `root` has its exact relation to `root`, and nothing else changed.
fn walk_from(state: &mut ReverseResolverState, root: &str)
    requires
        root@.len() > 0,
        agg_wf(agg_view(old(state).aggregated@)),
        agg_named(agg_view(old(state).aggregated@)),
        entries_known(agg_view(old(state).aggregated@), db_view(old(state).db@), sv(old(state).target_names@)),
        forall|i: int, z: int|
            0 <= i < agg_view(old(state).aggregated@).len() && 0 <= z < agg_view(
                old(state).aggregated@,
            )[i].1.1.len() ==> (#[trigger] agg_view(old(state).aggregated@)[i].1.1[z]).0 != root@,
    ensures
        agg_wf(agg_view(final(state).aggregated@)),
        agg_named(agg_view(final(state).aggregated@)),
        db_view(final(state).db@) == db_view(old(state).db@),
        sv(final(state).target_names@) == sv(old(state).target_names@),
        entries_known(agg_view(final(state).aggregated@), db_view(old(state).db@), sv(old(state).target_names@)),
        walk_result(agg_view(old(state).aggregated@), agg_view(final(state).aggregated@), db_view(old(state).db@), root@),
        forall|k: Seq<char>|
            #[trigger] has_key(agg_view(final(state).aggregated@), k) <==> has_key(
                agg_view(old(state).aggregated@),
                k,
            ) || blocking(db_view(old(state).db@), root@, k),
{
    let ghost dbv = db_view(state.db@);
    let ghost agg0 = agg_view(state.aggregated@);
    let (vis, dep) = reach_depths(&state.db, root);
    record_reached(state, root, &vis, &dep);
    proof {
        let agg = agg_view(state.aggregated@);
        let vs = vv(vis@);
        let len = vs.len() as int;
        assert forall|i: int, z: int|
            0 <= i < agg.len() && 0 <= z < agg[i].1.1.len() && (#[trigger] agg[i].1.1[z]).0 == root@
                implies relation_exact(dbv, root@, agg[i].0, agg[i].1.1[z].1) by {
            lemma_rel_exact(dbv, root@, vs, dep@, agg[i].0, agg[i].1.1[z].1);
        }
        assert forall|d: Seq<char>| #[trigger] blocking(dbv, root@, d) implies exists|i: int, z: int|
            0 <= i < agg.len() && 0 <= z < agg[i].1.1.len() && agg[i].0 == d && (
            #[trigger] agg[i].1.1[z]).0 == root@ by {
            lemma_blocking_followed(dbv, root@, vs, d);
            let x = choose|x: int| #[trigger] followed(dbv, vs, len, 0, x, d);
        }
        assert(walk_result(agg0, agg, dbv, root@));
        assert forall|k: Seq<char>| #[trigger] has_key(agg, k) <==> has_key(agg0, k) || blocking(dbv, root@, k) by {
            if has_key(agg, k) {
                let i = choose|i: int| 0 <= i < agg.len() && #[trigger] agg[i].0 == k;
                if i < agg0.len() {
                    assert(agg0[i].0 == k);
                } else {
                    assert(agg[i].1.1.len() > 0);
                    assert(agg[i].1.1[0].0 == root@);
                    assert(relation_exact(dbv, root@, k, agg[i].1.1[0].1));
                }
            }
            if has_key(agg0, k) {
                let i = choose|i: int| 0 <= i < agg0.len() && #[trigger] agg0[i].0 == k;
                assert(agg[i].0 == k);
            }
            if blocking(dbv, root@, k) {
                let (i, z) = choose|i: int, z: int|
                    0 <= i < agg.len() && 0 <= z < agg[i].1.1.len() && agg[i].0 == k && (
                    #[trigger] agg[i].1.1[z]).0 == root@;
                assert(agg[i].0 == k);
            }
        }
    }
}

/// Names of dependency records, in order.
pub open spec fn dependent_names(s: Seq<Dependency>) -> Seq<Seq<char>> {
    s.map_values(|x: Dependency| x.name@)
}

/// Whether a removal target is walked: its trimmed name is not empty and installed.
pub open spec fn walked(db: Seq<InfoView>, name: Seq<char>) -> bool {
    trim(name).len() > 0 && db_lookup(db, trim(name), 0) is Some
}

/// Whether `d` blocks the removal of one of the first `n` targets that are walked.
pub open spec fn blocks_some(db: Seq<InfoView>, targets: Seq<PackageRef>, n: int, d: Seq<char>) -> bool {
    exists|t: int|
        0 <= t < n && walked(db, targets[t].name@) && #[trigger] blocking(
            db,
            trim(targets[t].name@),
            d,
        )
}

/// Whether `r` is the trimmed name of one of the first `n` targets that are walked.
pub open spec fn root_walked(db: Seq<InfoView>, targets: Seq<PackageRef>, n: int, r: Seq<char>) -> bool {
    exists|x: int| 0 <= x < n && walked(db, targets[x].name@) && #[trigger] trim(targets[x].name@) == r
}

/// Whether the entry `e` of dependent `d` is what the installed records `db` give for the first
/// `n` targets: the record of `d`, selected exactly when `d` is a target, one exact relation to
/// each walked target (by trimmed name) whose removal `d` blocks, and no other.
pub open spec fn entry_exact(
    db: Seq<InfoView>,
    targets: Seq<PackageRef>,
    n: int,
    e: (Seq<char>, (InfoView, RootsView, bool)),
) -> bool {
    let (d, (info, rv, selected)) = e;
    &&& db_lookup(db, d, 0) == Some(info)
    &&& selected == targets.map_values(|p: PackageRef| p.name@).contains(d)
    &&& forall|z: int|
        0 <= z < rv.len() ==> root_walked(db, targets, n, (#[trigger] rv[z]).0) && relation_exact(
            db,
            rv[z].0,
            d,
            rv[z].1,
        )
    &&& forall|x: int|
        0 <= x < n && walked(db, targets[x].name@) && #[trigger] blocking(db, trim(targets[x].name@), d)
            ==> has_root(rv, trim(targets[x].name@))
}

/// Whether every entry is what the installed records `db` give for the first `n` targets.
pub open spec fn agg_exact(agg: AggView, db: Seq<InfoView>, targets: Seq<PackageRef>, n: int) -> bool {
    forall|i: int| 0 <= i < agg.len() ==> entry_exact(db, targets, n, #[trigger] agg[i])
}

/// Lemma: entries exact for the first `t` targets stay exact for one more target that is not
/// walked afresh (not installed, or walked already under the same trimmed name).
proof fn lemma_exact_skip(agg: AggView, db: Seq<InfoView>, targets: Seq<PackageRef>, t: int)
    requires
        0 <= t < targets.len(),
        agg_exact(agg, db, targets, t),
        !walked(db, targets[t].name@) || root_walked(db, targets, t, trim(targets[t].name@)),
    ensures
        agg_exact(agg, db, targets, t + 1),
{
    assert forall|i: int| 0 <= i < agg.len() implies entry_exact(db, targets, t + 1, #[trigger] agg[i]) by {
        let (d, (info, rv, selected)) = agg[i];
        assert(entry_exact(db, targets, t, agg[i]));
        assert forall|z: int| 0 <= z < rv.len() implies root_walked(db, targets, t + 1, (#[trigger] rv[z]).0)
            && relation_exact(db, rv[z].0, d, rv[z].1) by {
            assert(root_walked(db, targets, t, rv[z].0));
            let x = choose|x: int| 0 <= x < t && walked(db, targets[x].name@) && #[trigger] trim(targets[x].name@) == rv[z].0;
            assert(0 <= x < t + 1);
        }
        assert forall|x: int|
            0 <= x < t + 1 && walked(db, targets[x].name@) && #[trigger] blocking(db, trim(targets[x].name@), d)
                implies has_root(rv, trim(targets[x].name@)) by {
            if x == t {
                let y = choose|y: int| 0 <= y < t && walked(db, targets[y].name@) && #[trigger] trim(targets[y].name@)
                    == trim(targets[t].name@);
                assert(blocking(db, trim(targets[y].name@), d));
            }
        }
    }
}

/// Lemma: after the walk from a target not walked before, the entries are exact for one more
/// target.
#[verifier::rlimit(40)]
proof fn lemma_exact_after_walk(agg0: AggView, agg: AggView, db: Seq<InfoView>, targets: Seq<PackageRef>, t: int)
    requires
        0 <= t < targets.len(),
        walked(db, targets[t].name@),
        !root_walked(db, targets, t, trim(targets[t].name@)),
        agg_wf(agg),
        agg_exact(agg0, db, targets, t),
        forall|k: Seq<char>| #[trigger] has_key(agg0, k) <==> blocks_some(db, targets, t, k),
        entries_known(agg, db, targets.map_values(|p: PackageRef| p.name@)),
        walk_result(agg0, agg, db, trim(targets[t].name@)),
    ensures
        agg_exact(agg, db, targets, t + 1),
{
    let root = trim(targets[t].name@);
    assert forall|i: int| 0 <= i < agg.len() implies entry_exact(db, targets, t + 1, #[trigger] agg[i]) by {
        let (d, (info, rv, selected)) = agg[i];
        assert forall|z: int| 0 <= z < rv.len() implies root_walked(db, targets, t + 1, (#[trigger] rv[z]).0)
            && relation_exact(db, rv[z].0, d, rv[z].1) by {
            if rv[z].0 == root {
                assert(agg[i].1.1[z] == rv[z]);
                assert(trim(targets[t].name@) == rv[z].0);
            } else {
                assert(agg[i].1.1[z] == rv[z]);
                assert(i < agg0.len());
                assert(agg0[i].1.1.contains(rv[z]));
                let z0 = choose|z0: int| 0 <= z0 < agg0[i].1.1.len() && agg0[i].1.1[z0] == rv[z];
                assert(entry_exact(db, targets, t, agg0[i]));
                assert(agg0[i].0 == d);
                assert(root_walked(db, targets, t, agg0[i].1.1[z0].0));
                let x = choose|x: int| 0 <= x < t && walked(db, targets[x].name@) && #[trigger] trim(targets[x].name@) == rv[z].0;
                assert(0 <= x < t + 1);
            }
        }
        assert forall|x: int|
            0 <= x < t + 1 && walked(db, targets[x].name@) && #[trigger] blocking(db, trim(targets[x].name@), d)
                implies has_root(rv, trim(targets[x].name@)) by {
            if trim(targets[x].name@) == root {
                assert(blocking(db, root, d));
                let (i1, z1) = choose|i1: int, z1: int|
                    0 <= i1 < agg.len() && 0 <= z1 < agg[i1].1.1.len() && agg[i1].0 == d && (
                    #[trigger] agg[i1].1.1[z1]).0 == root;
                if i1 != i {
                    if i1 < i {
                        assert(agg[i1].0 != agg[i].0);
                    } else {
                        assert(agg[i].0 != agg[i1].0);
                    }
                }
                assert(rv[z1].0 == root);
            } else {
                assert(x < t);
                assert(blocks_some(db, targets, t, d));
                assert(has_key(agg0, d));
                let i0 = choose|i0: int| 0 <= i0 < agg0.len() && #[trigger] agg0[i0].0 == d;
                assert(agg[i0].0 == d);
                if i0 != i {
                    if i0 < i {
                        assert(agg[i0].0 != agg[i].0);
                    } else {
                        assert(agg[i].0 != agg[i0].0);
                    }
                }
                assert(entry_exact(db, targets, t, agg0[i0]));
                assert(has_root(agg0[i0].1.1, trim(targets[x].name@)));
                let z0 = choose|z0: int| 0 <= z0 < agg0[i0].1.1.len() && #[trigger] agg0[i0].1.1[z0].0 == trim(targets[x].name@);
                assert(agg[i].1.1.contains(agg0[i0].1.1[z0]));
                let w = choose|w: int| 0 <= w < rv.len() && rv[w] == agg0[i0].1.1[z0];
                assert(rv[w].0 == trim(targets[x].name@));
            }
        }
    }
}

/// Lemma: no dependent among the first `e` relating to `root` as `direct` says makes a count
/// of zero.
proof fn lemma_relation_count_zero(agg: AggView, root: Seq<char>, direct: bool, e: int)
    requires
        forall|i: int| 0 <= i < e ==> !relates(#[trigger] agg[i].1.1, root, direct),
    ensures
        relation_count(agg, root, direct, e) == 0,
    decreases e,
{
    if e > 0 {
        lemma_relation_count_zero(agg, root, direct, e - 1);
        assert(!relates(agg[e - 1].1.1, root, direct));
    }
}

/// Lemma: with exact entries, a package without record has no dependents counted for it.
proof fn lemma_uninstalled_counts(agg: AggView, db: Seq<InfoView>, targets: Seq<PackageRef>, p: Seq<char>, direct: bool)
    requires
        agg_exact(agg, db, targets, targets.len() as int),
        db_lookup(db, p, 0) is None,
    ensures
        relation_count(agg, p, direct, agg.len() as int) == 0,
{
    assert forall|i: int| 0 <= i < agg.len() implies !relates(#[trigger] agg[i].1.1, p, direct) by {
        assert(entry_exact(db, targets, targets.len() as int, agg[i]));
        if relates(agg[i].1.1, p, direct) {
            let z = choose|z: int|
                0 <= z < agg[i].1.1.len() && agg[i].1.1[z].0 == p && #[trigger] direct_relation(p, agg[i].1.1[z].1) == direct;
            assert(root_walked(db, targets, targets.len() as int, agg[i].1.1[z].0));
            let x = choose|x: int|
                0 <= x < targets.len() && walked(db, targets[x].name@) && #[trigger] trim(targets[x].name@) == p;
        }
    }
    lemma_relation_count_zero(agg, p, direct, agg.len() as int);
}

/// Finds, for packages about to be removed, the installed packages that depend on them.
pub struct ReverseDependencyAnalyzer;

/// Whether summaries are in strictly increasing order of package name.
pub open spec fn summaries_sorted(s: Seq<ReverseDependencySummary>) -> bool {
    forall|i: int, j: int|
        0 <= i < j < s.len() ==> lex_order((#[trigger] s[i]).package@, (#[trigger] s[j]).package@)
            == Order::Less
}

/// Whether every target has a summary.
pub open spec fn summaries_cover(s: Seq<ReverseDependencySummary>, targets: Seq<PackageRef>) -> bool {
    forall|t: int|
        0 <= t < targets.len() ==> exists|i: int|
            0 <= i < s.len() && (#[trigger] s[i]).package@ == (#[trigger] targets[t]).name@
}

/// Whether a dependent's relation to target `root` is direct: `root` is among its parents, or
/// its shortest path has length 1.
pub open spec fn direct_relation(root: Seq<char>, rel: RelView) -> bool {
    rel.0.contains(root) || rel.1 == 1
}

/// Whether relations `rv` relate to target `root`, directly or not as `direct` says.
pub open spec fn relates(rv: RootsView, root: Seq<char>, direct: bool) -> bool {
    exists|z: int| 0 <= z < rv.len() && rv[z].0 == root && #[trigger] direct_relation(root, rv[z].1) == direct
}

/// Number of the first `e` dependents that relate to target `root`, directly or not as
/// `direct` says.
pub open spec fn relation_count(agg: AggView, root: Seq<char>, direct: bool, e: int) -> nat
    decreases e,
{
    if e <= 0 {
        0
    } else {
        relation_count(agg, root, direct, e - 1) + if relates(agg[e - 1].1.1, root, direct) {
            1nat
        } else {
            0nat
        }
    }
}

/// Whether summary `s` counts, among the dependents `agg`, those that relate to its package
/// directly and those that relate to it through others.
pub open spec fn summary_counts(s: ReverseDependencySummary, agg: AggView) -> bool {
    &&& s.direct_dependents == relation_count(agg, s.package@, true, agg.len() as int)
    &&& s.transitive_dependents == relation_count(agg, s.package@, false, agg.len() as int)
}

/// Relations of an entry as (target, parents, depth).
pub open spec fn rels_of(rv: RootsView) -> Seq<(Seq<char>, Seq<Seq<char>>, usize)> {
    rv.map_values(|x: (Seq<char>, RelView)| (x.0, x.1.0, x.1.1))
}

/// Whether `d` is the record of dependent `e` (see `convert_entry`).
pub open spec fn dependent_record(e: (Seq<char>, (InfoView, RootsView, bool)), d: Dependency) -> bool {
    let (key, (info, rv, selected)) = e;
    let rels = rels_of(rv);
    &&& d.name@ == (if info.0.len() == 0 {
        key
    } else {
        info.0
    })
    &&& d.version_req@.len() == 0
    &&& d.status matches DependencyStatus::Conflict { reason } && reason@ == entry_reason(
        rels,
        selected,
        info.5,
    )
    &&& source_view(d.source) == repo_source(info.2)
    &&& sv(d.required_by@) == rels.map_values(|x: (Seq<char>, Seq<Seq<char>>, usize)| x.0).sort_by(
        lex_leq(),
    )
    &&& sv(d.depends_on@) == dedup(all_parents(rels)).sort_by(lex_leq())
    &&& d.is_core == (match info.2 {
        Some(x) => eq_ignore_ascii_case(x, "core"@),
        None => false,
    })
    &&& d.is_system == (info.3.contains("base"@) || info.3.contains("base-devel"@))
}

/// One when the first `a` relations relate to target `root` as `direct` says, else zero.
pub open spec fn partial_count(rv: RootsView, a: int, root: Seq<char>, direct: bool) -> nat {
    if relates(rv.take(a), root, direct) {
        1
    } else {
        0
    }
}

/// Lemma: one more relation relates to `root` when it or an earlier one does.
proof fn lemma_relates_take_step(rv: RootsView, a: int, root: Seq<char>, direct: bool)
    requires
        0 <= a < rv.len(),
    ensures
        relates(rv.take(a + 1), root, direct) == (relates(rv.take(a), root, direct) || (rv[a].0 == root
            && direct_relation(root, rv[a].1) == direct)),
{
    let t0 = rv.take(a);
    let t1 = rv.take(a + 1);
    if relates(t1, root, direct) {
        let z = choose|z: int| 0 <= z < t1.len() && t1[z].0 == root && #[trigger] direct_relation(root, t1[z].1) == direct;
        if z < a {
            assert(t0[z] == t1[z]);
        }
    }
    if relates(t0, root, direct) {
        let z = choose|z: int| 0 <= z < t0.len() && t0[z].0 == root && #[trigger] direct_relation(root, t0[z].1) == direct;
        assert(t1[z] == t0[z]);
    }
    if rv[a].0 == root && direct_relation(root, rv[a].1) == direct {
        assert(t1[a] == rv[a]);
    }
}

/// Whether `d` is the record of one of the dependents `agg`.
pub open spec fn has_record(agg: AggView, d: Dependency) -> bool {
    exists|k: int| 0 <= k < agg.len() && #[trigger] dependent_record(agg[k], d)
}

/// Whether a report describes the dependents `agg` of the targets: the record of each, by name,
/// and for each summary the direct and transitive counts among them.
pub open spec fn report_of(report: ReverseDependencyReport, agg: AggView) -> bool {
    &&& agg_wf(agg)
    &&& forall|d: Seq<char>| #[trigger] dependent_names(report.dependents@).contains(d) <==> has_key(agg, d)
    &&& forall|i: int|
        0 <= i < report.dependents@.len() ==> has_record(agg, #[trigger] report.dependents@[i])
    &&& forall|i: int|
        0 <= i < report.summaries@.len() ==> summary_counts(#[trigger] report.summaries@[i], agg)
}

/// Index of the summary of `package`.
fn summary_index(s: &Vec<ReverseDependencySummary>, package: &str) -> (r: Option<usize>)
    ensures
        match r {
            Some(i) => i < s@.len() && s@[i as int].package@ == package@,
            None => forall|i: int| 0 <= i < s@.len() ==> (#[trigger] s@[i]).package@ != package@,
        },
{
    let mut i: usize = 0;
    while i < s.len()
        invariant
            i <= s@.len(),
            forall|j: int| 0 <= j < i ==> (#[trigger] s@[j]).package@ != package@,
        decreases s@.len() - i,
    {
        if crate::text::str_eq(s[i].package.as_str(), package) {
            return Some(i);
        }
        i += 1;
    }
    None
}

/// Counts, for each target that some dependent relates to, the dependents that relate to it
/// directly and those that relate to it through others: one summary per such target.
#[verifier::rlimit(100)]
#[verifier::spinoff_prover]
fn count_relations(aggregated: &Vec<(String, AggregatedEntry)>) -> (summaries: Vec<ReverseDependencySummary>)
    requires
        agg_wf(agg_view(aggregated@)),
    ensures
        forall|i: int|
            0 <= i < summaries@.len() ==> summary_counts(#[trigger] summaries@[i], agg_view(aggregated@)),
        forall|q: Seq<char>|
            #![trigger relation_count(agg_view(aggregated@), q, true, aggregated@.len() as int)]
            relation_count(agg_view(aggregated@), q, true, aggregated@.len() as int) > 0
                || relation_count(agg_view(aggregated@), q, false, aggregated@.len() as int) > 0
                ==> exists|i: int| 0 <= i < summaries@.len() && (#[trigger] summaries@[i]).package@ == q,
        forall|i: int|
            0 <= i < summaries@.len() ==> (#[trigger] summaries@[i]).total_dependents
                == summaries@[i].direct_dependents + summaries@[i].transitive_dependents,
        forall|i: int, j: int|
            0 <= i < j < summaries@.len() ==> (#[trigger] summaries@[i]).package@ != (
            #[trigger] summaries@[j]).package@,
{
    let ghost av = agg_view(aggregated@);
    let mut summaries: Vec<ReverseDependencySummary> = Vec::new();
    let mut e: usize = 0;
    while e < aggregated.len()
        invariant
            e <= aggregated@.len(),
            av == agg_view(aggregated@),
            agg_wf(agg_view(aggregated@)),
            forall|i: int|
                0 <= i < summaries@.len() ==> (#[trigger] summaries@[i]).direct_dependents
                    == relation_count(av, summaries@[i].package@, true, e as int)
                    && summaries@[i].transitive_dependents == relation_count(
                    av,
                    summaries@[i].package@,
                    false,
                    e as int,
                ),
            forall|q: Seq<char>|
                #![trigger relation_count(av, q, true, e as int)]
                relation_count(av, q, true, e as int) > 0 || relation_count(av, q, false, e as int) > 0
                    ==> exists|i: int| 0 <= i < summaries@.len() && (#[trigger] summaries@[i]).package@ == q,
            forall|i: int| 0 <= i < summaries@.len() ==> {
                &&& (#[trigger] summaries@[i]).total_dependents == summaries@[i].direct_dependents
                    + summaries@[i].transitive_dependents
                &&& summaries@[i].direct_dependents + summaries@[i].transitive_dependents <= e
            },
            forall|i: int, j: int|
                0 <= i < j < summaries@.len() ==> (#[trigger] summaries@[i]).package@ != (
                #[trigger] summaries@[j]).package@,
        decreases aggregated@.len() - e,
    {
        let per_root = &aggregated[e].1.per_root;
        let ghost rv = roots_view(per_root@);
        assert(rv == agg_view(aggregated@)[e as int].1.1);
        proof {
            assert forall|q: Seq<char>, d: bool| #[trigger] partial_count(rv, 0, q, d) == 0 by {
                assert(rv.take(0).len() == 0);
            }
        }
        let mut a: usize = 0;
        while a < per_root.len()
            invariant
                a <= per_root@.len(),
                e < aggregated@.len(),
                aggregated@.len() <= usize::MAX,
                rv == roots_view(per_root@),
                rv == av[e as int].1.1,
                av == agg_view(aggregated@),
                forall|x: int, y: int|
                    0 <= x < y < rv.len() ==> (#[trigger] rv[x]).0 != (#[trigger] rv[y]).0,
                forall|i: int|
                    0 <= i < summaries@.len() ==> (#[trigger] summaries@[i]).direct_dependents
                        == relation_count(av, summaries@[i].package@, true, e as int) + partial_count(
                        rv,
                        a as int,
                        summaries@[i].package@,
                        true,
                    ) && summaries@[i].transitive_dependents == relation_count(
                        av,
                        summaries@[i].package@,
                        false,
                        e as int,
                    ) + partial_count(rv, a as int, summaries@[i].package@, false),
                forall|q: Seq<char>|
                    #![trigger relation_count(av, q, true, e as int)]
                    relation_count(av, q, true, e as int) > 0 || relation_count(av, q, false, e as int)
                        > 0 || (exists|z: int| 0 <= z < a && rv[z].0 == q) ==> exists|i: int|
                        0 <= i < summaries@.len() && (#[trigger] summaries@[i]).package@ == q,
                forall|i: int| 0 <= i < summaries@.len() ==> {
                    &&& (#[trigger] summaries@[i]).total_dependents
                        == summaries@[i].direct_dependents + summaries@[i].transitive_dependents
                    &&& summaries@[i].direct_dependents + summaries@[i].transitive_dependents
                        <= e + (if exists|z: int| 0 <= z < a && rv[z].0 == summaries@[i].package@ {
                        1int
                    } else {
                        0int
                    })
                },
                forall|i: int, j: int|
                    0 <= i < j < summaries@.len() ==> (#[trigger] summaries@[i]).package@ != (
                    #[trigger] summaries@[j]).package@,
            decreases per_root@.len() - a,
        {
            let root = per_root[a].0.as_str();
            let rel = &per_root[a].1;
            let direct = crate::deps::query::names_contain(&rel.parents, root) || rel.min_depth
                == 1;
            let ghost old_s = summaries@;
            proof {
                assert(rv[a as int].1 == (sv(rel.parents@), rel.min_depth));
                assert(direct == direct_relation(root@, rv[a as int].1));
                lemma_relates_take_step(rv, a as int, root@, true);
                lemma_relates_take_step(rv, a as int, root@, false);
                assert(!relates(rv.take(a as int), root@, true) && !relates(rv.take(a as int), root@, false)) by {
                    if relates(rv.take(a as int), root@, true) || relates(rv.take(a as int), root@, false) {
                        let z = choose|z: int| 0 <= z < rv.take(a as int).len() && rv.take(a as int)[z].0 == root@
                            && #[trigger] direct_relation(root@, rv.take(a as int)[z].1) == true
                            || 0 <= z < rv.take(a as int).len() && rv.take(a as int)[z].0 == root@
                            && direct_relation(root@, rv.take(a as int)[z].1) == false;
                        assert(rv[z].0 != rv[a as int].0);
                    }
                }
            }
            let idx = match summary_index(&summaries, root) {
                Some(i) => i,
                None => {
                    proof {
                        if relation_count(av, root@, true, e as int) > 0 || relation_count(av, root@, false, e as int) > 0 {
                            let i = choose|i: int| 0 <= i < summaries@.len() && (#[trigger] summaries@[i]).package@ == root@;
                            assert(summaries@[i].package@ != root@);
                        }
                    }
                    summaries.push(
                        ReverseDependencySummary {
                            package: root.to_owned(),
                            direct_dependents: 0,
                            transitive_dependents: 0,
                            total_dependents: 0,
                        },
                    );
                    summaries.len() - 1
                },
            };
            proof {
                assert(rv[a as int].0 == root@);
                assert(!exists|z: int| 0 <= z < a && rv[z].0 == root@) by {
                    if exists|z: int| 0 <= z < a && rv[z].0 == root@ {
                        let z = choose|z: int| 0 <= z < a && rv[z].0 == root@;
                        assert(rv[z].0 != rv[a as int].0);
                    }
                }
            }
            assert(summaries@[idx as int].direct_dependents
                + summaries@[idx as int].transitive_dependents <= e);
            let mut s = summaries.remove(idx);
            if direct {
                s.direct_dependents = s.direct_dependents + 1;
            } else {
                s.transitive_dependents = s.transitive_dependents + 1;
            }
            s.total_dependents = s.direct_dependents + s.transitive_dependents;
            summaries.insert(idx, s);
            proof {
                assert forall|i: int| 0 <= i < summaries@.len() implies {
                    &&& (#[trigger] summaries@[i]).total_dependents
                        == summaries@[i].direct_dependents + summaries@[i].transitive_dependents
                    &&& summaries@[i].direct_dependents + summaries@[i].transitive_dependents
                        <= e + (if exists|z: int| 0 <= z < a + 1 && rv[z].0 == summaries@[i].package@ {
                        1int
                    } else {
                        0int
                    })
                } by {
                    if i != idx {
                        if i < old_s.len() {
                            assert(summaries@[i] == old_s[i]);
                            if exists|z: int| 0 <= z < a && rv[z].0 == old_s[i].package@ {
                                let z = choose|z: int| 0 <= z < a && rv[z].0 == old_s[i].package@;
                                assert(0 <= z < a + 1 && rv[z].0 == summaries@[i].package@);
                            }
                        }
                    } else {
                        assert(rv[a as int].0 == summaries@[i].package@);
                    }
                }
                assert forall|i: int, j: int|
                    0 <= i < j < summaries@.len() implies (#[trigger] summaries@[i]).package@ != (
                    #[trigger] summaries@[j]).package@ by {
                    if i != idx && j != idx && j < old_s.len() {
                        assert(summaries@[i] == old_s[i] && summaries@[j] == old_s[j]);
                    } else if i == idx && j < old_s.len() {
                        assert(summaries@[j] == old_s[j]);
                    } else if j == idx && i < old_s.len() {
                        assert(summaries@[i] == old_s[i]);
                    }
                }
                assert forall|i: int| 0 <= i < summaries@.len() implies (#[trigger] summaries@[i]).direct_dependents
                    == relation_count(av, summaries@[i].package@, true, e as int) + partial_count(
                    rv,
                    a + 1,
                    summaries@[i].package@,
                    true,
                ) && summaries@[i].transitive_dependents == relation_count(
                    av,
                    summaries@[i].package@,
                    false,
                    e as int,
                ) + partial_count(rv, a + 1, summaries@[i].package@, false) by {
                    let q = summaries@[i].package@;
                    lemma_relates_take_step(rv, a as int, q, true);
                    lemma_relates_take_step(rv, a as int, q, false);
                    if i != idx {
                        assert(i < old_s.len());
                        assert(summaries@[i] == old_s[i]);
                        assert(q != root@);
                    }
                }
                assert forall|q: Seq<char>|
                    #![trigger relation_count(av, q, true, e as int)]
                    relation_count(av, q, true, e as int) > 0 || relation_count(av, q, false, e as int)
                        > 0 || (exists|z: int| 0 <= z < a + 1 && rv[z].0 == q) implies exists|i: int|
                        0 <= i < summaries@.len() && (#[trigger] summaries@[i]).package@ == q by {
                    if q == root@ {
                        assert(summaries@[idx as int].package@ == q);
                    } else {
                        if exists|z: int| 0 <= z < a + 1 && rv[z].0 == q {
                            let z = choose|z: int| 0 <= z < a + 1 && rv[z].0 == q;
                            assert(z != a);
                        }
                        let i = choose|i: int| 0 <= i < old_s.len() && (#[trigger] old_s[i]).package@ == q;
                        if i < idx || idx >= old_s.len() {
                            assert(summaries@[i] == old_s[i]);
                        } else {
                            assert(summaries@[i] == old_s[i]);
                        }
                    }
                }
            }
            a += 1;
        }
        proof {
            assert forall|i: int| 0 <= i < summaries@.len() implies (#[trigger] summaries@[i]).direct_dependents
                + summaries@[i].transitive_dependents <= e + 1 by {}
            assert(rv.take(rv.len() as int) =~= rv);
            assert forall|i: int| 0 <= i < summaries@.len() implies (#[trigger] summaries@[i]).direct_dependents
                == relation_count(av, summaries@[i].package@, true, e + 1)
                && summaries@[i].transitive_dependents == relation_count(
                av,
                summaries@[i].package@,
                false,
                e + 1,
            ) by {}
            assert forall|q: Seq<char>|
                #![trigger relation_count(av, q, true, e + 1)]
                relation_count(av, q, true, e + 1) > 0 || relation_count(av, q, false, e + 1) > 0
                    implies exists|i: int| 0 <= i < summaries@.len() && (#[trigger] summaries@[i]).package@ == q by {
                if relates(rv, q, true) || relates(rv, q, false) {
                    let z = choose|z: int| 0 <= z < rv.len() && rv[z].0 == q && #[trigger] direct_relation(q, rv[z].1) == true
                        || 0 <= z < rv.len() && rv[z].0 == q && direct_relation(q, rv[z].1) == false;
                    assert(0 <= z < a && rv[z].0 == q);
                }
                assert(relation_count(av, q, true, e as int) == relation_count(av, q, true, e + 1) - (if relates(rv, q, true) { 1int } else { 0int }));
            }
        }
        e += 1;
    }
    proof {
        assert(e == av.len());
    }
    summaries
}

impl ReverseDependencyAnalyzer {
    /// An analyzer.
    pub fn new() -> (r: ReverseDependencyAnalyzer) {
        ReverseDependencyAnalyzer
    }

    /// Walks, from each removal target that is installed, the packages that depend on it
    /// (`db` holds the records of the installed packages), and reports each dependent once, as a
    /// conflict explaining which targets it blocks, with one summary per target: how many
    /// dependents depend on it directly and how many through others.
    #[verifier::rlimit(100)]
    #[verifier::spinoff_prover]
    pub fn analyze(&self, packages: &[PackageRef], db: Vec<PkgInfo>) -> (r: Result<
        ReverseDependencyReport,
        crate::error::ArchToolkitError,
    >)
        ensures
            r matches Ok(report) && {
                &&& packages@.len() == 0 ==> report.dependents@.len() == 0
                    && report.summaries@.len() == 0
                &&& summaries_cover(report.summaries@, packages@)
                &&& summaries_sorted(report.summaries@)
                &&& forall|i: int|
                    0 <= i < report.summaries@.len() ==> (#[trigger] report.summaries@[i]).total_dependents
                        == report.summaries@[i].direct_dependents
                        + report.summaries@[i].transitive_dependents
                &&& sorted_by(
                    report.dependents@.map_values(|d: Dependency| d.name@),
                    lex_leq(),
                )
                &&& forall|d: Seq<char>|
                    #[trigger] dependent_names(report.dependents@).contains(d) <==> blocks_some(
                        db_view(db@),
                        packages@,
                        packages@.len() as int,
                        d,
                    )
                &&& forall|i: int|
                    0 <= i < report.summaries@.len() && db_lookup(
                        db_view(db@),
                        (#[trigger] report.summaries@[i]).package@,
                        0,
                    ) is None ==> report.summaries@[i].direct_dependents == 0
                        && report.summaries@[i].transitive_dependents == 0
                &&& exists|agg: AggView|
                    #[trigger] report_of(report, agg) && agg_exact(agg, db_view(db@), packages@, packages@.len() as int)
            },
    {
        if packages.len() == 0 {
            let report = ReverseDependencyReport::default();
            assert(dependent_names(report.dependents@) =~= Seq::<Seq<char>>::empty());
            assert(report_of(report, Seq::<(Seq<char>, (InfoView, RootsView, bool))>::empty()));
            assert(agg_exact(Seq::<(Seq<char>, (InfoView, RootsView, bool))>::empty(), db_view(db@), packages@, 0));
            return Ok(report);
        }
        let ghost dbv = db_view(db@);
        let ghost names = packages@.map_values(|p: PackageRef| p.name@);
        let mut state = ReverseResolverState::new(packages, db);
        assert(agg_view(state.aggregated@) =~= Seq::<(Seq<char>, (InfoView, RootsView, bool))>::empty());
        // Each trimmed root is walked once: a second walk from it would record nothing new.
        let mut walked_roots: Vec<String> = Vec::new();
        proof {
            assert forall|r: Seq<char>| #[trigger] sv(walked_roots@).contains(r) <==> root_walked(dbv, packages@, 0, r) by {
                assert(sv(walked_roots@).len() == 0);
            }
        }
        let mut t: usize = 0;
        while t < packages.len()
            invariant
                t <= packages@.len(),
                agg_wf(agg_view(state.aggregated@)),
                agg_named(agg_view(state.aggregated@)),
                db_view(state.db@) == dbv,
                names == packages@.map_values(|p: PackageRef| p.name@),
                sv(state.target_names@) == names,
                agg_exact(agg_view(state.aggregated@), dbv, packages@, t as int),
                forall|r: Seq<char>|
                    #[trigger] sv(walked_roots@).contains(r) <==> root_walked(dbv, packages@, t as int, r),
                forall|k: Seq<char>|
                    #[trigger] has_key(agg_view(state.aggregated@), k) <==> blocks_some(
                        dbv,
                        packages@,
                        t as int,
                        k,
                    ),
            decreases packages@.len() - t,
        {
            let ghost before = agg_view(state.aggregated@);
            let ghost roots_before = sv(walked_roots@);
            let root = crate::text::trim_str(packages[t].name.as_str());
            let mut walk = false;
            if !root.is_empty() {
                if state.pkg_info(root).is_some() {
                    walk = true;
                }
            }
            assert(walk == walked(dbv, packages@[t as int].name@));
            let fresh = walk && !crate::deps::query::names_contain(&walked_roots, root);
            if fresh {
                proof {
                    assert forall|i: int| 0 <= i < before.len() implies db_lookup(dbv, (#[trigger] before[i]).0, 0)
                        == Some(before[i].1.0) && before[i].1.2 == names.contains(before[i].0) by {
                        assert(entry_exact(dbv, packages@, t as int, before[i]));
                    }
                    assert forall|i: int, z: int|
                        0 <= i < before.len() && 0 <= z < before[i].1.1.len() implies (
                        #[trigger] before[i].1.1[z]).0 != root@ by {
                        assert(entry_exact(dbv, packages@, t as int, before[i]));
                        assert(root_walked(dbv, packages@, t as int, before[i].1.1[z].0));
                    }
                }
                walk_from(&mut state, root);
                proof {
                    lemma_exact_after_walk(before, agg_view(state.aggregated@), dbv, packages@, t as int);
                }
                walked_roots.push(root.to_owned());
                proof {
                    assert(sv(walked_roots@) =~= roots_before.push(root@));
                }
            } else {
                proof {
                    if walk {
                        assert(roots_before.contains(root@));
                    }
                    lemma_exact_skip(before, dbv, packages@, t as int);
                }
            }
            proof {
                assert forall|r: Seq<char>|
                    #[trigger] sv(walked_roots@).contains(r) <==> root_walked(dbv, packages@, t + 1, r) by {
                    if root_walked(dbv, packages@, t + 1, r) {
                        let x = choose|x: int|
                            0 <= x < t + 1 && walked(dbv, packages@[x].name@) && #[trigger] trim(packages@[x].name@) == r;
                        if x < t {
                            assert(root_walked(dbv, packages@, t as int, r));
                            assert(roots_before.contains(r));
                            if fresh {
                                let w = choose|w: int| 0 <= w < roots_before.len() && roots_before[w] == r;
                                assert(sv(walked_roots@)[w] == r);
                            }
                        } else if fresh {
                            assert(sv(walked_roots@)[roots_before.len() as int] == r);
                        }
                    }
                    if sv(walked_roots@).contains(r) {
                        if fresh && r == root@ {
                            assert(trim(packages@[t as int].name@) == r);
                        } else {
                            if fresh {
                                let w = choose|w: int| 0 <= w < sv(walked_roots@).len() && sv(walked_roots@)[w] == r;
                                assert(w < roots_before.len());
                                assert(roots_before[w] == r);
                            } else {
                                assert(sv(walked_roots@) == roots_before);
                            }
                            assert(roots_before.contains(r));
                            assert(root_walked(dbv, packages@, t as int, r));
                            let x = choose|x: int|
                                0 <= x < t && walked(dbv, packages@[x].name@) && #[trigger] trim(packages@[x].name@) == r;
                            assert(0 <= x < t + 1);
                        }
                    }
                }
                assert forall|k: Seq<char>|
                    #[trigger] has_key(agg_view(state.aggregated@), k) <==> blocks_some(
                        dbv,
                        packages@,
                        t + 1,
                        k,
                    ) by {
                    if blocks_some(dbv, packages@, t + 1, k) {
                        let x = choose|x: int|
                            0 <= x < t + 1 && walked(dbv, packages@[x].name@) && #[trigger] blocking(
                                dbv,
                                trim(packages@[x].name@),
                                k,
                            );
                        if x < t {
                            assert(blocks_some(dbv, packages@, t as int, k));
                        } else if !fresh {
                            assert(roots_before.contains(root@));
                            let y = choose|y: int|
                                0 <= y < t && walked(dbv, packages@[y].name@) && #[trigger] trim(packages@[y].name@) == root@;
                            assert(blocking(dbv, trim(packages@[y].name@), k));
                            assert(blocks_some(dbv, packages@, t as int, k));
                        }
                    }
                    if has_key(agg_view(state.aggregated@), k) && !has_key(before, k) {
                        assert(blocking(dbv, trim(packages@[t as int].name@), k));
                    }
                    if has_key(before, k) {
                        let x = choose|x: int|
                            0 <= x < t && walked(dbv, packages@[x].name@) && #[trigger] blocking(
                                dbv,
                                trim(packages@[x].name@),
                                k,
                            );
                        assert(0 <= x < t + 1);
                    }
                }
            }
            t += 1;
        }
        let aggregated = state.aggregated;
        let ghost av = agg_view(aggregated@);
        let mut summaries = count_relations(&aggregated);
        // Every target has a summary.
        let mut t: usize = 0;
        while t < packages.len()
            invariant
                t <= packages@.len(),
                forall|i: int| 0 <= i < summaries@.len() ==> (#[trigger] summaries@[i]).total_dependents
                    == summaries@[i].direct_dependents + summaries@[i].transitive_dependents,
                forall|i: int, j: int|
                    0 <= i < j < summaries@.len() ==> (#[trigger] summaries@[i]).package@ != (
                    #[trigger] summaries@[j]).package@,
                forall|x: int|
                    0 <= x < t ==> exists|i: int|
                        0 <= i < summaries@.len() && (#[trigger] summaries@[i]).package@ == (
                        #[trigger] packages@[x]).name@,
                forall|i: int|
                    0 <= i < summaries@.len() ==> summary_counts(#[trigger] summaries@[i], av),
                forall|q: Seq<char>|
                    #![trigger relation_count(av, q, true, av.len() as int)]
                    relation_count(av, q, true, av.len() as int) > 0 || relation_count(av, q, false, av.len() as int) > 0
                        ==> exists|i: int| 0 <= i < summaries@.len() && (#[trigger] summaries@[i]).package@ == q,
            decreases packages@.len() - t,
        {
            let name = packages[t].name.as_str();
            match summary_index(&summaries, name) {
                Some(i) => {
                    assert(summaries@[i as int].package@ == packages@[t as int].name@);
                },
                None => {
                    let ghost old_s = summaries@;
                    proof {
                        let q = packages@[t as int].name@;
                        if relation_count(av, q, true, av.len() as int) > 0 || relation_count(av, q, false, av.len() as int) > 0 {
                            let i = choose|i: int| 0 <= i < summaries@.len() && (#[trigger] summaries@[i]).package@ == q;
                            assert(summaries@[i].package@ != q);
                        }
                    }
                    summaries.push(
                        ReverseDependencySummary {
                            package: packages[t].name.clone(),
                            direct_dependents: 0,
                            transitive_dependents: 0,
                            total_dependents: 0,
                        },
                    );
                    proof {
                        assert forall|x: int| 0 <= x < t + 1 implies exists|i: int|
                            0 <= i < summaries@.len() && (#[trigger] summaries@[i]).package@ == (
                            #[trigger] packages@[x]).name@ by {
                            if x < t {
                                let i = choose|i: int|
                                    0 <= i < old_s.len() && old_s[i].package@ == packages@[x].name@;
                                assert(summaries@[i] == old_s[i]);
                            } else {
                                assert(summaries@[old_s.len() as int].package@ == packages@[x].name@);
                            }
                        }
                        assert forall|i: int, j: int|
                            0 <= i < j < summaries@.len() implies (#[trigger] summaries@[i]).package@
                            != (#[trigger] summaries@[j]).package@ by {
                            if j < old_s.len() {
                                assert(summaries@[i] == old_s[i] && summaries@[j] == old_s[j]);
                            } else {
                                assert(summaries@[i] == old_s[i]);
                            }
                        }
                        assert forall|i: int| 0 <= i < summaries@.len() implies summary_counts(
                            #[trigger] summaries@[i],
                            av,
                        ) by {
                            if i < old_s.len() {
                                assert(summaries@[i] == old_s[i]);
                            }
                        }
                        assert forall|q: Seq<char>|
                            #![trigger relation_count(av, q, true, av.len() as int)]
                            relation_count(av, q, true, av.len() as int) > 0 || relation_count(av, q, false, av.len() as int) > 0
                                implies exists|i: int| 0 <= i < summaries@.len() && (#[trigger] summaries@[i]).package@ == q by {
                            let i = choose|i: int| 0 <= i < old_s.len() && (#[trigger] old_s[i]).package@ == q;
                            assert(summaries@[i] == old_s[i]);
                        }
                    }
                },
            }
            t += 1;
        }
        let ghost unsorted = summaries@;
        let summaries = sort_summaries(summaries);
        proof {
            assert forall|x: int| 0 <= x < packages@.len() implies exists|i: int|
                0 <= i < summaries@.len() && (#[trigger] summaries@[i]).package@ == (
                #[trigger] packages@[x]).name@ by {
                let i = choose|i: int|
                    0 <= i < unsorted.len() && unsorted[i].package@ == packages@[x].name@;
                assert(unsorted.contains(unsorted[i]));
                assert(summaries@.contains(unsorted[i]));
                let j = choose|j: int| 0 <= j < summaries@.len() && summaries@[j] == unsorted[i];
                assert(summaries@[j].package@ == packages@[x].name@);
            }
        }
        proof {
            assert forall|i: int| 0 <= i < summaries@.len() implies summary_counts(#[trigger] summaries@[i], av) by {
                let j = choose|j: int| 0 <= j < unsorted.len() && unsorted[j] == summaries@[i];
                assert(summary_counts(unsorted[j], av));
            }
        }
        let dependents = convert_all(aggregated);
        assert(summaries_cover(summaries@, packages@));
        let report = ReverseDependencyReport { dependents, summaries };
        assert(report_of(report, av));
        assert(agg_exact(av, dbv, packages@, packages@.len() as int));
        proof {
            assert forall|i: int|
                0 <= i < report.summaries@.len() && db_lookup(dbv, (#[trigger] report.summaries@[i]).package@, 0)
                    is None implies report.summaries@[i].direct_dependents == 0
                    && report.summaries@[i].transitive_dependents == 0 by {
                let q = report.summaries@[i].package@;
                assert(summary_counts(report.summaries@[i], av));
                lemma_uninstalled_counts(av, dbv, packages@, q, true);
                lemma_uninstalled_counts(av, dbv, packages@, q, false);
            }
        }
        Ok(report)
    }
}

/// The items of keyed pairs, in order.
pub(crate) fn unkey_pairs<T>(v: Vec<(Vec<char>, T)>) -> (r: Vec<T>)
    ensures
        r@ == v@.map_values(|p: (Vec<char>, T)| p.1),
{
    let ghost orig = v@;
    let mut rest = v;
    let mut out: Vec<T> = Vec::new();
    while rest.len() > 0
        invariant
            out@.len() + rest@.len() == orig.len(),
            out@ == orig.take(out@.len() as int).map_values(|p: (Vec<char>, T)| p.1),
            rest@ == orig.skip(out@.len() as int),
        decreases rest@.len(),
    {
        let ghost n = out@.len();
        let x = rest.remove(0);
        assert(x == orig[n as int]);
        out.push(x.1);
        assert(orig.take(n as int + 1) =~= orig.take(n as int).push(orig[n as int]));
        assert(out@ =~= orig.take(n as int + 1).map_values(|p: (Vec<char>, T)| p.1));
        assert(rest@ =~= orig.skip(n as int + 1));
    }
    assert(orig.take(orig.len() as int) =~= orig);
    out
}

/// Lemma: a property of every pair survives reordering.
pub(crate) proof fn lemma_keyed_transfer<T>(
    a: Seq<(Vec<char>, T)>,
    b: Seq<(Vec<char>, T)>,
    f: spec_fn(T) -> Seq<char>,
)
    requires
        a.to_multiset() == b.to_multiset(),
        forall|i: int| 0 <= i < a.len() ==> (#[trigger] a[i]).0@ == f(a[i].1),
    ensures
        forall|i: int| 0 <= i < b.len() ==> (#[trigger] b[i]).0@ == f(b[i].1),
{
    broadcast use vstd::seq_lib::group_to_multiset_ensures;

    assert forall|i: int| 0 <= i < b.len() implies (#[trigger] b[i]).0@ == f(b[i].1) by {
        assert(b.contains(b[i]));
        assert(b.to_multiset().count(b[i]) > 0);
        assert(a.to_multiset().count(b[i]) > 0);
        assert(a.contains(b[i]));
        let k = choose|k: int| 0 <= k < a.len() && a[k] == b[i];
    }
}

/// The dependency records of the dependents, in order of name.
fn convert_all(aggregated: Vec<(String, AggregatedEntry)>) -> (r: Vec<Dependency>)
    requires
        agg_named(agg_view(aggregated@)),
    ensures
        sorted_by(r@.map_values(|d: Dependency| d.name@), lex_leq()),
        r@.len() == aggregated@.len(),
        forall|d: Seq<char>|
            #[trigger] dependent_names(r@).contains(d) <==> has_key(
                agg_view(aggregated@),
                d,
            ),
        forall|i: int| 0 <= i < r@.len() ==> has_record(agg_view(aggregated@), #[trigger] r@[i]),
{
    broadcast use vstd::seq_lib::group_to_multiset_ensures;

    let ghost n = aggregated@.len();
    let ghost av = agg_view(aggregated@);
    let mut rest = aggregated;
    let mut keyed: Vec<(Vec<char>, Dependency)> = Vec::new();
    while rest.len() > 0
        invariant
            keyed@.len() + rest@.len() == n,
            av.len() == n,
            agg_named(av),
            agg_view(rest@) == av.skip(keyed@.len() as int),
            forall|k: int| 0 <= k < keyed@.len() ==> (#[trigger] keyed@[k]).0@ == keyed@[k].1.name@,
            forall|k: int| 0 <= k < keyed@.len() ==> (#[trigger] keyed@[k]).0@ == av[k].0,
            forall|k: int| 0 <= k < keyed@.len() ==> dependent_record(av[k], (#[trigger] keyed@[k]).1),
        decreases rest@.len(),
    {
        let ghost done = keyed@.len() as int;
        let ghost old_rest = rest@;
        assert(agg_view(rest@)[0] == av[done]);
        let (name, entry) = rest.remove(0);
        assert(rest@ =~= old_rest.skip(1));
        assert(agg_view(old_rest.skip(1)) =~= agg_view(old_rest).skip(1));
        assert(av.skip(done).skip(1) =~= av.skip(done + 1));
        assert(agg_view(rest@) =~= av.skip(done + 1));
        assert(av[done].0 == name@ && av[done].1.0 == info_view(entry.info));
        let ghost ent = entry;
        let d = convert_entry(name, entry);
        proof {
            assert(relations_view(ent.per_root@) =~= rels_of(roots_view(ent.per_root@)));
            assert(av[done].1.1 == roots_view(ent.per_root@));
            assert(av[done].1.2 == ent.selected_for_removal);
            assert(dependent_record(av[done], d));
        }
        let key = to_chars(d.name.as_str());
        let ghost kb = keyed@;
        keyed.push((key, d));
        assert forall|k: int| 0 <= k < keyed@.len() implies (#[trigger] keyed@[k]).0@ == av[k].0 by {
            if k < kb.len() {
                assert(keyed@[k] == kb[k]);
            }
        }
        assert forall|k: int| 0 <= k < keyed@.len() implies dependent_record(av[k], (#[trigger] keyed@[k]).1) by {
            if k < kb.len() {
                assert(keyed@[k] == kb[k]);
            }
        }
    }
    let ghost kv = keyed@;
    let sorted = sort_by_key(keyed);
    proof {
        lemma_keyed_transfer(kv, sorted@, |t: Dependency| t.name@);
    }
    let ghost sv2 = sorted@;
    let out = unkey_pairs(sorted);
    proof {
        let names = dependent_names(out@);
        assert(names =~= keys_of(sv2));
        assert forall|d: Seq<char>| #[trigger] names.contains(d) <==> has_key(av, d) by {
            if names.contains(d) {
                let i = choose|i: int| 0 <= i < names.len() && names[i] == d;
                assert(sv2[i].0@ == d);
                assert(sv2.contains(sv2[i]));
                assert(sv2.to_multiset().count(sv2[i]) > 0);
                assert(kv.contains(sv2[i]));
                let j = choose|j: int| 0 <= j < kv.len() && kv[j] == sv2[i];
                assert(av[j].0 == d);
            }
            if has_key(av, d) {
                let j = choose|j: int| 0 <= j < av.len() && #[trigger] av[j].0 == d;
                assert(kv[j].0@ == d);
                assert(kv.contains(kv[j]));
                assert(kv.to_multiset().count(kv[j]) > 0);
                assert(sv2.contains(kv[j]));
                let i = choose|i: int| 0 <= i < sv2.len() && sv2[i] == kv[j];
                assert(names[i] == d);
            }
        }
        assert forall|i: int| 0 <= i < out@.len() implies has_record(agg_view(aggregated@), #[trigger] out@[i]) by {
            assert(out@[i] == sv2[i].1);
            assert(sv2.contains(sv2[i]));
            assert(sv2.to_multiset().count(sv2[i]) > 0);
            let j = choose|j: int| 0 <= j < kv.len() && kv[j] == sv2[i];
            assert(dependent_record(av[j], kv[j].1));
            assert(av[j] == agg_view(aggregated@)[j]);
            assert(0 <= j < aggregated@.len());
        }
    }
    out
}

/// Lemma: distinct keys stay distinct under reordering.
proof fn lemma_distinct_keys_transfer<T>(a: Seq<(Vec<char>, T)>, b: Seq<(Vec<char>, T)>)
    requires
        a.to_multiset() == b.to_multiset(),
        forall|i: int, j: int| 0 <= i < j < a.len() ==> (#[trigger] a[i]).0@ != (#[trigger] a[j]).0@,
    ensures
        forall|i: int, j: int| 0 <= i < j < b.len() ==> (#[trigger] b[i]).0@ != (#[trigger] b[j]).0@,
{
    broadcast use vstd::seq_lib::group_to_multiset_ensures;

    assert(a.no_duplicates()) by {
        assert forall|i: int, j: int| 0 <= i < a.len() && 0 <= j < a.len() && i != j implies a[i]
            != a[j] by {
            if i < j {
                assert(a[i].0@ != a[j].0@);
            } else {
                assert(a[j].0@ != a[i].0@);
            }
        }
    }
    a.lemma_multiset_has_no_duplicates();
    b.lemma_multiset_has_no_duplicates_conv();
    assert forall|i: int, j: int| 0 <= i < j < b.len() implies (#[trigger] b[i]).0@ != (
    #[trigger] b[j]).0@ by {
        assert(b.contains(b[i]) && b.contains(b[j]));
        assert(b.to_multiset().count(b[i]) > 0 && b.to_multiset().count(b[j]) > 0);
        assert(a.contains(b[i]) && a.contains(b[j]));
        let x = choose|x: int| 0 <= x < a.len() && a[x] == b[i];
        let y = choose|y: int| 0 <= y < a.len() && a[y] == b[j];
        if b[i].0@ == b[j].0@ {
            if x < y {
                assert(a[x].0@ != a[y].0@);
            } else if y < x {
                assert(a[y].0@ != a[x].0@);
            }
            assert(b[i] == b[j]);
        }
    }
}

/// Summaries with distinct packages, in order of package name.
fn sort_summaries(s: Vec<ReverseDependencySummary>) -> (r: Vec<ReverseDependencySummary>)
    requires
        forall|i: int, j: int|
            0 <= i < j < s@.len() ==> (#[trigger] s@[i]).package@ != (#[trigger] s@[j]).package@,
        forall|i: int| 0 <= i < s@.len() ==> (#[trigger] s@[i]).total_dependents
            == s@[i].direct_dependents + s@[i].transitive_dependents,
    ensures
        summaries_sorted(r@),
        forall|i: int| 0 <= i < r@.len() ==> (#[trigger] r@[i]).total_dependents
            == r@[i].direct_dependents + r@[i].transitive_dependents,
        forall|x: ReverseDependencySummary| s@.contains(x) ==> r@.contains(x),
        forall|i: int| 0 <= i < r@.len() ==> s@.contains(#[trigger] r@[i]),
{
    broadcast use vstd::seq_lib::group_to_multiset_ensures;

    let ghost orig = s@;
    let mut keyed: Vec<(Vec<char>, ReverseDependencySummary)> = Vec::new();
    let mut rest = s;
    while rest.len() > 0
        invariant
            keyed@.len() + rest@.len() == orig.len(),
            rest@ == orig.skip(keyed@.len() as int),
            forall|k: int| 0 <= k < keyed@.len() ==> (#[trigger] keyed@[k]).0@ == keyed@[k].1.package@,
            forall|k: int| 0 <= k < keyed@.len() ==> (#[trigger] keyed@[k]).1 == orig[k],
        decreases rest@.len(),
    {
        let ghost i = keyed@.len();
        let x = rest.remove(0);
        assert(x == orig[i as int]);
        let key = to_chars(x.package.as_str());
        keyed.push((key, x));
        assert(rest@ =~= orig.skip(i as int + 1));
    }
    let ghost kv = keyed@;
    let sorted = sort_by_key(keyed);
    proof {
        lemma_keyed_transfer(kv, sorted@, |t: ReverseDependencySummary| t.package@);
        assert forall|i: int, j: int| 0 <= i < j < kv.len() implies (#[trigger] kv[i]).0@ != (
        #[trigger] kv[j]).0@ by {
            assert(kv[i].1 == orig[i] && kv[j].1 == orig[j]);
        }
        lemma_distinct_keys_transfer(kv, sorted@);
    }
    let ghost sv2 = sorted@;
    let out = unkey_pairs(sorted);
    proof {
        assert forall|j: int| 0 <= j < out@.len() implies (#[trigger] out@[j]).total_dependents
            == out@[j].direct_dependents + out@[j].transitive_dependents by {
            assert(out@[j] == sv2[j].1);
            assert(sv2.contains(sv2[j]));
            assert(sv2.to_multiset().count(sv2[j]) > 0);
            let a = choose|a: int| 0 <= a < kv.len() && kv[a] == sv2[j];
            assert(kv[a].1 == orig[a]);
        }
        assert forall|j: int| 0 <= j < out@.len() implies orig.contains(#[trigger] out@[j]) by {
            assert(out@[j] == sv2[j].1);
            assert(sv2.contains(sv2[j]));
            assert(sv2.to_multiset().count(sv2[j]) > 0);
            let a = choose|a: int| 0 <= a < kv.len() && kv[a] == sv2[j];
            assert(kv[a].1 == orig[a]);
        }
        assert forall|x: ReverseDependencySummary| orig.contains(x) implies out@.contains(x) by {
            let k = choose|k: int| 0 <= k < orig.len() && orig[k] == x;
            assert(kv[k].1 == x);
            assert(kv.contains(kv[k]));
            assert(kv.to_multiset().count(kv[k]) > 0);
            assert(sv2.contains(kv[k]));
            let j = choose|j: int| 0 <= j < sv2.len() && sv2[j] == kv[k];
            assert(out@[j] == x);
        }
        assert forall|p: int, q: int| 0 <= p < q < out@.len() implies lex_order(
            (#[trigger] out@[p]).package@,
            (#[trigger] out@[q]).package@,
        ) == Order::Less by {
            assert(out@[p] == sv2[p].1 && out@[q] == sv2[q].1);
            assert(lex_leq()(keys_of(sv2)[p], keys_of(sv2)[q]));
            assert(sv2.contains(sv2[p]) && sv2.contains(sv2[q]));
            assert(sv2.to_multiset().count(sv2[p]) > 0 && sv2.to_multiset().count(sv2[q]) > 0);
            assert(sv2[p].0@ != sv2[q].0@);
            crate::text::lemma_lex_order_flip(out@[p].package@, out@[q].package@);
        }
    }
    out
}

} // verus!

verus! {

/// The non-empty names of `s`, in order.
pub open spec fn nonempty_names(s: Seq<Seq<char>>) -> Seq<Seq<char>>
    decreases s.len(),
{
    if s.len() == 0 {
        seq![]
    } else {
        nonempty_names(s.drop_last()) + (if s.last().len() > 0 {
            seq![s.last()]
        } else {
            seq![]
        })
    }
}

/// The names to ask about after the host answered `answer`: a record's non-empty dependents
/// join the queue `q`.
pub open spec fn answered_queue(q: Seq<Seq<char>>, answer: Option<PkgInfo>) -> Seq<Seq<char>> {
    match answer {
        Some(i) => q + nonempty_names(sv(i.required_by@)),
        None => q,
    }
}

/// The records after the host answered `answer`: a record joins the records `db`.
pub open spec fn answered_records(db: Seq<InfoView>, answer: Option<PkgInfo>) -> Seq<InfoView> {
    match answer {
        Some(i) => db.push(info_view(i)),
        None => db,
    }
}

/// Gathering the records an analysis needs, breadth first from the targets: the names to ask
/// the host about in order (`queue`, of which the first `head` are handled), the names asked
/// about, and the records found.
pub struct RecordGathering {
    /// Names to ask about, in order.
    pub queue: Vec<String>,
    /// How many names of the queue are handled.
    pub head: usize,
    /// Names asked about.
    pub seen: Vec<String>,
    /// Records found.
    pub db: Vec<PkgInfo>,
}

/// Adds the non-empty names of `names` to `queue`.
fn push_nonempty(queue: &mut Vec<String>, names: &Vec<String>)
    ensures
        sv(final(queue)@) == sv(old(queue)@) + nonempty_names(sv(names@)),
{
    let mut i: usize = 0;
    while i < names.len()
        invariant
            i <= names@.len(),
            sv(queue@) == sv(old(queue)@) + nonempty_names(sv(names@).take(i as int)),
        decreases names@.len() - i,
    {
        let ghost before = sv(queue@);
        assert(sv(names@).take(i + 1).drop_last() =~= sv(names@).take(i as int));
        assert(sv(names@).take(i + 1).last() == names@[i as int]@);
        if !names[i].as_str().is_empty() {
            queue.push(names[i].clone());
            assert(sv(queue@) =~= before.push(names@[i as int]@));
        }
        assert(sv(queue@) =~= sv(old(queue)@) + nonempty_names(sv(names@).take(i + 1)));
        i += 1;
    }
    assert(sv(names@).take(names@.len() as int) =~= sv(names@));
}

impl RecordGathering {
    /// Starts from the trimmed target names that are not empty, with nothing asked yet.
    pub fn start(packages: &[PackageRef]) -> (r: RecordGathering)
        ensures
            sv(r.queue@) == nonempty_names(packages@.map_values(|p: PackageRef| trim(p.name@))),
            r.head == 0,
            r.seen@.len() == 0,
            r.db@.len() == 0,
    {
        let mut names: Vec<String> = Vec::new();
        let mut i: usize = 0;
        while i < packages.len()
            invariant
                i <= packages@.len(),
                sv(names@) == packages@.map_values(|p: PackageRef| trim(p.name@)).take(i as int),
            decreases packages@.len() - i,
        {
            let ghost before = sv(names@);
            names.push(crate::text::trim_str(packages[i].name.as_str()).to_owned());
            assert(sv(names@) =~= before.push(trim(packages@[i as int].name@)));
            assert(packages@.map_values(|p: PackageRef| trim(p.name@)).take(i + 1) =~= before.push(
                trim(packages@[i as int].name@),
            ));
            i += 1;
        }
        assert(packages@.map_values(|p: PackageRef| trim(p.name@)).take(packages@.len() as int)
            =~= packages@.map_values(|p: PackageRef| trim(p.name@)));
        let mut queue: Vec<String> = Vec::new();
        assert(sv(queue@) =~= Seq::<Seq<char>>::empty());
        push_nonempty(&mut queue, &names);
        assert(sv(queue@) =~= nonempty_names(sv(names@)));
        RecordGathering { queue, head: 0, seen: Vec::new(), db: Vec::new() }
    }

    /// Takes the host's answer for the name asked last (`None` when there was none, or the host
    /// has no record of it): a record joins the records and its non-empty dependents join the
    /// queue. Then returns the next name to ask about, the first one of the queue not asked
    /// about yet, or `None` when all are handled.
    pub fn step(&mut self, answer: Option<PkgInfo>) -> (r: Option<String>)
        requires
            old(self).head <= old(self).queue@.len(),
        ensures
            ({
                let q = answered_queue(sv(old(self).queue@), answer);
                &&& sv(final(self).queue@) == q
                &&& db_view(final(self).db@) == answered_records(db_view(old(self).db@), answer)
                &&& old(self).head <= final(self).head <= q.len()
                &&& forall|k: int|
                    old(self).head <= k < final(self).head - (if r is Some { 1int } else { 0int })
                        ==> sv(old(self).seen@).contains(#[trigger] q[k])
                &&& match r {
                    Some(n) => {
                        &&& final(self).head > old(self).head
                        &&& n@ == q[final(self).head - 1]
                        &&& !sv(old(self).seen@).contains(n@)
                        &&& sv(final(self).seen@) == sv(old(self).seen@).push(n@)
                    },
                    None => final(self).head == q.len() && sv(final(self).seen@) == sv(
                        old(self).seen@,
                    ),
                }
            }),
    {
        let ghost q = answered_queue(sv(old(self).queue@), answer);
        let ghost dbq = answered_records(db_view(old(self).db@), answer);
        match answer {
            Some(info) => {
                push_nonempty(&mut self.queue, &info.required_by);
                self.db.push(info);
            },
            None => {},
        }
        proof {
            assert(db_view(self.db@) =~= dbq);
            assert(sv(self.queue@) == q);
            assert(self.head == old(self).head);
            assert(q.len() >= sv(old(self).queue@).len());
        }
        let mut found: Option<String> = None;
        while found.is_none() && self.head < self.queue.len()
            invariant
                old(self).head <= self.head <= self.queue@.len(),
                sv(self.queue@) == q,
                db_view(self.db@) == dbq,
                forall|k: int|
                    old(self).head <= k < self.head - (if found is Some { 1int } else { 0int })
                        ==> sv(old(self).seen@).contains(#[trigger] q[k]),
                match found {
                    Some(n) => {
                        &&& self.head > old(self).head
                        &&& n@ == q[self.head - 1]
                        &&& !sv(old(self).seen@).contains(n@)
                        &&& sv(self.seen@) == sv(old(self).seen@).push(n@)
                    },
                    None => sv(self.seen@) == sv(old(self).seen@),
                },
            decreases self.queue@.len() - self.head,
        {
            let h = self.head;
            self.head = h + 1;
            if !crate::deps::query::names_contain(&self.seen, self.queue[h].as_str()) {
                let name = self.queue[h].clone();
                let ghost before = sv(self.seen@);
                self.seen.push(name.clone());
                assert(sv(self.seen@) =~= before.push(name@));
                found = Some(name);
            }
        }
        found
    }

    /// The records found.
    pub fn records(self) -> (r: Vec<PkgInfo>)
        ensures
            r@ == self.db@,
    {
        self.db
    }
}

/// The dependents of a package (its record's `Required By` list) that are installed, in order.
pub fn get_installed_required_by(info: &PkgInfo, installed: &[String]) -> (r: Vec<String>)
    ensures
        sv(r@) == sv(info.required_by@).filter(|n: Seq<char>| sv(installed@).contains(n)),
{
    let rb = &info.required_by;
    let ghost all = sv(rb@);
    let ghost keep = |n: Seq<char>| sv(installed@).contains(n);
    let mut out: Vec<String> = Vec::new();
    let mut i: usize = 0;
    assert(all.take(0) =~= Seq::<Seq<char>>::empty());
    while i < rb.len()
        invariant
            i <= rb@.len(),
            all == sv(rb@),
            keep == |n: Seq<char>| sv(installed@).contains(n),
            sv(out@) == all.take(i as int).filter(keep),
        decreases rb@.len() - i,
    {
        assert(all.take(i + 1).drop_last() =~= all.take(i as int));
        assert(all[i as int] == rb@[i as int]@);
        if crate::deps::query::names_contain(installed, rb[i].as_str()) {
            let ghost before = sv(out@);
            out.push(rb[i].clone());
            assert(sv(out@) =~= before.push(all[i as int]));
        }
        proof {
            all.take(i as int).lemma_filter_push(all[i as int], keep);
            assert(all.take(i + 1) =~= all.take(i as int).push(all[i as int]));
        }
        i += 1;
    }
    assert(all.take(rb@.len() as int) =~= all);
    out
}

/// Whether some dependent of a package (its record's `Required By` list) is installed.
pub fn has_installed_required_by(info: &PkgInfo, installed: &[String]) -> (r: bool)
    ensures
        r == exists|k: int|
            0 <= k < info.required_by@.len() && sv(installed@).contains(
                #[trigger] info.required_by@[k]@,
            ),
{
    let mut i: usize = 0;
    while i < info.required_by.len()
        invariant
            i <= info.required_by@.len(),
            forall|k: int| 0 <= k < i ==> !sv(installed@).contains(#[trigger] info.required_by@[k]@),
        decreases info.required_by@.len() - i,
    {
        if crate::deps::query::names_contain(installed, info.required_by[i].as_str()) {
            return true;
        }
        i += 1;
    }
    false
}

} // verus!
