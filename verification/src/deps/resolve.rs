//! Dependency resolution: what each dependency needs given the state of the host, how the
//! dependencies of several packages merge, and the resolver that combines them.
//!
//! The host is described by [`HostFacts`] (installed, provided and upgradable names, installed
//! and available versions) and each package to resolve by [`PackageFacts`] (its declared
//! conflicts and its direct dependencies), as gathered from the package manager.
use crate::deps::parse::{dep_spec_chars, is_so_name, is_so_name_chars};
use crate::deps::query::names_contain;
use crate::deps::source::source_view;
use crate::deps::version::{satisfies, version_satisfies};
use crate::text::{chars_to_string, keys_of, lex_leq, lex_order, sort_by_key, sv, to_chars, Order};
use crate::types::{
    Dependency, DependencyResolution, DependencySource, DependencyStatus, PackageRef,
    PackageSource, ResolverConfig,
};
use vstd::prelude::*;
use vstd::relations::sorted_by;

verus! {

// ---------------------------------------------------------------------------------------------
// Status of one dependency
// ---------------------------------------------------------------------------------------------

/// A status as its rank (see [`DependencyStatus::rank`]) and its two texts.
pub type StatusView = (int, Seq<char>, Seq<char>);

/// View of a status.
pub open spec fn status_view(s: DependencyStatus) -> StatusView {
    match s {
        DependencyStatus::Installed { version } => (4, version@, Seq::empty()),
        DependencyStatus::ToInstall => (2, Seq::empty(), Seq::empty()),
        DependencyStatus::ToUpgrade { current, required } => (3, current@, required@),
        DependencyStatus::Conflict { reason } => (0, reason@, Seq::empty()),
        DependencyStatus::Missing => (1, Seq::empty(), Seq::empty()),
    }
}

/// An available version, or `newer` when unknown.
pub open spec fn or_newer(av: Option<Seq<char>>) -> Seq<char> {
    match av {
        Some(v) => v,
        None => "newer"@,
    }
}

/// What a dependency `name` with requirement `req` needs. Not installed nor provided: to
/// install. With a requirement and a known installed version: an upgrade to the requirement
/// when the installed version does not satisfy it, else an upgrade to the available version
/// (or `newer`) when upgradable, else installed. Otherwise, when upgradable, an upgrade from the
/// installed version (or `installed`) to the available one (or `newer`); else installed at the
/// installed version (or `installed`).
pub open spec fn status_decision(
    name: Seq<char>,
    req: Seq<char>,
    installed: Seq<Seq<char>>,
    provided: Seq<Seq<char>>,
    upgradable: Seq<Seq<char>>,
    iv: Option<Seq<char>>,
    av: Option<Seq<char>>,
) -> StatusView {
    if !(installed.contains(name) || provided.contains(name)) {
        (2, Seq::empty(), Seq::empty())
    } else if req.len() > 0 && iv is Some {
        let v = iv->0;
        if !satisfies(v, req) {
            (3, v, req)
        } else if upgradable.contains(name) {
            (3, v, or_newer(av))
        } else {
            (4, v, Seq::empty())
        }
    } else if upgradable.contains(name) {
        match iv {
            Some(v) => (3, v, or_newer(av)),
            None => (3, "installed"@, "newer"@),
        }
    } else {
        match iv {
            Some(v) => (4, v, Seq::empty()),
            None => (4, "installed"@, Seq::empty()),
        }
    }
}

/// View of an optional string slice.
pub open spec fn opt_str(o: Option<&str>) -> Option<Seq<char>> {
    match o {
        Some(s) => Some(s@),
        None => None,
    }
}

/// What dependency `name` with requirement `version_req` needs, given the installed, provided
/// and upgradable names and its installed version (`pacman -Q`) and available version
/// (`pacman -Si`) when known.
pub fn determine_status(
    name: &str,
    version_req: &str,
    installed: &[String],
    provided: &[String],
    upgradable: &[String],
    installed_version: Option<&str>,
    available_version: Option<&str>,
) -> (r: DependencyStatus)
    ensures
        status_view(r) == status_decision(
            name@,
            version_req@,
            sv(installed@),
            sv(provided@),
            sv(upgradable@),
            opt_str(installed_version),
            opt_str(available_version),
        ),
{
    if !(names_contain(installed, name) || names_contain(provided, name)) {
        return DependencyStatus::ToInstall;
    }
    let is_upgradable = names_contain(upgradable, name);
    let available = match available_version {
        Some(v) => v.to_owned(),
        None => "newer".to_owned(),
    };
    if !version_req.is_empty() {
        if let Some(iv) = installed_version {
            if !version_satisfies(iv, version_req) {
                return DependencyStatus::ToUpgrade {
                    current: iv.to_owned(),
                    required: version_req.to_owned(),
                };
            }
            if is_upgradable {
                return DependencyStatus::ToUpgrade { current: iv.to_owned(), required: available };
            }
            return DependencyStatus::Installed { version: iv.to_owned() };
        }
    }
    if is_upgradable {
        match installed_version {
            Some(cv) => DependencyStatus::ToUpgrade { current: cv.to_owned(), required: available },
            None => DependencyStatus::ToUpgrade {
                current: "installed".to_owned(),
                required: "newer".to_owned(),
            },
        }
    } else {
        match installed_version {
            Some(v) => DependencyStatus::Installed { version: v.to_owned() },
            None => DependencyStatus::Installed { version: "installed".to_owned() },
        }
    }
}

/// Severity rank of a status: conflict 0, missing 1, to install 2, to upgrade 3, installed 4.
pub fn dependency_priority(status: &DependencyStatus) -> (r: u8)
    ensures
        r == status.rank(),
{
    status.priority()
}

/// Whether a dependency is left out: a reference to the package itself, or a shared library.
pub fn should_filter_dependency(pkg_name: &str, parent_name: &str) -> (r: bool)
    ensures
        r == (pkg_name@ == parent_name@ || is_so_name(pkg_name@)),
{
    let p = to_chars(pkg_name);
    crate::text::str_eq(pkg_name, parent_name) || is_so_name_chars(p.as_slice())
}

// ---------------------------------------------------------------------------------------------
// Host facts
// ---------------------------------------------------------------------------------------------

/// What is known of the host: installed names, names provided by installed packages,
/// upgradable names, and installed and available versions by name.
#[derive(Clone, Debug)]
pub struct HostFacts {
    /// Installed package names.
    pub installed: Vec<String>,
    /// Names provided by installed packages.
    pub provided: Vec<String>,
    /// Upgradable package names.
    pub upgradable: Vec<String>,
    /// Installed versions, by name.
    pub installed_versions: Vec<(String, String)>,
    /// Available versions, by name.
    pub available_versions: Vec<(String, String)>,
}

/// Views of (name, version) pairs.
pub open spec fn pairs(v: Seq<(String, String)>) -> Seq<(Seq<char>, Seq<char>)> {
    v.map_values(|p: (String, String)| (p.0@, p.1@))
}

/// Value of the first pair named `name`, at or after `i`.
pub open spec fn lookup(v: Seq<(Seq<char>, Seq<char>)>, name: Seq<char>, i: int) -> Option<Seq<char>>
    decreases v.len() - i,
{
    if i < 0 || i >= v.len() {
        None
    } else if v[i].0 == name {
        Some(v[i].1)
    } else {
        lookup(v, name, i + 1)
    }
}

/// What dependency `name` with requirement `req` needs on the host `h`.
pub open spec fn host_status(h: HostFacts, name: Seq<char>, req: Seq<char>) -> StatusView {
    status_decision(
        name,
        req,
        sv(h.installed@),
        sv(h.provided@),
        sv(h.upgradable@),
        lookup(pairs(h.installed_versions@), name, 0),
        lookup(pairs(h.available_versions@), name, 0),
    )
}

/// Version of `name` in the pairs `v`.
fn lookup_exec<'a>(v: &'a Vec<(String, String)>, name: &str) -> (r: Option<&'a str>)
    ensures
        opt_str(r) == lookup(pairs(v@), name@, 0),
{
    let mut i: usize = 0;
    while i < v.len()
        invariant
            i <= v@.len(),
            lookup(pairs(v@), name@, 0) == lookup(pairs(v@), name@, i as int),
        decreases v@.len() - i,
    {
        if crate::text::str_eq(v[i].0.as_str(), name) {
            return Some(v[i].1.as_str());
        }
        i += 1;
    }
    None
}

impl HostFacts {
    /// What dependency `name` with requirement `version_req` needs on this host.
    pub fn status_of(&self, name: &str, version_req: &str) -> (r: DependencyStatus)
        ensures
            status_view(r) == host_status(*self, name@, version_req@),
    {
        determine_status(
            name,
            version_req,
            self.installed.as_slice(),
            self.provided.as_slice(),
            self.upgradable.as_slice(),
            lookup_exec(&self.installed_versions, name),
            lookup_exec(&self.available_versions, name),
        )
    }
}

// ---------------------------------------------------------------------------------------------
// Merging dependencies
// ---------------------------------------------------------------------------------------------

/// View of a dependency record.
pub struct DepModel {
    /// Name.
    pub name: Seq<char>,
    /// Version requirement.
    pub version_req: Seq<char>,
    /// Status.
    pub status: StatusView,
    /// Source.
    pub source: (int, Seq<char>),
    /// Requiring packages.
    pub required_by: Seq<Seq<char>>,
    /// Packages depended on.
    pub depends_on: Seq<Seq<char>>,
    /// From `core`.
    pub is_core: bool,
    /// Critical system package.
    pub is_system: bool,
}

/// View of a dependency record.
pub open spec fn dep_model(d: Dependency) -> DepModel {
    DepModel {
        name: d.name@,
        version_req: d.version_req@,
        status: status_view(d.status),
        source: source_view(d.source),
        required_by: sv(d.required_by@),
        depends_on: sv(d.depends_on@),
        is_core: d.is_core,
        is_system: d.is_system,
    }
}

/// Views of dependency records.
pub open spec fn dep_models(v: Seq<Dependency>) -> Seq<DepModel> {
    v.map_values(|d: Dependency| dep_model(d))
}

/// Index of the record named `name`, at or after `i`.
pub open spec fn dep_index(v: Seq<DepModel>, name: Seq<char>, i: int) -> Option<int>
    decreases v.len() - i,
{
    if i < 0 || i >= v.len() {
        None
    } else if v[i].name == name {
        Some(i)
    } else {
        dep_index(v, name, i + 1)
    }
}

/// The records after merging `d`, required by `parent`. A new name is added with `parent` as its
/// only requester; for a known name the requester is added unless already listed; the more
/// severe status is kept, never replacing a conflict; a differing non-empty requirement is taken
/// when the record has none, and otherwise when it leads to a more severe status on the host
/// (which then replaces the status), except for a conflict, which keeps its status.
pub open spec fn merge_model(deps: Seq<DepModel>, d: DepModel, parent: Seq<char>, h: HostFacts) -> Seq<
    DepModel,
> {
    let idx = dep_index(deps, d.name, 0);
    let needs_rb = match idx {
        Some(i) => !deps[i].required_by.contains(parent),
        None => false,
    };
    let e0 = match idx {
        Some(i) => deps[i],
        None => DepModel {
            name: d.name,
            version_req: d.version_req,
            status: d.status,
            source: d.source,
            required_by: seq![parent],
            depends_on: seq![],
            is_core: d.is_core,
            is_system: d.is_system,
        },
    };
    let e1 = if needs_rb {
        DepModel { required_by: e0.required_by.push(parent), ..e0 }
    } else {
        e0
    };
    let e2 = if e1.status.0 != 0 && d.status.0 < e1.status.0 {
        DepModel { status: d.status, ..e1 }
    } else {
        e1
    };
    let e3 = if d.version_req.len() > 0 && d.version_req != e2.version_req {
        if e2.status.0 == 0 {
            if e2.version_req.len() == 0 {
                DepModel { version_req: d.version_req, ..e2 }
            } else {
                e2
            }
        } else if e2.version_req.len() == 0 {
            DepModel { version_req: d.version_req, ..e2 }
        } else {
            let ex = host_status(h, e2.name, e2.version_req);
            let nw = host_status(h, e2.name, d.version_req);
            if nw.0 < ex.0 {
                DepModel { version_req: d.version_req, status: nw, ..e2 }
            } else {
                e2
            }
        }
    } else {
        e2
    };
    match idx {
        Some(i) => deps.update(i, e3),
        None => deps.push(e3),
    }
}

/// Copies a status.
fn clone_status(s: &DependencyStatus) -> (r: DependencyStatus)
    ensures
        status_view(r) == status_view(*s),
{
    match s {
        DependencyStatus::Installed { version } => DependencyStatus::Installed {
            version: version.clone(),
        },
        DependencyStatus::ToInstall => DependencyStatus::ToInstall,
        DependencyStatus::ToUpgrade { current, required } => DependencyStatus::ToUpgrade {
            current: current.clone(),
            required: required.clone(),
        },
        DependencyStatus::Conflict { reason } => DependencyStatus::Conflict {
            reason: reason.clone(),
        },
        DependencyStatus::Missing => DependencyStatus::Missing,
    }
}

/// Copies a source.
pub(crate) fn clone_source(s: &DependencySource) -> (r: DependencySource)
    ensures
        source_view(r) == source_view(*s),
{
    match s {
        DependencySource::Official { repo } => DependencySource::Official { repo: repo.clone() },
        DependencySource::Aur => DependencySource::Aur,
        DependencySource::Local => DependencySource::Local,
    }
}

/// Index of the record named `name`.
fn dep_index_exec(deps: &Vec<Dependency>, name: &str) -> (r: Option<usize>)
    ensures
        match r {
            Some(i) => dep_index(dep_models(deps@), name@, 0) == Some(i as int) && i < deps@.len(),
            None => dep_index(dep_models(deps@), name@, 0) is None,
        },
{
    let mut i: usize = 0;
    while i < deps.len()
        invariant
            i <= deps@.len(),
            dep_index(dep_models(deps@), name@, 0) == dep_index(dep_models(deps@), name@, i as int),
        decreases deps@.len() - i,
    {
        if crate::text::str_eq(deps[i].name.as_str(), name) {
            return Some(i);
        }
        i += 1;
    }
    None
}

/// Merges `dep`, required by `parent_name`, into the records `deps`.
pub fn merge_dependency(dep: &Dependency, parent_name: &str, host: &HostFacts, deps: &mut Vec<Dependency>)
    ensures
        dep_models(final(deps)@) == merge_model(
            dep_models(old(deps)@),
            dep_model(*dep),
            parent_name@,
            *host,
        ),
{
    let ghost m0 = dep_models(deps@);
    let idx = dep_index_exec(deps, dep.name.as_str());
    let (mut entry, pos) = match idx {
        Some(i) => {
            let e = deps.remove(i);
            (e, i)
        },
        None => {
            let mut rb: Vec<String> = Vec::new();
            rb.push(parent_name.to_owned());
            let e = Dependency {
                name: dep.name.clone(),
                version_req: dep.version_req.clone(),
                status: clone_status(&dep.status),
                source: clone_source(&dep.source),
                required_by: rb,
                depends_on: Vec::new(),
                is_core: dep.is_core,
                is_system: dep.is_system,
            };
            assert(sv(e.required_by@) =~= seq![parent_name@]);
            assert(sv(e.depends_on@) =~= Seq::<Seq<char>>::empty());
            (e, deps.len())
        },
    };
    let needs_rb = match idx {
        Some(_) => !names_contain(&entry.required_by, parent_name),
        None => false,
    };
    if needs_rb {
        let ghost before = sv(entry.required_by@);
        entry.required_by.push(parent_name.to_owned());
        assert(sv(entry.required_by@) =~= before.push(parent_name@));
    }
    let existing_rank = entry.status.priority();
    if existing_rank != 0 {
        let new_rank = dep.status.priority();
        if new_rank < existing_rank {
            entry.status = clone_status(&dep.status);
        }
    }
    if !dep.version_req.as_str().is_empty() && dep.version_req != entry.version_req {
        if entry.status.priority() == 0 {
            if entry.version_req.as_str().is_empty() {
                entry.version_req = dep.version_req.clone();
            }
        } else if entry.version_req.as_str().is_empty() {
            entry.version_req = dep.version_req.clone();
        } else {
            let existing = host.status_of(entry.name.as_str(), entry.version_req.as_str());
            let newer = host.status_of(entry.name.as_str(), dep.version_req.as_str());
            if newer.priority() < existing.priority() {
                entry.version_req = dep.version_req.clone();
                entry.status = newer;
            }
        }
    }
    let ghost e3 = dep_model(entry);
    deps.insert(pos, entry);
    proof {
        match idx {
            Some(i) => {
                assert(dep_models(deps@) =~= m0.update(i as int, e3));
            },
            None => {
                assert(dep_models(deps@) =~= m0.push(e3));
            },
        }
    }
}

} // verus!

verus! {

// ---------------------------------------------------------------------------------------------
// Dependency records
// ---------------------------------------------------------------------------------------------

/// The record of dependency specification `dep_spec` of package `parent_name`, or `None` when it
/// is left out (a self reference or a shared library). Its status is what it needs on `host`;
/// `source` and `is_core` say where it comes from; it is a system package when from `core` or
/// one of the critical system packages.
pub fn process_dependency_spec(
    dep_spec: &str,
    parent_name: &str,
    host: &HostFacts,
    source: DependencySource,
    is_core: bool,
) -> (r: Option<Dependency>)
    ensures
        ({
            let (n, q) = crate::deps::parse::dep_spec_parts(dep_spec@);
            match r {
                None => n == parent_name@ || is_so_name(n),
                Some(d) => !(n == parent_name@ || is_so_name(n)) && dep_model(d) == (DepModel {
                    name: n,
                    version_req: q,
                    status: host_status(*host, n, q),
                    source: source_view(source),
                    required_by: seq![parent_name@],
                    depends_on: seq![],
                    is_core: is_core,
                    is_system: is_core || crate::deps::source::system_package_names().contains(n),
                }),
            }
        }),
{
    let spec = crate::deps::parse::parse_dep_spec(dep_spec);
    if should_filter_dependency(spec.name.as_str(), parent_name) {
        return None;
    }
    let status = host.status_of(spec.name.as_str(), spec.version_req.as_str());
    let is_system = is_core || crate::deps::source::is_system_package(spec.name.as_str());
    let mut rb: Vec<String> = Vec::new();
    rb.push(parent_name.to_owned());
    let d = Dependency {
        name: spec.name,
        version_req: spec.version_req,
        status,
        source,
        required_by: rb,
        depends_on: Vec::new(),
        is_core,
        is_system,
    };
    assert(sv(d.required_by@) =~= seq![parent_name@]);
    assert(sv(d.depends_on@) =~= Seq::<Seq<char>>::empty());
    Some(d)
}

/// The record of dependency specification `spec` of package `parent` from source `source`, or
/// `None` when it is left out (a self reference or a shared library); see
/// `process_dependency_spec`.
pub open spec fn spec_record(
    spec: Seq<char>,
    parent: Seq<char>,
    host: HostFacts,
    source: (int, Seq<char>),
    is_core: bool,
) -> Option<DepModel> {
    let (n, q) = crate::deps::parse::dep_spec_parts(spec);
    if n == parent || is_so_name(n) {
        None
    } else {
        Some(
            DepModel {
                name: n,
                version_req: q,
                status: host_status(host, n, q),
                source: source,
                required_by: seq![parent],
                depends_on: seq![],
                is_core: is_core,
                is_system: is_core || crate::deps::source::system_package_names().contains(n),
            },
        )
    }
}

/// The records of the specifications `specs` (each with its source and core flag) that are
/// kept, in order.
pub open spec fn spec_records(
    specs: Seq<Seq<char>>,
    sources: Seq<(DependencySource, bool)>,
    parent: Seq<char>,
    host: HostFacts,
) -> Seq<DepModel>
    decreases specs.len(),
{
    if specs.len() == 0 {
        Seq::empty()
    } else {
        let before = spec_records(specs.drop_last(), sources.drop_last(), parent, host);
        match spec_record(
            specs.last(),
            parent,
            host,
            source_view(sources[specs.len() - 1].0),
            sources[specs.len() - 1].1,
        ) {
            Some(m) => before.push(m),
            None => before,
        }
    }
}

/// The records of the dependency specifications of package `parent_name` that are kept, in
/// order; `sources` gives the source and core flag of each specification.
pub fn process_dependency_specs(
    dep_specs: &[String],
    sources: &[(DependencySource, bool)],
    parent_name: &str,
    host: &HostFacts,
) -> (r: Vec<Dependency>)
    requires
        sources@.len() == dep_specs@.len(),
    ensures
        r@.len() <= dep_specs@.len(),
        forall|i: int|
            0 <= i < r@.len() ==> !((#[trigger] r@[i]).name@ == parent_name@ || is_so_name(
                r@[i].name@,
            )),
        dep_models(r@) == spec_records(sv(dep_specs@), sources@, parent_name@, *host),
        forall|i: int|
            0 <= i < r@.len() ==> status_view((#[trigger] r@[i]).status) == host_status(
                *host,
                r@[i].name@,
                r@[i].version_req@,
            ),
{
    let mut out: Vec<Dependency> = Vec::new();
    let mut i: usize = 0;
    while i < dep_specs.len()
        invariant
            i <= dep_specs@.len(),
            sources@.len() == dep_specs@.len(),
            out@.len() <= i,
            forall|k: int|
                0 <= k < out@.len() ==> !((#[trigger] out@[k]).name@ == parent_name@ || is_so_name(
                    out@[k].name@,
                )),
            dep_models(out@) == spec_records(
                sv(dep_specs@).take(i as int),
                sources@.take(i as int),
                parent_name@,
                *host,
            ),
            forall|k: int|
                0 <= k < out@.len() ==> status_view((#[trigger] out@[k]).status) == host_status(
                    *host,
                    out@[k].name@,
                    out@[k].version_req@,
                ),
        decreases dep_specs@.len() - i,
    {
        let ghost sp = sv(dep_specs@).take(i + 1);
        let ghost so = sources@.take(i + 1);
        assert(sp.drop_last() =~= sv(dep_specs@).take(i as int));
        assert(so.drop_last() =~= sources@.take(i as int));
        assert(sp.last() == dep_specs@[i as int]@);
        assert(so[i as int] == sources@[i as int]);
        let ghost before = out@;
        let src = clone_source(&sources[i].0);
        match process_dependency_spec(dep_specs[i].as_str(), parent_name, host, src, sources[i].1) {
            Some(d) => {
                out.push(d);
                assert(dep_models(out@) =~= dep_models(before).push(dep_model(d)));
                assert(out@[before.len() as int] == d);
                assert(forall|k: int| 0 <= k < before.len() ==> out@[k] == before[k]);
            },
            None => {},
        }
        i += 1;
    }
    assert(sv(dep_specs@).take(dep_specs@.len() as int) =~= sv(dep_specs@));
    assert(sources@.take(dep_specs@.len() as int) =~= sources@);
    out
}

// ---------------------------------------------------------------------------------------------
// The resolver
// ---------------------------------------------------------------------------------------------

/// What is known of one package to resolve: the names it declares conflicts with, and its
/// direct dependency records (`None` when they could not be resolved).
#[derive(Clone, Debug)]
pub struct PackageFacts {
    /// Declared conflicts.
    pub conflicts: Vec<String>,
    /// Direct dependencies, when resolved.
    pub dependencies: Option<Vec<Dependency>>,
}

/// The facts of package `parent_name` from what the host answered: its declared `conflicts`
/// and, when its dependency specifications could be read, their records on `host` (each
/// specification with its source and core flag); every record's status is the one `host`
/// gives, as `facts_agree_with_host` asks.
pub fn package_facts(
    conflicts: Vec<String>,
    dep_specs: Option<(Vec<String>, Vec<(DependencySource, bool)>)>,
    parent_name: &str,
    host: &HostFacts,
) -> (r: PackageFacts)
    requires
        dep_specs matches Some(p) ==> p.1@.len() == p.0@.len(),
    ensures
        r.conflicts@ == conflicts@,
        match dep_specs {
            None => r.dependencies is None,
            Some(p) => r.dependencies matches Some(d) && dep_models(d@) == spec_records(
                sv(p.0@),
                p.1@,
                parent_name@,
                *host,
            ),
        },
        facts_agree_with_host(seq![r], *host),
{
    let dependencies = match dep_specs {
        None => None,
        Some(p) => Some(process_dependency_specs(p.0.as_slice(), p.1.as_slice(), parent_name, host)),
    };
    let r = PackageFacts { conflicts, dependencies };
    assert(seq![r][0] == r);
    r
}

/// The conflict record of `name`, declared by package `pname`.
pub open spec fn conflict_model(name: Seq<char>, pname: Seq<char>) -> DepModel {
    DepModel {
        name: name,
        version_req: seq![],
        status: (0, "Conflicts with "@ + pname, seq![]),
        source: (2, seq![]),
        required_by: seq![pname],
        depends_on: seq![],
        is_core: false,
        is_system: false,
    }
}

/// Records and conflict names after the first `j` declared conflicts `cs` of package `pname`:
/// a conflict with an installed package or a package being resolved is listed once and merged
/// as a conflict record.
pub open spec fn conflict_fold(
    deps: Seq<DepModel>,
    confl: Seq<Seq<char>>,
    cs: Seq<Seq<char>>,
    j: int,
    pname: Seq<char>,
    roots: Seq<Seq<char>>,
    h: HostFacts,
) -> (Seq<DepModel>, Seq<Seq<char>>)
    decreases j,
{
    if j <= 0 {
        (deps, confl)
    } else {
        let (d, c) = conflict_fold(deps, confl, cs, j - 1, pname, roots, h);
        let x = cs[j - 1];
        if sv(h.installed@).contains(x) || roots.contains(x) {
            (
                merge_model(d, conflict_model(x, pname), pname, h),
                if c.contains(x) {
                    c
                } else {
                    c.push(x)
                },
            )
        } else {
            (d, c)
        }
    }
}

/// Names of packages.
pub open spec fn names_of(p: Seq<PackageRef>) -> Seq<Seq<char>> {
    p.map_values(|x: PackageRef| x.name@)
}

/// Conflicts declared by package `k`, if facts about it were given.
pub open spec fn facts_conflicts(facts: Seq<PackageFacts>, k: int) -> Seq<Seq<char>> {
    if 0 <= k < facts.len() {
        sv(facts[k].conflicts@)
    } else {
        seq![]
    }
}

/// Records and conflict names after checking the conflicts of the first `k` packages.
pub open spec fn conflict_phase(
    pkgs: Seq<PackageRef>,
    facts: Seq<PackageFacts>,
    h: HostFacts,
    k: int,
) -> (Seq<DepModel>, Seq<Seq<char>>)
    decreases k,
{
    if k <= 0 {
        (seq![], seq![])
    } else {
        let (d, c) = conflict_phase(pkgs, facts, h, k - 1);
        let cs = facts_conflicts(facts, k - 1);
        conflict_fold(d, c, cs, cs.len() as int, pkgs[k - 1].name@, names_of(pkgs), h)
    }
}

/// Records and missing names after merging the first `j` dependency records `ds` of package
/// `pname`; a missing dependency is listed once.
pub open spec fn dep_fold(
    deps: Seq<DepModel>,
    miss: Seq<Seq<char>>,
    ds: Seq<DepModel>,
    j: int,
    pname: Seq<char>,
    h: HostFacts,
) -> (Seq<DepModel>, Seq<Seq<char>>)
    decreases j,
{
    if j <= 0 {
        (deps, miss)
    } else {
        let (d, m) = dep_fold(deps, miss, ds, j - 1, pname, h);
        let x = ds[j - 1];
        (
            merge_model(d, x, pname, h),
            if x.status.0 == 1 && !m.contains(x.name) {
                m.push(x.name)
            } else {
                m
            },
        )
    }
}

/// Dependency records of package `k`, if resolved.
pub open spec fn facts_deps(facts: Seq<PackageFacts>, k: int) -> Option<Seq<DepModel>> {
    if 0 <= k < facts.len() {
        match facts[k].dependencies {
            Some(v) => Some(dep_models(v@)),
            None => None,
        }
    } else {
        None
    }
}

/// Records and missing names after merging the dependencies of the first `k` packages into
/// `deps0`; a package whose dependencies could not be resolved is listed as missing, once.
pub open spec fn dep_phase(
    pkgs: Seq<PackageRef>,
    facts: Seq<PackageFacts>,
    h: HostFacts,
    deps0: Seq<DepModel>,
    k: int,
) -> (Seq<DepModel>, Seq<Seq<char>>)
    decreases k,
{
    if k <= 0 {
        (deps0, seq![])
    } else {
        let (d, m) = dep_phase(pkgs, facts, h, deps0, k - 1);
        let pname = pkgs[k - 1].name@;
        match facts_deps(facts, k - 1) {
            None => (
                d,
                if m.contains(pname) {
                    m
                } else {
                    m.push(pname)
                },
            ),
            Some(ds) => dep_fold(d, m, ds, ds.len() as int, pname, h),
        }
    }
}

/// Order of records in a resolution: by rank, then by name.
pub open spec fn dep_before(a: DepModel, b: DepModel) -> bool {
    a.status.0 < b.status.0 || (a.status.0 == b.status.0 && lex_order(a.name, b.name)
        != Order::Greater)
}

/// Whether names are distinct.
pub open spec fn distinct_names(v: Seq<DepModel>) -> bool {
    forall|i: int, j: int| 0 <= i < j < v.len() ==> (#[trigger] v[i]).name != (#[trigger] v[j]).name
}

/// Lemma: `dep_index` finds the first record with the name, or none has it.
proof fn lemma_dep_index(v: Seq<DepModel>, name: Seq<char>, i: int)
    requires
        0 <= i <= v.len(),
    ensures
        match dep_index(v, name, i) {
            Some(j) => i <= j < v.len() && v[j].name == name,
            None => forall|m: int| i <= m < v.len() ==> v[m].name != name,
        },
    decreases v.len() - i,
{
    if i < v.len() {
        lemma_dep_index(v, name, i + 1);
    }
}

/// Lemma: merging keeps names distinct.
proof fn lemma_merge_distinct(deps: Seq<DepModel>, d: DepModel, parent: Seq<char>, h: HostFacts)
    requires
        distinct_names(deps),
    ensures
        distinct_names(merge_model(deps, d, parent, h)),
{
    lemma_dep_index(deps, d.name, 0);
    let r = merge_model(deps, d, parent, h);
    assert forall|i: int, j: int| 0 <= i < j < r.len() implies (#[trigger] r[i]).name != (
    #[trigger] r[j]).name by {
        match dep_index(deps, d.name, 0) {
            Some(x) => {
                if i != x && j != x {
                    assert(r[i] == deps[i] && r[j] == deps[j]);
                } else if i == x {
                    assert(r[j] == deps[j]);
                } else {
                    assert(r[i] == deps[i]);
                }
            },
            None => {
                if j < deps.len() {
                    assert(r[i] == deps[i] && r[j] == deps[j]);
                } else {
                    assert(r[i] == deps[i]);
                }
            },
        }
    }
}

/// Resolves direct dependencies of packages.
pub struct DependencyResolver {
    /// Resolution options.
    pub config: ResolverConfig,
}

/// Whether every resolved dependency in `facts` carries the status that `host` gives its name
/// and requirement (as `process_dependency_specs` records it).
pub open spec fn facts_agree_with_host(facts: Seq<PackageFacts>, host: HostFacts) -> bool {
    forall|k: int, i: int|
        #![trigger facts[k].dependencies->0@[i]]
        0 <= k < facts.len() && facts[k].dependencies is Some && 0 <= i < facts[k].dependencies->0@.len()
            ==> status_view(facts[k].dependencies->0@[i].status) == host_status(
            host,
            facts[k].dependencies->0@[i].name@,
            facts[k].dependencies->0@[i].version_req@,
        )
}

impl DependencyResolver {
    /// A resolver with the default options.
    pub fn new() -> (r: DependencyResolver)
        ensures
            !r.config.include_optdepends,
            !r.config.include_makedepends,
            !r.config.include_checkdepends,
            r.config.max_depth == 0,
            r.config.pkgbuild_cache is None,
            !r.config.check_aur,
    {
        DependencyResolver { config: ResolverConfig::default() }
    }

    /// A resolver with the given options.
    pub fn with_config(config: ResolverConfig) -> (r: DependencyResolver)
        ensures
            r.config == config,
    {
        DependencyResolver { config }
    }

    /// Resolves the direct dependencies of `packages` on `host`; `facts[i]` describes
    /// `packages[i]` (missing facts count as no conflicts and unresolved dependencies). First,
    /// each declared conflict with an installed package or with a package being resolved is
    /// listed and recorded as a conflict; then the dependencies of each package are merged
    /// (packages whose dependencies are unresolved, and missing dependencies, are listed as
    /// missing). The records come most severe first, then by name.
    pub fn resolve(&self, packages: &[PackageRef], host: &HostFacts, facts: &[PackageFacts]) -> (r:
        Result<DependencyResolution, crate::error::ArchToolkitError>)
        requires
            facts_agree_with_host(facts@, *host),
        ensures
            r matches Ok(res) && {
                let (cd, confl) = conflict_phase(packages@, facts@, *host, packages@.len() as int);
                let (dd, miss) = dep_phase(packages@, facts@, *host, cd, packages@.len() as int);
                let out = dep_models(res.dependencies@);
                &&& packages@.len() == 0 ==> res.dependencies@.len() == 0 && res.conflicts@.len()
                    == 0 && res.missing@.len() == 0
                &&& packages@.len() > 0 ==> {
                    &&& sv(res.conflicts@) == confl
                    &&& sv(res.missing@) == miss
                    &&& out.len() == dd.len()
                    &&& distinct_names(out)
                    &&& forall|i: int| 0 <= i < dd.len() ==> out.contains(#[trigger] dd[i])
                    &&& forall|i: int| 0 <= i < out.len() ==> dd.contains(#[trigger] out[i])
                    &&& forall|i: int, j: int|
                        0 <= i < j < out.len() ==> dep_before(#[trigger] out[i], #[trigger] out[j])
                }
            },
    {
        if packages.len() == 0 {
            return Ok(DependencyResolution::default());
        }
        let mut deps: Vec<Dependency> = Vec::new();
        let mut conflicts: Vec<String> = Vec::new();
        let mut missing: Vec<String> = Vec::new();
        let ghost roots = names_of(packages@);
        // Conflicts.
        let mut k: usize = 0;
        assert(dep_models(deps@) =~= Seq::<DepModel>::empty());
        assert(sv(conflicts@) =~= Seq::<Seq<char>>::empty());
        while k < packages.len()
            invariant
                k <= packages@.len(),
                roots == names_of(packages@),
                (dep_models(deps@), sv(conflicts@)) == conflict_phase(
                    packages@,
                    facts@,
                    *host,
                    k as int,
                ),
                distinct_names(dep_models(deps@)),
            decreases packages@.len() - k,
        {
            let pname = packages[k].name.as_str();
            let empty: Vec<String> = Vec::new();
            let cs = if k < facts.len() {
                &facts[k].conflicts
            } else {
                &empty
            };
            let ghost csv = facts_conflicts(facts@, k as int);
            assert(sv(cs@) == csv);
            let mut j: usize = 0;
            while j < cs.len()
                invariant
                    j <= cs@.len(),
                    k < packages@.len(),
                    pname@ == packages@[k as int].name@,
                    roots == names_of(packages@),
                    sv(cs@) == csv,
                    (dep_models(deps@), sv(conflicts@)) == conflict_fold(
                        conflict_phase(packages@, facts@, *host, k as int).0,
                        conflict_phase(packages@, facts@, *host, k as int).1,
                        csv,
                        j as int,
                        pname@,
                        roots,
                        *host,
                    ),
                    distinct_names(dep_models(deps@)),
                decreases cs@.len() - j,
            {
                let c = cs[j].as_str();
                assert(csv[j as int] == c@);
                let in_roots = names_contain_refs(packages, c);
                if names_contain(&host.installed, c) || in_roots {
                    if !names_contain(&conflicts, c) {
                        let ghost before = sv(conflicts@);
                        conflicts.push(c.to_owned());
                        assert(sv(conflicts@) =~= before.push(c@));
                    }
                    let mut rb: Vec<String> = Vec::new();
                    rb.push(pname.to_owned());
                    let mut reason = to_chars("Conflicts with ");
                    let pc = to_chars(pname);
                    crate::text::extend_chars(&mut reason, pc.as_slice());
                    let dep = Dependency {
                        name: c.to_owned(),
                        version_req: String::new(),
                        status: DependencyStatus::Conflict { reason: chars_to_string(reason.as_slice()) },
                        source: DependencySource::Local,
                        required_by: rb,
                        depends_on: Vec::new(),
                        is_core: false,
                        is_system: false,
                    };
                    assert(sv(dep.required_by@) =~= seq![pname@]);
                    assert(sv(dep.depends_on@) =~= Seq::<Seq<char>>::empty());
                    assert(dep_model(dep) == conflict_model(c@, pname@));
                    proof {
                        lemma_merge_distinct(dep_models(deps@), dep_model(dep), pname@, *host);
                    }
                    merge_dependency(&dep, pname, host, &mut deps);
                }
                j += 1;
            }
            k += 1;
        }
        // Dependencies.
        let ghost cd = dep_models(deps@);
        let mut k: usize = 0;
        assert(sv(missing@) =~= Seq::<Seq<char>>::empty());
        while k < packages.len()
            invariant
                k <= packages@.len(),
                (dep_models(deps@), sv(missing@)) == dep_phase(packages@, facts@, *host, cd, k as int),
                distinct_names(dep_models(deps@)),
            decreases packages@.len() - k,
        {
            let pname = packages[k].name.as_str();
            let list: Option<&Vec<Dependency>> = if k < facts.len() {
                match &facts[k].dependencies {
                    Some(v) => Some(v),
                    None => None,
                }
            } else {
                None
            };
            match list {
                None => {
                    if !names_contain(&missing, pname) {
                        let ghost before = sv(missing@);
                        missing.push(pname.to_owned());
                        assert(sv(missing@) =~= before.push(pname@));
                    }
                },
                Some(ds) => {
                    let ghost dsv = dep_models(ds@);
                    assert(facts_deps(facts@, k as int) == Some(dsv));
                    let mut j: usize = 0;
                    while j < ds.len()
                        invariant
                            j <= ds@.len(),
                            k < packages@.len(),
                            pname@ == packages@[k as int].name@,
                            dsv == dep_models(ds@),
                            (dep_models(deps@), sv(missing@)) == dep_fold(
                                dep_phase(packages@, facts@, *host, cd, k as int).0,
                                dep_phase(packages@, facts@, *host, cd, k as int).1,
                                dsv,
                                j as int,
                                pname@,
                                *host,
                            ),
                            distinct_names(dep_models(deps@)),
                        decreases ds@.len() - j,
                    {
                        let d = &ds[j];
                        assert(dsv[j as int] == dep_model(*d));
                        if d.status.priority() == 1 && !names_contain(&missing, d.name.as_str()) {
                            let ghost before = sv(missing@);
                            missing.push(d.name.clone());
                            assert(sv(missing@) =~= before.push(d.name@));
                        }
                        proof {
                            lemma_merge_distinct(dep_models(deps@), dep_model(*d), pname@, *host);
                        }
                        merge_dependency(d, pname, host, &mut deps);
                        j += 1;
                    }
                },
            }
            k += 1;
        }
        let ghost dd = dep_models(deps@);
        let sorted = sort_dependencies(deps);
        Ok(DependencyResolution { dependencies: sorted, conflicts, missing })
    }
}

/// Whether some package is named `name`.
fn names_contain_refs(packages: &[PackageRef], name: &str) -> (r: bool)
    ensures
        r == names_of(packages@).contains(name@),
{
    let mut i: usize = 0;
    while i < packages.len()
        invariant
            i <= packages@.len(),
            forall|k: int| 0 <= k < i ==> names_of(packages@)[k] != name@,
        decreases packages@.len() - i,
    {
        if crate::text::str_eq(packages[i].name.as_str(), name) {
            assert(names_of(packages@)[i as int] == name@);
            return true;
        }
        i += 1;
    }
    false
}

/// Sort key of a record: its rank as a digit, then its name.
pub open spec fn dep_key(d: DepModel) -> Seq<char> {
    seq![((d.status.0 + 48) as u8) as char] + d.name
}

/// Lemma: a feature that is distinct across pairs stays distinct under reordering.
proof fn lemma_distinct_transfer<T>(
    a: Seq<(Vec<char>, T)>,
    b: Seq<(Vec<char>, T)>,
    f: spec_fn((Vec<char>, T)) -> Seq<char>,
)
    requires
        a.to_multiset() == b.to_multiset(),
        forall|i: int, j: int| 0 <= i < j < a.len() ==> f(#[trigger] a[i]) != f(#[trigger] a[j]),
    ensures
        forall|i: int, j: int| 0 <= i < j < b.len() ==> f(#[trigger] b[i]) != f(#[trigger] b[j]),
{
    broadcast use vstd::seq_lib::group_to_multiset_ensures;

    assert(a.no_duplicates()) by {
        assert forall|i: int, j: int| 0 <= i < a.len() && 0 <= j < a.len() && i != j implies a[i]
            != a[j] by {
            if i < j {
                assert(f(a[i]) != f(a[j]));
            } else {
                assert(f(a[j]) != f(a[i]));
            }
        }
    }
    a.lemma_multiset_has_no_duplicates();
    b.lemma_multiset_has_no_duplicates_conv();
    assert forall|i: int, j: int| 0 <= i < j < b.len() implies f(#[trigger] b[i]) != f(
        #[trigger] b[j],
    ) by {
        assert(b.contains(b[i]) && b.contains(b[j]));
        assert(b.to_multiset().count(b[i]) > 0 && b.to_multiset().count(b[j]) > 0);
        assert(a.contains(b[i]) && a.contains(b[j]));
        let x = choose|x: int| 0 <= x < a.len() && a[x] == b[i];
        let y = choose|y: int| 0 <= y < a.len() && a[y] == b[j];
        if f(b[i]) == f(b[j]) {
            if x < y {
                assert(f(a[x]) != f(a[y]));
            } else if y < x {
                assert(f(a[y]) != f(a[x]));
            }
            assert(b[i] == b[j]);
        }
    }
}

/// Lemma: the rank of a status is between 0 and 4.
proof fn lemma_rank_range(s: DependencyStatus)
    ensures
        0 <= status_view(s).0 <= 4,
{
}

/// Lemma: key order gives record order.
proof fn lemma_key_order(a: DepModel, b: DepModel)
    requires
        0 <= a.status.0 <= 4,
        0 <= b.status.0 <= 4,
        lex_order(dep_key(a), dep_key(b)) != Order::Greater,
    ensures
        dep_before(a, b),
{
    let ka = dep_key(a);
    let kb = dep_key(b);
    assert(ka[0] == ((a.status.0 + 48) as u8) as char);
    assert(kb[0] == ((b.status.0 + 48) as u8) as char);
    assert(ka.drop_first() =~= a.name);
    assert(kb.drop_first() =~= b.name);
}

/// Records with distinct names, most severe first, then by name.
fn sort_dependencies(deps: Vec<Dependency>) -> (r: Vec<Dependency>)
    requires
        distinct_names(dep_models(deps@)),
    ensures
        ({
            let out = dep_models(r@);
            let dd = dep_models(deps@);
            &&& out.len() == dd.len()
            &&& distinct_names(out)
            &&& forall|i: int| 0 <= i < dd.len() ==> out.contains(#[trigger] dd[i])
            &&& forall|i: int| 0 <= i < out.len() ==> dd.contains(#[trigger] out[i])
            &&& forall|i: int, j: int|
                0 <= i < j < out.len() ==> dep_before(#[trigger] out[i], #[trigger] out[j])
        }),
{
    broadcast use vstd::seq_lib::group_to_multiset_ensures;

    let ghost orig = deps@;
    let ghost dd = dep_models(deps@);
    let mut keyed: Vec<(Vec<char>, Dependency)> = Vec::new();
    let mut rest = deps;
    while rest.len() > 0
        invariant
            keyed@.len() + rest@.len() == orig.len(),
            rest@ == orig.skip(keyed@.len() as int),
            forall|k: int|
                0 <= k < keyed@.len() ==> (#[trigger] keyed@[k]).0@ == dep_key(dep_model(keyed@[k].1)),
            forall|k: int| 0 <= k < keyed@.len() ==> (#[trigger] keyed@[k]).1 == orig[k],
        decreases rest@.len(),
    {
        let ghost i = keyed@.len();
        let x = rest.remove(0);
        assert(x == orig[i as int]);
        let rank = x.status.priority();
        proof {
            lemma_rank_range(x.status);
        }
        let mut key: Vec<char> = Vec::new();
        key.push(((rank + 48) as u8) as char);
        let name = to_chars(x.name.as_str());
        crate::text::extend_chars(&mut key, name.as_slice());
        assert(key@ =~= dep_key(dep_model(x)));
        keyed.push((key, x));
        assert(rest@ =~= orig.skip(i as int + 1));
    }
    let ghost kv = keyed@;
    let sorted = sort_by_key(keyed);
    let ghost sv2 = sorted@;
    proof {
        assert forall|i: int, j: int| 0 <= i < j < kv.len() implies (|p: (Vec<char>, Dependency)| p.1.name@)(
            #[trigger] kv[i],
        ) != (|p: (Vec<char>, Dependency)| p.1.name@)(#[trigger] kv[j]) by {
            assert(kv[i].1 == orig[i] && kv[j].1 == orig[j]);
            assert(dd[i].name != dd[j].name);
        }
        lemma_distinct_transfer(kv, sv2, |p: (Vec<char>, Dependency)| p.1.name@);
        crate::deps::reverse::lemma_keyed_transfer(kv, sv2, |t: Dependency| dep_key(dep_model(t)));
    }
    let out = crate::deps::reverse::unkey_pairs(sorted);
    proof {
        let om = dep_models(out@);
        assert(out@.len() == sv2.len());
        assert(sv2.len() == kv.len()) by {
            assert(sv2.to_multiset().len() == kv.to_multiset().len());
        }
        assert forall|i: int| 0 <= i < om.len() implies dd.contains(#[trigger] om[i]) by {
            assert(out@[i] == sv2[i].1);
            assert(sv2.contains(sv2[i]));
            assert(sv2.to_multiset().count(sv2[i]) > 0);
            let a = choose|a: int| 0 <= a < kv.len() && kv[a] == sv2[i];
            assert(dd[a] == om[i]);
        }
        assert forall|i: int| 0 <= i < dd.len() implies om.contains(#[trigger] dd[i]) by {
            assert(kv.contains(kv[i]));
            assert(kv.to_multiset().count(kv[i]) > 0);
            let b = choose|b: int| 0 <= b < sv2.len() && sv2[b] == kv[i];
            assert(om[b] == dd[i]);
        }
        assert forall|i: int, j: int| 0 <= i < j < om.len() implies (#[trigger] om[i]).name != (
        #[trigger] om[j]).name by {
            assert(out@[i] == sv2[i].1 && out@[j] == sv2[j].1);
            assert((|p: (Vec<char>, Dependency)| p.1.name@)(sv2[i]) != (|p: (Vec<char>, Dependency)| p.1.name@)(sv2[j]));
        }
        assert forall|i: int, j: int| 0 <= i < j < om.len() implies dep_before(
            #[trigger] om[i],
            #[trigger] om[j],
        ) by {
            assert(out@[i] == sv2[i].1 && out@[j] == sv2[j].1);
            assert(lex_leq()(keys_of(sv2)[i], keys_of(sv2)[j]));
            assert(sv2.contains(sv2[i]) && sv2.contains(sv2[j]));
            assert(sv2.to_multiset().count(sv2[i]) > 0 && sv2.to_multiset().count(sv2[j]) > 0);
            let a = choose|a: int| 0 <= a < kv.len() && kv[a] == sv2[i];
            let b = choose|b: int| 0 <= b < kv.len() && kv[b] == sv2[j];
            lemma_rank_range(out@[i].status);
            lemma_rank_range(out@[j].status);
            lemma_key_order(om[i], om[j]);
        }
    }
    out
}

/// A package query to run: a program and its option, followed by the package name.
#[derive(Clone, Debug, PartialEq, Eq)]
pub struct PackageQuery {
    /// Program (`pacman`, `paru` or `yay`).
    pub program: String,
    /// Option (`-Si` or `-Qi`).
    pub option: String,
}

/// The queries for a package's conflicts or dependencies, in the order they are tried:
/// `pacman -Qi` for a package of the `local` repository, `pacman -Si` for another official one;
/// for an AUR package `paru -Si` and then `yay -Si`, each when that helper is available.
pub open spec fn query_plan(source: PackageSource, has_paru: bool, has_yay: bool) -> Seq<
    (Seq<char>, Seq<char>),
> {
    match source {
        PackageSource::Official { repo, .. } => if repo@ == "local"@ {
            seq![("pacman"@, "-Qi"@)]
        } else {
            seq![("pacman"@, "-Si"@)]
        },
        PackageSource::Aur => (if has_paru {
            seq![("paru"@, "-Si"@)]
        } else {
            Seq::empty()
        }) + (if has_yay {
            seq![("yay"@, "-Si"@)]
        } else {
            Seq::empty()
        }),
    }
}

/// A query of `program` with `option`.
fn query_of(program: &str, option: &str) -> (r: PackageQuery)
    ensures
        r.program@ == program@,
        r.option@ == option@,
{
    PackageQuery { program: program.to_owned(), option: option.to_owned() }
}

/// The queries for a package's conflicts or dependencies, in order (see `query_plan`).
pub fn package_queries(source: &PackageSource, has_paru: bool, has_yay: bool) -> (r: Vec<
    PackageQuery,
>)
    ensures
        r@.len() == query_plan(*source, has_paru, has_yay).len(),
        forall|i: int|
            #![trigger r@[i]]
            0 <= i < r@.len() ==> (r@[i].program@, r@[i].option@) == query_plan(
                *source,
                has_paru,
                has_yay,
            )[i],
{
    let mut out: Vec<PackageQuery> = Vec::new();
    match source {
        PackageSource::Official { repo, .. } => {
            if crate::text::str_eq(repo.as_str(), "local") {
                out.push(query_of("pacman", "-Qi"));
            } else {
                out.push(query_of("pacman", "-Si"));
            }
        },
        PackageSource::Aur => {
            if has_paru {
                out.push(query_of("paru", "-Si"));
            }
            if has_yay {
                out.push(query_of("yay", "-Si"));
            }
        },
    }
    out
}

/// What the answer of one conflict query settles: for an official package, its conflicts
/// (none when the query failed, `answer` being `None`); for an AUR package, its conflicts when
/// the query succeeded and named some, and otherwise nothing yet (`None`: the next query, if
/// any, is tried, and without one the package has no known conflicts).
pub fn conflicts_from_answer(source: &PackageSource, answer: Option<&str>) -> (r: Option<
    Vec<String>,
>)
    ensures
        match *source {
            PackageSource::Official { .. } => r matches Some(v) && sv(v@) == match answer {
                Some(t) => crate::deps::parse::si_conflicts(t@),
                None => Seq::empty(),
            },
            PackageSource::Aur => match answer {
                Some(t) => if crate::deps::parse::si_conflicts(t@).len() > 0 {
                    r matches Some(v) && sv(v@) == crate::deps::parse::si_conflicts(t@)
                } else {
                    r is None
                },
                None => r is None,
            },
        },
{
    match source {
        PackageSource::Official { .. } => match answer {
            Some(t) => Some(crate::deps::parse::parse_pacman_si_conflicts(t)),
            None => {
                let v: Vec<String> = Vec::new();
                assert(sv(v@) =~= Seq::<Seq<char>>::empty());
                Some(v)
            },
        },
        PackageSource::Aur => match answer {
            Some(t) => {
                let c = crate::deps::parse::parse_pacman_si_conflicts(t);
                if c.len() > 0 {
                    Some(c)
                } else {
                    None
                }
            },
            None => None,
        },
    }
}

/// What the answer of one dependency query of package `name` settles (`answer` is the
/// query's output when it succeeded, its error output when it failed): for a package of the
/// `local` repository, its `Depends On` list, or none when the query failed; for another
/// official package, that list, or an error naming the package and the error output when the
/// query failed; for an AUR package, the list when the query succeeded and named some, and
/// otherwise nothing yet (`None`: the next query, if any, is tried).
pub fn dependencies_from_answer(name: &str, source: &PackageSource, answer: Result<&str, &str>) -> (r:
    Option<Result<Vec<String>, crate::error::ArchToolkitError>>)
    ensures
        match *source {
            PackageSource::Official { repo, .. } => match answer {
                Ok(t) => r matches Some(Ok(v)) && sv(v@) == crate::deps::parse::si_deps(t@),
                Err(e) => if repo@ == "local"@ {
                    r matches Some(Ok(v)) && v@.len() == 0
                } else {
                    r matches Some(Err(crate::error::ArchToolkitError::Parse(m))) && m@
                        == "pacman -Si failed for "@ + name@ + ": "@ + e@
                },
            },
            PackageSource::Aur => match answer {
                Ok(t) => if crate::deps::parse::si_deps(t@).len() > 0 {
                    r matches Some(Ok(v)) && sv(v@) == crate::deps::parse::si_deps(t@)
                } else {
                    r is None
                },
                Err(_) => r is None,
            },
        },
{
    match source {
        PackageSource::Official { repo, .. } => match answer {
            Ok(t) => Some(Ok(crate::deps::parse::parse_pacman_si_deps(t))),
            Err(e) => {
                if crate::text::str_eq(repo.as_str(), "local") {
                    Some(Ok(Vec::new()))
                } else {
                    let mut v = to_chars("pacman -Si failed for ");
                    let n = to_chars(name);
                    crate::text::extend_chars(&mut v, n.as_slice());
                    let sep = to_chars(": ");
                    crate::text::extend_chars(&mut v, sep.as_slice());
                    let ec = to_chars(e);
                    crate::text::extend_chars(&mut v, ec.as_slice());
                    Some(Err(crate::error::ArchToolkitError::Parse(chars_to_string(v.as_slice()))))
                }
            },
        },
        PackageSource::Aur => match answer {
            Ok(t) => {
                let d = crate::deps::parse::parse_pacman_si_deps(t);
                if d.len() > 0 {
                    Some(Ok(d))
                } else {
                    None
                }
            },
            Err(_) => None,
        },
    }
}

/// The `depends` of the cached PKGBUILD of `name` (the first one cached under that name), or
/// none when no PKGBUILD of it is cached.
pub fn pkgbuild_fallback_deps(name: &str, cache: Option<&Vec<(String, String)>>) -> (r: Vec<String>)
    ensures
        sv(r@) == match cache {
            Some(c) => match lookup(pairs(c@), name@, 0) {
                Some(text) => crate::deps::pkgbuild::pkgbuild_arrays(text, false)[0],
                None => Seq::empty(),
            },
            None => Seq::empty(),
        },
{
    let found = match cache {
        Some(c) => lookup_exec(c, name),
        None => None,
    };
    match found {
        Some(text) => {
            let (depends, _, _, _) = crate::deps::pkgbuild::parse_pkgbuild_deps(text);
            depends
        },
        None => {
            let v: Vec<String> = Vec::new();
            assert(sv(v@) =~= Seq::<Seq<char>>::empty());
            v
        },
    }
}

/// Whether the records have distinct names and ranks of statuses, exactly the listed conflicts
/// carry the conflict status, and each listed conflict has a record.
pub open spec fn conflicts_consistent(deps: Seq<DepModel>, confl: Seq<Seq<char>>) -> bool {
    &&& distinct_names(deps)
    &&& forall|i: int| 0 <= i < deps.len() ==> (#[trigger] deps[i]).status.0 >= 0
    &&& forall|i: int| 0 <= i < deps.len() ==> ((#[trigger] deps[i]).status.0 == 0 <==> confl.contains(deps[i].name))
    &&& forall|n: Seq<char>| #[trigger] confl.contains(n) ==> exists|i: int| 0 <= i < deps.len() && #[trigger] deps[i].name == n
}

/// Lemma: the host never gives the conflict or missing status.
proof fn lemma_host_status_rank(h: HostFacts, name: Seq<char>, req: Seq<char>)
    ensures
        host_status(h, name, req).0 >= 2,
{
}

/// Lemma: merging a conflict record keeps the conflicts consistent once its name is listed.
proof fn lemma_merge_conflict(deps: Seq<DepModel>, confl: Seq<Seq<char>>, x: Seq<char>, pname: Seq<char>, h: HostFacts)
    requires
        conflicts_consistent(deps, confl),
    ensures
        conflicts_consistent(
            merge_model(deps, conflict_model(x, pname), pname, h),
            if confl.contains(x) {
                confl
            } else {
                confl.push(x)
            },
        ),
{
    let r = merge_model(deps, conflict_model(x, pname), pname, h);
    let c2 = if confl.contains(x) {
        confl
    } else {
        confl.push(x)
    };
    lemma_dep_index(deps, x, 0);
    lemma_merge_distinct(deps, conflict_model(x, pname), pname, h);
    assert forall|n: Seq<char>| #[trigger] c2.contains(n) <==> (confl.contains(n) || n == x) by {
        vstd::seq_lib::lemma_seq_contains_after_push(confl, x, n);
    }
    match dep_index(deps, x, 0) {
        Some(k) => {
            assert(r.len() == deps.len());
            assert(r[k].name == x && r[k].status.0 == 0);
            assert forall|i: int| 0 <= i < r.len() implies ((#[trigger] r[i]).status.0 == 0 <==> c2.contains(r[i].name)) by {
                if i != k {
                    assert(r[i] == deps[i]);
                    assert(deps[i].name != x);
                }
            }
            assert forall|n: Seq<char>| #[trigger] c2.contains(n) implies exists|i: int| 0 <= i < r.len() && #[trigger] r[i].name == n by {
                if n == x {
                    assert(r[k].name == n);
                } else {
                    let i = choose|i: int| 0 <= i < deps.len() && #[trigger] deps[i].name == n;
                    assert(r[i].name == n);
                }
            }
        },
        None => {
            assert(r.len() == deps.len() + 1);
            let k = deps.len() as int;
            assert(r[k].name == x && r[k].status.0 == 0);
            assert forall|i: int| 0 <= i < r.len() implies ((#[trigger] r[i]).status.0 == 0 <==> c2.contains(r[i].name)) by {
                if i != k {
                    assert(r[i] == deps[i]);
                    assert(deps[i].name != x);
                }
            }
            assert forall|n: Seq<char>| #[trigger] c2.contains(n) implies exists|i: int| 0 <= i < r.len() && #[trigger] r[i].name == n by {
                if n == x {
                    assert(r[k].name == n);
                } else {
                    let i = choose|i: int| 0 <= i < deps.len() && #[trigger] deps[i].name == n;
                    assert(r[i].name == n);
                }
            }
        },
    }
}

/// Lemma: merging a record whose status the host gives keeps the conflicts consistent.
proof fn lemma_merge_dependency_record(deps: Seq<DepModel>, confl: Seq<Seq<char>>, d: DepModel, pname: Seq<char>, h: HostFacts)
    requires
        conflicts_consistent(deps, confl),
        d.status.0 >= 2,
    ensures
        conflicts_consistent(merge_model(deps, d, pname, h), confl),
{
    let r = merge_model(deps, d, pname, h);
    lemma_dep_index(deps, d.name, 0);
    lemma_merge_distinct(deps, d, pname, h);
    match dep_index(deps, d.name, 0) {
        Some(k) => {
            lemma_host_status_rank(h, deps[k].name, d.version_req);
            lemma_host_status_rank(h, deps[k].name, deps[k].version_req);
            assert(r[k].name == deps[k].name);
            assert((r[k].status.0 == 0) == (deps[k].status.0 == 0));
            assert forall|i: int| 0 <= i < r.len() implies ((#[trigger] r[i]).status.0 == 0 <==> confl.contains(r[i].name)) by {
                if i != k {
                    assert(r[i] == deps[i]);
                }
            }
            assert forall|n: Seq<char>| #[trigger] confl.contains(n) implies exists|i: int| 0 <= i < r.len() && #[trigger] r[i].name == n by {
                let i = choose|i: int| 0 <= i < deps.len() && #[trigger] deps[i].name == n;
                assert(r[i].name == n);
            }
        },
        None => {
            let k = deps.len() as int;
            assert(r[k].name == d.name && r[k].status.0 != 0);
            assert(!confl.contains(d.name)) by {
                if confl.contains(d.name) {
                    let i = choose|i: int| 0 <= i < deps.len() && #[trigger] deps[i].name == d.name;
                }
            }
            assert forall|i: int| 0 <= i < r.len() implies ((#[trigger] r[i]).status.0 == 0 <==> confl.contains(r[i].name)) by {
                if i != k {
                    assert(r[i] == deps[i]);
                }
            }
            assert forall|n: Seq<char>| #[trigger] confl.contains(n) implies exists|i: int| 0 <= i < r.len() && #[trigger] r[i].name == n by {
                let i = choose|i: int| 0 <= i < deps.len() && #[trigger] deps[i].name == n;
                assert(r[i].name == n);
            }
        },
    }
}

/// Lemma: the conflict phase keeps the conflicts consistent.
proof fn lemma_conflict_fold(
    deps: Seq<DepModel>,
    confl: Seq<Seq<char>>,
    cs: Seq<Seq<char>>,
    j: int,
    pname: Seq<char>,
    roots: Seq<Seq<char>>,
    h: HostFacts,
)
    requires
        conflicts_consistent(deps, confl),
    ensures
        conflicts_consistent(conflict_fold(deps, confl, cs, j, pname, roots, h).0, conflict_fold(deps, confl, cs, j, pname, roots, h).1),
    decreases j,
{
    if j > 0 {
        lemma_conflict_fold(deps, confl, cs, j - 1, pname, roots, h);
        let (d, c) = conflict_fold(deps, confl, cs, j - 1, pname, roots, h);
        lemma_merge_conflict(d, c, cs[j - 1], pname, h);
    }
}

/// Lemma: conflicts are consistent after the conflicts of the first `k` packages.
proof fn lemma_conflict_phase(pkgs: Seq<PackageRef>, facts: Seq<PackageFacts>, h: HostFacts, k: int)
    ensures
        conflicts_consistent(conflict_phase(pkgs, facts, h, k).0, conflict_phase(pkgs, facts, h, k).1),
    decreases k,
{
    if k > 0 {
        lemma_conflict_phase(pkgs, facts, h, k - 1);
        let (d, c) = conflict_phase(pkgs, facts, h, k - 1);
        let cs = facts_conflicts(facts, k - 1);
        lemma_conflict_fold(d, c, cs, cs.len() as int, pkgs[k - 1].name@, names_of(pkgs), h);
    }
}

/// Lemma: merging dependencies the host rates keeps the conflicts consistent and lists none as
/// missing.
proof fn lemma_dep_fold(
    deps: Seq<DepModel>,
    miss: Seq<Seq<char>>,
    ds: Seq<DepModel>,
    j: int,
    pname: Seq<char>,
    h: HostFacts,
    confl: Seq<Seq<char>>,
)
    requires
        conflicts_consistent(deps, confl),
        0 <= j <= ds.len(),
        forall|i: int| 0 <= i < ds.len() ==> (#[trigger] ds[i]).status.0 >= 2,
    ensures
        conflicts_consistent(dep_fold(deps, miss, ds, j, pname, h).0, confl),
        dep_fold(deps, miss, ds, j, pname, h).1 == miss,
    decreases j,
{
    if j > 0 {
        lemma_dep_fold(deps, miss, ds, j - 1, pname, h, confl);
        let (d, m) = dep_fold(deps, miss, ds, j - 1, pname, h);
        lemma_merge_dependency_record(d, confl, ds[j - 1], pname, h);
    }
}

/// Lemma: the dependency phase keeps the conflicts consistent and lists only packages as
/// missing.
proof fn lemma_dep_phase(
    pkgs: Seq<PackageRef>,
    facts: Seq<PackageFacts>,
    h: HostFacts,
    deps0: Seq<DepModel>,
    confl: Seq<Seq<char>>,
    k: int,
)
    requires
        facts_agree_with_host(facts, h),
        conflicts_consistent(deps0, confl),
        0 <= k <= pkgs.len(),
    ensures
        conflicts_consistent(dep_phase(pkgs, facts, h, deps0, k).0, confl),
        forall|n: Seq<char>| #[trigger] dep_phase(pkgs, facts, h, deps0, k).1.contains(n) ==> names_of(pkgs).contains(n),
    decreases k,
{
    if k > 0 {
        lemma_dep_phase(pkgs, facts, h, deps0, confl, k - 1);
        let (d, m) = dep_phase(pkgs, facts, h, deps0, k - 1);
        let pname = pkgs[k - 1].name@;
        assert(names_of(pkgs)[k - 1] == pname);
        match facts_deps(facts, k - 1) {
            None => {
                assert forall|n: Seq<char>| #[trigger] m.push(pname).contains(n) implies names_of(pkgs).contains(n) by {
                    vstd::seq_lib::lemma_seq_contains_after_push(m, pname, n);
                }
            },
            Some(ds) => {
                assert forall|i: int| 0 <= i < ds.len() implies (#[trigger] ds[i]).status.0 >= 2 by {
                    let v = facts[k - 1].dependencies->0@;
                    assert(ds[i] == dep_model(v[i]));
                    assert(status_view(v[i].status) == host_status(h, v[i].name@, v[i].version_req@));
                    lemma_host_status_rank(h, v[i].name@, v[i].version_req@);
                }
                lemma_dep_fold(d, m, ds, ds.len() as int, pname, h, confl);
            },
        }
    }
}

/// When the facts carry the statuses the host gives, a resolution is consistent: the records
/// with the conflict status are exactly those of the listed conflicts (a later dependency never
/// downgrades a conflict), each listed conflict has its record, and only packages being
/// resolved are listed as missing.
pub proof fn law_resolution_conflicts_are_consistent(pkgs: Seq<PackageRef>, facts: Seq<PackageFacts>, h: HostFacts)
    requires
        facts_agree_with_host(facts, h),
    ensures
        ({
            let (cd, confl) = conflict_phase(pkgs, facts, h, pkgs.len() as int);
            let (dd, miss) = dep_phase(pkgs, facts, h, cd, pkgs.len() as int);
            &&& conflicts_consistent(dd, confl)
            &&& forall|n: Seq<char>| #[trigger] miss.contains(n) ==> names_of(pkgs).contains(n)
        }),
{
    lemma_conflict_phase(pkgs, facts, h, pkgs.len() as int);
    let (cd, confl) = conflict_phase(pkgs, facts, h, pkgs.len() as int);
    lemma_dep_phase(pkgs, facts, h, cd, confl, pkgs.len() as int);
}

} // verus!
