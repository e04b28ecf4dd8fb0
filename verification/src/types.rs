//! Data types shared by the dependency modules.
use vstd::prelude::*;

verus! {

/// A dependency name together with its version requirement (e.g. `python` and `>=3.12`).
#[derive(Clone, Debug)]
pub struct DependencySpec {
    /// Package or virtual name.
    pub name: String,
    /// Operator-prefixed version requirement, empty when there is none.
    pub version_req: String,
}

impl DependencySpec {
    /// A specification with the given name and no version requirement.
    pub fn new(name: &str) -> (r: DependencySpec)
        ensures
            r.name@ == name@,
            r.version_req@ == Seq::<char>::empty(),
    {
        DependencySpec { name: name.to_owned(), version_req: String::new() }
    }

    /// Whether a version requirement is present.
    pub fn has_version_req(&self) -> (r: bool)
        ensures
            r == (self.version_req@.len() > 0),
    {
        !self.version_req.as_str().is_empty()
    }
}

/// Where a dependency comes from.
#[derive(Clone, Debug, PartialEq, Eq)]
pub enum DependencySource {
    /// An official repository, named by `repo`.
    Official {
        /// Repository name (such as `core` or `extra`).
        repo: String,
    },
    /// The Arch User Repository.
    Aur,
    /// A locally installed package from no repository.
    Local,
}

/// What a dependency needs, from most to least severe: a conflict, a missing package, an
/// installation, an upgrade, or nothing (already installed).
#[derive(Clone, Debug, PartialEq, Eq)]
pub enum DependencyStatus {
    /// Already installed at `version`.
    Installed {
        /// Installed version.
        version: String,
    },
    /// Not installed; must be installed.
    ToInstall,
    /// Installed at `current`; `required` is what is needed.
    ToUpgrade {
        /// Installed version.
        current: String,
        /// Required or available version.
        required: String,
    },
    /// Conflicts with a package being installed or already installed.
    Conflict {
        /// Why the conflict arises.
        reason: String,
    },
    /// Found in no repository.
    Missing,
}

impl DependencyStatus {
    /// Severity rank of the status: conflict 0, missing 1, to install 2, to upgrade 3,
    /// installed 4 (lower is more severe).
    pub open spec fn rank(self) -> int {
        match self {
            DependencyStatus::Conflict { .. } => 0,
            DependencyStatus::Missing => 1,
            DependencyStatus::ToInstall => 2,
            DependencyStatus::ToUpgrade { .. } => 3,
            DependencyStatus::Installed { .. } => 4,
        }
    }

    /// Severity rank of the status (lower is more severe).
    pub fn priority(&self) -> (r: u8)
        ensures
            r == self.rank(),
    {
        match self {
            DependencyStatus::Conflict { .. } => 0,
            DependencyStatus::Missing => 1,
            DependencyStatus::ToInstall => 2,
            DependencyStatus::ToUpgrade { .. } => 3,
            DependencyStatus::Installed { .. } => 4,
        }
    }
}

/// A resolved dependency with its status and the packages that require it.
#[derive(Clone, Debug)]
pub struct Dependency {
    /// Package name.
    pub name: String,
    /// Version requirement, empty when there is none.
    pub version_req: String,
    /// What the dependency needs.
    pub status: DependencyStatus,
    /// Where it comes from.
    pub source: DependencySource,
    /// Packages that require it.
    pub required_by: Vec<String>,
    /// Packages it depends on.
    pub depends_on: Vec<String>,
    /// Whether it comes from the `core` repository.
    pub is_core: bool,
    /// Whether it is a critical system package.
    pub is_system: bool,
}

/// Where a package to resolve comes from.
#[derive(Clone, Debug, PartialEq, Eq)]
pub enum PackageSource {
    /// An official repository (`repo` of architecture `arch`).
    Official {
        /// Repository name.
        repo: String,
        /// Architecture.
        arch: String,
    },
    /// The Arch User Repository.
    Aur,
}

/// A package to resolve: name, version and source.
#[derive(Clone, Debug, PartialEq, Eq)]
pub struct PackageRef {
    /// Package name.
    pub name: String,
    /// Package version.
    pub version: String,
    /// Package source.
    pub source: PackageSource,
}

/// Options of the dependency resolver.
#[derive(Clone, Debug)]
pub struct ResolverConfig {
    /// Include optional dependencies.
    pub include_optdepends: bool,
    /// Include build dependencies.
    pub include_makedepends: bool,
    /// Include check dependencies.
    pub include_checkdepends: bool,
    /// Maximum resolution depth (0 resolves direct dependencies only).
    pub max_depth: usize,
    /// Cached `PKGBUILD` texts by package name, consulted for AUR packages.
    pub pkgbuild_cache: Option<Vec<(String, String)>>,
    /// Query the AUR for packages found in no official repository.
    pub check_aur: bool,
}

impl Default for ResolverConfig {
    /// Direct dependencies only, no optional, build or check dependencies, no cache, no AUR.
    fn default() -> (r: ResolverConfig)
        ensures
            !r.include_optdepends,
            !r.include_makedepends,
            !r.include_checkdepends,
            r.max_depth == 0,
            r.pkgbuild_cache is None,
            !r.check_aur,
    {
        ResolverConfig {
            include_optdepends: false,
            include_makedepends: false,
            include_checkdepends: false,
            max_depth: 0,
            pkgbuild_cache: None,
            check_aur: false,
        }
    }
}

/// Outcome of dependency resolution.
#[derive(Clone, Debug)]
pub struct DependencyResolution {
    /// Unique dependencies, most severe first, then by name.
    pub dependencies: Vec<Dependency>,
    /// Names that conflict with the packages being installed.
    pub conflicts: Vec<String>,
    /// Names that could not be found.
    pub missing: Vec<String>,
}

impl Default for DependencyResolution {
    /// No dependencies, conflicts or missing names.
    fn default() -> (r: DependencyResolution)
        ensures
            r.dependencies@.len() == 0,
            r.conflicts@.len() == 0,
            r.missing@.len() == 0,
    {
        DependencyResolution { dependencies: Vec::new(), conflicts: Vec::new(), missing: Vec::new() }
    }
}

/// Impact of removing one target package.
#[derive(Clone, Debug, PartialEq, Eq)]
pub struct ReverseDependencySummary {
    /// The target package.
    pub package: String,
    /// Installed packages that depend on it directly.
    pub direct_dependents: usize,
    /// Installed packages that depend on it through others.
    pub transitive_dependents: usize,
    /// Sum of the direct and transitive dependents.
    pub total_dependents: usize,
}

/// Installed packages that would break if the targets were removed.
#[derive(Clone, Debug)]
pub struct ReverseDependencyReport {
    /// The affected packages, by name.
    pub dependents: Vec<Dependency>,
    /// One summary per target, by package name.
    pub summaries: Vec<ReverseDependencySummary>,
}

impl Default for ReverseDependencyReport {
    /// No dependents and no summaries.
    fn default() -> (r: ReverseDependencyReport)
        ensures
            r.dependents@.len() == 0,
            r.summaries@.len() == 0,
    {
        ReverseDependencyReport { dependents: Vec::new(), summaries: Vec::new() }
    }
}

/// A comment on an AUR package page.
#[derive(Clone, Debug, PartialEq, Eq)]
pub struct AurComment {
    /// Stable identifier: the comment's element id, else its permalink.
    pub id: Option<String>,
    /// Author's user name.
    pub author: String,
    /// Date as shown (converted to local time when possible).
    pub date: String,
    /// Date as seconds since the Unix epoch, when it could be read.
    pub date_timestamp: Option<i64>,
    /// Absolute permalink of the comment.
    pub date_url: Option<String>,
    /// Text of the comment.
    pub content: String,
    /// Whether the comment is pinned on the page.
    pub pinned: bool,
}

} // verus!
