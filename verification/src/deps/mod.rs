//! Dependency parsing, version comparison and resolution for Arch Linux packages.
pub mod graph;
pub mod parse;
pub mod pkgbuild;
pub mod query;
pub mod resolve;
pub mod reverse;
pub mod source;
pub mod srcinfo;
pub mod version;

pub use parse::{
    is_valid_package_token, parse_dep_spec, parse_pacman_si_conflicts, parse_pacman_si_deps,
};
pub use version::{
    compare_versions, extract_major_component, is_major_version_bump, normalize_version,
    version_satisfies,
};
pub use pkgbuild::{parse_pkgbuild_conflicts, parse_pkgbuild_deps};
pub use srcinfo::{parse_srcinfo, parse_srcinfo_conflicts, parse_srcinfo_deps, SrcinfoData};
