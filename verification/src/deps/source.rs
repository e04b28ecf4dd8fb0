//! Where a dependency comes from: reading the repository field of package-database queries and
//! recognizing critical system packages.
use crate::deps::query::{labeled_value, labeled_value_chars};
use crate::text::{chars_eq_str, chars_to_string, lines, lower_chars, lowercase, split_lines, to_chars, vv};
use crate::types::DependencySource;
use vstd::prelude::*;

verus! {

/// Packages whose removal or replacement breaks the system.
pub open spec fn system_package_names() -> Seq<Seq<char>> {
    seq![
        "glibc"@,
        "linux"@,
        "systemd"@,
        "pacman"@,
        "bash"@,
        "coreutils"@,
        "gcc"@,
        "binutils"@,
        "filesystem"@,
        "util-linux"@,
        "shadow"@,
        "sed"@,
        "grep"@,
    ]
}

/// Repository named by query output: the lower-cased `Repository` field.
pub open spec fn repository_of(text: Seq<char>) -> Option<Seq<char>> {
    match labeled_value(lines(text), 0, "Repository"@) {
        Some(v) => Some(lowercase(v)),
        None => None,
    }
}

/// A source as a variant number (official 0, AUR 1, local 2) and repository name.
pub open spec fn source_view(s: DependencySource) -> (int, Seq<char>) {
    match s {
        DependencySource::Official { repo } => (0, repo@),
        DependencySource::Aur => (1, Seq::empty()),
        DependencySource::Local => (2, Seq::empty()),
    }
}

/// Source and core flag of a dependency. `query` is the output of `pacman -Qi` for an installed
/// name or of `pacman -Si` otherwise, `None` when the query failed. Not installed: the named
/// repository (`extra` when none is named), or the AUR when the query failed. Installed: local
/// when the named repository is `local` or empty, else that repository; without a named
/// repository, `core` for system packages and `extra` otherwise. The flag holds for `core`.
pub open spec fn source_decision(name: Seq<char>, installed: bool, query: Option<Seq<char>>) -> (
    (int, Seq<char>),
    bool,
) {
    if !installed {
        match query {
            Some(q) => match repository_of(q) {
                Some(repo) => ((0, repo), repo == "core"@),
                None => ((0, "extra"@), false),
            },
            None => ((1, Seq::empty()), false),
        }
    } else {
        match query {
            Some(q) if repository_of(q) is Some => {
                let repo = repository_of(q)->0;
                if repo == "local"@ || repo.len() == 0 {
                    ((2, Seq::empty()), false)
                } else {
                    ((0, repo), repo == "core"@)
                }
            },
            _ => if system_package_names().contains(name) {
                ((0, "core"@), true)
            } else {
                ((0, "extra"@), false)
            },
        }
    }
}

/// Whether `name` is one of the critical system packages.
pub fn is_system_package(name: &str) -> (r: bool)
    ensures
        r == system_package_names().contains(name@),
{
    let v = to_chars(name);
    let n = v.as_slice();
    let r = chars_eq_str(n, "glibc") || chars_eq_str(n, "linux") || chars_eq_str(n, "systemd")
        || chars_eq_str(n, "pacman") || chars_eq_str(n, "bash") || chars_eq_str(n, "coreutils")
        || chars_eq_str(n, "gcc") || chars_eq_str(n, "binutils") || chars_eq_str(n, "filesystem")
        || chars_eq_str(n, "util-linux") || chars_eq_str(n, "shadow") || chars_eq_str(n, "sed")
        || chars_eq_str(n, "grep");
    proof {
        let s = system_package_names();
        if r {
            assert(s.contains(name@)) by {
                if name@ == "glibc"@ { assert(s[0] == name@); }
                else if name@ == "linux"@ { assert(s[1] == name@); }
                else if name@ == "systemd"@ { assert(s[2] == name@); }
                else if name@ == "pacman"@ { assert(s[3] == name@); }
                else if name@ == "bash"@ { assert(s[4] == name@); }
                else if name@ == "coreutils"@ { assert(s[5] == name@); }
                else if name@ == "gcc"@ { assert(s[6] == name@); }
                else if name@ == "binutils"@ { assert(s[7] == name@); }
                else if name@ == "filesystem"@ { assert(s[8] == name@); }
                else if name@ == "util-linux"@ { assert(s[9] == name@); }
                else if name@ == "shadow"@ { assert(s[10] == name@); }
                else if name@ == "sed"@ { assert(s[11] == name@); }
                else { assert(s[12] == name@); }
            }
        } else {
            assert(!s.contains(name@)) by {
                if s.contains(name@) {
                    let k = choose|k: int| 0 <= k < s.len() && s[k] == name@;
                    assert(0 <= k < 13);
                }
            }
        }
    }
    r
}

/// Lower-cased `Repository` field of query output.
pub fn parse_repository(output: &str) -> (r: Option<String>)
    ensures
        crate::deps::query::opt_view(r) == repository_of(output@),
{
    let v = to_chars(output);
    let ls = split_lines(v.as_slice());
    match labeled_value_chars(&ls, "Repository") {
        Some(val) => {
            let lo = lower_chars(val.as_slice());
            Some(chars_to_string(lo.as_slice()))
        },
        None => None,
    }
}

/// Source and core flag of `name` from whether it is installed and the output of its package
/// query (`None` when the query failed).
pub fn dependency_source_from_query(name: &str, installed: bool, query: Option<&str>) -> (r: (
    DependencySource,
    bool,
))
    ensures
        (source_view(r.0), r.1) == source_decision(
            name@,
            installed,
            match query {
                Some(q) => Some(q@),
                None => None,
            },
        ),
{
    let repo = match query {
        Some(q) => parse_repository(q),
        None => None,
    };
    if !installed {
        match query {
            Some(_) => match repo {
                Some(r) => {
                    let c = crate::text::str_eq(r.as_str(), "core");
                    (DependencySource::Official { repo: r }, c)
                },
                None => {
                    let e = String::from_str("extra");
                    proof {
                        reveal_strlit("extra");
                    }
                    (DependencySource::Official { repo: e }, false)
                },
            },
            None => (DependencySource::Aur, false),
        }
    } else {
        match repo {
            Some(r) => {
                if crate::text::str_eq(r.as_str(), "local") || r.as_str().is_empty() {
                    (DependencySource::Local, false)
                } else {
                    let c = crate::text::str_eq(r.as_str(), "core");
                    (DependencySource::Official { repo: r }, c)
                }
            },
            None => {
                if is_system_package(name) {
                    (DependencySource::Official { repo: String::from_str("core") }, true)
                } else {
                    (DependencySource::Official { repo: String::from_str("extra") }, false)
                }
            },
        }
    }
}

} // verus!
