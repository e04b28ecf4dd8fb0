//! Checks around official-repository metadata and mirror-health requests: which requests are
//! acceptable, which candidate matches a selector, and how results are reported.
use crate::aur::utils::{get_member, json_document, json_get, json_str, JsonValue};
use crate::error::{error_text, ArchToolkitError};
use crate::text::{chars_to_string, contains, starts_with, to_chars, trim};
use vstd::prelude::*;

verus! {

/// An official-repository package, or a selector of one (empty repository or architecture
/// match any).
#[derive(Clone, Debug, PartialEq, Eq)]
pub struct OfficialPackage {
    /// Package name.
    pub name: String,
    /// Repository (such as `core` or `extra`).
    pub repo: String,
    /// Architecture.
    pub arch: String,
    /// Version (`pkgver-pkgrel`).
    pub version: String,
    /// Description.
    pub description: String,
}

/// Bounds of an official package detail request.
#[derive(Clone, Copy, Debug, PartialEq, Eq)]
pub struct MetadataFetchLimits {
    /// Largest accepted response, in bytes.
    pub max_response_bytes: usize,
    /// Most candidates examined.
    pub max_candidates: usize,
}

/// Bounds of a mirror-health check.
#[derive(Clone, Copy, Debug, PartialEq, Eq)]
pub struct MirrorHealthLimits {
    /// Most mirrors probed.
    pub max_mirrors: usize,
}

/// Outcome of probing one mirror.
#[derive(Clone, Copy, Debug, PartialEq, Eq)]
pub enum MirrorHealthStatus {
    /// The probe succeeded.
    Reachable,
    /// The probe failed or answered with an error status.
    Unreachable,
    /// The mirror address or probe could not be formed.
    Invalid,
}

/// Result of probing one mirror.
#[derive(Clone, Debug, PartialEq, Eq)]
pub struct MirrorHealth {
    /// Mirror address (shortened for reporting).
    pub mirror_url: String,
    /// Outcome.
    pub status: MirrorHealthStatus,
    /// HTTP status, when one came back.
    pub status_code: Option<u16>,
    /// Detail of a failure.
    pub detail: Option<String>,
}

/// Largest mirror address accepted, in bytes.
pub const MAX_MIRROR_URL_BYTES: usize = 4096;

/// Most characters of a reported failure detail.
pub const MAX_PROBE_DETAIL_BYTES: usize = 240;

/// Why an official package detail request is refused: a blank package name, or a zero
/// response or candidate bound.
pub fn validate_metadata_request(package: &OfficialPackage, limits: MetadataFetchLimits) -> (r:
    Result<(), ArchToolkitError>)
    ensures
        trim(package.name@).len() == 0 ==> (r matches Err(
            ArchToolkitError::EmptyInput { field, message },
        ) && field@ == "official package name"@ && message@
            == "an official package detail request needs a package name"@),
        trim(package.name@).len() > 0 && (limits.max_response_bytes == 0 || limits.max_candidates
            == 0) ==> (r matches Err(ArchToolkitError::InvalidInput(m)) && m@
            == "official package response and candidate limits must be greater than zero"@),
        trim(package.name@).len() > 0 && limits.max_response_bytes > 0 && limits.max_candidates > 0
            ==> r is Ok,
{
    let t = crate::text::trim_str(package.name.as_str());
    if t.is_empty() {
        return Err(
            ArchToolkitError::EmptyInput {
                field: "official package name".to_owned(),
                message: "an official package detail request needs a package name".to_owned(),
            },
        );
    }
    if limits.max_response_bytes == 0 || limits.max_candidates == 0 {
        return Err(
            ArchToolkitError::InvalidInput(
                "official package response and candidate limits must be greater than zero".to_owned(),
            ),
        );
    }
    Ok(())
}

/// Whether a candidate is the package a selector asks for: the same name, and the same
/// repository and architecture where the selector names them.
pub open spec fn matches_selector(candidate: OfficialPackage, selector: OfficialPackage) -> bool {
    candidate.name@ == selector.name@ && (selector.repo@.len() == 0 || candidate.repo@
        == selector.repo@) && (selector.arch@.len() == 0 || candidate.arch@ == selector.arch@)
}

/// Whether a candidate is the package a selector asks for.
pub fn exact_official_match(candidate: &OfficialPackage, selector: &OfficialPackage) -> (r: bool)
    ensures
        r == matches_selector(*candidate, *selector),
{
    crate::text::str_eq(candidate.name.as_str(), selector.name.as_str()) && (
    selector.repo.as_str().is_empty() || crate::text::str_eq(candidate.repo.as_str(), selector.repo.as_str()))
        && (selector.arch.as_str().is_empty() || crate::text::str_eq(
        candidate.arch.as_str(),
        selector.arch.as_str(),
    ))
}

/// Whether a path has a `..` segment (between slashes or the ends).
pub open spec fn has_parent_segment(p: Seq<char>) -> bool {
    exists|i: int|
        0 <= i && i + 2 <= p.len() && (i == 0 || p[i - 1] == '/') && #[trigger] p[i] == '.' && p[i
            + 1] == '.' && (i + 2 == p.len() || p[i + 2] == '/')
}

/// Whether a probe path is acceptable: absolute, without query, fragment or `..` segment.
pub open spec fn probe_path_ok(p: Seq<char>) -> bool {
    starts_with(p, "/"@) && !contains(p, "?"@) && !contains(p, "#"@) && !has_parent_segment(p)
}

/// Whether `p` has a `..` segment.
fn parent_segment(p: &[char]) -> (r: bool)
    ensures
        r == has_parent_segment(p@),
{
    let mut i: usize = 0;
    while i < p.len() && p.len() - i >= 2
        invariant
            i <= p@.len(),
            forall|j: int|
                0 <= j < i && j + 2 <= p@.len() ==> !((j == 0 || p@[j - 1] == '/') && #[trigger] p@[j]
                    == '.' && p@[j + 1] == '.' && (j + 2 == p@.len() || p@[j + 2] == '/')),
        decreases p@.len() - i,
    {
        if (i == 0 || p[i - 1] == '/') && p[i] == '.' && p[i + 1] == '.' && (i + 2 == p.len() || p[i
            + 2] == '/') {
            return true;
        }
        i += 1;
    }
    proof {
        assert forall|j: int|
            0 <= j && j + 2 <= p@.len() implies !((j == 0 || p@[j - 1] == '/') && #[trigger] p@[j]
            == '.' && p@[j + 1] == '.' && (j + 2 == p@.len() || p@[j + 2] == '/')) by {
            assert(j < i);
        }
    }
    false
}

/// Why a mirror-health check is refused: no mirror may be probed, or the probe path is not
/// acceptable (see `probe_path_ok`).
pub fn validate_probe_request(probe_path: &str, limits: MirrorHealthLimits) -> (r: Result<
    (),
    ArchToolkitError,
>)
    ensures
        limits.max_mirrors == 0 ==> (r matches Err(ArchToolkitError::InvalidInput(m)) && m@
            == "mirror health maximum probes must be greater than zero"@),
        limits.max_mirrors > 0 && !probe_path_ok(probe_path@) ==> (r matches Err(
            ArchToolkitError::InvalidInput(m),
        ) && m@
            == "mirror health probe path must be an absolute path without query, fragment, or '..'"@),
        limits.max_mirrors > 0 && probe_path_ok(probe_path@) ==> r is Ok,
{
    if limits.max_mirrors == 0 {
        return Err(
            ArchToolkitError::InvalidInput(
                "mirror health maximum probes must be greater than zero".to_owned(),
            ),
        );
    }
    let p = to_chars(probe_path);
    let has_parent = parent_segment(p.as_slice());
    if !crate::text::starts_with_str(p.as_slice(), "/") || crate::text::contains_str(
        p.as_slice(),
        "?",
    ) || crate::text::contains_str(p.as_slice(), "#") || has_parent {
        return Err(
            ArchToolkitError::InvalidInput(
                "mirror health probe path must be an absolute path without query, fragment, or '..'".to_owned(),
            ),
        );
    }
    Ok(())
}

/// A detail shortened to `maximum` characters, with `…` when something was cut.
pub open spec fn bounded(value: Seq<char>, maximum: usize) -> Seq<char> {
    if value.len() > maximum {
        value.take(maximum as int).push('\u{2026}')
    } else {
        value
    }
}

/// A detail shortened to `maximum_chars` characters, with `…` when something was cut.
pub fn bounded_detail(value: &str, maximum_chars: usize) -> (r: String)
    ensures
        r@ == bounded(value@, maximum_chars),
{
    let v = to_chars(value);
    if v.len() > maximum_chars {
        let mut t = crate::text::slice_chars(v.as_slice(), 0, maximum_chars);
        t.push('\u{2026}');
        assert(t@ =~= value@.take(maximum_chars as int).push('\u{2026}'));
        chars_to_string(t.as_slice())
    } else {
        value.to_owned()
    }
}

/// The error for a response of `resource_name` larger than `maximum_bytes`.
pub fn response_too_large(resource_name: &str, maximum_bytes: usize) -> (r: ArchToolkitError)
    ensures
        r matches ArchToolkitError::InputTooLong { field, max_length, actual_length } && field@
            == resource_name@ + " response"@ && max_length == maximum_bytes && actual_length == (
        if maximum_bytes < usize::MAX {
            (maximum_bytes + 1) as usize
        } else {
            usize::MAX
        }),
{
    let mut f = to_chars(resource_name);
    let s = to_chars(" response");
    crate::text::extend_chars(&mut f, s.as_slice());
    let actual = if maximum_bytes < usize::MAX {
        maximum_bytes + 1
    } else {
        usize::MAX
    };
    ArchToolkitError::InputTooLong {
        field: chars_to_string(f.as_slice()),
        max_length: maximum_bytes,
        actual_length: actual,
    }
}

/// The report of a mirror whose probe could not be formed: invalid, with the error's text
/// (shortened) as detail.
pub fn invalid_mirror_health(mirror_url: String, error: &ArchToolkitError) -> (r: MirrorHealth)
    ensures
        r.mirror_url == mirror_url,
        r.status == MirrorHealthStatus::Invalid,
        r.status_code is None,
        r.detail matches Some(d) && d@ == bounded(error_text(*error), MAX_PROBE_DETAIL_BYTES),
{
    let text = error.message();
    MirrorHealth {
        mirror_url,
        status: MirrorHealthStatus::Invalid,
        status_code: None,
        detail: Some(bounded_detail(text.as_str(), MAX_PROBE_DETAIL_BYTES)),
    }
}

/// The text of a string member of a row, or empty when it is missing or not a string.
pub open spec fn field_text(row: JsonValue, key: Seq<char>) -> Seq<char> {
    match json_str(json_get(row, key)) {
        Some(t) => t,
        None => Seq::empty(),
    }
}

/// The version a row gives: `pkgver-pkgrel`, or `pkgver` alone when `pkgrel` is missing or
/// empty, or empty when `pkgver` is missing.
pub open spec fn row_version(row: JsonValue) -> Seq<char> {
    match json_str(json_get(row, "pkgver"@)) {
        None => Seq::empty(),
        Some(ver) => match json_str(json_get(row, "pkgrel"@)) {
            Some(rel) => if rel.len() > 0 {
                ver + "-"@ + rel
            } else {
                ver
            },
            None => ver,
        },
    }
}

/// Whether `p` is the package that a search-result row describes: its `pkgname`, `repo`,
/// `arch`, version and `pkgdesc`.
pub open spec fn describes(row: JsonValue, p: OfficialPackage) -> bool {
    &&& json_str(json_get(row, "pkgname"@)) == Some(p.name@)
    &&& p.repo@ == field_text(row, "repo"@)
    &&& p.arch@ == field_text(row, "arch"@)
    &&& p.version@ == row_version(row)
    &&& p.description@ == field_text(row, "pkgdesc"@)
}

/// The text of a string member of a row, or empty.
fn field_string(row: &JsonValue, key: &str) -> (r: String)
    ensures
        r@ == field_text(*row, key@),
{
    match get_member(row, key) {
        Some(JsonValue::Str(t)) => t.clone(),
        _ => String::new(),
    }
}

/// The package a search-result row describes, or `None` when the row has no string `pkgname`.
pub fn parse_official_package(row: &JsonValue) -> (r: Option<OfficialPackage>)
    ensures
        match r {
            Some(p) => describes(*row, p),
            None => json_str(json_get(*row, "pkgname"@)) is None,
        },
{
    let name = match get_member(row, "pkgname") {
        Some(JsonValue::Str(t)) => t.clone(),
        _ => {
            return None;
        },
    };
    let version = match get_member(row, "pkgver") {
        Some(JsonValue::Str(ver)) => match get_member(row, "pkgrel") {
            Some(JsonValue::Str(rel)) => if rel.as_str().is_empty() {
                ver.clone()
            } else {
                let mut v = to_chars(ver.as_str());
                v.push('-');
                let rc = to_chars(rel.as_str());
                crate::text::extend_chars(&mut v, rc.as_slice());
                proof {
                    reveal_strlit("-");
                }
                assert(v@ =~= ver@ + "-"@ + rel@);
                chars_to_string(v.as_slice())
            },
            _ => ver.clone(),
        },
        _ => String::new(),
    };
    Some(
        OfficialPackage {
            name,
            repo: field_string(row, "repo"),
            arch: field_string(row, "arch"),
            version,
            description: field_string(row, "pkgdesc"),
        },
    )
}

/// Whether a row describes a package that the selector asks for (see `matches_selector`).
pub open spec fn row_selected(row: JsonValue, selector: OfficialPackage) -> bool {
    &&& json_str(json_get(row, "pkgname"@)) == Some(selector.name@)
    &&& (selector.repo@.len() == 0 || field_text(row, "repo"@) == selector.repo@)
    &&& (selector.arch@.len() == 0 || field_text(row, "arch"@) == selector.arch@)
}

/// The first row that the selector asks for.
pub open spec fn first_selected(rows: Seq<JsonValue>, selector: OfficialPackage) -> Option<
    JsonValue,
>
    decreases rows.len(),
{
    if rows.len() == 0 {
        None
    } else if row_selected(rows[0], selector) {
        Some(rows[0])
    } else {
        first_selected(rows.drop_first(), selector)
    }
}

/// The rows of a search response: its `results` array.
pub open spec fn results_of(document: JsonValue) -> Option<Seq<JsonValue>> {
    match json_get(document, "results"@) {
        Some(JsonValue::Array(items)) => Some(items@),
        _ => None,
    }
}

/// At most the first `n` items.
pub open spec fn first_n<A>(items: Seq<A>, n: usize) -> Seq<A> {
    if n < items.len() {
        items.take(n as int)
    } else {
        items
    }
}

/// What a package-detail request answers for a response document: an error when it has no
/// `results` array; otherwise the package described by the first of the first
/// `maximum_candidates` rows that the selector asks for, or `None`.
pub open spec fn detail_answer(
    document: JsonValue,
    selector: OfficialPackage,
    maximum_candidates: usize,
    r: Result<Option<OfficialPackage>, ArchToolkitError>,
) -> bool {
    match results_of(document) {
        None => r matches Err(ArchToolkitError::Parse(m)) && m@
            == "official package detail response is missing a 'results' array"@,
        Some(rows) => match first_selected(first_n(rows, maximum_candidates), selector) {
            Some(row) => r matches Ok(Some(p)) && describes(row, p),
            None => r matches Ok(None),
        },
    }
}

/// The package that a search response document gives for a selector (see `detail_answer`).
pub fn official_detail_from_document(
    document: &JsonValue,
    selector: &OfficialPackage,
    maximum_candidates: usize,
) -> (r: Result<Option<OfficialPackage>, ArchToolkitError>)
    ensures
        detail_answer(*document, *selector, maximum_candidates, r),
{
    let rows = match get_member(document, "results") {
        Some(JsonValue::Array(items)) => items,
        _ => {
            return Err(
                ArchToolkitError::Parse(
                    "official package detail response is missing a 'results' array".to_owned(),
                ),
            );
        },
    };
    let ghost t = first_n(rows@, maximum_candidates);
    let n = if maximum_candidates < rows.len() {
        maximum_candidates
    } else {
        rows.len()
    };
    assert(t.len() == n);
    let mut i: usize = 0;
    assert(t.skip(0) =~= t);
    while i < n
        invariant
            i <= n,
            n == t.len(),
            t == first_n(rows@, maximum_candidates),
            results_of(*document) == Some(rows@),
            forall|j: int| 0 <= j < n ==> t[j] == rows@[j],
            first_selected(t, *selector) == first_selected(t.skip(i as int), *selector),
        decreases n - i,
    {
        assert(t.skip(i as int)[0] == rows@[i as int]);
        assert(t.skip(i as int).drop_first() =~= t.skip(i + 1));
        if let Some(candidate) = parse_official_package(&rows[i]) {
            if exact_official_match(&candidate, selector) {
                assert(row_selected(rows@[i as int], *selector));
                return Ok(Some(candidate));
            }
        }
        i += 1;
    }
    assert(t.skip(i as int) =~= Seq::<JsonValue>::empty());
    Ok(None)
}

/// The package that a search response text gives for a selector: a JSON error when the text
/// is not a JSON document, otherwise as `official_detail_from_document`.
pub fn parse_official_package_detail(
    body: &str,
    selector: &OfficialPackage,
    maximum_candidates: usize,
) -> (r: Result<Option<OfficialPackage>, ArchToolkitError>)
    ensures
        match json_document(body@) {
            Err(e) => r matches Err(ArchToolkitError::Json(m)) && m@ == e,
            Ok(document) => detail_answer(document, *selector, maximum_candidates, r),
        },
{
    match crate::aur::utils::parse_json_text(body) {
        Err(e) => Err(ArchToolkitError::Json(e)),
        Ok(document) => official_detail_from_document(&document, selector, maximum_candidates),
    }
}

/// What probing a mirror came to: an HTTP answer (its status code and status line, such as
/// `404 Not Found`), or no answer (with the failure's description).
#[derive(Clone, Debug, PartialEq, Eq)]
pub enum ProbeOutcome {
    /// The mirror answered.
    Answered {
        /// HTTP status code.
        status_code: u16,
        /// Status line: the code and its reason phrase.
        status_line: String,
    },
    /// No answer came.
    Failed {
        /// Description of the failure.
        detail: String,
    },
}

/// The report of one probed mirror: reachable, with the code, when the answer's status is a
/// success (200 to 299); unreachable, with the code and `probe returned HTTP` and the status
/// line, for another answer; unreachable, with the failure shortened to
/// `MAX_PROBE_DETAIL_BYTES` characters, when no answer came.
pub fn mirror_health_of_probe(mirror_url: String, outcome: ProbeOutcome) -> (r: MirrorHealth)
    ensures
        r.mirror_url == mirror_url,
        match outcome {
            ProbeOutcome::Answered { status_code, status_line } => if 200 <= status_code < 300 {
                r.status == MirrorHealthStatus::Reachable && r.status_code == Some(status_code)
                    && r.detail is None
            } else {
                r.status == MirrorHealthStatus::Unreachable && r.status_code == Some(status_code)
                    && (r.detail matches Some(d) && d@ == "probe returned HTTP "@ + status_line@)
            },
            ProbeOutcome::Failed { detail } => r.status == MirrorHealthStatus::Unreachable
                && r.status_code is None && (r.detail matches Some(d) && d@ == bounded(
                detail@,
                MAX_PROBE_DETAIL_BYTES,
            )),
        },
{
    match outcome {
        ProbeOutcome::Answered { status_code, status_line } => {
            if 200 <= status_code && status_code < 300 {
                MirrorHealth {
                    mirror_url,
                    status: MirrorHealthStatus::Reachable,
                    status_code: Some(status_code),
                    detail: None,
                }
            } else {
                let mut d = to_chars("probe returned HTTP ");
                let l = to_chars(status_line.as_str());
                crate::text::extend_chars(&mut d, l.as_slice());
                MirrorHealth {
                    mirror_url,
                    status: MirrorHealthStatus::Unreachable,
                    status_code: Some(status_code),
                    detail: Some(chars_to_string(d.as_slice())),
                }
            }
        },
        ProbeOutcome::Failed { detail } => MirrorHealth {
            mirror_url,
            status: MirrorHealthStatus::Unreachable,
            status_code: None,
            detail: Some(bounded_detail(detail.as_str(), MAX_PROBE_DETAIL_BYTES)),
        },
    }
}

} // verus!
