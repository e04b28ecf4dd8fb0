//! What the AUR client decides around its requests: the addresses it asks, how much of a
//! response it accepts, how it paces PKGBUILD downloads, and how it reads a health probe.
use crate::aur::utils::{percent_encode, percent_encoded};
use crate::error::ArchToolkitError;
use crate::text::{chars_to_string, extend_chars, join_sep, to_chars};
use vstd::prelude::*;

verus! {

/// Address of an AUR search by name for `query` (percent-encoded).
pub open spec fn search_address(query: Seq<char>) -> Seq<char> {
    "https://aur.archlinux.org/rpc/v5/search?by=name&arg="@ + percent_encoded(
        vstd::utf8::encode_utf8(query),
    )
}

/// Address of an AUR search by name.
pub fn search_url(query: &str) -> (r: String)
    ensures
        r@ == search_address(query@),
{
    let mut v = to_chars("https://aur.archlinux.org/rpc/v5/search?by=name&arg=");
    let e = percent_encode(query);
    let ec = to_chars(e.as_str());
    extend_chars(&mut v, ec.as_slice());
    chars_to_string(v.as_slice())
}

/// Address of an AUR details request for `names`, each as an `arg[]` parameter (as given).
pub open spec fn info_address(names: Seq<Seq<char>>) -> Seq<char> {
    "https://aur.archlinux.org/rpc/v5/info?"@ + join_sep(
        names.map_values(|n: Seq<char>| "arg[]="@ + n),
        "&"@,
    )
}

/// Address of an AUR details request.
pub fn info_url(names: &[&str]) -> (r: String)
    ensures
        r@ == info_address(names@.map_values(|n: &str| n@)),
{
    let mut parts: Vec<Vec<char>> = Vec::new();
    let mut i: usize = 0;
    while i < names.len()
        invariant
            i <= names@.len(),
            crate::text::vv(parts@) == names@.take(i as int).map_values(|n: &str| n@).map_values(
                |n: Seq<char>| "arg[]="@ + n,
            ),
        decreases names@.len() - i,
    {
        let ghost before = crate::text::vv(parts@);
        let mut p = to_chars("arg[]=");
        let nm: &str = names[i];
        let c = to_chars(nm);
        extend_chars(&mut p, c.as_slice());
        parts.push(p);
        assert(crate::text::vv(parts@) =~= before.push("arg[]="@ + names@[i as int]@));
        assert(names@.take(i + 1).map_values(|n: &str| n@).map_values(|n: Seq<char>| "arg[]="@ + n)
            =~= names@.take(i as int).map_values(|n: &str| n@).map_values(
            |n: Seq<char>| "arg[]="@ + n,
        ).push("arg[]="@ + names@[i as int]@));
        i += 1;
    }
    assert(names@.take(names@.len() as int) =~= names@);
    let joined = crate::text::join_sep_chars(&parts, "&");
    let mut v = to_chars("https://aur.archlinux.org/rpc/v5/info?");
    extend_chars(&mut v, joined.as_slice());
    chars_to_string(v.as_slice())
}

/// Address of the PKGBUILD of `package` (percent-encoded).
pub open spec fn pkgbuild_address(package: Seq<char>) -> Seq<char> {
    "https://aur.archlinux.org/cgit/aur.git/plain/PKGBUILD?h="@ + percent_encoded(
        vstd::utf8::encode_utf8(package),
    )
}

/// Address of the PKGBUILD of a package.
pub fn pkgbuild_url(package: &str) -> (r: String)
    ensures
        r@ == pkgbuild_address(package@),
{
    let mut v = to_chars("https://aur.archlinux.org/cgit/aur.git/plain/PKGBUILD?h=");
    let e = percent_encode(package);
    let ec = to_chars(e.as_str());
    extend_chars(&mut v, ec.as_slice());
    chars_to_string(v.as_slice())
}

/// Address of the AUR page of `pkgname`, where its comments are.
pub fn comments_url(pkgname: &str) -> (r: String)
    ensures
        r@ == "https://aur.archlinux.org/packages/"@ + pkgname@,
{
    let mut v = to_chars("https://aur.archlinux.org/packages/");
    let c = to_chars(pkgname);
    extend_chars(&mut v, c.as_slice());
    chars_to_string(v.as_slice())
}

/// The first `maximum_results` search results, in order.
pub fn limit_search_results<T>(packages: Vec<T>, maximum_results: usize) -> (r: Vec<T>)
    ensures
        r@ == (if packages@.len() <= maximum_results {
            packages@
        } else {
            packages@.take(maximum_results as int)
        }),
{
    let mut v = packages;
    v.truncate(maximum_results);
    v
}

/// Largest accepted AUR search response, in bytes.
pub const MAX_AUR_SEARCH_RESPONSE_BYTES: usize = 4194304;

/// Largest accepted PKGBUILD response, in bytes.
pub const MAX_AUR_PKGBUILD_RESPONSE_BYTES: usize = 10485760;

/// `a + b`, at most `usize::MAX`.
pub open spec fn saturating_sum(a: usize, b: usize) -> usize {
    if a + b <= usize::MAX {
        (a + b) as usize
    } else {
        usize::MAX
    }
}

/// Accepts a further chunk of `chunk_len` bytes after `received` bytes of a response bounded
/// by `maximum` bytes, giving the new total; refused when the total (at most `usize::MAX`)
/// exceeds the bound.
pub fn accept_chunk(field: &str, received: usize, chunk_len: usize, maximum: usize) -> (r: Result<
    usize,
    ArchToolkitError,
>)
    ensures
        saturating_sum(received, chunk_len) <= maximum ==> r == Ok::<usize, ArchToolkitError>(
            saturating_sum(received, chunk_len),
        ),
        saturating_sum(received, chunk_len) > maximum ==> (r matches Err(
            ArchToolkitError::InputTooLong { field: f, max_length, actual_length },
        ) && f@ == field@ && max_length == maximum && actual_length == saturating_sum(
            received,
            chunk_len,
        )),
{
    let total = if received > usize::MAX - chunk_len {
        usize::MAX
    } else {
        received + chunk_len
    };
    if total > maximum {
        Err(
            ArchToolkitError::InputTooLong {
                field: field.to_owned(),
                max_length: maximum,
                actual_length: total,
            },
        )
    } else {
        Ok(total)
    }
}

/// Shortest time between two PKGBUILD downloads, in milliseconds.
pub const PKGBUILD_MIN_INTERVAL_MS: u64 = 200;

/// Wait before a PKGBUILD download, `since_last_ms` after the previous one (none for the
/// first): what remains of the minimum interval, if anything.
pub fn pkgbuild_delay_ms(since_last_ms: Option<u64>) -> (r: Option<u64>)
    ensures
        r == (match since_last_ms {
            Some(e) => if e < PKGBUILD_MIN_INTERVAL_MS {
                Some((PKGBUILD_MIN_INTERVAL_MS - e) as u64)
            } else {
                None
            },
            None => None,
        }),
{
    match since_last_ms {
        Some(e) => if e < PKGBUILD_MIN_INTERVAL_MS {
            Some(PKGBUILD_MIN_INTERVAL_MS - e)
        } else {
            None
        },
        None => None,
    }
}

/// State of the AUR service as seen by a health probe.
#[derive(Debug, Clone, Copy, PartialEq, Eq)]
pub enum ServiceStatus {
    /// Answers well and fast.
    Healthy,
    /// Answers slowly or oddly.
    Degraded,
    /// Cannot be reached or answers with an error status.
    Unreachable,
    /// Did not answer in time.
    Timeout,
}

/// What a health probe of the AUR got back.
#[derive(Debug, Clone, Copy, PartialEq, Eq)]
pub enum HealthProbe {
    /// The request failed; `timed_out` tells whether by timeout.
    Failed {
        /// Whether the request timed out.
        timed_out: bool,
    },
    /// The server answered with a non-success status.
    ErrorStatus,
    /// The server answered with success; the body was JSON or not, and when JSON had both
    /// `version` and `type` or not.
    Answered {
        /// Whether the body is JSON.
        json: bool,
        /// Whether the JSON has `version` and `type` fields.
        rpc_fields: bool,
    },
}

/// Latency above which the AUR is considered degraded, in nanoseconds (2 s).
pub const DEGRADED_LATENCY_NANOS: u128 = 2000000000;

/// Status of the AUR from a probe and its latency: a failed request is a timeout or
/// unreachable; an error status is unreachable; a body that is not JSON or lacks the RPC
/// fields is degraded; otherwise degraded above 2 s and healthy within.
pub open spec fn status_of(probe: HealthProbe, latency_nanos: u128) -> ServiceStatus {
    match probe {
        HealthProbe::Failed { timed_out } => if timed_out {
            ServiceStatus::Timeout
        } else {
            ServiceStatus::Unreachable
        },
        HealthProbe::ErrorStatus => ServiceStatus::Unreachable,
        HealthProbe::Answered { json, rpc_fields } => if !json || !rpc_fields {
            ServiceStatus::Degraded
        } else if latency_nanos > DEGRADED_LATENCY_NANOS {
            ServiceStatus::Degraded
        } else {
            ServiceStatus::Healthy
        },
    }
}

/// Status of the AUR from a probe and its latency (see `status_of`).
pub fn service_status(probe: HealthProbe, latency_nanos: u128) -> (r: ServiceStatus)
    ensures
        r == status_of(probe, latency_nanos),
{
    match probe {
        HealthProbe::Failed { timed_out } => if timed_out {
            ServiceStatus::Timeout
        } else {
            ServiceStatus::Unreachable
        },
        HealthProbe::ErrorStatus => ServiceStatus::Unreachable,
        HealthProbe::Answered { json, rpc_fields } => if !json || !rpc_fields {
            ServiceStatus::Degraded
        } else if latency_nanos > DEGRADED_LATENCY_NANOS {
            ServiceStatus::Degraded
        } else {
            ServiceStatus::Healthy
        },
    }
}

/// Whether an answer has the shape of an AUR RPC answer: both a `version` and a `type` member.
pub fn has_rpc_fields(document: &crate::aur::utils::JsonValue) -> (r: bool)
    ensures
        r == (crate::aur::utils::json_get(*document, "version"@) is Some
            && crate::aur::utils::json_get(*document, "type"@) is Some),
{
    crate::aur::utils::get_member(document, "version").is_some()
        && crate::aur::utils::get_member(document, "type").is_some()
}

/// The probe of a successful answer whose body is `text`: JSON when the text holds a document,
/// with the RPC fields when that document has both `version` and `type`.
pub open spec fn probe_of_text(text: Seq<char>) -> HealthProbe {
    match crate::aur::utils::json_document(text) {
        Ok(d) => HealthProbe::Answered {
            json: true,
            rpc_fields: crate::aur::utils::json_get(d, "version"@) is Some && crate::aur::utils::json_get(
                d,
                "type"@,
            ) is Some,
        },
        Err(_) => HealthProbe::Answered { json: false, rpc_fields: false },
    }
}

/// Reads the body of a successful health answer into its probe.
pub fn health_probe_from_text(body: &str) -> (r: HealthProbe)
    ensures
        r == probe_of_text(body@),
{
    match crate::aur::utils::parse_json_text(body) {
        Ok(document) => HealthProbe::Answered { json: true, rpc_fields: has_rpc_fields(&document) },
        Err(_) => HealthProbe::Answered { json: false, rpc_fields: false },
    }
}

} // verus!
