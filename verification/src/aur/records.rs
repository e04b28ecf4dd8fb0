//! The package rows of AUR RPC answers (`search` and `info`), read into records. A row's
//! popularity is a floating-point number and is not read here: each record keeps the position
//! of its row, where the caller finds it.
use crate::aur::utils::{
    arrs, first_array_strings, get_member, json_get, json_str, s, u64_of, first_count, JsonNumber,
    JsonValue,
};
use crate::aur::utils::{json_document, parse_json_text};
use crate::error::ArchToolkitError;
use crate::text::sv;
use vstd::prelude::*;

verus! {

/// A package row of a search answer, without its popularity.
#[derive(Clone, Debug, PartialEq, Eq)]
pub struct AurSearchRecord {
    /// Position of the row in the answer's `results`.
    pub row: usize,
    /// `Name`.
    pub name: String,
    /// `Version`.
    pub version: String,
    /// `Description`.
    pub description: String,
    /// `OutOfDate`, when a positive integer.
    pub out_of_date: Option<u64>,
    /// `Maintainer`, when not empty.
    pub maintainer: Option<String>,
    /// Whether the package has no maintainer.
    pub orphaned: bool,
}

/// A package row of an info answer, without its popularity.
#[derive(Clone, Debug, PartialEq, Eq)]
pub struct AurInfoRecord {
    /// Position of the row in the answer's `results`.
    pub row: usize,
    /// `Name`.
    pub name: String,
    /// `Version`.
    pub version: String,
    /// `Description`.
    pub description: String,
    /// `URL`.
    pub url: String,
    /// `License` (or `Licenses`).
    pub licenses: Vec<String>,
    /// `Groups` (or `Group`).
    pub groups: Vec<String>,
    /// `Provides`.
    pub provides: Vec<String>,
    /// `Depends`.
    pub depends: Vec<String>,
    /// `MakeDepends`.
    pub make_depends: Vec<String>,
    /// `OptDepends`.
    pub opt_depends: Vec<String>,
    /// `Conflicts`.
    pub conflicts: Vec<String>,
    /// `Replaces`.
    pub replaces: Vec<String>,
    /// `Maintainer`, when not empty.
    pub maintainer: Option<String>,
    /// `FirstSubmitted`, when a positive integer.
    pub first_submitted: Option<i64>,
    /// `LastModified`, when a positive integer.
    pub last_modified: Option<i64>,
    /// `NumVotes` (or `Votes`), as a count.
    pub num_votes: Option<u64>,
    /// `OutOfDate`, when a positive integer.
    pub out_of_date: Option<u64>,
    /// Whether the package has no maintainer.
    pub orphaned: bool,
}

/// The text of a string member, or empty.
pub open spec fn text_of(row: JsonValue, key: Seq<char>) -> Seq<char> {
    match json_str(json_get(row, key)) {
        Some(t) => t,
        None => Seq::empty(),
    }
}

/// A value read as a signed 64-bit integer: an integer within the range of `i64`.
pub open spec fn as_i64(v: Option<JsonValue>) -> Option<i64> {
    match v {
        Some(JsonValue::Number(JsonNumber::PosInt(u))) => if u <= i64::MAX {
            Some(u as i64)
        } else {
            None
        },
        Some(JsonValue::Number(JsonNumber::NegInt(i))) => Some(i),
        _ => None,
    }
}

/// A member read as a positive integer.
pub open spec fn positive_of(row: JsonValue, key: Seq<char>) -> Option<i64> {
    match as_i64(json_get(row, key)) {
        Some(t) => if t > 0 {
            Some(t)
        } else {
            None
        },
        None => None,
    }
}

/// `positive_of` as an unsigned count.
pub open spec fn positive_u64_of(row: JsonValue, key: Seq<char>) -> Option<u64> {
    match positive_of(row, key) {
        Some(t) => Some(t as u64),
        None => None,
    }
}

/// Whether an optional text is the maintainer a row names: `None` for an empty `Maintainer`.
pub open spec fn maintainer_is(row: JsonValue, m: Option<String>) -> bool {
    if text_of(row, "Maintainer"@).len() == 0 {
        m is None
    } else {
        m matches Some(t) && t@ == text_of(row, "Maintainer"@)
    }
}

/// The string items of the first array among `keys`, or none.
pub open spec fn list_of(row: JsonValue, keys: Seq<&str>) -> Seq<Seq<char>> {
    match first_array_strings(row, keys) {
        Some(t) => t,
        None => Seq::empty(),
    }
}

/// Positions of the rows with a non-empty `Name`, in order.
pub open spec fn named_rows(rows: Seq<JsonValue>) -> Seq<int>
    decreases rows.len(),
{
    if rows.len() == 0 {
        Seq::empty()
    } else {
        let before = named_rows(rows.drop_last());
        if text_of(rows.last(), "Name"@).len() > 0 {
            before.push(rows.len() - 1)
        } else {
            before
        }
    }
}

/// The rows of an answer: its `results` array, or none.
pub open spec fn result_rows(document: JsonValue) -> Seq<JsonValue> {
    match json_get(document, "results"@) {
        Some(JsonValue::Array(items)) => items@,
        _ => Seq::empty(),
    }
}

/// Whether a search record is what a row gives.
pub open spec fn search_record_of(row: JsonValue, r: AurSearchRecord) -> bool {
    &&& r.name@ == text_of(row, "Name"@)
    &&& r.version@ == text_of(row, "Version"@)
    &&& r.description@ == text_of(row, "Description"@)
    &&& r.out_of_date == positive_u64_of(row, "OutOfDate"@)
    &&& maintainer_is(row, r.maintainer)
    &&& r.orphaned == (text_of(row, "Maintainer"@).len() == 0)
}

/// Whether an info record is what a row gives.
pub open spec fn info_record_of(row: JsonValue, r: AurInfoRecord) -> bool {
    &&& r.name@ == text_of(row, "Name"@)
    &&& r.version@ == text_of(row, "Version"@)
    &&& r.description@ == text_of(row, "Description"@)
    &&& r.url@ == text_of(row, "URL"@)
    &&& sv(r.licenses@) == list_of(row, seq!["License", "Licenses"])
    &&& sv(r.groups@) == list_of(row, seq!["Groups", "Group"])
    &&& sv(r.provides@) == list_of(row, seq!["Provides"])
    &&& sv(r.depends@) == list_of(row, seq!["Depends"])
    &&& sv(r.make_depends@) == list_of(row, seq!["MakeDepends"])
    &&& sv(r.opt_depends@) == list_of(row, seq!["OptDepends"])
    &&& sv(r.conflicts@) == list_of(row, seq!["Conflicts"])
    &&& sv(r.replaces@) == list_of(row, seq!["Replaces"])
    &&& maintainer_is(row, r.maintainer)
    &&& r.first_submitted == positive_of(row, "FirstSubmitted"@)
    &&& r.last_modified == positive_of(row, "LastModified"@)
    &&& r.num_votes == first_count(row, seq!["NumVotes", "Votes"])
    &&& r.out_of_date == positive_u64_of(row, "OutOfDate"@)
    &&& r.orphaned == (text_of(row, "Maintainer"@).len() == 0)
}

/// A member read as a positive integer.
fn positive_member(row: &JsonValue, key: &str) -> (r: Option<i64>)
    ensures
        r == positive_of(*row, key@),
{
    let v: Option<i64> = match get_member(row, key) {
        Some(JsonValue::Number(JsonNumber::PosInt(u))) => if *u <= 9223372036854775807u64 {
            Some(*u as i64)
        } else {
            None
        },
        Some(JsonValue::Number(JsonNumber::NegInt(i))) => Some(*i),
        _ => None,
    };
    match v {
        Some(t) => if t > 0 {
            Some(t)
        } else {
            None
        },
        None => None,
    }
}

/// The maintainer a row names, `None` when empty.
fn maintainer_member(row: &JsonValue) -> (r: Option<String>)
    ensures
        maintainer_is(*row, r),
{
    let m = s(row, "Maintainer");
    if m.as_str().is_empty() {
        None
    } else {
        Some(m)
    }
}

/// The search record a row gives (its `Name` not empty).
fn search_record(index: usize, row: &JsonValue, name: String) -> (r: AurSearchRecord)
    requires
        name@ == text_of(*row, "Name"@),
    ensures
        search_record_of(*row, r),
        r.row == index,
{
    let maintainer = maintainer_member(row);
    let orphaned = maintainer.is_none();
    let out_of_date = match positive_member(row, "OutOfDate") {
        Some(t) => Some(t as u64),
        None => None,
    };
    AurSearchRecord {
        row: index,
        name,
        version: s(row, "Version"),
        description: s(row, "Description"),
        out_of_date,
        maintainer,
        orphaned,
    }
}

/// The info record a row gives (its `Name` not empty).
fn info_record(index: usize, row: &JsonValue, name: String) -> (r: AurInfoRecord)
    requires
        name@ == text_of(*row, "Name"@),
    ensures
        info_record_of(*row, r),
        r.row == index,
{
    let maintainer = maintainer_member(row);
    let orphaned = maintainer.is_none();
    let out_of_date = match positive_member(row, "OutOfDate") {
        Some(t) => Some(t as u64),
        None => None,
    };
    let licenses = arrs(row, &["License", "Licenses"]);
    let groups = arrs(row, &["Groups", "Group"]);
    let provides_key = ["Provides"];
    assert(provides_key@ =~= seq!["Provides"]);
    let provides = arrs(row, &provides_key);
    let depends_key = ["Depends"];
    assert(depends_key@ =~= seq!["Depends"]);
    let depends = arrs(row, &depends_key);
    let make_depends_key = ["MakeDepends"];
    assert(make_depends_key@ =~= seq!["MakeDepends"]);
    let make_depends = arrs(row, &make_depends_key);
    let opt_depends_key = ["OptDepends"];
    assert(opt_depends_key@ =~= seq!["OptDepends"]);
    let opt_depends = arrs(row, &opt_depends_key);
    let conflicts_key = ["Conflicts"];
    assert(conflicts_key@ =~= seq!["Conflicts"]);
    let conflicts = arrs(row, &conflicts_key);
    let replaces_key = ["Replaces"];
    assert(replaces_key@ =~= seq!["Replaces"]);
    let replaces = arrs(row, &replaces_key);
    let num_votes = u64_of(row, &["NumVotes", "Votes"]);
    let first_submitted = positive_member(row, "FirstSubmitted");
    let last_modified = positive_member(row, "LastModified");
    let version = s(row, "Version");
    let description = s(row, "Description");
    let url = s(row, "URL");
    AurInfoRecord {
        row: index,
        name,
        version,
        description,
        url,
        licenses,
        groups,
        provides,
        depends,
        make_depends,
        opt_depends,
        conflicts,
        replaces,
        maintainer,
        first_submitted,
        last_modified,
        num_votes,
        out_of_date,
        orphaned,
    }
}

/// The packages of a search answer: for each row of `results` with a non-empty `Name`, in
/// order, its record; rows without a name are skipped, and an answer without `results` gives
/// none.
pub fn search_records(document: &JsonValue) -> (r: Vec<AurSearchRecord>)
    ensures
        r@.len() == named_rows(result_rows(*document)).len(),
        forall|i: int|
            #![trigger r@[i]]
            0 <= i < r@.len() ==> r@[i].row == named_rows(result_rows(*document))[i]
                && search_record_of(result_rows(*document)[r@[i].row as int], r@[i]),
{
    match get_member(document, "results") {
        Some(JsonValue::Array(rows)) => search_rows(rows),
        _ => Vec::new(),
    }
}

/// The records of the named rows among `rows`.
fn search_rows(rows: &Vec<JsonValue>) -> (r: Vec<AurSearchRecord>)
    ensures
        r@.len() == named_rows(rows@).len(),
        forall|i: int|
            #![trigger r@[i]]
            0 <= i < r@.len() ==> r@[i].row == named_rows(rows@)[i] && search_record_of(
                rows@[r@[i].row as int],
                r@[i],
            ),
{
    let ghost all = rows@;
    let mut out: Vec<AurSearchRecord> = Vec::new();
    let mut k: usize = 0;
    while k < rows.len()
        invariant
            k <= rows@.len(),
            all == rows@,
            out@.len() == named_rows(all.take(k as int)).len(),
            forall|i: int|
                #![trigger out@[i]]
                0 <= i < out@.len() ==> out@[i].row == named_rows(all.take(k as int))[i]
                    && 0 <= out@[i].row < k && search_record_of(all[out@[i].row as int], out@[i]),
        decreases rows@.len() - k,
    {
        assert(all.take(k + 1).drop_last() =~= all.take(k as int));
        assert(all.take(k + 1).last() == all[k as int]);
        let name = s(&rows[k], "Name");
        if !name.as_str().is_empty() {
            let rec = search_record(k, &rows[k], name);
            out.push(rec);
        }
        k += 1;
    }
    assert(all.take(rows@.len() as int) =~= all);
    out
}

/// The packages of an info answer: for each row of `results` with a non-empty `Name`, in
/// order, its record; rows without a name are skipped, and an answer without `results` gives
/// none.
pub fn info_records(document: &JsonValue) -> (r: Vec<AurInfoRecord>)
    ensures
        r@.len() == named_rows(result_rows(*document)).len(),
        forall|i: int|
            #![trigger r@[i]]
            0 <= i < r@.len() ==> r@[i].row == named_rows(result_rows(*document))[i]
                && info_record_of(result_rows(*document)[r@[i].row as int], r@[i]),
{
    match get_member(document, "results") {
        Some(JsonValue::Array(rows)) => info_rows(rows),
        _ => Vec::new(),
    }
}

/// The records of the named rows among `rows`.
fn info_rows(rows: &Vec<JsonValue>) -> (r: Vec<AurInfoRecord>)
    ensures
        r@.len() == named_rows(rows@).len(),
        forall|i: int|
            #![trigger r@[i]]
            0 <= i < r@.len() ==> r@[i].row == named_rows(rows@)[i] && info_record_of(
                rows@[r@[i].row as int],
                r@[i],
            ),
{
    let ghost all = rows@;
    let mut out: Vec<AurInfoRecord> = Vec::new();
    let mut k: usize = 0;
    while k < rows.len()
        invariant
            k <= rows@.len(),
            all == rows@,
            out@.len() == named_rows(all.take(k as int)).len(),
            forall|i: int|
                #![trigger out@[i]]
                0 <= i < out@.len() ==> out@[i].row == named_rows(all.take(k as int))[i]
                    && 0 <= out@[i].row < k && info_record_of(all[out@[i].row as int], out@[i]),
        decreases rows@.len() - k,
    {
        assert(all.take(k + 1).drop_last() =~= all.take(k as int));
        assert(all.take(k + 1).last() == all[k as int]);
        let name = s(&rows[k], "Name");
        if !name.as_str().is_empty() {
            let rec = info_record(k, &rows[k], name);
            out.push(rec);
        }
        k += 1;
    }
    assert(all.take(rows@.len() as int) =~= all);
    out
}

/// The search records of a JSON answer text: the records of its document, or the JSON error
/// when the text holds no document.
pub fn search_records_from_text(body: &str) -> (r: Result<Vec<AurSearchRecord>, ArchToolkitError>)
    ensures
        r is Ok <==> json_document(body@) is Ok,
        match (r, json_document(body@)) {
            (Ok(v), Ok(d)) => v@.len() == named_rows(result_rows(d)).len() && forall|i: int|
                #![trigger v@[i]]
                0 <= i < v@.len() ==> v@[i].row == named_rows(result_rows(d))[i] && search_record_of(
                    result_rows(d)[v@[i].row as int],
                    v@[i],
                ),
            (Err(ArchToolkitError::Json(t)), Err(m)) => t@ == m,
            _ => false,
        },
{
    match parse_json_text(body) {
        Ok(document) => Ok(search_records(&document)),
        Err(m) => Err(ArchToolkitError::Json(m)),
    }
}

/// The info records of a JSON answer text: the records of its document, or the JSON error when
/// the text holds no document.
pub fn info_records_from_text(body: &str) -> (r: Result<Vec<AurInfoRecord>, ArchToolkitError>)
    ensures
        r is Ok <==> json_document(body@) is Ok,
        match (r, json_document(body@)) {
            (Ok(v), Ok(d)) => v@.len() == named_rows(result_rows(d)).len() && forall|i: int|
                #![trigger v@[i]]
                0 <= i < v@.len() ==> v@[i].row == named_rows(result_rows(d))[i] && info_record_of(
                    result_rows(d)[v@[i].row as int],
                    v@[i],
                ),
            (Err(ArchToolkitError::Json(t)), Err(m)) => t@ == m,
            _ => false,
        },
{
    match parse_json_text(body) {
        Ok(document) => Ok(info_records(&document)),
        Err(m) => Err(ArchToolkitError::Json(m)),
    }
}

} // verus!
