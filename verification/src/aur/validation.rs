//! Validation of package names and search queries before they are sent to the AUR.
use crate::error::{decimal, decimal_chars, ArchToolkitError};
use crate::text::{chars_to_string, extend_chars, to_chars, trim, trim_chars, utf8_len, utf8_len_chars};
use vstd::prelude::*;

verus! {

/// Limits applied by the validators.
#[derive(Debug, Clone)]
pub struct ValidationConfig {
    /// Refuse empty inputs (otherwise they are accepted).
    pub strict_empty: bool,
    /// Longest accepted search query, in bytes.
    pub max_query_length: usize,
    /// Longest accepted package name, in bytes.
    pub max_package_name_length: usize,
}

impl Default for ValidationConfig {
    /// Strict about empty inputs; queries up to 256 bytes, names up to 127 bytes.
    fn default() -> (r: ValidationConfig)
        ensures
            r.strict_empty,
            r.max_query_length == 256,
            r.max_package_name_length == 127,
    {
        ValidationConfig { strict_empty: true, max_query_length: 256, max_package_name_length: 127 }
    }
}

/// Limits in force: those given, or the defaults.
pub open spec fn limits(config: Option<&ValidationConfig>) -> (bool, usize, usize) {
    match config {
        Some(c) => (c.strict_empty, c.max_query_length, c.max_package_name_length),
        None => (true, 256, 127),
    }
}

/// Byte length of the UTF-8 encoding of `s` (at most `usize::MAX`).
pub open spec fn byte_len(s: Seq<char>) -> int {
    if utf8_len(s) <= usize::MAX {
        utf8_len(s) as int
    } else {
        usize::MAX as int
    }
}

/// Characters allowed in package names: lower-case ASCII letters, digits, `@ . _ + -`.
pub open spec fn name_char_ok(c: char) -> bool {
    ('a' <= c && c <= 'z') || ('0' <= c && c <= '9') || c == '@' || c == '.' || c == '_' || c
        == '+' || c == '-'
}

/// Index of the first character of `s` at or after `k` that is not allowed in names.
pub open spec fn first_bad_char(s: Seq<char>, k: int) -> Option<int>
    decreases s.len() - k,
{
    if k < 0 || k >= s.len() {
        None
    } else if !name_char_ok(s[k]) {
        Some(k)
    } else {
        first_bad_char(s, k + 1)
    }
}

/// Whether `c` is a lower-case ASCII letter, an ASCII digit, or one of `@ . _ + -`.
pub open spec fn aur_name_char(c: char) -> bool {
    ||| 'a' <= c <= 'z'
    ||| '0' <= c <= '9'
    ||| c == '@'
    ||| c == '.'
    ||| c == '_'
    ||| c == '+'
    ||| c == '-'
}

/// Lemma: ASCII text takes one byte per character.
proof fn lemma_ascii_byte_len(s: Seq<char>)
    requires
        forall|i: int| 0 <= i < s.len() ==> (s[i] as u32) < 0x80,
    ensures
        utf8_len(s) == s.len(),
    decreases s.len(),
{
    if s.len() > 0 {
        lemma_ascii_byte_len(s.drop_last());
    }
}

/// Lemma: no character from `k` on is refused when all are allowed.
proof fn lemma_no_bad_char(s: Seq<char>, k: int)
    requires
        0 <= k,
        forall|i: int| 0 <= i < s.len() ==> aur_name_char(#[trigger] s[i]),
    ensures
        first_bad_char(s, k) is None,
    decreases s.len() - k,
{
    if k < s.len() {
        lemma_no_bad_char(s, k + 1);
    }
}

/// Lemma: the first refused character is at or before any refused character from `k` on.
proof fn lemma_bad_char_found(s: Seq<char>, k: int, i: int)
    requires
        0 <= k <= i < s.len(),
        !aur_name_char(s[i]),
    ensures
        first_bad_char(s, k) is Some,
    decreases i - k,
{
    if k < i && name_char_ok(s[k]) {
        lemma_bad_char_found(s, k + 1, i);
    }
}

/// A package name made only of lower-case ASCII letters, digits and `@ . _ + -` (so
/// `webkit2gtk-4.1` or `python3.12`), not starting with `-` or `.`, and no longer than the limit
/// is accepted (`validate_package_name` gives it back); one holding any other character, and
/// otherwise non-empty, within the limit and not starting with `-` or `.`, is refused as an
/// invalid package name.
pub proof fn law_package_name_characters(name: Seq<char>, strict: bool, max: usize)
    requires
        name.len() > 0,
        name.len() <= max,
        name[0] != '-' && name[0] != '.',
    ensures
        (forall|i: int| 0 <= i < name.len() ==> aur_name_char(#[trigger] name[i])) ==> name_problem(
            name,
            strict,
            max,
        ) is None,
        (exists|i: int| 0 <= i < name.len() && !aur_name_char(#[trigger] name[i])) && byte_len(name)
            <= max ==> (name_problem(name, strict, max) matches Some(p) && p.0 == 6),
{
    if forall|i: int| 0 <= i < name.len() ==> aur_name_char(#[trigger] name[i]) {
        assert forall|i: int| 0 <= i < name.len() implies (name[i] as u32) < 0x80 by {
            assert(aur_name_char(name[i]));
        }
        lemma_ascii_byte_len(name);
        lemma_no_bad_char(name, 0);
    }
    if exists|i: int| 0 <= i < name.len() && !aur_name_char(#[trigger] name[i]) {
        let i = choose|i: int| 0 <= i < name.len() && !aur_name_char(#[trigger] name[i]);
        lemma_bad_char_found(name, 0, i);
    }
}


/// A non-empty package name is refused as too long when its UTF-8 encoding is longer than the
/// limit, and otherwise as an invalid name when it starts with `-` or `.`.
pub proof fn law_package_name_length_and_start(name: Seq<char>, strict: bool, max: usize)
    requires
        name.len() > 0,
    ensures
        byte_len(name) > max ==> (name_problem(name, strict, max) matches Some(p) && p.0 == 5
            && p.3 == max && p.4 == byte_len(name)),
        byte_len(name) <= max && (name[0] == '-' || name[0] == '.') ==> (name_problem(
            name,
            strict,
            max,
        ) matches Some(p) && p.0 == 6),
{
}

/// An error as a variant number (parse 0, rate limit 1, not found 2, invalid input 3, empty 4,
/// too long 5, invalid name 6, JSON 7), two texts and two numbers.
pub open spec fn error_view(e: ArchToolkitError) -> (int, Seq<char>, Seq<char>, int, int) {
    match e {
        ArchToolkitError::Parse(m) => (0, m@, Seq::empty(), 0, 0),
        ArchToolkitError::RateLimited { retry_after } => (
            1,
            Seq::empty(),
            Seq::empty(),
            if retry_after is Some { 1 } else { 0 },
            match retry_after {
                Some(s) => s as int,
                None => 0,
            },
        ),
        ArchToolkitError::PackageNotFound { package } => (2, package@, Seq::empty(), 0, 0),
        ArchToolkitError::InvalidInput(m) => (3, m@, Seq::empty(), 0, 0),
        ArchToolkitError::EmptyInput { field, message } => (4, field@, message@, 0, 0),
        ArchToolkitError::InputTooLong { field, max_length, actual_length } => (
            5,
            field@,
            Seq::empty(),
            max_length as int,
            actual_length as int,
        ),
        ArchToolkitError::InvalidPackageName { name, reason } => (6, name@, reason@, 0, 0),
        ArchToolkitError::Json(m) => (7, m@, Seq::empty(), 0, 0),
    }
}

/// Why a package name is refused, or `None` when it is accepted: empty (when strict), longer
/// than `max` bytes, starting with `-` or `.`, or holding a character other than lower-case
/// ASCII letters, digits and `@ . _ + -` (the first such character and its byte position).
pub open spec fn name_problem(name: Seq<char>, strict: bool, max: usize) -> Option<
    (int, Seq<char>, Seq<char>, int, int),
> {
    if name.len() == 0 {
        if strict {
            Some((4, "package name"@, "package name cannot be empty"@, 0, 0))
        } else {
            None
        }
    } else if byte_len(name) > max {
        Some((5, "package name"@, Seq::empty(), max as int, byte_len(name)))
    } else if name[0] == '-' {
        Some((6, name, "package name cannot start with a hyphen (-)"@, 0, 0))
    } else if name[0] == '.' {
        Some((6, name, "package name cannot start with a period (.)"@, 0, 0))
    } else {
        match first_bad_char(name, 0) {
            Some(i) => Some(
                (
                    6,
                    name,
                    "package name contains invalid character '"@ + seq![name[i]] + "' at position "@
                        + decimal(byte_len(name.take(i)) as nat) + " (allowed: lowercase letters, digits, @, ., _, +, -)"@,
                    0,
                    0,
                ),
            ),
            None => None,
        }
    }
}

/// A name error.
fn name_error(name: &str, reason: &str) -> (e: ArchToolkitError)
    ensures
        error_view(e) == (6int, name@, reason@, 0int, 0int),
{
    ArchToolkitError::InvalidPackageName { name: name.to_owned(), reason: reason.to_owned() }
}

/// Checks a package name against the AUR naming rules; gives the name back when it passes.
pub fn validate_package_name<'a>(name: &'a str, config: Option<&ValidationConfig>) -> (r: Result<
    &'a str,
    ArchToolkitError,
>)
    ensures
        match r {
            Ok(s) => s@ == name@ && name_problem(name@, limits(config).0, limits(config).2) is None,
            Err(e) => name_problem(name@, limits(config).0, limits(config).2) == Some(
                error_view(e),
            ),
        },
{
    let (strict, max) = match config {
        Some(c) => (c.strict_empty, c.max_package_name_length),
        None => (true, 127),
    };
    let v = to_chars(name);
    if v.len() == 0 {
        if strict {
            return Err(
                ArchToolkitError::EmptyInput {
                    field: "package name".to_owned(),
                    message: "package name cannot be empty".to_owned(),
                },
            );
        }
        return Ok(name);
    }
    let n = utf8_len_chars(v.as_slice());
    if n > max {
        return Err(
            ArchToolkitError::InputTooLong {
                field: "package name".to_owned(),
                max_length: max,
                actual_length: n,
            },
        );
    }
    if v[0] == '-' {
        return Err(name_error(name, "package name cannot start with a hyphen (-)"));
    }
    if v[0] == '.' {
        return Err(name_error(name, "package name cannot start with a period (.)"));
    }
    let mut i: usize = 0;
    while i < v.len()
        invariant
            i <= v@.len(),
            v@ == name@,
            v@.len() > 0,
            byte_len(name@) <= max as int,
            name@[0] != '-' && name@[0] != '.',
            strict == limits(config).0 && max == limits(config).2,
            first_bad_char(name@, 0) == first_bad_char(name@, i as int),
        decreases v@.len() - i,
    {
        let c = v[i];
        let ok = ('a' <= c && c <= 'z') || ('0' <= c && c <= '9') || c == '@' || c == '.' || c
            == '_' || c == '+' || c == '-';
        if !ok {
            let head = crate::text::slice_chars(v.as_slice(), 0, i);
            let pos = utf8_len_chars(head.as_slice());
            assert(head@ == name@.take(i as int));
            let mut reason = to_chars("package name contains invalid character '");
            reason.push(c);
            let p2 = to_chars("' at position ");
            extend_chars(&mut reason, p2.as_slice());
            let digits = decimal_chars(pos as u64);
            extend_chars(&mut reason, digits.as_slice());
            let p3 = to_chars(" (allowed: lowercase letters, digits, @, ., _, +, -)");
            extend_chars(&mut reason, p3.as_slice());
            assert(!name_char_ok(name@[i as int]));
            assert(first_bad_char(name@, i as int) == Some(i as int));
            assert(pos as int == byte_len(name@.take(i as int)));
            assert(reason@ =~= "package name contains invalid character '"@ + seq![name@[i as int]]
                + "' at position "@ + decimal(byte_len(name@.take(i as int)) as nat)
                + " (allowed: lowercase letters, digits, @, ., _, +, -)"@);
            let rs = chars_to_string(reason.as_slice());
            return Err(ArchToolkitError::InvalidPackageName { name: name.to_owned(), reason: rs });
        }
        i += 1;
    }
    Ok(name)
}

/// Checks every name of a request; an empty request is refused when strict. The first refused
/// name gives the error.
pub fn validate_package_names(names: &[&str], config: Option<&ValidationConfig>) -> (r: Result<
    (),
    ArchToolkitError,
>)
    ensures
        names@.len() == 0 ==> (r is Ok <==> !limits(config).0),
        names@.len() == 0 && limits(config).0 ==> (r matches Err(e) && error_view(e) == (
            4int,
            "package names"@,
            "at least one package name is required"@,
            0int,
            0int,
        )),
        names@.len() > 0 ==> match r {
            Ok(_) => forall|k: int|
                0 <= k < names@.len() ==> name_problem(
                    #[trigger] names@[k]@,
                    limits(config).0,
                    limits(config).2,
                ) is None,
            Err(e) => exists|k: int|
                0 <= k < names@.len() && (forall|j: int|
                    0 <= j < k ==> name_problem(
                        #[trigger] names@[j]@,
                        limits(config).0,
                        limits(config).2,
                    ) is None) && name_problem(names@[k]@, limits(config).0, limits(config).2)
                    == Some(error_view(e)),
        },
{
    let strict = match config {
        Some(c) => c.strict_empty,
        None => true,
    };
    if names.len() == 0 {
        if strict {
            return Err(
                ArchToolkitError::EmptyInput {
                    field: "package names".to_owned(),
                    message: "at least one package name is required".to_owned(),
                },
            );
        }
        return Ok(());
    }
    let mut i: usize = 0;
    while i < names.len()
        invariant
            i <= names@.len(),
            strict == limits(config).0,
            forall|j: int|
                0 <= j < i ==> name_problem(
                    #[trigger] names@[j]@,
                    limits(config).0,
                    limits(config).2,
                ) is None,
        decreases names@.len() - i,
    {
        match validate_package_name(names[i], config) {
            Ok(_) => {},
            Err(e) => {
                return Err(e);
            },
        }
        i += 1;
    }
    Ok(())
}

/// Why a search query is refused, or `None` when accepted: blank after trimming (when strict)
/// or longer than `max` bytes after trimming.
pub open spec fn query_problem(query: Seq<char>, strict: bool, max: usize) -> Option<
    (int, Seq<char>, Seq<char>, int, int),
> {
    let t = trim(query);
    if t.len() == 0 {
        if strict {
            Some((4, "search query"@, "search query cannot be empty"@, 0, 0))
        } else {
            None
        }
    } else if byte_len(t) > max {
        Some((5, "search query"@, Seq::empty(), max as int, byte_len(t)))
    } else {
        None
    }
}

/// Checks a search query; gives back the trimmed query when it passes.
pub fn validate_search_query<'a>(query: &'a str, config: Option<&ValidationConfig>) -> (r: Result<
    &'a str,
    ArchToolkitError,
>)
    ensures
        match r {
            Ok(s) => s@ == trim(query@) && query_problem(query@, limits(config).0, limits(config).1)
                is None,
            Err(e) => query_problem(query@, limits(config).0, limits(config).1) == Some(
                error_view(e),
            ),
        },
{
    let (strict, max) = match config {
        Some(c) => (c.strict_empty, c.max_query_length),
        None => (true, 256),
    };
    let trimmed = crate::text::trim_str(query);
    let t = to_chars(trimmed);
    if t.len() == 0 {
        if strict {
            return Err(
                ArchToolkitError::EmptyInput {
                    field: "search query".to_owned(),
                    message: "search query cannot be empty".to_owned(),
                },
            );
        }
        return Ok(trimmed);
    }
    let n = utf8_len_chars(t.as_slice());
    if n > max {
        return Err(
            ArchToolkitError::InputTooLong {
                field: "search query".to_owned(),
                max_length: max,
                actual_length: n,
            },
        );
    }
    Ok(trimmed)
}

} // verus!
