//! Errors reported by the library's validation and parsing logic.
use vstd::prelude::*;

verus! {

/// Why an operation was refused or failed.
#[derive(Debug, Clone, PartialEq, Eq)]
pub enum ArchToolkitError {
    /// A JSON document could not be read; holds the reader's account of why.
    Json(String),
    /// Malformed data.
    Parse(String),
    /// The server limited the request rate; it may say after how many seconds to retry.
    RateLimited {
        /// Seconds to wait, when the server said.
        retry_after: Option<u64>,
    },
    /// The package does not exist.
    PackageNotFound {
        /// Requested package name.
        package: String,
    },
    /// An argument is not acceptable.
    InvalidInput(String),
    /// A required input is empty.
    EmptyInput {
        /// What was empty.
        field: String,
        /// Explanation.
        message: String,
    },
    /// An input is longer than allowed.
    InputTooLong {
        /// What was too long.
        field: String,
        /// Largest accepted length in bytes.
        max_length: usize,
        /// Actual length in bytes.
        actual_length: usize,
    },
    /// A package name breaks the naming rules.
    InvalidPackageName {
        /// The name.
        name: String,
        /// Which rule it breaks.
        reason: String,
    },
}

/// Decimal digit character of `d` (0 to 9).
pub open spec fn digit_char(d: int) -> char {
    ((d + 48) as u8) as char
}

/// Decimal notation of `n`, without leading zeros.
pub open spec fn decimal(n: nat) -> Seq<char>
    decreases n,
{
    if n < 10 {
        seq![digit_char(n as int)]
    } else {
        decimal(n / 10).push(digit_char((n % 10) as int))
    }
}

/// Decimal notation of `n`.
pub fn decimal_chars(n: u64) -> (r: Vec<char>)
    ensures
        r@ == decimal(n as nat),
    decreases n,
{
    let c = ((n % 10 + 48) as u8) as char;
    if n < 10 {
        let mut v = Vec::new();
        v.push(c);
        assert(v@ =~= seq![digit_char(n as int)]);
        v
    } else {
        let mut v = decimal_chars(n / 10);
        v.push(c);
        v
    }
}


/// Text describing an error.
pub open spec fn error_text(e: ArchToolkitError) -> Seq<char> {
    match e {
        ArchToolkitError::Json(m) => "JSON parsing error: "@ + m@,
        ArchToolkitError::Parse(m) => "Parse error: "@ + m@,
        ArchToolkitError::RateLimited { retry_after } => "Rate limited by server"@ + match retry_after {
            Some(s) => " (retry after "@ + decimal(s as nat) + "s)"@,
            None => Seq::<char>::empty(),
        },
        ArchToolkitError::PackageNotFound { package } => "Package '"@ + package@ + "' not found"@,
        ArchToolkitError::InvalidInput(m) => "Invalid input: "@ + m@,
        ArchToolkitError::EmptyInput { field, message } => "Empty input for "@ + field@ + ": "@
            + message@,
        ArchToolkitError::InputTooLong { field, max_length, actual_length } => "Input too long for "@
            + field@ + ": "@ + decimal(actual_length as nat) + " bytes (maximum "@ + decimal(
            max_length as nat,
        ) + ")"@,
        ArchToolkitError::InvalidPackageName { name, reason } => "Invalid package name '"@ + name@
            + "': "@ + reason@,
    }
}

/// Appends the characters of `s`.
fn push_str_chars(v: &mut Vec<char>, s: &str)
    ensures
        final(v)@ == old(v)@ + s@,
{
    let c = crate::text::to_chars(s);
    crate::text::extend_chars(v, c.as_slice());
}

impl ArchToolkitError {
    /// Text describing the error.
    pub fn message(&self) -> (r: String)
        ensures
            r@ == error_text(*self),
    {
        let mut v: Vec<char> = Vec::new();
        match self {
            ArchToolkitError::Json(m) => {
                push_str_chars(&mut v, "JSON parsing error: ");
                push_str_chars(&mut v, m.as_str());
            },
            ArchToolkitError::Parse(m) => {
                push_str_chars(&mut v, "Parse error: ");
                push_str_chars(&mut v, m.as_str());
            },
            ArchToolkitError::RateLimited { retry_after } => {
                push_str_chars(&mut v, "Rate limited by server");
                if let Some(s) = retry_after {
                    push_str_chars(&mut v, " (retry after ");
                    let d = decimal_chars(*s);
                    crate::text::extend_chars(&mut v, d.as_slice());
                    push_str_chars(&mut v, "s)");
                }
            },
            ArchToolkitError::PackageNotFound { package } => {
                push_str_chars(&mut v, "Package '");
                push_str_chars(&mut v, package.as_str());
                push_str_chars(&mut v, "' not found");
            },
            ArchToolkitError::InvalidInput(m) => {
                push_str_chars(&mut v, "Invalid input: ");
                push_str_chars(&mut v, m.as_str());
            },
            ArchToolkitError::EmptyInput { field, message } => {
                push_str_chars(&mut v, "Empty input for ");
                push_str_chars(&mut v, field.as_str());
                push_str_chars(&mut v, ": ");
                push_str_chars(&mut v, message.as_str());
            },
            ArchToolkitError::InputTooLong { field, max_length, actual_length } => {
                push_str_chars(&mut v, "Input too long for ");
                push_str_chars(&mut v, field.as_str());
                push_str_chars(&mut v, ": ");
                let a = decimal_chars(*actual_length as u64);
                crate::text::extend_chars(&mut v, a.as_slice());
                push_str_chars(&mut v, " bytes (maximum ");
                let m = decimal_chars(*max_length as u64);
                crate::text::extend_chars(&mut v, m.as_slice());
                push_str_chars(&mut v, ")");
            },
            ArchToolkitError::InvalidPackageName { name, reason } => {
                push_str_chars(&mut v, "Invalid package name '");
                push_str_chars(&mut v, name.as_str());
                push_str_chars(&mut v, "': ");
                push_str_chars(&mut v, reason.as_str());
            },
        }
        assert(v@ =~= error_text(*self));
        crate::text::chars_to_string(v.as_slice())
    }
}

} // verus!
