//! Error types and the rg-aligned process exit code mapping.

use vstd::prelude::*;

use crate::support::{seq_contains, str_contains, string_concat};

verus! {

#[derive(Debug)]
pub enum SearchError {
    /// The workbook or file could not be parsed.
    Parse(String),
    /// One sheet could not be read.
    Sheet { sheet: String, msg: String },
    /// The workbook is encrypted.
    Encrypted,
    /// An I/O error, by its message.
    Io(String),
}

/// `format!("{:?}", s)`: the Rust debug form of a string.
pub uninterp spec fn str_debug(s: Seq<char>) -> Seq<char>;

/// `to_lowercase` of a string (full Unicode case mapping).
pub uninterp spec fn str_lowercase(s: Seq<char>) -> Seq<char>;

/// `format!("{:?}", s)`: the quoted, escaped debug form of `s`.
#[verifier::external_body]
fn debug_quoted(s: &str) -> (r: String)
    ensures
        r@ == str_debug(s@),
{
    format!("{s:?}")
}

/// `str::to_lowercase`.
#[verifier::external_body]
fn lowercase(s: &str) -> (r: String)
    ensures
        r@ == str_lowercase(s@),
{
    s.to_lowercase()
}

/// The message a `SearchError` displays.
pub open spec fn error_message(e: SearchError) -> Seq<char> {
    match e {
        SearchError::Parse(m) => seq!['x', 'l', 's', 'x', ' ', 'p', 'a', 'r', 's', 'e', ' ', 'e', 'r',
            'r', 'o', 'r', ':', ' '] + m@,
        SearchError::Sheet { sheet, msg } => seq!['s', 'h', 'e', 'e', 't', ' '] + str_debug(sheet@)
            + seq![':', ' '] + msg@,
        SearchError::Encrypted => seq!['e', 'n', 'c', 'r', 'y', 'p', 't', 'e', 'd', ' ', 'w', 'o',
            'r', 'k', 'b', 'o', 'o', 'k', ' ', '(', 'n', 'o', 't', ' ', 's', 'u', 'p', 'p', 'o', 'r',
            't', 'e', 'd', ')'],
        SearchError::Io(m) => seq!['i', 'o', ' ', 'e', 'r', 'r', 'o', 'r', ':', ' '] + m@,
    }
}

impl SearchError {
    /// The message this error displays, e.g. `xlsx parse error: ...` or
    /// `encrypted workbook (not supported)`.
    pub fn message(&self) -> (r: String)
        ensures
            r@ == error_message(*self),
    {
        match self {
            SearchError::Parse(m) => {
                proof {
                    reveal_strlit("xlsx parse error: ");
                }
                string_concat("xlsx parse error: ", m.as_str())
            },
            SearchError::Sheet { sheet, msg } => {
                proof {
                    reveal_strlit("sheet ");
                    reveal_strlit(": ");
                }
                let q = debug_quoted(sheet.as_str());
                let a = string_concat("sheet ", q.as_str());
                let b = string_concat(a.as_str(), ": ");
                let r = string_concat(b.as_str(), msg.as_str());
                r
            },
            SearchError::Encrypted => {
                proof {
                    reveal_strlit("encrypted workbook (not supported)");
                }
                "encrypted workbook (not supported)".to_owned()
            },
            SearchError::Io(m) => {
                proof {
                    reveal_strlit("io error: ");
                }
                string_concat("io error: ", m.as_str())
            },
        }
    }
}

/// The lowercased message mentions "encrypted" or "password".
pub open spec fn is_encryption_message(msg: Seq<char>) -> bool {
    let lower = str_lowercase(msg);
    seq_contains(lower, seq!['e', 'n', 'c', 'r', 'y', 'p', 't', 'e', 'd']) || seq_contains(
        lower,
        seq!['p', 'a', 's', 's', 'w', 'o', 'r', 'd'],
    )
}

/// Classify the message of an error from opening a workbook: encrypted
/// when the lowercased message mentions "encrypted" or "password",
/// otherwise a parse error carrying the message.
pub fn map_open_error(msg: String) -> (r: SearchError)
    ensures
        r is Encrypted <==> is_encryption_message(msg@),
        !is_encryption_message(msg@) ==> (r matches SearchError::Parse(m) && m@ == msg@),
{
    let lower = lowercase(msg.as_str());
    proof {
        reveal_strlit("encrypted");
        reveal_strlit("password");
        assert("encrypted"@ =~= seq!['e', 'n', 'c', 'r', 'y', 'p', 't', 'e', 'd']);
        assert("password"@ =~= seq!['p', 'a', 's', 's', 'w', 'o', 'r', 'd']);
    }
    if str_contains(lower.as_str(), "encrypted") || str_contains(lower.as_str(), "password") {
        SearchError::Encrypted
    } else {
        SearchError::Parse(msg)
    }
}

/// rg-aligned process exit code.
///
/// - 0: at least one match was found.
/// - 1: no matches and no fatal errors.
/// - 2: a fatal error happened (CLI/regex/early-exit). Per-file errors do not
///   themselves produce code 2 — they are reported on stderr while scanning continues.
#[derive(Debug, Clone, Copy, PartialEq, Eq, Structural)]
pub enum ExitCode {
    Match,
    NoMatch,
    Fatal,
}

impl ExitCode {
    pub fn as_i32(self) -> (r: i32)
        ensures
            r == match self {
                ExitCode::Match => 0i32,
                ExitCode::NoMatch => 1i32,
                ExitCode::Fatal => 2i32,
            },
    {
        match self {
            ExitCode::Match => 0,
            ExitCode::NoMatch => 1,
            ExitCode::Fatal => 2,
        }
    }

    pub fn from_outcome(matches: u64, fatal: bool) -> (r: ExitCode)
        ensures
            r == if fatal {
                ExitCode::Fatal
            } else if matches > 0 {
                ExitCode::Match
            } else {
                ExitCode::NoMatch
            },
    {
        if fatal {
            ExitCode::Fatal
        } else if matches > 0 {
            ExitCode::Match
        } else {
            ExitCode::NoMatch
        }
    }
}

} // verus!
