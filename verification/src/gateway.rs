//! What the request handlers decide: which answer a result of the pool gets.

use crate::address::{PetAddressInfo, PetAddressInfoView};
use crate::config::{decimal_chars, decimal_text};
use crate::models::{GetPetAddressResponse, PetGeneratorStatusResponse};
use crate::storage::StorageError;
use vstd::prelude::*;
use vstd::string::StringExecFns;
use vstd::utf8::encode_utf8;

verus! {

/// The answer to a request for an address.
#[derive(Debug)]
pub enum AddressOutcome {
    /// An address was taken from the pool: status 200.
    Found(GetPetAddressResponse),
    /// The pool is empty: status 404.
    Empty,
    /// The store failed: status 500.
    Failed,
}

/// The status with which an admitted request is answered.
pub const STATUS_OK: u16 = 200;

/// The status of a request for an address when the pool is empty.
pub const STATUS_NOT_FOUND: u16 = 404;

/// The status of a request that was turned away by the rate limit.
pub const STATUS_TOO_MANY_REQUESTS: u16 = 429;

/// The status of a request that the store could not serve.
pub const STATUS_INTERNAL_ERROR: u16 = 500;

/// What a response shows of an entry.
pub open spec fn shows(r: GetPetAddressResponse, e: PetAddressInfoView) -> bool {
    &&& r.id == e.id
    &&& r.public_key@ == e.address.public_key
    &&& r.private_key@ == e.address.private_key
    &&& r.address@ == e.address.address
    &&& r.created_at@ == e.created_at
}

impl GetPetAddressResponse {
    /// The response that shows an entry of the pool.
    pub fn from_info(info: PetAddressInfo) -> (r: GetPetAddressResponse)
        ensures
            shows(r, info@),
    {
        GetPetAddressResponse {
            id: info.id,
            public_key: info.address.public_key,
            private_key: info.address.private_key,
            address: info.address.address,
            created_at: info.created_at,
        }
    }
}

/// The answer to a request for an address, from what the store returned.
pub fn address_outcome(taken: Result<Option<PetAddressInfo>, StorageError>) -> (outcome: AddressOutcome)
    ensures
        match taken {
            Ok(Some(info)) => outcome matches AddressOutcome::Found(r) && shows(r, info@),
            Ok(None) => outcome is Empty,
            Err(_) => outcome is Failed,
        },
{
    match taken {
        Ok(Some(info)) => AddressOutcome::Found(GetPetAddressResponse::from_info(info)),
        Ok(None) => AddressOutcome::Empty,
        Err(_) => AddressOutcome::Failed,
    }
}

/// The status code of an answer.
pub fn outcome_status(outcome: &AddressOutcome) -> (code: u16)
    ensures
        code == match outcome {
            AddressOutcome::Found(_) => STATUS_OK,
            AddressOutcome::Empty => STATUS_NOT_FOUND,
            AddressOutcome::Failed => STATUS_INTERNAL_ERROR,
        },
{
    match outcome {
        AddressOutcome::Found(_) => STATUS_OK,
        AddressOutcome::Empty => STATUS_NOT_FOUND,
        AddressOutcome::Failed => STATUS_INTERNAL_ERROR,
    }
}

/// The status with which the rate limit answers: none for an admitted
/// request, which goes on to its handler.
pub fn admission_status(allowed: bool) -> (code: Option<u16>)
    ensures
        code == (if allowed {
            None
        } else {
            Some(STATUS_TOO_MANY_REQUESTS)
        }),
{
    if allowed {
        None
    } else {
        Some(STATUS_TOO_MANY_REQUESTS)
    }
}

/// The answer to a status request: the count of the store, the target size
/// and whether the replenisher runs; nothing where the store failed to count.
pub fn status_outcome(counted: Result<usize, StorageError>, pool_size: usize, generation_active: bool) -> (r:
    Option<PetGeneratorStatusResponse>)
    ensures
        match counted {
            Ok(n) => r matches Some(s) && s.total_addresses == n && s.pool_size == pool_size
                && s.generation_active == generation_active,
            Err(_) => r is None,
        },
{
    match counted {
        Ok(n) => Some(
            PetGeneratorStatusResponse { total_addresses: n, pool_size, generation_active },
        ),
        Err(_) => None,
    }
}

/// How the time of a time request is written.
#[derive(Debug, Clone, Copy, PartialEq, Eq)]
pub enum TimeFormat {
    /// As RFC 3339 text.
    Iso8601,
    /// As seconds since 1970.
    Timestamp,
    /// As `year-month-day hour:minute:second`.
    Formatted,
}

/// How much is logged.
#[derive(Debug, Clone, Copy, PartialEq, Eq)]
pub enum LogLevel {
    Trace,
    Debug,
    Info,
    Warn,
    Error,
}

/// A byte with an upper-case ASCII letter turned into its lower-case letter.
pub open spec fn ascii_lower(b: u8) -> u8 {
    if 0x41 <= b <= 0x5a {
        (b + 0x20) as u8
    } else {
        b
    }
}

/// Whether `text` is `word` when case is ignored. `word` is in lower case.
pub open spec fn is_word_ignoring_case(text: Seq<u8>, word: Seq<u8>) -> bool {
    text.len() == word.len() && forall|i: int| 0 <= i < text.len() ==> ascii_lower(text[i]) == word[i]
}

/// The format that a time request names: the three names stand for
/// themselves, and a request that names none gets RFC 3339. Another name is
/// no format.
pub open spec fn spec_time_format(format: Option<Seq<char>>) -> Option<TimeFormat> {
    match format {
        None => Some(TimeFormat::Iso8601),
        Some(name) => if name == "iso8601"@ {
            Some(TimeFormat::Iso8601)
        } else if name == "timestamp"@ {
            Some(TimeFormat::Timestamp)
        } else if name == "formatted"@ {
            Some(TimeFormat::Formatted)
        } else {
            None
        },
    }
}

/// The level that a setting names, whatever its case; a setting that names
/// none of the five levels means `Info`.
pub open spec fn spec_log_level(level: Seq<u8>) -> LogLevel {
    if is_word_ignoring_case(level, encode_utf8("trace"@)) {
        LogLevel::Trace
    } else if is_word_ignoring_case(level, encode_utf8("debug"@)) {
        LogLevel::Debug
    } else if is_word_ignoring_case(level, encode_utf8("info"@)) {
        LogLevel::Info
    } else if is_word_ignoring_case(level, encode_utf8("warn"@)) {
        LogLevel::Warn
    } else if is_word_ignoring_case(level, encode_utf8("error"@)) {
        LogLevel::Error
    } else {
        LogLevel::Info
    }
}

/// The text that tells how long the service has been up.
pub open spec fn spec_uptime_text(seconds: u64) -> Seq<char> {
    decimal_chars((seconds / 86_400) as nat) + " days "@ + decimal_chars(
        ((seconds / 3_600) % 24) as nat,
    ) + " hours "@ + decimal_chars(((seconds / 60) % 60) as nat) + " minutes"@
}

/// Tells whether two texts are the same.
pub fn text_equal(a: &str, b: &str) -> (r: bool)
    ensures
        r == (a@ == b@),
{
    let x = a.as_bytes();
    let y = b.as_bytes();
    proof {
        vstd::utf8::encode_utf8_decode_utf8(a@);
        vstd::utf8::encode_utf8_decode_utf8(b@);
    }
    if x.len() != y.len() {
        return false;
    }
    let mut i: usize = 0;
    while i < x.len()
        invariant
            i <= x.len(),
            x.len() == y.len(),
            x@ == encode_utf8(a@),
            y@ == encode_utf8(b@),
            forall|j: int| 0 <= j < i ==> x@[j] == y@[j],
        decreases x.len() - i,
    {
        if x[i] != y[i] {
            return false;
        }
        i = i + 1;
    }
    assert(x@ =~= y@);
    true
}

/// Tells whether `text` is `word` when case is ignored. `word` is in lower case.
pub fn word_ignoring_case(text: &str, word: &str) -> (r: bool)
    ensures
        r == is_word_ignoring_case(encode_utf8(text@), encode_utf8(word@)),
{
    let x = text.as_bytes();
    let y = word.as_bytes();
    if x.len() != y.len() {
        return false;
    }
    let mut i: usize = 0;
    while i < x.len()
        invariant
            i <= x.len(),
            x.len() == y.len(),
            x@ == encode_utf8(text@),
            y@ == encode_utf8(word@),
            forall|j: int| 0 <= j < i ==> ascii_lower(x@[j]) == y@[j],
        decreases x.len() - i,
    {
        let b: u8 = x[i];
        let lowered: u8 = if 0x41 <= b && b <= 0x5a {
            b + 0x20
        } else {
            b
        };
        if lowered != y[i] {
            return false;
        }
        i = i + 1;
    }
    true
}

/// The format that a time request names.
pub fn time_format_of(format: Option<&str>) -> (r: Option<TimeFormat>)
    ensures
        r == spec_time_format(
            match format {
                Some(name) => Some(name@),
                None => None,
            },
        ),
{
    match format {
        None => Some(TimeFormat::Iso8601),
        Some(name) => {
            if text_equal(name, "iso8601") {
                Some(TimeFormat::Iso8601)
            } else if text_equal(name, "timestamp") {
                Some(TimeFormat::Timestamp)
            } else if text_equal(name, "formatted") {
                Some(TimeFormat::Formatted)
            } else {
                None
            }
        },
    }
}

/// The level that a setting names.
pub fn log_level_of(level: &str) -> (r: LogLevel)
    ensures
        r == spec_log_level(encode_utf8(level@)),
{
    if word_ignoring_case(level, "trace") {
        LogLevel::Trace
    } else if word_ignoring_case(level, "debug") {
        LogLevel::Debug
    } else if word_ignoring_case(level, "info") {
        LogLevel::Info
    } else if word_ignoring_case(level, "warn") {
        LogLevel::Warn
    } else if word_ignoring_case(level, "error") {
        LogLevel::Error
    } else {
        LogLevel::Info
    }
}

/// The text that tells how long the service has been up: whole days, the
/// hours of the day begun and the minutes of the hour begun.
pub fn uptime_text(seconds: u64) -> (text: String)
    ensures
        text@ == spec_uptime_text(seconds),
{
    let mut text = decimal_text(seconds / 86_400);
    text.append(" days ");
    let hours = decimal_text((seconds / 3_600) % 24);
    text.append(hours.as_str());
    text.append(" hours ");
    let minutes = decimal_text((seconds / 60) % 60);
    text.append(minutes.as_str());
    text.append(" minutes");
    text
}

} // verus!
