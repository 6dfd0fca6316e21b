use petaddr::address::{PetAddress, PetAddressInfo};
use petaddr::gateway::{
    address_outcome, admission_status, log_level_of, outcome_status, status_outcome, text_equal,
    time_format_of, uptime_text, word_ignoring_case, AddressOutcome, LogLevel, TimeFormat,
};
use petaddr::models::{ApiResponse, GetPetAddressResponse};
use petaddr::storage::StorageError;

fn entry() -> PetAddressInfo {
    PetAddressInfo {
        id: 9,
        address: PetAddress {
            public_key: "pk".to_string(),
            private_key: "sk".to_string(),
            address: "adPet".to_string(),
        },
        created_at: "2024-01-15T10:30:00Z".to_string(),
    }
}

#[test]
fn found_entry_is_answered_with_200() {
    let outcome = address_outcome(Ok(Some(entry())));
    assert_eq!(outcome_status(&outcome), 200);
    match outcome {
        AddressOutcome::Found(r) => {
            assert_eq!(r.id, 9);
            assert_eq!(r.public_key, "pk");
            assert_eq!(r.private_key, "sk");
            assert_eq!(r.address, "adPet");
            assert_eq!(r.created_at, "2024-01-15T10:30:00Z");
        }
        _ => panic!("an entry was taken"),
    }
}

#[test]
fn empty_pool_is_answered_with_404() {
    let outcome = address_outcome(Ok(None));
    assert!(matches!(outcome, AddressOutcome::Empty));
    assert_eq!(outcome_status(&outcome), 404);
}

#[test]
fn store_failure_is_answered_with_500() {
    for e in [StorageError::Io, StorageError::Serialization, StorageError::Counter] {
        let outcome = address_outcome(Err(e));
        assert!(matches!(outcome, AddressOutcome::Failed));
        assert_eq!(outcome_status(&outcome), 500);
    }
}

#[test]
fn rate_limit_answers_with_429() {
    assert_eq!(admission_status(true), None);
    assert_eq!(admission_status(false), Some(429));
}

#[test]
fn status_shows_count_target_and_activity() {
    let s = status_outcome(Ok(7), 10, true).unwrap();
    assert_eq!(s.total_addresses, 7);
    assert_eq!(s.pool_size, 10);
    assert!(s.generation_active);
    let idle = status_outcome(Ok(0), 100, false).unwrap();
    assert!(!idle.generation_active);
    assert!(status_outcome(Err(StorageError::Io), 10, true).is_none());
}

#[test]
fn response_from_info_moves_every_field() {
    let r = GetPetAddressResponse::from_info(entry());
    assert_eq!(r.id, 9);
    assert_eq!(r.address, "adPet");
}

#[test]
fn success_envelope() {
    let r = ApiResponse::success_at(5u8, 1_705_316_200);
    assert_eq!(r.code, 200);
    assert_eq!(r.message, "success");
    assert_eq!(r.data, Some(5));
    assert_eq!(r.timestamp, 1_705_316_200);
    let now = ApiResponse::success("x");
    assert_eq!(now.code, 200);
    assert!(now.timestamp > 1_700_000_000);
}

#[test]
fn error_envelope() {
    let r = ApiResponse::<u8>::error_at(404, "no address", 12);
    assert_eq!(r.code, 404);
    assert_eq!(r.message, "no address");
    assert!(r.data.is_none());
    assert_eq!(r.timestamp, 12);
    let now = ApiResponse::<u8>::error(500, "failed");
    assert_eq!(now.code, 500);
    assert_eq!(now.message, "failed");
    assert!(now.timestamp > 1_700_000_000);
}

#[test]
fn time_format_names() {
    assert_eq!(time_format_of(None), Some(TimeFormat::Iso8601));
    assert_eq!(time_format_of(Some("iso8601")), Some(TimeFormat::Iso8601));
    assert_eq!(time_format_of(Some("timestamp")), Some(TimeFormat::Timestamp));
    assert_eq!(time_format_of(Some("formatted")), Some(TimeFormat::Formatted));
    assert_eq!(time_format_of(Some("ISO8601")), None);
    assert_eq!(time_format_of(Some("")), None);
    assert_eq!(time_format_of(Some("timestamps")), None);
}

#[test]
fn log_level_names_in_any_case() {
    assert_eq!(log_level_of("trace"), LogLevel::Trace);
    assert_eq!(log_level_of("DEBUG"), LogLevel::Debug);
    assert_eq!(log_level_of("Info"), LogLevel::Info);
    assert_eq!(log_level_of("wARN"), LogLevel::Warn);
    assert_eq!(log_level_of("error"), LogLevel::Error);
    assert_eq!(log_level_of("verbose"), LogLevel::Info);
    assert_eq!(log_level_of(""), LogLevel::Info);
    assert_eq!(log_level_of("warn "), LogLevel::Info);
}

#[test]
fn log_level_agrees_with_lower_casing() {
    for level in ["TRACE", "Debug", "inFo", "WARN", "ErRoR", "other", "\u{212a}", "tr\u{e4}ce"] {
        let expected = match level.to_lowercase().as_str() {
            "trace" => LogLevel::Trace,
            "debug" => LogLevel::Debug,
            "info" => LogLevel::Info,
            "warn" => LogLevel::Warn,
            "error" => LogLevel::Error,
            _ => LogLevel::Info,
        };
        assert_eq!(log_level_of(level), expected);
    }
}

#[test]
fn uptime_text_counts_days_hours_and_minutes() {
    assert_eq!(uptime_text(0), "0 days 0 hours 0 minutes");
    assert_eq!(uptime_text(59), "0 days 0 hours 0 minutes");
    assert_eq!(uptime_text(60), "0 days 0 hours 1 minutes");
    assert_eq!(uptime_text(3_600 + 30 * 60), "0 days 1 hours 30 minutes");
    assert_eq!(uptime_text(2 * 86_400 + 23 * 3_600 + 59 * 60 + 59), "2 days 23 hours 59 minutes");
    assert_eq!(uptime_text(u64::MAX), "213503982334601 days 7 hours 0 minutes");
}

#[test]
fn text_equal_compares_texts() {
    assert!(text_equal("", ""));
    assert!(text_equal("abc", "abc"));
    assert!(!text_equal("abc", "abd"));
    assert!(!text_equal("abc", "ab"));
    assert!(text_equal("\u{e9}", "\u{e9}"));
}

#[test]
fn word_ignoring_case_lowers_ascii_letters_only() {
    assert!(word_ignoring_case("WaRn", "warn"));
    assert!(!word_ignoring_case("warn", "WARN"));
    assert!(!word_ignoring_case("w\u{c4}rn", "w\u{e4}rn"));
    assert!(word_ignoring_case("[", "["));
    assert!(!word_ignoring_case("@", "`"));
}
