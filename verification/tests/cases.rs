use mojibake_core::cases::{case_id, CaseHistory, CASE_CAPACITY};
use mojibake_core::files::{io_error, location, DataDir, IoFailure};

#[test]
fn case_ids_count_in_decimal() {
    assert_eq!(case_id(1), "case-1");
    assert_eq!(case_id(1234567890), "case-1234567890");
    assert_eq!(case_id(0), "case-0");
}

#[test]
fn history_forgets_the_oldest_case_when_full() {
    let mut history = CaseHistory::new();
    for n in 1..=10u64 {
        history.remember(case_id(n), n);
    }
    assert_eq!(history.len(), CASE_CAPACITY);
    assert_eq!(history.lookup("case-1"), None);
    assert_eq!(history.lookup("case-2"), None);
    assert_eq!(history.lookup("case-3"), Some(&3));
    assert_eq!(history.lookup("case-10"), Some(&10));
    assert_eq!(history.lookup("case-11"), None);
}

#[test]
fn io_failures_map_to_stable_codes() {
    assert_eq!(io_error(IoFailure::PermissionDenied), "permission_denied");
    assert_eq!(io_error(IoFailure::NotFound), "file_not_found");
    assert_eq!(io_error(IoFailure::AlreadyExists), "output_exists");
    assert_eq!(io_error(IoFailure::Other("disk full".into())), "disk full");
}

#[test]
fn installed_and_mounted_bundles_use_writable_user_data() {
    assert_eq!(location("windows", true, true, Some(true)), Ok(DataDir::BesideExecutable));
    assert_eq!(location("macos", true, true, None), Ok(DataDir::MacApplicationSupport));
    assert_eq!(location("linux", true, true, Some(true)), Ok(DataDir::XdgDataHome));
    assert_eq!(location("linux", true, true, Some(false)), Ok(DataDir::HomeLocalShare));
    assert!(location("macos", true, false, None).is_err());
    assert_eq!(location("linux", true, false, None), Err("Missing user data folder"));
    assert_eq!(location("windows", false, true, None), Err("Missing executable folder"));
}
