use achievement_panel::bridge::{change_error, validate_app_id, has_no_nul, unlock_state, BridgeError, BulkChange, CallbackState};

#[test]
fn error_messages() {
    assert_eq!(BridgeError::InvalidAppId.message(), "AppID 0 is not valid.");
    assert_eq!(
        BridgeError::InitFailed("NoSteamClient(\"x\")".to_string()).message(),
        "Steam init failed: NoSteamClient(\"x\"). Start Steam, log in, and check that the AppID is available."
    );
    assert_eq!(BridgeError::NamesUnavailable.message(), "Could not load achievement names for this AppID.");
    assert_eq!(BridgeError::UnlockFailed("ACH".to_string()).message(), "Could not unlock achievement: ACH");
    assert_eq!(BridgeError::LockFailed("ACH".to_string()).message(), "Could not lock achievement: ACH");
    assert_eq!(BridgeError::UpdateFailed("ACH".to_string()).message(), "Could not update achievement: ACH");
    assert_eq!(BridgeError::StoreFailed.message(), "Steam StoreStats failed.");
}

#[test]
fn app_id_zero_is_refused() {
    assert!(matches!(validate_app_id(0), Err(BridgeError::InvalidAppId)));
    assert!(validate_app_id(480).is_ok());
}

#[test]
fn names_with_nul_are_detected() {
    assert!(has_no_nul("ACH_WIN"));
    assert!(!has_no_nul("ACH\0WIN"));
    assert!(has_no_nul(""));
}

#[test]
fn unlock_state_prefers_the_timed_answer() {
    assert_eq!(unlock_state(Ok((true, 5)), Ok(false)), Some((true, 5)));
    assert_eq!(unlock_state(Err(()), Ok(true)), Some((true, 0)));
    assert_eq!(unlock_state(Err(()), Err(())), None);
}

#[test]
fn change_errors_name_the_achievement() {
    assert_eq!(change_error(true, "A").message(), "Could not unlock achievement: A");
    assert_eq!(change_error(false, "A").message(), "Could not lock achievement: A");
}

fn run_bulk(names: &[&str], refuse: Option<&str>, store_ok: bool) -> (Vec<String>, bool, Result<usize, BridgeError>) {
    let mut bulk = BulkChange::new(names.iter().map(|s| s.to_string()).collect(), true);
    let mut asked = Vec::new();
    while let Some(name) = bulk.next_name() {
        let name = name.clone();
        let ok = Some(name.as_str()) != refuse;
        asked.push(name);
        bulk.record(ok);
    }
    let stored = bulk.needs_store();
    (asked, stored, bulk.outcome(store_ok))
}

#[test]
fn bulk_change_of_every_name() {
    let (asked, stored, result) = run_bulk(&["a", "b", "c"], None, true);
    assert_eq!(asked, vec!["a", "b", "c"]);
    assert!(stored);
    assert_eq!(result.unwrap(), 3);
}

#[test]
fn bulk_change_stops_at_the_first_refusal() {
    let (asked, stored, result) = run_bulk(&["a", "b", "c"], Some("b"), true);
    assert_eq!(asked, vec!["a", "b"]);
    assert!(!stored);
    assert_eq!(result.unwrap_err().message(), "Could not update achievement: b");
}

#[test]
fn bulk_change_reports_a_failed_store() {
    let (_, stored, result) = run_bulk(&["a"], None, false);
    assert!(stored);
    assert!(matches!(result, Err(BridgeError::StoreFailed)));
}

#[test]
fn empty_bulk_change_asks_nothing() {
    let (asked, stored, result) = run_bulk(&[], None, false);
    assert!(asked.is_empty());
    assert!(!stored);
    assert_eq!(result.unwrap(), 0);
}

#[test]
fn callback_state_records_callbacks() {
    let mut st = CallbackState::default();
    assert!(!st.stats_received && !st.stats_ok && st.last_store_ok.is_none());
    st.record_stats_received(true, "Ok(())");
    assert!(st.stats_received && st.stats_ok);
    assert_eq!(st.last_callback_message, "Steam stats callback ok.");
    st.record_stats_received(false, "Err(Fail)");
    assert!(st.stats_received && !st.stats_ok);
    assert_eq!(st.last_callback_message, "Steam stats callback error: Err(Fail)");
    st.record_stats_stored(true, "Ok(())");
    assert_eq!(st.last_store_ok, Some(true));
    assert_eq!(st.last_callback_message, "StoreStats ok.");
    st.record_stats_stored(false, "Err(Timeout)");
    assert_eq!(st.last_store_ok, Some(false));
    assert_eq!(st.last_callback_message, "StoreStats error: Err(Timeout)");
    let copy = st.clone();
    assert_eq!(copy.last_callback_message, st.last_callback_message);
}
