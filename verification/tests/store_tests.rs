use sidecar_state::codec::render_state_vec;
use sidecar_state::crypto::CryptoError;
use sidecar_state::state::TerminalSession;
use sidecar_state::store::{AppState, StoreError};

#[test]
fn default_load_yields_default_configuration() {
    let mut store = AppState::new(None);
    store.load_state(None).unwrap();
    let config = store.get_app_config();
    assert_eq!(config.theme, "dark");
    assert!(config.auto_approve_read_ops);
    assert!(config.show_notifications);
    assert_eq!(config.terminal_shell, "/bin/bash");
    assert!(!config.encryption_enabled);
    assert!(store.state.pending_operations.is_empty());
    assert!(store.state.notifications.is_empty());
    assert!(store.state.terminal_sessions.is_empty());
}

#[test]
fn end_to_end_correct_passphrase() {
    let mut store = AppState::new(Some("s3cret".to_string()));
    let content = store.add_notification("hello", "info").unwrap();

    let mut reloaded = AppState::new(Some("s3cret".to_string()));
    reloaded.load_state(Some(&content)).unwrap();
    assert_eq!(reloaded.state.notifications.len(), 1);
    assert_eq!(reloaded.state.notifications[0].message, "hello");
    assert_eq!(reloaded.state.notifications[0].level, "info");
    assert!(!reloaded.state.notifications[0].dismissed);
}

#[test]
fn end_to_end_wrong_passphrase() {
    let mut store = AppState::new(Some("s3cret".to_string()));
    let content = store.add_notification("hello", "info").unwrap();

    let mut other = AppState::new(Some("different".to_string()));
    let r = other.load_state(Some(&content));
    assert!(matches!(r, Err(CryptoError::DecryptionFailed(_))));
    assert!(other.state.notifications.is_empty());
}

#[test]
fn mode_mismatch_fails_cleanly() {
    let mut plain = AppState::new(None);
    let plain_content = plain.save_state().unwrap();
    let mut enc = AppState::new(Some("pw".to_string()));
    let r = enc.load_state(Some(&plain_content));
    assert!(matches!(r, Err(CryptoError::SerializationError(_))));

    let enc_content = enc.save_state().unwrap();
    let mut plain2 = AppState::new(None);
    let r2 = plain2.load_state(Some(&enc_content));
    assert!(matches!(r2, Err(CryptoError::SerializationError(_))));
}

#[test]
fn plaintext_save_load_round_trip() {
    let mut store = AppState::new(None);
    let (id, save) = store.add_operation(
        "write_file".to_string(),
        vec![("path".to_string(), "/tmp/a \"quoted\"\npath".to_string())],
        "geanylua".to_string(),
    );
    let content = save.unwrap();
    assert_eq!(id.len(), 36);

    let mut reloaded = AppState::new(None);
    reloaded.load_state(Some(&content)).unwrap();
    assert_eq!(render_state_vec(&store.state), render_state_vec(&reloaded.state));
    assert_eq!(reloaded.state.pending_operations[0].status, "pending");
    assert_eq!(reloaded.state.pending_operations[0].payload[0].1, "/tmp/a \"quoted\"\npath");
}

#[test]
fn update_operation_status_and_not_found() {
    let mut store = AppState::new(None);
    let (id, _) = store.add_operation("apply_patch".to_string(), vec![], "sidecar".to_string());
    store.update_operation_status(&id, "approved".to_string()).unwrap();
    assert_eq!(store.state.pending_operations[0].status, "approved");

    let missing = store.update_operation_status("no-such-id", "rejected".to_string());
    assert!(matches!(missing, Err(StoreError::OperationNotFound)));
}

#[test]
fn clean_completed_operations_keeps_pending() {
    let mut store = AppState::new(None);
    let (id1, _) = store.add_operation("a".to_string(), vec![], "s".to_string());
    let (_id2, _) = store.add_operation("b".to_string(), vec![], "s".to_string());
    store.update_operation_status(&id1, "completed".to_string()).unwrap();
    let saved = store.clean_completed_operations();
    assert!(saved.is_some());
    assert_eq!(store.state.pending_operations.len(), 1);
    assert_eq!(store.state.pending_operations[0].operation_type, "b");
    let unchanged = store.clean_completed_operations();
    assert!(unchanged.is_none());
}

#[test]
fn dismiss_and_clear_notifications() {
    let mut store = AppState::new(None);
    store.add_notification("one", "info").unwrap();
    store.add_notification("two", "warning").unwrap();
    let none_cleared = store.clear_notifications();
    assert!(none_cleared.is_none());
    store.dismiss_all_notifications().unwrap();
    assert!(store.state.notifications.iter().all(|n| n.dismissed));
    let cleared = store.clear_notifications();
    assert!(cleared.is_some());
    assert!(store.state.notifications.is_empty());
}

#[test]
fn terminal_sessions_round_trip() {
    let mut store = AppState::new(Some("pw".to_string()));
    store.state.terminal_sessions.push(TerminalSession {
        id: "sess-1".to_string(),
        shell: "/bin/bash".to_string(),
        rows: 24,
        cols: 65535,
        active: true,
        created_at: "2024-01-01T00:00:00+00:00".to_string(),
    });
    let content = store.save_state().unwrap();
    let mut reloaded = AppState::new(Some("pw".to_string()));
    reloaded.load_state(Some(&content)).unwrap();
    assert_eq!(reloaded.state.terminal_sessions.len(), 1);
    let s = &reloaded.state.terminal_sessions[0];
    assert_eq!(s.id, "sess-1");
    assert_eq!(s.rows, 24);
    assert_eq!(s.cols, 65535);
    assert!(s.active);
}

#[test]
fn update_app_config_persists() {
    let mut store = AppState::new(None);
    let mut config = store.get_app_config();
    config.theme = "light".to_string();
    config.encryption_enabled = true;
    let content = store.update_app_config(config).unwrap();
    let mut reloaded = AppState::new(None);
    reloaded.load_state(Some(&content)).unwrap();
    assert_eq!(reloaded.get_app_config().theme, "light");
    assert!(reloaded.get_app_config().encryption_enabled);
}

#[test]
fn control_characters_survive_the_codec() {
    let mut store = AppState::new(None);
    let content = store.add_notification("tab\t and \u{1} ctrl \\ quote \"", "info").unwrap();
    let mut reloaded = AppState::new(None);
    reloaded.load_state(Some(&content)).unwrap();
    assert_eq!(reloaded.state.notifications[0].message, "tab\t and \u{1} ctrl \\ quote \"");
}

#[test]
fn garbage_file_fails_to_load() {
    let mut store = AppState::new(None);
    let r = store.load_state(Some(b"{\"conf\": 1]"));
    assert!(matches!(r, Err(CryptoError::SerializationError(_))));
    assert!(store.state.pending_operations.is_empty());
}

#[test]
fn create_terminal_defaults_and_persistence() {
    let mut store = AppState::new(None);
    let (id, save) = store.create_terminal(None, None, None);
    let content = save.unwrap();
    assert_eq!(id.len(), 36);
    let s = &store.state.terminal_sessions[0];
    assert_eq!(s.id, id);
    assert_eq!(s.shell, "/bin/bash");
    assert_eq!(s.rows, 24);
    assert_eq!(s.cols, 80);
    assert!(s.active);

    let mut reloaded = AppState::new(None);
    reloaded.load_state(Some(&content)).unwrap();
    assert_eq!(reloaded.state.terminal_sessions[0].id, id);

    let (id2, _) = store.create_terminal(Some("/bin/sh".to_string()), Some(40), Some(120));
    let s2 = &store.state.terminal_sessions[1];
    assert_eq!(s2.id, id2);
    assert_eq!(s2.shell, "/bin/sh");
    assert_eq!(s2.rows, 40);
    assert_eq!(s2.cols, 120);
}

#[test]
fn resize_and_kill_terminal() {
    let mut store = AppState::new(None);
    let (id, _) = store.create_terminal(None, None, None);

    store.resize_terminal(&id, 50, 132).unwrap();
    assert_eq!(store.state.terminal_sessions[0].rows, 50);
    assert_eq!(store.state.terminal_sessions[0].cols, 132);

    let missing = store.resize_terminal("no-such-session", 10, 10);
    assert!(matches!(missing, Err(StoreError::SessionNotFound)));

    let content = store.kill_terminal(&id).unwrap();
    assert!(!store.state.terminal_sessions[0].active);
    let mut reloaded = AppState::new(None);
    reloaded.load_state(Some(&content)).unwrap();
    assert!(!reloaded.state.terminal_sessions[0].active);

    let inactive = store.resize_terminal(&id, 10, 10);
    assert!(matches!(inactive, Err(StoreError::SessionInactive)));
    let gone = store.kill_terminal("no-such-session");
    assert!(matches!(gone, Err(StoreError::SessionNotFound)));
}
