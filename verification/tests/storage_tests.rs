use matrix_bot::storage::{ListenerStorage, ReadOutcome, ResponderStorage, Session,
    SessionStorage, StorageError};

#[test]
fn txn_ids_count_up_from_zero() {
    let mut storage = ResponderStorage::default();
    let mut ids: Vec<String> = Vec::new();
    for _ in 0..5 {
        ids.push(storage.next_txn_id());
    }
    assert_eq!(ids, vec!["1", "2", "3", "4", "5"]);
    assert_eq!(storage.last_txn_id, 5);
}

#[test]
fn txn_ids_continue_from_a_loaded_counter() {
    let mut storage = ResponderStorage { last_txn_id: 41 };
    assert_eq!(storage.next_txn_id(), "42");
    assert_eq!(storage.last_txn_id, 42);
}

#[test]
fn cooldown_is_satisfied_in_a_room_without_corrections() {
    let storage = ListenerStorage::default();
    assert!(storage.correction_time_cooldown(&String::from("!room:example.com"), 5000));
}

#[test]
fn cooldown_window_is_exactly_three_hundred_seconds() {
    let storage = ListenerStorage {
        last_sync: None,
        last_correction_time: vec![(String::from("!room:example.com"), 1000)],
    };
    let room = String::from("!room:example.com");
    assert!(storage.correction_time_cooldown(&room, 1300));
    assert!(!storage.correction_time_cooldown(&room, 1299));
    assert!(storage.correction_time_cooldown(&room, 2000));
}

#[test]
fn cooldown_with_recorded_time_in_the_future_is_not_satisfied() {
    let storage = ListenerStorage {
        last_sync: None,
        last_correction_time: vec![(String::from("!room:example.com"), 1000)],
    };
    assert!(!storage.correction_time_cooldown(&String::from("!room:example.com"), 999));
}

#[test]
fn cooldown_only_reads_the_asked_room() {
    let storage = ListenerStorage {
        last_sync: None,
        last_correction_time: vec![(String::from("!a:example.com"), 1000)],
    };
    assert!(storage.correction_time_cooldown(&String::from("!b:example.com"), 1000));
}

#[test]
fn responder_round_trip_keeps_the_counter() {
    let storage = ResponderStorage { last_txn_id: 42 };
    let text = storage.save_storage();
    let back = ResponderStorage::decode(&text).expect("must decode");
    assert_eq!(back.last_txn_id, 42);
}

#[test]
fn responder_round_trip_keeps_the_default() {
    let storage = ResponderStorage::default();
    let text = storage.save_storage();
    let back = ResponderStorage::decode(&text).expect("must decode");
    assert_eq!(back.last_txn_id, 0);
}

#[test]
fn listener_round_trip_keeps_cursor_and_entries() {
    let storage = ListenerStorage {
        last_sync: Some(String::from("s72594_4483_1934")),
        last_correction_time: vec![
            (String::from("!a:example.com"), 17),
            (String::from("!b:example.com"), 99),
        ],
    };
    let text = storage.save_storage();
    let back = ListenerStorage::decode(&text).expect("must decode");
    assert_eq!(back.last_sync, Some(String::from("s72594_4483_1934")));
    assert_eq!(back.last_correction_time, storage.last_correction_time);
}

#[test]
fn listener_round_trip_keeps_the_default() {
    let storage = ListenerStorage::default();
    let text = storage.save_storage();
    let back = ListenerStorage::decode(&text).expect("must decode");
    assert_eq!(back.last_sync, None);
    assert!(back.last_correction_time.is_empty());
}

#[test]
fn session_round_trip_keeps_credentials_with_awkward_text() {
    let storage = SessionStorage {
        session: Some(Session {
            access_token: String::from("a:1\n7:xyz"),
            user_id: String::from("@bot:example.com"),
            device_id: String::from("DEV42"),
        }),
    };
    let text = storage.save();
    let back = SessionStorage::decode(&text).expect("must decode");
    match back.session {
        Some(sd) => {
            assert_eq!(sd.access_token, "a:1\n7:xyz");
            assert_eq!(sd.user_id, "@bot:example.com");
            assert_eq!(sd.device_id, "DEV42");
        },
        None => panic!("session must survive the round trip"),
    }
}

#[test]
fn session_round_trip_keeps_the_default() {
    let storage = SessionStorage::default();
    let text = storage.save();
    let back = SessionStorage::decode(&text).expect("must decode");
    assert!(back.session.is_none());
}

#[test]
fn decode_rejects_trailing_text() {
    let storage = ResponderStorage { last_txn_id: 7 };
    let mut text = storage.save_storage();
    text.push('x');
    assert!(ResponderStorage::decode(&text).is_none());
}

#[test]
fn decode_rejects_non_canonical_numerals() {
    assert!(ResponderStorage::decode("responder\n007\n").is_none());
    assert!(ResponderStorage::decode("responder\n7\n").is_some());
}

#[test]
fn decode_rejects_garbage() {
    assert!(ResponderStorage::decode("").is_none());
    assert!(ResponderStorage::decode("nonsense").is_none());
    assert!(ListenerStorage::decode("listener\nsome\n3:abc").is_none());
    assert!(SessionStorage::decode("session\nmaybe\n").is_none());
}

#[test]
fn decode_rejects_wrong_entry_count() {
    let storage = ListenerStorage {
        last_sync: None,
        last_correction_time: vec![(String::from("!a:example.com"), 17)],
    };
    let text = storage.save_storage();
    let tampered = text.replacen("1\n", "2\n", 1);
    assert!(ListenerStorage::decode(&tampered).is_none());
}

#[test]
fn missing_store_file_yields_default_and_text_to_persist() {
    let (storage, to_write) =
        ResponderStorage::load_storage(ReadOutcome::Missing).expect("first run must succeed");
    assert_eq!(storage.last_txn_id, 0);
    let text = to_write.expect("first run must persist the default");
    let back = ResponderStorage::decode(&text).expect("persisted default must decode");
    assert_eq!(back.last_txn_id, 0);

    let (listener, listener_text) =
        ListenerStorage::load_storage(ReadOutcome::Missing).expect("first run must succeed");
    assert!(listener.last_sync.is_none());
    assert!(listener.last_correction_time.is_empty());
    assert!(listener_text.is_some());

    let (session, session_text) =
        SessionStorage::load_storage(ReadOutcome::Missing).expect("first run must succeed");
    assert!(session.session.is_none());
    assert!(session_text.is_some());
}

#[test]
fn valid_content_loads_without_rewriting() {
    let storage = ResponderStorage { last_txn_id: 9 };
    let text = storage.save_storage();
    let (back, to_write) =
        ResponderStorage::load_storage(ReadOutcome::Content(text)).expect("must load");
    assert_eq!(back.last_txn_id, 9);
    assert!(to_write.is_none());
}

#[test]
fn corrupt_content_is_fatal_with_parse_code() {
    let err = ResponderStorage::load_storage(ReadOutcome::Content(String::from("nonsense")))
        .err()
        .expect("corrupt content must be fatal");
    assert!(matches!(err, StorageError::CorruptStore));
    assert_eq!(err.exit_code(), 3);
}

#[test]
fn io_failures_carry_their_codes() {
    let denied = SessionStorage::load_storage(ReadOutcome::PermissionDenied)
        .err()
        .expect("must be fatal");
    assert_eq!(denied.exit_code(), 1);
    let open = ListenerStorage::load_storage(ReadOutcome::OtherOpenError)
        .err()
        .expect("must be fatal");
    assert_eq!(open.exit_code(), 1);
    let read = ResponderStorage::load_storage(ReadOutcome::ReadError)
        .err()
        .expect("must be fatal");
    assert_eq!(read.exit_code(), 2);
    assert_eq!(StorageError::WriteOpenFailed.exit_code(), 9);
    assert_eq!(StorageError::WriteFailed.exit_code(), 10);
}
