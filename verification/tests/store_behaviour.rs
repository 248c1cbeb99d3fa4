use copy_stack::fingerprint::content_hash;
use copy_stack::settings::{max_items_from, parse_max_items, render_max_items};
use copy_stack::time::{timestamp_of_text, timestamp_text};
use sha2::Digest;
use copy_stack::{CopyEvent, Database, Event, StoreError, StoredEvent, Timestamp, DEFAULT_MAX_ITEMS};

fn text_event(text: &str) -> Event {
    let mut event = Event::new();
    event.new_item();
    event.add_data("public.utf8-plain-text".to_string(), text.as_bytes().to_vec());
    event
}

fn at(secs: i64) -> Timestamp {
    Timestamp::new(secs, 0)
}

fn row(id: &str, content: &str, secs: i64) -> StoredEvent {
    StoredEvent::new_at(&text_event(content), id.to_string(), at(secs))
}

fn unreadable(id: &str, secs: i64) -> StoredEvent {
    let payload = format!("no event: {}", id);
    let hash = content_hash(&payload);
    StoredEvent::from_parts(id.to_string(), payload, at(secs), hash)
}

fn ids(db: &Database) -> Vec<String> {
    db.get_all_events().unwrap().into_iter().map(|e| e.id).collect()
}

#[test]
fn a_new_store_is_empty_with_the_default_capacity() {
    let db = Database::new();
    assert_eq!(db.len(), 0);
    assert_eq!(db.get_all_events().unwrap().len(), 0);
    assert_eq!(db.get_max_items(), 100);
    assert_eq!(DEFAULT_MAX_ITEMS, 100);
}

#[test]
fn stored_event_carries_payload_and_fingerprint() {
    let stored = StoredEvent::new_at(&Event::new(), "id-1".to_string(), Timestamp::new(5, 6));
    assert_eq!(stored.id, "id-1");
    assert_eq!(stored.event_data, "{\"items\":[]}");
    assert_eq!(stored.timestamp, Timestamp::new(5, 6));
    assert_eq!(stored.content_hash, "eef46741adfc3a9f76294d3b78f37a45f113092ac9d44ee77c7a038a88ff09a1");
}

#[test]
fn fingerprint_is_the_sha256_of_the_payload() {
    let stored = StoredEvent::new_at(&text_event("Hello"), "x".to_string(), at(0));
    assert_eq!(
        stored.event_data,
        "{\"items\":[{\"data_list\":[{\"type\":\"public.utf8-plain-text\",\"data\":[72,101,108,108,111]}]}]}"
    );
    assert_eq!(stored.content_hash, "3d37d1a41c96f241f2a897cdcc54fca3507ef779435e32af9548f97c5e936216");
    assert_ne!(stored.content_hash, stored.event_data);
}

#[test]
fn fresh_rows_get_distinct_identifiers_and_the_present_time() {
    let a = StoredEvent::new(text_event("a"));
    let b = StoredEvent::new(text_event("a"));
    assert_eq!(a.id.len(), 36);
    assert_eq!(b.id.len(), 36);
    assert_ne!(a.id, b.id);
    assert_eq!(a.content_hash, b.content_hash);
    assert!(a.timestamp.secs > 1_600_000_000);
    assert!(a.timestamp.nanos < 2_000_000_000);
    assert!(!a.timestamp.is_newer_than(&b.timestamp));
}

#[test]
fn copy_event_keeps_its_content() {
    let event = CopyEvent::new("hello".to_string(), "text".to_string());
    assert_eq!(event.content, "hello");
    assert_eq!(event.content_type, "text");
    assert_eq!(event.id.len(), 36);
    assert!(event.timestamp.secs > 1_600_000_000);
    let fixed = CopyEvent::with_identity("i".to_string(), at(3), "c".to_string(), "t".to_string());
    assert_eq!(fixed.id, "i");
    assert_eq!(fixed.timestamp, at(3));
    assert_eq!(fixed.content, "c");
    assert_eq!(fixed.content_type, "t");
}

#[test]
fn timestamps_are_ordered_by_seconds_then_nanoseconds() {
    assert!(Timestamp::new(2, 0).is_newer_than(&Timestamp::new(1, 999_999_999)));
    assert!(Timestamp::new(1, 5).is_newer_than(&Timestamp::new(1, 4)));
    assert!(!Timestamp::new(1, 4).is_newer_than(&Timestamp::new(1, 4)));
    assert!(!Timestamp::new(1, 4).is_newer_than(&Timestamp::new(1, 5)));
    assert!(Timestamp::new(-1, 0).is_newer_than(&Timestamp::new(-2, 4_000_000_000)));
    assert!(!Timestamp::new(i64::MIN, u32::MAX).is_newer_than(&Timestamp::new(i64::MAX, 0)));
}

#[test]
fn same_content_is_stored_once() {
    let mut db = Database::new();
    let event = text_event("same");
    assert_eq!(db.insert_event_at(&event, "first".to_string(), at(1)), Ok(()));
    assert_eq!(db.insert_event_at(&text_event("other"), "other".to_string(), at(2)), Ok(()));
    for n in 0..5 {
        assert_eq!(db.insert_event_at(&event, format!("later-{}", n), at(10 + n)), Ok(()));
        assert_eq!(db.len(), 2);
    }
    let all = db.get_all_events().unwrap();
    assert_eq!(all.len(), 2);
    assert_eq!(all[0].id, "first");
    assert_eq!(all[0].timestamp, at(14));
    assert_eq!(all[0].event_data, event.to_json());
    assert_eq!(all[1].id, "other");
    assert_eq!(all[1].timestamp, at(2));
}

#[test]
fn same_content_is_stored_once_with_fresh_identifiers() {
    let mut db = Database::new();
    let event = text_event("same");
    assert_eq!(db.insert_event(&event), Ok(()));
    let first = db.get_all_events().unwrap();
    assert_eq!(first.len(), 1);
    for _ in 0..3 {
        assert_eq!(db.insert_event(&event), Ok(()));
    }
    let last = db.get_all_events().unwrap();
    assert_eq!(last.len(), 1);
    assert_eq!(last[0].id, first[0].id);
    assert!(!first[0].timestamp.is_newer_than(&last[0].timestamp));
}

#[test]
fn a_refresh_with_an_older_time_moves_the_row_back() {
    let mut db = Database::new();
    db.insert_row(row("a", "ha", 10)).unwrap();
    db.insert_row(row("b", "hb", 20)).unwrap();
    assert_eq!(ids(&db), vec!["b", "a"]);
    db.insert_row(row("ignored", "hb", 5)).unwrap();
    assert_eq!(ids(&db), vec!["a", "b"]);
    let all = db.get_all_events().unwrap();
    assert_eq!(all[1].timestamp, at(5));
    assert_eq!(all[1].event_data, text_event("hb").to_json());
}

#[test]
fn the_store_never_exceeds_its_capacity() {
    let mut db = Database::new();
    db.set_max_items(3).unwrap();
    for n in 0..20i64 {
        let secs = (n * 7) % 11;
        db.insert_event_at(&text_event(&format!("content {}", n % 9)), format!("id-{}", n), at(secs)).unwrap();
        assert!(db.len() <= 3);
        assert_eq!(db.get_max_items(), 3);
    }
    assert_eq!(db.len(), 3);
}

#[test]
fn the_oldest_row_is_evicted_first() {
    let mut db = Database::new();
    db.set_max_items(2).unwrap();
    db.insert_event_at(&text_event("E1"), "e1".to_string(), at(1)).unwrap();
    db.insert_event_at(&text_event("E2"), "e2".to_string(), at(2)).unwrap();
    db.insert_event_at(&text_event("E3"), "e3".to_string(), at(3)).unwrap();
    assert_eq!(ids(&db), vec!["e3", "e2"]);
    assert!(db.get_event_by_id("e1").unwrap().is_none());
    assert_eq!(db.get_event_by_id("e2").unwrap().unwrap().to_json(), text_event("E2").to_json());
    assert_eq!(db.get_event_by_id("e3").unwrap().unwrap().to_json(), text_event("E3").to_json());
}

#[test]
fn a_row_older_than_a_full_store_does_not_enter() {
    let mut db = Database::new();
    db.set_max_items(2).unwrap();
    db.insert_row(row("a", "ha", 10)).unwrap();
    db.insert_row(row("b", "hb", 20)).unwrap();
    assert_eq!(db.insert_row(row("c", "hc", 5)), Ok(()));
    assert_eq!(ids(&db), vec!["b", "a"]);
}

#[test]
fn a_capacity_of_zero_keeps_nothing() {
    let mut db = Database::new();
    db.insert_row(row("a", "ha", 10)).unwrap();
    db.set_max_items(0).unwrap();
    assert_eq!(db.len(), 0);
    assert_eq!(db.insert_row(row("b", "hb", 20)), Ok(()));
    assert_eq!(db.len(), 0);
}

#[test]
fn a_smaller_capacity_takes_effect_at_once() {
    let mut db = Database::new();
    for n in 1..=5i64 {
        db.insert_event_at(&text_event(&format!("E{}", n)), format!("e{}", n), at(n)).unwrap();
    }
    assert_eq!(db.len(), 5);
    assert_eq!(db.set_max_items(2), Ok(()));
    assert_eq!(db.get_max_items(), 2);
    assert_eq!(ids(&db), vec!["e5", "e4"]);
}

#[test]
fn a_larger_capacity_keeps_every_row() {
    let mut db = Database::new();
    db.set_max_items(2).unwrap();
    db.insert_row(row("a", "ha", 1)).unwrap();
    db.insert_row(row("b", "hb", 2)).unwrap();
    db.set_max_items(u32::MAX).unwrap();
    assert_eq!(ids(&db), vec!["b", "a"]);
    assert_eq!(db.get_max_items(), u32::MAX);
}

#[test]
fn rows_are_listed_most_recent_first() {
    let mut db = Database::new();
    db.insert_row(row("a", "ha", 30)).unwrap();
    db.insert_row(row("b", "hb", 10)).unwrap();
    db.insert_row(row("c", "hc", 20)).unwrap();
    db.insert_row(StoredEvent::new_at(&text_event("hd"), "d".to_string(), Timestamp::new(20, 1))).unwrap();
    assert_eq!(ids(&db), vec!["a", "d", "c", "b"]);
}

#[test]
fn among_rows_of_one_age_the_last_offered_comes_first() {
    let mut db = Database::new();
    db.insert_row(row("a", "ha", 10)).unwrap();
    db.insert_row(row("b", "hb", 10)).unwrap();
    db.insert_row(row("c", "hc", 10)).unwrap();
    assert_eq!(ids(&db), vec!["c", "b", "a"]);
    db.set_max_items(2).unwrap();
    assert_eq!(ids(&db), vec!["c", "b"]);
}

#[test]
fn an_identifier_in_use_is_refused_for_new_content() {
    let mut db = Database::new();
    db.insert_row(row("a", "ha", 10)).unwrap();
    assert_eq!(db.insert_row(row("a", "other", 20)), Err(StoreError::Constraint));
    assert_eq!(ids(&db), vec!["a"]);
    assert_eq!(db.get_all_events().unwrap()[0].timestamp, at(10));
    assert_eq!(db.get_all_events().unwrap()[0].content_hash, content_hash(&text_event("ha").to_json()));
}

#[test]
fn lookup_by_identifier() {
    let mut db = Database::new();
    let event = text_event("found");
    db.insert_event_at(&event, "here".to_string(), at(1)).unwrap();
    let found = db.get_event_by_id("here").unwrap().unwrap();
    assert_eq!(found.to_json(), event.to_json());
    assert_eq!(found.items[0].data_list[0].data, b"found".to_vec());
    assert!(db.get_event_by_id("absent").unwrap().is_none());
    assert!(db.get_event_by_id("").unwrap().is_none());
}

#[test]
fn a_payload_that_is_no_event_is_reported_as_corrupt() {
    let mut db = Database::new();
    db.insert_row(unreadable("bad", 1)).unwrap();
    match db.get_event_by_id("bad") {
        Err(err) => assert_eq!(err, StoreError::CorruptRecord),
        Ok(_) => panic!("a corrupt payload was read"),
    }
    assert_eq!(db.len(), 1);
}

#[test]
fn deleting_removes_the_row() {
    let mut db = Database::new();
    db.insert_row(row("a", "ha", 1)).unwrap();
    db.insert_row(row("b", "hb", 2)).unwrap();
    db.insert_row(row("c", "hc", 3)).unwrap();
    assert_eq!(db.delete_event("b"), Ok(()));
    assert_eq!(ids(&db), vec!["c", "a"]);
    assert_eq!(db.get_max_items(), 100);
}

#[test]
fn deleting_an_absent_identifier_changes_nothing() {
    let mut db = Database::new();
    db.insert_row(row("a", "ha", 1)).unwrap();
    db.insert_row(row("b", "hb", 2)).unwrap();
    assert_eq!(db.delete_event("zzz"), Ok(()));
    assert_eq!(ids(&db), vec!["b", "a"]);
    assert_eq!(db.delete_event("a"), Ok(()));
    assert_eq!(db.delete_event("a"), Ok(()));
    assert_eq!(ids(&db), vec!["b"]);
    let mut empty = Database::new();
    assert_eq!(empty.delete_event("a"), Ok(()));
    assert_eq!(empty.len(), 0);
}

#[test]
fn deleted_content_can_be_stored_again_under_a_new_identifier() {
    let mut db = Database::new();
    db.insert_row(row("a", "ha", 1)).unwrap();
    db.delete_event("a").unwrap();
    db.insert_row(row("a2", "ha", 2)).unwrap();
    assert_eq!(ids(&db), vec!["a2"]);
}

#[test]
fn clearing_removes_every_row_and_keeps_the_capacity() {
    let mut db = Database::new();
    db.set_max_items(7).unwrap();
    db.insert_row(row("a", "ha", 1)).unwrap();
    db.insert_row(row("b", "hb", 2)).unwrap();
    assert_eq!(db.clear_all_events(), Ok(()));
    assert_eq!(db.get_all_events().unwrap().len(), 0);
    assert_eq!(db.len(), 0);
    assert_eq!(db.get_max_items(), 7);
    assert_eq!(db.clear_all_events(), Ok(()));
    assert_eq!(db.len(), 0);
}

#[test]
fn cleanup_of_a_store_within_capacity_changes_nothing() {
    let mut db = Database::new();
    db.insert_row(row("a", "ha", 1)).unwrap();
    db.insert_row(row("b", "hb", 2)).unwrap();
    assert_eq!(db.cleanup_old_events(), Ok(()));
    assert_eq!(db.cleanup_old_events(), Ok(()));
    assert_eq!(ids(&db), vec!["b", "a"]);
}

#[test]
fn two_writers_with_distinct_content_both_succeed() {
    let db = std::sync::Mutex::new(Database::new());
    let (left, right) = (text_event("from the left"), text_event("from the right"));
    let before = db.lock().unwrap().len();
    assert_eq!(db.lock().unwrap().insert_event(&left), Ok(()));
    assert_eq!(db.lock().unwrap().insert_event(&right), Ok(()));
    let guard = db.lock().unwrap();
    assert_eq!(guard.len(), before + 2);
    let all = guard.get_all_events().unwrap();
    assert!(all.iter().any(|e| e.event_data == left.to_json()));
    assert!(all.iter().any(|e| e.event_data == right.to_json()));
    for stored in all.iter() {
        assert!(guard.get_event_by_id(&stored.id).unwrap().is_some());
    }
}

#[test]
fn restoring_orders_the_rows_and_keeps_them_all() {
    let rows = vec![row("a", "ha", 5), row("b", "hb", 9), row("c", "hc", 1), row("d", "hd", 9)];
    let mut db = Database::restore(Some("2"), rows).unwrap();
    assert_eq!(db.get_max_items(), 2);
    assert_eq!(ids(&db), vec!["d", "b", "a", "c"]);
    assert_eq!(db.cleanup_old_events(), Ok(()));
    assert_eq!(ids(&db), vec!["d", "b"]);
    assert_eq!(db.cleanup_old_events(), Ok(()));
    assert_eq!(ids(&db), vec!["d", "b"]);
}

#[test]
fn a_refresh_does_not_cut_down_a_restored_store() {
    let rows = vec![row("a", "ha", 1), row("b", "hb", 2), row("c", "hc", 3)];
    let mut db = Database::restore(Some("1"), rows).unwrap();
    db.insert_row(row("x", "ha", 4)).unwrap();
    assert_eq!(ids(&db), vec!["a", "c", "b"]);
    db.insert_row(row("n", "hn", 0)).unwrap();
    assert_eq!(ids(&db), vec!["a"]);
}

#[test]
fn restoring_without_a_setting_uses_the_default_capacity() {
    let db = Database::restore(None, vec![row("a", "ha", 5)]).unwrap();
    assert_eq!(db.get_max_items(), 100);
    assert_eq!(ids(&db), vec!["a"]);
    let empty = Database::restore(None, vec![]).unwrap();
    assert_eq!(empty.len(), 0);
}

#[test]
fn restoring_refuses_repeated_identifiers_and_fingerprints() {
    match Database::restore(None, vec![row("a", "h1", 1), row("b", "h2", 2), row("a", "h3", 3)]) {
        Err(err) => assert_eq!(err, StoreError::Constraint),
        Ok(_) => panic!("a repeated identifier was accepted"),
    }
    match Database::restore(None, vec![row("a", "h1", 1), row("b", "h1", 2)]) {
        Err(err) => assert_eq!(err, StoreError::Constraint),
        Ok(_) => panic!("a repeated fingerprint was accepted"),
    }
}

#[test]
fn restoring_refuses_a_setting_that_is_no_number() {
    match Database::restore(Some("many"), vec![]) {
        Err(err) => assert_eq!(err, StoreError::CorruptRecord),
        Ok(_) => panic!("a setting that is no number was accepted"),
    }
    match Database::restore(Some("x"), vec![row("a", "h", 1), row("a", "h", 1)]) {
        Err(err) => assert_eq!(err, StoreError::CorruptRecord),
        Ok(_) => panic!("a setting that is no number was accepted"),
    }
}

#[test]
fn recorded_capacities_are_read() {
    assert_eq!(parse_max_items("100"), Ok(100));
    assert_eq!(parse_max_items("0"), Ok(0));
    assert_eq!(parse_max_items("+5"), Ok(5));
    assert_eq!(parse_max_items("007"), Ok(7));
    assert_eq!(parse_max_items("4294967295"), Ok(u32::MAX));
    assert_eq!(parse_max_items("4294967296"), Err(StoreError::CorruptRecord));
    assert_eq!(parse_max_items("99999999999999999999999"), Err(StoreError::CorruptRecord));
    assert_eq!(parse_max_items(""), Err(StoreError::CorruptRecord));
    assert_eq!(parse_max_items("+"), Err(StoreError::CorruptRecord));
    assert_eq!(parse_max_items("-1"), Err(StoreError::CorruptRecord));
    assert_eq!(parse_max_items("++1"), Err(StoreError::CorruptRecord));
    assert_eq!(parse_max_items("1+"), Err(StoreError::CorruptRecord));
    assert_eq!(parse_max_items(" 1"), Err(StoreError::CorruptRecord));
    assert_eq!(parse_max_items("1 "), Err(StoreError::CorruptRecord));
    assert_eq!(parse_max_items("1_000"), Err(StoreError::CorruptRecord));
    assert_eq!(parse_max_items("١٢"), Err(StoreError::CorruptRecord));
    assert_eq!(max_items_from(None), Ok(100));
    assert_eq!(max_items_from(Some("12")), Ok(12));
    assert_eq!(max_items_from(Some("twelve")), Err(StoreError::CorruptRecord));
}

#[test]
fn recorded_capacities_agree_with_the_standard_parser() {
    for text in ["100", "0", "+5", "007", "4294967295", "4294967296", "", "+", "-1", "++1", "1+", " 1", "1_000", "+0", "-0"] {
        assert_eq!(parse_max_items(text).ok(), text.parse::<u32>().ok(), "{:?}", text);
    }
}

#[test]
fn capacities_are_written_in_decimal() {
    assert_eq!(render_max_items(0), "0");
    assert_eq!(render_max_items(7), "7");
    assert_eq!(render_max_items(100), "100");
    assert_eq!(render_max_items(1234567890), "1234567890");
    assert_eq!(render_max_items(u32::MAX), "4294967295");
    for n in [0u32, 1, 9, 10, 11, 99, 100, 101, 65535, 65536, u32::MAX - 1, u32::MAX] {
        assert_eq!(render_max_items(n), n.to_string());
        assert_eq!(parse_max_items(&render_max_items(n)), Ok(n));
    }
}

#[test]
fn hexadecimal_is_lower_case_with_two_digits_for_each_byte() {
    assert_eq!(copy_stack::fingerprint::to_hex(&vec![]), "");
    assert_eq!(copy_stack::fingerprint::to_hex(&vec![0x00, 0x0f, 0xa0, 0xff, 0x5b]), "000fa0ff5b");
}

#[test]
fn fingerprints_of_known_texts() {
    assert_eq!(
        copy_stack::fingerprint::content_hash(""),
        "e3b0c44298fc1c149afbf4c8996fb92427ae41e4649b934ca495991b7852b855"
    );
    assert_eq!(
        copy_stack::fingerprint::content_hash("abc"),
        "ba7816bf8f01cfea414140de5dae2223b00361a396177a9cb410ff61f20015ad"
    );
    assert_eq!(
        copy_stack::fingerprint::content_hash("é"),
        "4a99557e4033c3539de2eb65472017cad5f9557f7a0625a09f1c3f6e2ba69c4c"
    );
}

#[test]
fn fingerprints_are_what_sha2_formats_in_hexadecimal() {
    for text in ["", "abc", "é", "{\"items\":[]}", "日本語 🙂"] {
        let mut hasher = sha2::Sha256::new();
        hasher.update(text.as_bytes());
        assert_eq!(copy_stack::fingerprint::content_hash(text), format!("{:x}", hasher.finalize()));
    }
}

#[test]
fn the_store_fingerprints_the_text_of_an_event() {
    let db = Database::new();
    assert_eq!(
        db.generate_content_hash(&Event::new()),
        "eef46741adfc3a9f76294d3b78f37a45f113092ac9d44ee77c7a038a88ff09a1"
    );
    let event = text_event("Hello");
    assert_eq!(db.generate_content_hash(&event), copy_stack::fingerprint::content_hash(&event.to_json()));
    assert_eq!(db.generate_content_hash(&event), StoredEvent::new_at(&event, "i".to_string(), at(0)).content_hash);
}

#[test]
fn listing_reports_a_payload_that_is_no_event() {
    let mut db = Database::new();
    db.insert_row(row("a", "ha", 1)).unwrap();
    db.insert_row(unreadable("bad", 2)).unwrap();
    db.insert_row(row("c", "hc", 3)).unwrap();
    assert_eq!(db.len(), 3);
    match db.get_all_events() {
        Err(err) => assert_eq!(err, StoreError::CorruptRecord),
        Ok(_) => panic!("a corrupt row was listed or passed over"),
    }
    assert_eq!(db.len(), 3);
    db.delete_event("bad").unwrap();
    assert_eq!(ids(&db), vec!["c", "a"]);
}

#[test]
fn listing_holds_no_identifier_and_no_payload_twice() {
    let mut db = Database::new();
    db.set_max_items(4).unwrap();
    for n in 0..12i64 {
        db.insert_event_at(&text_event(&format!("content {}", n % 5)), format!("id-{}", n), at(n)).unwrap();
        let all = db.get_all_events().unwrap();
        assert!(all.len() <= 4);
        for i in 0..all.len() {
            for j in (i + 1)..all.len() {
                assert_ne!(all[i].id, all[j].id);
                assert_ne!(all[i].event_data, all[j].event_data);
                assert_ne!(all[i].content_hash, all[j].content_hash);
            }
            assert_eq!(all[i].content_hash, content_hash(&all[i].event_data));
            assert_eq!(all[i].content_hash.len(), 64);
        }
    }
}

#[test]
fn a_row_with_a_foreign_fingerprint_is_refused() {
    let mut db = Database::new();
    db.insert_row(row("a", "ha", 1)).unwrap();
    let payload = text_event("hb").to_json();
    let forged = StoredEvent::from_parts("b".to_string(), payload.clone(), at(2), "hb".to_string());
    assert_eq!(db.insert_row(forged), Err(StoreError::CorruptRecord));
    let borrowed =
        StoredEvent::from_parts("c".to_string(), payload, at(3), content_hash(&text_event("ha").to_json()));
    assert_eq!(db.insert_row(borrowed), Err(StoreError::CorruptRecord));
    assert_eq!(ids(&db), vec!["a"]);
    assert_eq!(db.get_all_events().unwrap()[0].timestamp, at(1));
}

#[test]
fn restoring_refuses_a_row_with_a_foreign_fingerprint() {
    let forged =
        StoredEvent::from_parts("b".to_string(), text_event("hb").to_json(), at(2), "0".repeat(64));
    match Database::restore(None, vec![row("a", "ha", 1), forged.clone()]) {
        Err(err) => assert_eq!(err, StoreError::CorruptRecord),
        Ok(_) => panic!("a foreign fingerprint was accepted"),
    }
    match Database::restore(None, vec![row("a", "ha", 1), row("a", "hc", 3), forged]) {
        Err(err) => assert_eq!(err, StoreError::CorruptRecord),
        Ok(_) => panic!("a foreign fingerprint was accepted"),
    }
}

#[test]
fn restored_rows_may_hold_payloads_that_are_no_events() {
    let db = Database::restore(None, vec![row("a", "ha", 1), unreadable("bad", 2)]).unwrap();
    assert_eq!(db.len(), 2);
    assert_eq!(db.get_all_events().err(), Some(StoreError::CorruptRecord));
    assert_eq!(db.get_event_by_id("bad").err(), Some(StoreError::CorruptRecord));
    assert!(db.get_event_by_id("a").unwrap().is_some());
}

#[test]
fn fingerprints_have_sixty_four_digits() {
    for text in ["", "abc", "{\"items\":[]}"] {
        let hash = content_hash(text);
        assert_eq!(hash.len(), 64);
        assert!(hash.chars().all(|c| c.is_ascii_digit() || ('a'..='f').contains(&c)));
    }
    assert_eq!(Database::new().generate_content_hash(&text_event("x")).len(), 64);
}

#[test]
fn timestamps_are_written_as_rfc_3339() {
    assert_eq!(timestamp_text(Timestamp::new(0, 0)), Some("1970-01-01T00:00:00+00:00".to_string()));
    assert_eq!(
        timestamp_text(Timestamp::new(1_700_000_000, 500_000_000)),
        Some("2023-11-14T22:13:20.500+00:00".to_string())
    );
    assert_eq!(
        timestamp_text(Timestamp::new(1_700_000_000, 123_456_789)),
        Some("2023-11-14T22:13:20.123456789+00:00".to_string())
    );
    assert_eq!(timestamp_text(Timestamp::new(-1, 0)), Some("1969-12-31T23:59:59+00:00".to_string()));
    assert_eq!(timestamp_text(Timestamp::new(i64::MAX, 0)), None);
    assert_eq!(timestamp_text(Timestamp::new(i64::MIN, 0)), None);
    assert_eq!(timestamp_text(Timestamp::new(0, 2_000_000_000)), None);
    assert_eq!(timestamp_text(Timestamp::new(0, u32::MAX)), None);
}

#[test]
fn timestamps_are_read_from_rfc_3339() {
    assert_eq!(timestamp_of_text("1970-01-01T00:00:00+00:00"), Some(Timestamp::new(0, 0)));
    assert_eq!(timestamp_of_text("1970-01-01T00:00:01Z"), Some(Timestamp::new(1, 0)));
    assert_eq!(
        timestamp_of_text("2023-11-14T22:13:20.500+00:00"),
        Some(Timestamp::new(1_700_000_000, 500_000_000))
    );
    assert_eq!(timestamp_of_text("2023-11-15T00:13:20+02:00"), Some(Timestamp::new(1_700_000_000, 0)));
    assert_eq!(timestamp_of_text(""), None);
    assert_eq!(timestamp_of_text("yesterday"), None);
    assert_eq!(timestamp_of_text("2023-11-14"), None);
    assert_eq!(timestamp_of_text("2023-13-14T22:13:20Z"), None);
    assert_eq!(timestamp_of_text("1700000000"), None);
}

#[test]
fn a_written_timestamp_is_read_back() {
    for t in [
        Timestamp::new(0, 0),
        Timestamp::new(1, 1),
        Timestamp::new(1_700_000_000, 999_999_999),
        Timestamp::new(-86_400, 250_000),
        Timestamp::new(253_402_300_799, 0),
    ] {
        let text = timestamp_text(t).unwrap();
        assert_eq!(timestamp_of_text(&text), Some(t), "{}", text);
    }
}
