use std::sync::Arc;

use itertools::Either;
use sfrs::api::{classify, items_sync, run_sync, server_time, SyncConflict, SyncParams, SyncResp};
use sfrs::item::{ItemStore, SyncItem};
use sfrs::lock::UserLock;
use sfrs::sync_tokens::{get_token_key, max_id_to_token, token_to_max_id};

fn key() -> [u8; 32] {
    get_token_key(b"session-secret", b"session-salt")
}

fn note(uuid: &str, content: &str) -> SyncItem {
    SyncItem {
        uuid: uuid.to_string(),
        content: Some(content.to_string()),
        content_type: "Note".to_string(),
        enc_item_key: Some("k".to_string()),
        deleted: false,
        created_at: "2020-01-01T00:00:00.000Z".to_string(),
        updated_at: Some("1999-01-01T00:00:00.000Z".to_string()),
    }
}

fn params(items: Vec<SyncItem>, sync_token: Option<String>, cursor_token: Option<String>, limit: Option<i64>) -> SyncParams {
    SyncParams { items, sync_token, cursor_token, limit }
}

fn seq_of(k: &[u8; 32], t: &Option<String>) -> Option<i64> {
    t.as_ref().map(|t| token_to_max_id(k, t).unwrap())
}

fn uuids(v: &[SyncItem]) -> Vec<String> {
    v.iter().map(|i| i.uuid.clone()).collect()
}

fn sync(db: &mut ItemStore, lock: &UserLock, k: &[u8; 32], account: i32, p: SyncParams) -> SyncResp {
    match items_sync(db, lock, k, account, p) {
        Ok(r) => r,
        Err(_) => panic!("sync failed"),
    }
}

#[test]
fn end_to_end_two_devices() {
    let k = key();
    let lock = UserLock::new();
    let mut db = ItemStore::new();

    let first = sync(&mut db, &lock, &k, 1, params(vec![note("x", "c1")], None, None, None));
    assert_eq!(uuids(&first.saved_items), vec!["x"]);
    assert!(first.retrieved_items.is_empty());
    assert!(first.conflicts.is_empty());
    assert_eq!(seq_of(&k, &first.sync_token), Some(1));
    assert_eq!(first.cursor_token, None);
    // the server's time replaces the client's
    assert_ne!(first.saved_items[0].updated_at.as_deref(), Some("1999-01-01T00:00:00.000Z"));

    let second = sync(&mut db, &lock, &k, 1, params(vec![note("x", "c2")], first.sync_token.clone(), None, None));
    assert_eq!(uuids(&second.saved_items), vec!["x"]);
    assert_eq!(second.saved_items[0].content.as_deref(), Some("c2"));
    assert_eq!(seq_of(&k, &second.sync_token), Some(2));
    assert!(second.retrieved_items.is_empty());
    assert!(second.conflicts.is_empty());

    // a second device still holds the first token
    let third = sync(&mut db, &lock, &k, 1, params(vec![note("x", "c3")], first.sync_token.clone(), None, None));
    assert!(third.saved_items.is_empty());
    assert_eq!(third.conflicts.len(), 1);
    let server = third.conflicts[0].server_item.as_ref().unwrap();
    assert_eq!(server.uuid, "x");
    assert_eq!(server.content.as_deref(), Some("c2"));
    assert_eq!(third.conflicts[0].conf_type, "sync_conflict");
    assert!(third.conflicts[0].unsaved_item.is_none());
    assert!(third.retrieved_items.is_empty());
    assert_eq!(seq_of(&k, &third.sync_token), Some(2));
    assert_eq!(SyncItem::find_item_by_uuid(&db, 1, "x").unwrap().content.as_deref(), Some("c2"));
}

#[test]
fn conflicting_uuid_is_neither_saved_nor_retrieved() {
    let k = key();
    let lock = UserLock::new();
    let mut db = ItemStore::new();
    sync(&mut db, &lock, &k, 1, params(vec![note("a", "1"), note("b", "1"), note("c", "1")], None, None, None));
    let resp = sync(&mut db, &lock, &k, 1, params(vec![note("b", "2"), note("d", "2")], None, None, None));
    assert_eq!(uuids(&resp.retrieved_items), vec!["a", "c"]);
    assert_eq!(uuids(&resp.saved_items), vec!["d"]);
    assert_eq!(resp.conflicts.len(), 1);
    assert_eq!(resp.conflicts[0].uuid(), "b");
    assert_eq!(seq_of(&k, &resp.sync_token), Some(4));
}

#[test]
fn paging_with_cursor_tokens_sees_each_item_once() {
    let k = key();
    let lock = UserLock::new();
    let mut db = ItemStore::new();
    let items: Vec<SyncItem> = (0..5).map(|i| note(&format!("n{}", i), "c")).collect();
    sync(&mut db, &lock, &k, 1, params(items, None, None, None));

    let page1 = sync(&mut db, &lock, &k, 1, params(vec![], None, None, Some(2)));
    assert_eq!(uuids(&page1.retrieved_items), vec!["n0", "n1"]);
    assert_eq!(seq_of(&k, &page1.cursor_token), Some(2));
    assert_eq!(seq_of(&k, &page1.sync_token), Some(5));

    // another device writes while this one pages
    sync(&mut db, &lock, &k, 1, params(vec![note("late", "c")], None, None, None));

    let page2 = sync(&mut db, &lock, &k, 1, params(vec![], page1.sync_token.clone(), page1.cursor_token.clone(), Some(2)));
    assert_eq!(uuids(&page2.retrieved_items), vec!["n2", "n3"]);
    assert_eq!(seq_of(&k, &page2.cursor_token), Some(4));
    assert_eq!(seq_of(&k, &page2.sync_token), Some(5));

    let page3 = sync(&mut db, &lock, &k, 1, params(vec![], page2.sync_token.clone(), page2.cursor_token.clone(), Some(2)));
    assert_eq!(uuids(&page3.retrieved_items), vec!["n4"]);
    assert_eq!(page3.cursor_token, None);
    assert_eq!(seq_of(&k, &page3.sync_token), Some(5));

    let next = sync(&mut db, &lock, &k, 1, params(vec![], page3.sync_token.clone(), None, None));
    assert_eq!(uuids(&next.retrieved_items), vec!["late"]);
    assert_eq!(seq_of(&k, &next.sync_token), Some(6));
}

#[test]
fn exhausted_cursor_becomes_the_sync_token() {
    let k = key();
    let lock = UserLock::new();
    let mut db = ItemStore::new();
    sync(&mut db, &lock, &k, 1, params(vec![note("a", "1"), note("b", "1")], None, None, None));
    let cursor = max_id_to_token(&k, 2);
    let sync_token = max_id_to_token(&k, 2);
    let resp = sync(&mut db, &lock, &k, 1, params(vec![], sync_token, cursor, Some(2)));
    assert!(resp.retrieved_items.is_empty());
    assert_eq!(resp.cursor_token, None);
    assert_eq!(seq_of(&k, &resp.sync_token), Some(2));
}

#[test]
fn unreadable_tokens_count_as_absent() {
    let k = key();
    let lock = UserLock::new();
    let mut db = ItemStore::new();
    sync(&mut db, &lock, &k, 1, params(vec![note("a", "1")], None, None, None));
    let resp = sync(&mut db, &lock, &k, 1, params(vec![], Some("1".to_string()), Some("not hex".to_string()), None));
    assert_eq!(uuids(&resp.retrieved_items), vec!["a"]);
    assert_eq!(seq_of(&k, &resp.sync_token), Some(1));
}

#[test]
fn empty_account_without_writes_has_no_sync_token() {
    let k = key();
    let lock = UserLock::new();
    let mut db = ItemStore::new();
    let resp = sync(&mut db, &lock, &k, 9, params(vec![], None, None, None));
    assert!(resp.retrieved_items.is_empty());
    assert_eq!(resp.sync_token, None);
    assert_eq!(resp.cursor_token, None);
}

#[test]
fn accounts_do_not_see_each_other() {
    let k = key();
    let lock = UserLock::new();
    let mut db = ItemStore::new();
    sync(&mut db, &lock, &k, 1, params(vec![note("a", "1")], None, None, None));
    let other = sync(&mut db, &lock, &k, 2, params(vec![note("a", "2")], None, None, None));
    assert!(other.retrieved_items.is_empty());
    assert!(other.conflicts.is_empty());
    assert_eq!(seq_of(&k, &other.sync_token), Some(2));
}

#[test]
fn conflict_uuid_falls_back_to_unsaved_item() {
    let c = SyncConflict {
        conf_type: "sync_conflict".to_string(),
        server_item: None,
        unsaved_item: Some(note("u", "c")),
    };
    assert_eq!(c.uuid(), "u");
    let both = SyncConflict {
        conf_type: "sync_conflict".to_string(),
        server_item: Some(note("s", "c")),
        unsaved_item: Some(note("u", "c")),
    };
    assert_eq!(both.uuid(), "s");
}

#[test]
fn one_lock_per_account() {
    let lock = UserLock::new();
    let a1 = lock.get_mutex(1);
    let a2 = lock.get_mutex(1);
    let b = lock.get_mutex(2);
    assert!(Arc::ptr_eq(&a1, &a2));
    assert!(!Arc::ptr_eq(&a1, &b));
}

#[test]
fn sessions_of_one_account_exclude_each_other() {
    let lock = UserLock::new();
    let held = lock.get_mutex(1);
    let _guard = held.lock().unwrap();
    // while account 1 is in a session, its lock cannot be taken again...
    assert!(lock.get_mutex(1).try_lock().is_err());
    // ...while account 2's can
    assert!(lock.get_mutex(2).try_lock().is_ok());
}

#[test]
fn session_stamps_writes_with_the_given_time() {
    let k = key();
    let mut db = ItemStore::new();
    let now = "2024-05-01T12:00:00.000Z".to_string();
    let out = match run_sync(&mut db, &k, 4, params(vec![note("a", "1"), note("b", "1")], None, None, None), &now) {
        Ok(o) => o,
        Err(_) => panic!("session failed"),
    };
    assert_eq!(out.saved_items.len(), 2);
    for s in &out.saved_items {
        assert_eq!(s.updated_at.as_deref(), Some("2024-05-01T12:00:00.000Z"));
        assert_eq!(s.created_at, "2020-01-01T00:00:00.000Z");
    }
    assert_eq!(out.sync_id, Some(2));
    assert_eq!(out.cursor_id, None);
    let row = SyncItem::find_item_by_uuid(&db, 4, "b").unwrap();
    assert_eq!(row.updated_at.as_deref(), Some("2024-05-01T12:00:00.000Z"));
}

#[test]
fn session_with_limit_leaves_a_cursor() {
    let k = key();
    let mut db = ItemStore::new();
    let now = "2024-05-01T12:00:00.000Z".to_string();
    let items: Vec<SyncItem> = (0..4).map(|i| note(&format!("n{}", i), "c")).collect();
    assert!(run_sync(&mut db, &k, 1, params(items, None, None, None), &now).is_ok());
    let out = match run_sync(&mut db, &k, 1, params(vec![note("n1", "x")], None, None, Some(3)), &now) {
        Ok(o) => o,
        Err(_) => panic!("session failed"),
    };
    assert_eq!(uuids(&out.retrieved_items), vec!["n0", "n2"]);
    assert_eq!(out.conflicts.len(), 1);
    assert!(out.saved_items.is_empty());
    assert_eq!(out.cursor_id, Some(3));
    assert_eq!(out.sync_id, Some(4));
}

#[test]
fn classify_pairs_a_candidate_with_its_server_copy() {
    let retrieved = vec![note("a", "server-a"), note("b", "server-b")];
    match classify(note("b", "mine"), &retrieved) {
        Either::Left((mine, server)) => {
            assert_eq!(mine.content.as_deref(), Some("mine"));
            assert_eq!(server.content.as_deref(), Some("server-b"));
        },
        Either::Right(_) => panic!("expected a conflict"),
    }
    match classify(note("c", "mine"), &retrieved) {
        Either::Right(c) => assert_eq!(c.uuid, "c"),
        Either::Left(_) => panic!("expected no conflict"),
    }
}

#[test]
fn server_time_is_rfc3339_with_millis_in_utc() {
    let t = server_time().unwrap();
    let b = t.as_bytes();
    assert_eq!(b.len(), 24, "{}", t);
    assert_eq!(b[4], b'-');
    assert_eq!(b[10], b'T');
    assert_eq!(b[19], b'.');
    assert_eq!(b[23], b'Z');
    assert!(t.as_str() > "2020-01-01T00:00:00.000Z");
}

#[test]
fn saved_items_carry_the_stored_time() {
    let k = key();
    let lock = UserLock::new();
    let mut db = ItemStore::new();
    let resp = sync(&mut db, &lock, &k, 1, params(vec![note("a", "1")], None, None, None));
    let stored = SyncItem::find_item_by_uuid(&db, 1, "a").unwrap();
    assert_eq!(resp.saved_items[0].updated_at, stored.updated_at);
    assert_ne!(stored.updated_at.as_deref(), Some("1999-01-01T00:00:00.000Z"));
}
