use sfrs::item::{Item, ItemStore, SyncItem};

fn note(uuid: &str, content: &str) -> SyncItem {
    SyncItem {
        uuid: uuid.to_string(),
        content: Some(content.to_string()),
        content_type: "Note".to_string(),
        enc_item_key: Some("key".to_string()),
        deleted: false,
        created_at: "2020-01-01T00:00:00.000Z".to_string(),
        updated_at: None,
    }
}

fn now() -> String {
    "2024-01-01T00:00:00.000Z".to_string()
}

fn ids(v: &[Item]) -> Vec<i64> {
    v.iter().map(|i| i.id).collect()
}

#[test]
fn upserts_of_one_uuid_get_increasing_ids() {
    let mut db = ItemStore::new();
    assert_eq!(SyncItem::items_insert(&mut db, 1, &note("x", "a"), &now()).unwrap(), 1);
    assert_eq!(SyncItem::items_insert(&mut db, 1, &note("x", "b"), &now()).unwrap(), 2);
    assert_eq!(SyncItem::items_insert(&mut db, 2, &note("y", "c"), &now()).unwrap(), 3);
    assert_eq!(SyncItem::items_insert(&mut db, 1, &note("x", "d"), &now()).unwrap(), 4);
    let all = SyncItem::items_of_user(&db, 1, None, None, None).unwrap();
    assert_eq!(ids(&all), vec![4]);
    assert_eq!(all[0].content.as_deref(), Some("d"));
    assert_eq!(all[0].owner, 1);
}

#[test]
fn read_since_excludes_older_ids() {
    let mut db = ItemStore::new();
    for u in ["a", "b", "c", "d"] {
        SyncItem::items_insert(&mut db, 7, &note(u, u), &now()).unwrap();
    }
    let after_two = SyncItem::items_of_user(&db, 7, Some(2), None, None).unwrap();
    assert_eq!(ids(&after_two), vec![3, 4]);
    let window = SyncItem::items_of_user(&db, 7, Some(1), Some(3), None).unwrap();
    assert_eq!(ids(&window), vec![2, 3]);
}

#[test]
fn same_uuid_in_two_accounts_are_two_items() {
    let mut db = ItemStore::new();
    SyncItem::items_insert(&mut db, 1, &note("x", "one"), &now()).unwrap();
    SyncItem::items_insert(&mut db, 2, &note("x", "two"), &now()).unwrap();
    assert_eq!(SyncItem::find_item_by_uuid(&db, 1, "x").unwrap().content.as_deref(), Some("one"));
    assert_eq!(SyncItem::find_item_by_uuid(&db, 2, "x").unwrap().content.as_deref(), Some("two"));
    assert!(SyncItem::find_item_by_uuid(&db, 3, "x").is_err());
    assert!(SyncItem::find_item_by_uuid(&db, 1, "y").is_err());
}

#[test]
fn deleted_item_keeps_a_row_without_payload() {
    let mut db = ItemStore::new();
    SyncItem::items_insert(&mut db, 1, &note("x", "secret"), &now()).unwrap();
    let mut gone = note("x", "secret");
    gone.deleted = true;
    assert_eq!(SyncItem::items_insert(&mut db, 1, &gone, &now()).unwrap(), 2);
    let row = SyncItem::find_item_by_uuid(&db, 1, "x").unwrap();
    assert!(row.deleted);
    assert_eq!(row.content, None);
    assert_eq!(row.enc_item_key, None);
    assert_eq!(row.id, 2);
    assert_eq!(row.created_at, "2020-01-01T00:00:00.000Z");
}

#[test]
fn limits() {
    let mut db = ItemStore::new();
    for u in ["a", "b", "c"] {
        SyncItem::items_insert(&mut db, 1, &note(u, u), &now()).unwrap();
    }
    assert_eq!(ids(&SyncItem::items_of_user(&db, 1, None, None, Some(2)).unwrap()), vec![1, 2]);
    assert_eq!(ids(&SyncItem::items_of_user(&db, 1, None, None, Some(0)).unwrap()), Vec::<i64>::new());
    assert_eq!(ids(&SyncItem::items_of_user(&db, 1, None, None, Some(5)).unwrap()), vec![1, 2, 3]);
    assert_eq!(ids(&SyncItem::items_of_user(&db, 1, None, None, Some(-1)).unwrap()), vec![1, 2, 3]);
}

#[test]
fn pages_concatenate_to_the_full_window() {
    let mut db = ItemStore::new();
    for i in 0..23 {
        let account = if i % 3 == 0 { 2 } else { 1 };
        SyncItem::items_insert(&mut db, account, &note(&format!("u{}", i % 11), "c"), &now()).unwrap();
    }
    let full = ids(&SyncItem::items_of_user(&db, 1, None, None, None).unwrap());
    for limit in 1..8i64 {
        let mut paged = Vec::new();
        let mut since = None;
        loop {
            let page = SyncItem::items_of_user(&db, 1, since, None, Some(limit)).unwrap();
            paged.extend(ids(&page));
            if page.len() as i64 != limit {
                break;
            }
            since = Some(page.last().unwrap().id);
        }
        assert_eq!(paged, full, "limit {}", limit);
    }
}

#[test]
fn current_max_id() {
    let mut db = ItemStore::new();
    assert_eq!(SyncItem::get_current_max_id(&db, 1).unwrap(), None);
    SyncItem::items_insert(&mut db, 1, &note("a", "a"), &now()).unwrap();
    SyncItem::items_insert(&mut db, 2, &note("b", "b"), &now()).unwrap();
    assert_eq!(SyncItem::get_current_max_id(&db, 1).unwrap(), Some(1));
    assert_eq!(SyncItem::get_current_max_id(&db, 2).unwrap(), Some(2));
    SyncItem::items_insert(&mut db, 1, &note("a", "again"), &now()).unwrap();
    assert_eq!(SyncItem::get_current_max_id(&db, 1).unwrap(), Some(3));
}

#[test]
fn conversion_to_client_form() {
    let mut db = ItemStore::new();
    let mut n = note("x", "body");
    n.updated_at = Some("2021-01-01T00:00:00.000Z".to_string());
    SyncItem::items_insert(&mut db, 1, &n, &now()).unwrap();
    let row = SyncItem::find_item_by_uuid(&db, 1, "x").unwrap();
    let back = row.to_sync_item();
    assert_eq!(back.uuid, "x");
    assert_eq!(back.content.as_deref(), Some("body"));
    assert_eq!(back.updated_at.as_deref(), Some("2024-01-01T00:00:00.000Z"));
}

#[test]
fn upsert_stamps_the_server_time() {
    let mut db = ItemStore::new();
    let mut n = note("x", "body");
    n.updated_at = Some("1999-12-31T23:59:59.000Z".to_string());
    let t = "2030-06-01T08:00:00.123Z".to_string();
    SyncItem::items_insert(&mut db, 1, &n, &t).unwrap();
    let row = SyncItem::find_item_by_uuid(&db, 1, "x").unwrap();
    assert_eq!(row.updated_at.as_deref(), Some("2030-06-01T08:00:00.123Z"));
    n.updated_at = None;
    SyncItem::items_insert(&mut db, 1, &n, &now()).unwrap();
    let row = SyncItem::find_item_by_uuid(&db, 1, "x").unwrap();
    assert_eq!(row.updated_at.as_deref(), Some("2024-01-01T00:00:00.000Z"));
}

#[test]
fn missing_item_is_a_database_error() {
    let db = ItemStore::new();
    match SyncItem::find_item_by_uuid(&db, 1, "nope") {
        Err(e) => assert_eq!(e.0, "Database error"),
        Ok(_) => panic!("expected an error"),
    }
}
