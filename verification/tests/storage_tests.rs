use clitter::persistent::{ImportedGroup, ImportedItem, PersistentStorage, StorageError};
use clitter::types::{Category, ClipboardContent, ClipboardData, Position, WhiteboardItem};
use clitter::volatile::{VolatileStorage, MAX_HISTORY_SIZE};

fn test_content(text: &str, id: u128) -> ClipboardContent {
    ClipboardContent::new_text(text.as_bytes().to_vec(), Category::Text, id, 1000)
}

#[test]
fn test_add_and_get() {
    let mut storage = VolatileStorage::new();

    let content = test_content("test", 1);
    storage.add(content);

    let all = storage.get_all();
    assert_eq!(all.len(), 1);
}

#[test]
fn test_duplicate_prevention() {
    let mut storage = VolatileStorage::new();

    let content1 = test_content("same text", 1);
    let content2 = test_content("same text", 2);

    storage.add(content1);
    storage.add(content2);

    let all = storage.get_all();
    assert_eq!(all.len(), 1);
}

#[test]
fn test_max_capacity() {
    let mut storage = VolatileStorage::new();

    for i in 0..150u128 {
        let content = test_content(&format!("text {}", i), i);
        storage.add(content);
    }

    let all = storage.get_all();
    assert_eq!(all.len(), MAX_HISTORY_SIZE);
    // newest first; the oldest fifty were evicted first
    match &all[0].data {
        ClipboardData::Text { text, .. } => assert_eq!(text, b"text 149"),
        _ => panic!("expected text"),
    }
    match &all[99].data {
        ClipboardData::Text { text, .. } => assert_eq!(text, b"text 50"),
        _ => panic!("expected text"),
    }
}

#[test]
fn test_volatile_queries() {
    let mut storage = VolatileStorage::new();
    storage.add(test_content("alpha", 1));
    storage.add(ClipboardContent::new_text(
        b"9,99".to_vec(),
        Category::Numeric,
        2,
        1001,
    ));
    storage.add(test_content("beta", 3));

    let numeric = storage.get_by_category(Category::Numeric);
    assert_eq!(numeric.len(), 1);
    assert_eq!(numeric[0].id, 2);

    let recent = storage.get_recent(2);
    assert_eq!(recent.len(), 2);
    assert_eq!(recent[0].id, 3);
    assert_eq!(recent[1].id, 2);

    let by_index = storage.get_by_index(2).unwrap();
    assert_eq!(by_index.id, 1);
    assert!(storage.get_by_index(3).is_none());

    storage.clear();
    assert_eq!(storage.get_all().len(), 0);
}

#[test]
fn test_save_item_then_load_round_trip() {
    let mut store = PersistentStorage::new();
    let content = test_content("note", 10);
    let mut item = WhiteboardItem::new(content, Position { x: 5, y: -7 }, 11, 2000);
    item.shortcut = Some(b"9".to_vec());
    item.label = Some(b"tagged".to_vec());

    store.save_whiteboard_item(&item);
    let state = store.load_whiteboard();

    assert_eq!(state.items.len(), 1);
    assert_eq!(state.items[0], item);
    assert_eq!(state.root_items, vec![11u128]);
}

#[test]
fn test_delete_item_removes_item_and_content() {
    let mut store = PersistentStorage::new();
    let a = WhiteboardItem::new(test_content("a", 10), Position { x: 0, y: 0 }, 11, 2000);
    let b = WhiteboardItem::new(test_content("b", 20), Position { x: 1, y: 1 }, 21, 2001);
    store.save_whiteboard_item(&a);
    store.save_whiteboard_item(&b);

    store.delete_whiteboard_item(11);
    let state = store.load_whiteboard();

    assert_eq!(state.items.len(), 1);
    assert_eq!(state.items[0].id, 21);
    // neither the item nor its content remains
    assert!(state.items.iter().all(|it| it.id != 11 && it.content.id != 10));
}

#[test]
fn test_save_is_insert_or_replace() {
    let mut store = PersistentStorage::new();
    let first = WhiteboardItem::new(test_content("one", 10), Position { x: 0, y: 0 }, 11, 2000);
    store.save_whiteboard_item(&first);
    let mut second = first.clone();
    second.position = Position { x: 42, y: 43 };
    store.save_whiteboard_item(&second);

    let state = store.load_whiteboard();
    assert_eq!(state.items.len(), 1);
    assert_eq!(state.items[0].position, Position { x: 42, y: 43 });
}

#[test]
fn test_next_shortcut_is_max_plus_one_not_lowest_gap() {
    let mut store = PersistentStorage::new();
    for (cid, iid, shortcut) in [(10u128, 11u128, b"1".to_vec()), (20, 21, b"2".to_vec()), (
        30,
        31,
        b"5".to_vec(),
    )] {
        let mut item =
            WhiteboardItem::new(test_content("x", cid), Position { x: 0, y: 0 }, iid, 2000);
        item.shortcut = Some(shortcut);
        store.save_whiteboard_item(&item);
    }
    assert_eq!(store.get_next_shortcut_number(), 6);
}

#[test]
fn test_next_shortcut_on_empty_store_is_one() {
    let store = PersistentStorage::new();
    assert_eq!(store.get_next_shortcut_number(), 1);
    assert_eq!(store.get_next_group_shortcut_number(), 1);
}

#[test]
fn test_add_to_whiteboard_allocates_sequentially() {
    let mut store = PersistentStorage::new();
    let one = store.add_to_whiteboard(test_content("p", 10), Position { x: 0, y: 0 }, 11, 2000);
    assert_eq!(one.shortcut, Some(b"1".to_vec()));
    let two = store.add_to_whiteboard(test_content("q", 20), Position { x: 0, y: 0 }, 21, 2001);
    assert_eq!(two.shortcut, Some(b"2".to_vec()));

    store.update_item_shortcut(21, Some(b"7".to_vec()), 2002);
    let three = store.add_to_whiteboard(test_content("r", 30), Position { x: 0, y: 0 }, 31, 2003);
    assert_eq!(three.shortcut, Some(b"8".to_vec()));
}

#[test]
fn test_group_shortcut_namespace_is_separate() {
    let mut store = PersistentStorage::new();
    let mut g = clitter::types::Group::new(b"box".to_vec(), Position { x: 0, y: 0 }, 50, 2000);
    g.shortcut = Some(b"g3".to_vec());
    store.save_group(&g);
    // an item shortcut "9" does not raise the group namespace
    let mut item = WhiteboardItem::new(test_content("x", 10), Position { x: 0, y: 0 }, 11, 2000);
    item.shortcut = Some(b"9".to_vec());
    store.save_whiteboard_item(&item);

    assert_eq!(store.get_next_group_shortcut_number(), 4);
    assert_eq!(store.get_next_shortcut_number(), 10);
}

#[test]
fn test_update_whiteboard_item_partial_fields() {
    let mut store = PersistentStorage::new();
    let item = WhiteboardItem::new(test_content("v", 10), Position { x: 1, y: 1 }, 11, 2000);
    store.save_whiteboard_item(&item);

    store.update_whiteboard_item(
        11,
        Some(Position { x: 9, y: 9 }),
        None,
        Some(Some(77)),
        None,
        2005,
    );
    let state = store.load_whiteboard();
    assert_eq!(state.items[0].position, Position { x: 9, y: 9 });
    assert_eq!(state.items[0].size, item.size);
    assert_eq!(state.items[0].parent_group, Some(77));
    assert_eq!(state.items[0].updated_at, 2005);
    // a reparented item is no longer a root item
    assert!(state.root_items.is_empty());
}

#[test]
fn test_delete_group_leaves_children() {
    let mut store = PersistentStorage::new();
    let parent = clitter::types::Group::new(b"outer".to_vec(), Position { x: 0, y: 0 }, 50, 2000);
    let mut child = clitter::types::Group::new(b"inner".to_vec(), Position { x: 0, y: 0 }, 51, 2000);
    child.parent_group = Some(50);
    store.save_group(&parent);
    store.save_group(&child);

    store.delete_group(50);
    let state = store.load_whiteboard();
    assert_eq!(state.groups.len(), 1);
    assert_eq!(state.groups[0].id, 51);
    // no cascade: the child keeps its dangling parent reference
    assert_eq!(state.groups[0].parent_group, Some(50));
}

#[test]
fn test_import_then_export_round_trip() {
    let mut store = PersistentStorage::new();
    let tree = vec![ImportedGroup {
        name: b"snippets".to_vec(),
        shortcut: Some(b"g1".to_vec()),
        color: Some(b"#aabbcc".to_vec()),
        parent_group: None,
        items: Some(vec![
            ImportedItem {
                shortcut: Some(b"1".to_vec()),
                value: b"hello".to_vec(),
                parent_group: None,
            },
            ImportedItem { shortcut: None, value: b"world".to_vec(), parent_group: None },
        ]),
        groups: Some(vec![ImportedGroup {
            name: b"nested".to_vec(),
            shortcut: None,
            color: None,
            parent_group: None,
            items: None,
            groups: None,
        }]),
    }];

    store.import_tree(&tree, 1000, 3000).unwrap();
    let state = store.load_whiteboard();
    assert_eq!(state.groups.len(), 2);
    assert_eq!(state.items.len(), 2);

    let exported = clitter::persistent::export_tree(&state);
    assert_eq!(exported.len(), 1);
    assert_eq!(exported[0].name, b"snippets".to_vec());
    assert_eq!(exported[0].shortcut, Some(b"g1".to_vec()));
    assert_eq!(exported[0].color, Some(b"#aabbcc".to_vec()));
    assert_eq!(exported[0].items.len(), 2);
    assert_eq!(exported[0].items[0].value, b"hello".to_vec());
    assert_eq!(exported[0].items[0].shortcut, Some(b"1".to_vec()));
    assert_eq!(exported[0].items[1].value, b"world".to_vec());
    assert_eq!(exported[0].groups.len(), 1);
    assert_eq!(exported[0].groups[0].name, b"nested".to_vec());
}

#[test]
fn test_import_rejects_too_deep_trees() {
    let mut leaf = ImportedGroup {
        name: b"0".to_vec(),
        shortcut: None,
        color: None,
        parent_group: None,
        items: None,
        groups: None,
    };
    for i in 1..=70 {
        leaf = ImportedGroup {
            name: format!("{}", i).into_bytes(),
            shortcut: None,
            color: None,
            parent_group: None,
            items: None,
            groups: Some(vec![leaf]),
        };
    }
    let mut store = PersistentStorage::new();
    let r = store.import_tree(&vec![leaf], 1, 3000);
    assert_eq!(r, Err(StorageError::TooDeep));
}

#[test]
fn test_export_image_items_use_placeholder() {
    let mut store = PersistentStorage::new();
    let mut g = clitter::types::Group::new(b"pics".to_vec(), Position { x: 0, y: 0 }, 50, 2000);
    g.parent_group = None;
    store.save_group(&g);
    let content = ClipboardContent::new_image(b"QUJD".to_vec(), 1, 1, b"clip".to_vec(), 10, 2000);
    let mut item = WhiteboardItem::new(content, Position { x: 0, y: 0 }, 11, 2000);
    item.parent_group = Some(50);
    store.save_whiteboard_item(&item);

    let state = store.load_whiteboard();
    let exported = clitter::persistent::export_tree(&state);
    assert_eq!(exported[0].items.len(), 1);
    assert_eq!(exported[0].items[0].value, b"[image]".to_vec());
}

#[test]
fn test_parse_and_format_decimals() {
    assert_eq!(clitter::persistent::parse_dec(&b"0".to_vec()), Some(0));
    assert_eq!(clitter::persistent::parse_dec(&b"42".to_vec()), Some(42));
    assert_eq!(clitter::persistent::parse_dec(&b"18446744073709551615".to_vec()), Some(u64::MAX));
    assert_eq!(clitter::persistent::parse_dec(&b"18446744073709551616".to_vec()), None);
    assert_eq!(clitter::persistent::parse_dec(&b"".to_vec()), None);
    assert_eq!(clitter::persistent::parse_dec(&b"4x".to_vec()), None);
    assert_eq!(clitter::persistent::fmt_u64(0), b"0".to_vec());
    assert_eq!(clitter::persistent::fmt_u64(907), b"907".to_vec());
}
