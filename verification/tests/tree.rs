use pathtree::models::{
    compose_child_path, delete_item, get_item_list, next_rank, DataError, Store, UpdateItem,
};

fn upsert(id: u128, parent: Option<u128>, previous: Option<u128>, content: &str) -> UpdateItem {
    UpdateItem {
        id,
        parent,
        previous,
        content: content.to_string(),
        metadata: "{}".to_string(),
        expand: true,
    }
}

#[test]
fn scenario_ranks_and_paths() {
    let mut st = Store::new();
    // Root item A: its path is its own label, its rank 0.
    assert!(upsert(1, None, None, "A").insert(&mut st, 10).is_ok());
    assert_eq!(UpdateItem::parent_path(&st, 1), Ok("1".to_string()));
    assert_eq!(UpdateItem::get_ranking(&st, 1), Ok(0));
    // Child B of A without predecessor: parent's path plus B's label, rank 0.
    assert!(upsert(2, Some(1), None, "B").insert(&mut st, 11).is_ok());
    assert_eq!(UpdateItem::parent_path(&st, 2), Ok("1.2".to_string()));
    assert_eq!(UpdateItem::get_ranking(&st, 2), Ok(0));
    // Child C of A after B: rank 1; B keeps rank 0.
    assert!(upsert(3, Some(1), Some(2), "C").insert(&mut st, 12).is_ok());
    assert_eq!(UpdateItem::get_ranking(&st, 3), Ok(1));
    assert_eq!(UpdateItem::get_ranking(&st, 2), Ok(0));
    // Child D of A after B, again: rank 1, and C moves up to rank 2.
    assert!(upsert(4, Some(1), Some(2), "D").insert(&mut st, 13).is_ok());
    assert_eq!(UpdateItem::get_ranking(&st, 4), Ok(1));
    assert_eq!(UpdateItem::get_ranking(&st, 3), Ok(2));
    assert_eq!(UpdateItem::get_ranking(&st, 2), Ok(0));
    assert_eq!(UpdateItem::parent_path(&st, 4), Ok("1.4".to_string()));
    // The flat listing recovers each row's direct parent from the paths.
    let items = get_item_list(&st);
    assert_eq!(items.len(), 4);
    for it in &items {
        match it.id {
            1 => assert_eq!(it.parent, None),
            _ => assert_eq!(it.parent, Some(1)),
        }
    }
}

#[test]
fn upsert_updates_in_place() {
    let mut st = Store::new();
    assert!(upsert(7, None, None, "first").insert(&mut st, 100).is_ok());
    let mut again = upsert(7, None, None, "second");
    again.metadata = "{\"k\":1}".to_string();
    again.expand = false;
    assert!(again.insert(&mut st, 200).is_ok());
    let items = get_item_list(&st);
    // No duplicate row was created.
    assert_eq!(items.len(), 1);
    let it = &items[0];
    assert_eq!(it.id, 7);
    assert_eq!(it.content, "second");
    assert_eq!(it.metadata, "{\"k\":1}");
    assert!(!it.expand);
    // The creation time stands; only the modification time moved.
    assert_eq!(it.created, 100);
    assert_eq!(it.modified, 200);
}

#[test]
fn missing_parent_rejects_whole_write() {
    let mut st = Store::new();
    let r = upsert(1, Some(99), None, "A").insert(&mut st, 10);
    assert_eq!(r, Err(DataError::NotFoundByUUID(99)));
    // Nothing was written.
    assert_eq!(get_item_list(&st).len(), 0);
}

#[test]
fn missing_previous_rejects_whole_write() {
    let mut st = Store::new();
    assert!(upsert(1, None, None, "A").insert(&mut st, 10).is_ok());
    let r = upsert(2, Some(1), Some(98), "B").insert(&mut st, 11);
    assert_eq!(r, Err(DataError::NotFoundByUUID(98)));
    let items = get_item_list(&st);
    assert_eq!(items.len(), 1);
    assert_eq!(items[0].id, 1);
}

#[test]
fn siblings_below_insertion_point_untouched() {
    let mut st = Store::new();
    assert!(upsert(1, None, None, "root").insert(&mut st, 1).is_ok());
    assert!(upsert(2, Some(1), None, "b").insert(&mut st, 2).is_ok());
    assert!(upsert(3, Some(1), Some(2), "c").insert(&mut st, 3).is_ok());
    assert!(upsert(4, Some(1), Some(3), "d").insert(&mut st, 4).is_ok());
    // Ranks are b:0, c:1, d:2. Insert after c: only d shifts.
    assert!(upsert(5, Some(1), Some(3), "e").insert(&mut st, 5).is_ok());
    assert_eq!(UpdateItem::get_ranking(&st, 2), Ok(0));
    assert_eq!(UpdateItem::get_ranking(&st, 3), Ok(1));
    assert_eq!(UpdateItem::get_ranking(&st, 5), Ok(2));
    assert_eq!(UpdateItem::get_ranking(&st, 4), Ok(3));
}

#[test]
fn delete_removes_row_outright() {
    let mut st = Store::new();
    assert!(upsert(1, None, None, "A").insert(&mut st, 10).is_ok());
    assert!(upsert(2, Some(1), None, "B").insert(&mut st, 11).is_ok());
    assert!(delete_item(&mut st, 1).is_ok());
    let items = get_item_list(&st);
    assert_eq!(items.len(), 1);
    assert_eq!(items[0].id, 2);
    // The orphan keeps its path; its parent can no longer be resolved.
    assert_eq!(items[0].parent, None);
    // Deleting an absent identifier is accepted and changes nothing.
    assert!(delete_item(&mut st, 42).is_ok());
    assert_eq!(get_item_list(&st).len(), 1);
}

#[test]
fn listing_orders_by_parent_group_then_path() {
    // The flat listing is grouped by parent first and ordered by
    // materialized path second; insertion order does not matter. Sibling
    // rank is a different ordering key which the listing deliberately does
    // not follow: it stays the caller's to apply.
    let mut st = Store::new();
    assert!(upsert(2, None, None, "later root").insert(&mut st, 1).is_ok());
    assert!(upsert(1, None, None, "earlier root").insert(&mut st, 2).is_ok());
    assert!(upsert(4, Some(1), None, "child four").insert(&mut st, 3).is_ok());
    assert!(upsert(3, Some(1), Some(4), "child three").insert(&mut st, 4).is_ok());
    // Child 3 carries the higher rank (1, after child 4's 0), yet lists
    // first: within the parent group the key is the path, not the rank.
    assert_eq!(UpdateItem::get_ranking(&st, 4), Ok(0));
    assert_eq!(UpdateItem::get_ranking(&st, 3), Ok(1));
    let ids: Vec<u128> = get_item_list(&st).iter().map(|it| it.id).collect();
    assert_eq!(ids, vec![1, 2, 3, 4]);
}

#[test]
fn grandchildren_resolve_to_their_own_parent() {
    let mut st = Store::new();
    assert!(upsert(1, None, None, "A").insert(&mut st, 1).is_ok());
    assert!(upsert(2, Some(1), None, "B").insert(&mut st, 2).is_ok());
    assert!(upsert(3, Some(2), None, "C").insert(&mut st, 3).is_ok());
    assert_eq!(UpdateItem::parent_path(&st, 3), Ok("1.2.3".to_string()));
    let items = get_item_list(&st);
    assert_eq!(items.len(), 3);
    for it in &items {
        match it.id {
            1 => assert_eq!(it.parent, None),
            2 => assert_eq!(it.parent, Some(1)),
            3 => assert_eq!(it.parent, Some(2)),
            _ => unreachable!(),
        }
    }
}

#[test]
fn child_path_composition() {
    assert_eq!(compose_child_path("1.2", 3), "1.2.3");
    assert_eq!(compose_child_path("z", 62), "z.10");
    assert_eq!(next_rank(None), Some(0));
    assert_eq!(next_rank(Some(4)), Some(5));
    assert_eq!(next_rank(Some(u64::MAX)), None);
}

#[test]
fn resolving_unknown_identifier_fails() {
    let st = Store::new();
    assert_eq!(
        UpdateItem::parent_path(&st, 5),
        Err(DataError::NotFoundByUUID(5))
    );
    assert_eq!(
        UpdateItem::get_ranking(&st, 5),
        Err(DataError::NotFoundByUUID(5))
    );
}

#[test]
fn root_item_after_predecessor_takes_next_rank() {
    let mut st = Store::new();
    assert!(upsert(1, None, None, "A").insert(&mut st, 1).is_ok());
    // A root-level item after a predecessor gets its rank + 1; root items
    // are never rank-shifted.
    assert!(upsert(2, None, Some(1), "B").insert(&mut st, 2).is_ok());
    assert_eq!(UpdateItem::get_ranking(&st, 1), Ok(0));
    assert_eq!(UpdateItem::get_ranking(&st, 2), Ok(1));
    assert_eq!(UpdateItem::parent_path(&st, 2), Ok("2".to_string()));
}
