use stickynotes::errors::StoreError;
use stickynotes::model::{Note, NoteSortOption};
use stickynotes::store::Database;

fn plain_note(content: &str) -> Note {
    Note {
        id: None,
        content: content.to_string(),
        screenshot_path: None,
        created_at: 0,
        updated_at: None,
        is_pinned: false,
        color: None,
        category_id: None,
        deleted_at: None,
    }
}

#[test]
fn create_then_get_round_trip() {
    let mut db = Database::new();
    let id = db.create_note("hello world", None, None).unwrap();
    let note = db.get_note(id).unwrap().unwrap();
    assert_eq!(note.content, "hello world");
    assert_eq!(note.deleted_at, None);
    assert!(!note.is_pinned);
    assert_eq!(note.id, Some(id));
}

#[test]
fn create_note_timestamps_come_from_the_clock() {
    let before = chrono::Utc::now().timestamp();
    let mut db = Database::new();
    let id = db.create_note("timed", None, None).unwrap();
    let after = chrono::Utc::now().timestamp();
    let note = db.get_note(id).unwrap().unwrap();
    assert!(before <= note.created_at && note.created_at <= after);
    assert_eq!(note.updated_at, Some(note.created_at));
}

#[test]
fn get_note_missing_is_none() {
    let db = Database::new();
    assert!(db.get_note(42).unwrap().is_none());
}

#[test]
fn save_note_assigns_sequential_ids() {
    let mut db = Database::new();
    let a = db.save_note(&plain_note("a")).unwrap();
    let b = db.save_note(&plain_note("b")).unwrap();
    assert_eq!(a, 1);
    assert_eq!(b, 2);
}

#[test]
fn save_note_update_preserves_created_at() {
    let mut db = Database::new();
    let mut n = plain_note("original");
    n.created_at = 1111;
    let id = db.save_note(&n).unwrap();
    let mut update = plain_note("changed");
    update.id = Some(id);
    update.created_at = 9999;
    db.save_note(&update).unwrap();
    let read = db.get_note(id).unwrap().unwrap();
    assert_eq!(read.content, "changed");
    assert_eq!(read.created_at, 1111);
}

#[test]
fn save_note_unknown_id_is_not_found() {
    let mut db = Database::new();
    let mut n = plain_note("x");
    n.id = Some(7);
    assert_eq!(db.save_note(&n).unwrap_err(), StoreError::NotFound);
}

#[test]
fn save_note_dangling_category_is_not_found() {
    let mut db = Database::new();
    let mut n = plain_note("x");
    n.category_id = Some(3);
    assert_eq!(db.save_note(&n).unwrap_err(), StoreError::NotFound);
}

#[test]
fn update_note_missing_is_not_found() {
    let mut db = Database::new();
    let r = db.update_note(5, "new", None, false, None, None);
    assert_eq!(r.unwrap_err(), StoreError::NotFound);
}

#[test]
fn update_note_sets_fields_and_keeps_deleted_at() {
    let mut db = Database::new();
    let mut n = plain_note("old");
    n.deleted_at = Some(777);
    let id = db.save_note(&n).unwrap();
    db.update_note(id, "new", Some("shot.png"), true, Some("red"), None)
        .unwrap();
    let read = db.get_note(id).unwrap().unwrap();
    assert_eq!(read.content, "new");
    assert_eq!(read.screenshot_path.as_deref(), Some("shot.png"));
    assert!(read.is_pinned);
    assert_eq!(read.color.as_deref(), Some("red"));
    assert_eq!(read.deleted_at, Some(777));
}

#[test]
fn toggle_pin_twice_returns_to_original() {
    let mut db = Database::new();
    let id = db.save_note(&plain_note("p")).unwrap();
    let first = db.toggle_note_pin(id).unwrap();
    assert!(first);
    let second = db.toggle_note_pin(id).unwrap();
    assert!(!second);
    let read = db.get_note(id).unwrap().unwrap();
    assert!(!read.is_pinned);
}

#[test]
fn toggle_pin_missing_is_not_found() {
    let mut db = Database::new();
    assert_eq!(db.toggle_note_pin(9).unwrap_err(), StoreError::NotFound);
}

#[test]
fn trash_lifecycle_hides_and_restores() {
    let mut db = Database::new();
    let id = db.save_note(&plain_note("t")).unwrap();
    db.move_notes_to_trash(&vec![id]).unwrap();
    let listed = db.get_notes().unwrap();
    assert!(listed.iter().all(|n| n.id != Some(id)));
    let trash = db.get_trash_notes().unwrap();
    assert!(trash.iter().any(|n| n.id == Some(id)));
    db.restore_notes_from_trash(&vec![id]).unwrap();
    let listed = db.get_notes().unwrap();
    assert!(listed.iter().any(|n| n.id == Some(id)));
    let trash = db.get_trash_notes().unwrap();
    assert!(trash.iter().all(|n| n.id != Some(id)));
}

#[test]
fn trash_tolerates_missing_ids() {
    let mut db = Database::new();
    let id = db.save_note(&plain_note("t")).unwrap();
    db.move_notes_to_trash(&vec![id, 555]).unwrap();
    assert!(db.get_notes().unwrap().is_empty());
    db.restore_notes_from_trash(&vec![555, id]).unwrap();
    assert_eq!(db.get_notes().unwrap().len(), 1);
}

#[test]
fn trash_listing_newest_deleted_first() {
    let mut db = Database::new();
    let a = db.save_note(&plain_note("a")).unwrap();
    let b = db.save_note(&plain_note("b")).unwrap();
    db.move_note_to_trash(a, 100).unwrap();
    db.move_note_to_trash(b, 200).unwrap();
    let trash = db.get_trash_notes().unwrap();
    assert_eq!(trash.len(), 2);
    assert_eq!(trash[0].id, Some(b));
    assert_eq!(trash[1].id, Some(a));
}

#[test]
fn cleanup_trash_respects_retention() {
    let mut db = Database::new();
    let now: i64 = 1_700_000_000;
    let mut old_note = plain_note("old");
    old_note.deleted_at = Some(now - 31 * 86400);
    let old_id = db.save_note(&old_note).unwrap();
    let mut young = plain_note("young");
    young.deleted_at = Some(now - 10 * 86400);
    let young_id = db.save_note(&young).unwrap();
    let active_id = db.save_note(&plain_note("active")).unwrap();

    let removed = db.cleanup_trash_at(30, now).unwrap();
    assert_eq!(removed, 1);
    assert!(db.get_note(old_id).unwrap().is_none());
    assert!(db.get_note(young_id).unwrap().is_some());
    assert!(db.get_note(active_id).unwrap().is_some());
}

#[test]
fn permanent_delete_cascades_to_reminders() {
    let mut db = Database::new();
    let id = db.save_note(&plain_note("n")).unwrap();
    let keep_id = db.save_note(&plain_note("keep")).unwrap();
    db.add_reminder(id, 10).unwrap();
    db.add_reminder(id, 20).unwrap();
    let kept_reminder = db.add_reminder(keep_id, 30).unwrap();

    db.permanently_delete_notes(&vec![id]).unwrap();

    assert!(db.get_note(id).unwrap().is_none());
    assert!(db.get_notes().unwrap().iter().all(|n| n.id != Some(id)));
    assert!(db.get_trash_notes().unwrap().iter().all(|n| n.id != Some(id)));
    assert!(db.get_reminders_by_note(id).unwrap().is_empty());
    let left = db.get_reminders_by_note(keep_id).unwrap();
    assert_eq!(left.len(), 1);
    assert_eq!(left[0].id, Some(kept_reminder));
}

#[test]
fn listing_puts_pinned_first_then_created_desc() {
    let mut db = Database::new();
    let mut a = plain_note("a");
    a.created_at = 100;
    let mut b = plain_note("b");
    b.created_at = 200;
    let mut c = plain_note("c");
    c.created_at = 150;
    c.is_pinned = true;
    let _a = db.save_note(&a).unwrap();
    let b_id = db.save_note(&b).unwrap();
    let c_id = db.save_note(&c).unwrap();
    let listed = db.get_notes().unwrap();
    assert_eq!(listed.len(), 3);
    assert_eq!(listed[0].id, Some(c_id));
    assert_eq!(listed[1].id, Some(b_id));
    assert_eq!(listed[2].content, "a");
}

#[test]
fn listing_sorts_created_ascending_when_asked() {
    let mut db = Database::new();
    let mut a = plain_note("a");
    a.created_at = 300;
    let mut b = plain_note("b");
    b.created_at = 100;
    db.save_note(&a).unwrap();
    db.save_note(&b).unwrap();
    let listed = db
        .get_notes_sorted(NoteSortOption::CreatedTimeAsc, None, None, None, None)
        .unwrap();
    assert_eq!(listed[0].content, "b");
    assert_eq!(listed[1].content, "a");
}

#[test]
fn listing_sorts_updated_descending_with_null_last() {
    let mut db = Database::new();
    let mut a = plain_note("a");
    a.updated_at = None;
    let mut b = plain_note("b");
    b.updated_at = Some(50);
    let mut c = plain_note("c");
    c.updated_at = Some(80);
    db.save_note(&a).unwrap();
    db.save_note(&b).unwrap();
    db.save_note(&c).unwrap();
    let listed = db
        .get_notes_sorted(NoteSortOption::UpdatedTimeDesc, None, None, None, None)
        .unwrap();
    assert_eq!(listed[0].content, "c");
    assert_eq!(listed[1].content, "b");
    assert_eq!(listed[2].content, "a");
}

#[test]
fn search_is_literal_and_case_sensitive() {
    let mut db = Database::new();
    db.save_note(&plain_note("Groceries: milk")).unwrap();
    db.save_note(&plain_note("groceries: eggs")).unwrap();
    db.save_note(&plain_note("workout plan")).unwrap();
    let hits = db.search_notes("Groceries", None).unwrap();
    assert_eq!(hits.len(), 1);
    assert_eq!(hits[0].content, "Groceries: milk");
    let hits = db.search_notes("groceries", None).unwrap();
    assert_eq!(hits.len(), 1);
    assert_eq!(hits[0].content, "groceries: eggs");
    let none = db.search_notes("swimming", None).unwrap();
    assert!(none.is_empty());
}

#[test]
fn search_skips_trashed_notes() {
    let mut db = Database::new();
    let id = db.save_note(&plain_note("find me")).unwrap();
    db.move_note_to_trash(id, 1).unwrap();
    assert!(db.search_notes("find", None).unwrap().is_empty());
}

#[test]
fn pagination_applies_limit_and_offset() {
    let mut db = Database::new();
    for (name, t) in [("a", 10), ("b", 20), ("c", 30), ("d", 40)] {
        let mut n = plain_note(name);
        n.created_at = t;
        db.save_note(&n).unwrap();
    }
    // created desc: d c b a
    let page = db
        .get_notes_sorted(NoteSortOption::CreatedTimeDesc, None, None, Some(2), Some(1))
        .unwrap();
    assert_eq!(page.len(), 2);
    assert_eq!(page[0].content, "c");
    assert_eq!(page[1].content, "b");
    let past_end = db
        .get_notes_sorted(NoteSortOption::CreatedTimeDesc, None, None, Some(2), Some(10))
        .unwrap();
    assert!(past_end.is_empty());
}

#[test]
fn notes_by_category_filters() {
    let mut db = Database::new();
    let cat = db.add_category("work", "blue").unwrap();
    let mut inside = plain_note("inside");
    inside.category_id = Some(cat);
    let inside_id = db.save_note(&inside).unwrap();
    db.save_note(&plain_note("outside")).unwrap();
    let listed = db.get_notes_by_category(cat).unwrap();
    assert_eq!(listed.len(), 1);
    assert_eq!(listed[0].id, Some(inside_id));
}

#[test]
fn get_note_by_id_converts_to_response() {
    let mut db = Database::new();
    let mut n = plain_note("resp");
    n.created_at = 123;
    n.updated_at = Some(456);
    let id = db.save_note(&n).unwrap();
    let resp = db.get_note_by_id(id).unwrap().unwrap();
    assert_eq!(resp.id, id);
    assert_eq!(resp.content, "resp");
    assert_eq!(resp.created_at, 123u64);
    assert_eq!(resp.updated_at, Some(456u64));
    assert!(db.get_note_by_id(999).unwrap().is_none());
}
