use stickynotes::errors::StoreError;
use stickynotes::model::{Category, Note, NoteReminder};
use stickynotes::responses::{category_to_response, reminder_to_response};
use stickynotes::store::Database;

fn note(content: &str) -> Note {
    Note {
        id: None,
        content: content.to_string(),
        screenshot_path: None,
        created_at: 0,
        updated_at: None,
        is_pinned: false,
        color: None,
        category_id: None,
        deleted_at: None,
    }
}

#[test]
fn add_category_and_list_sorted_by_name() {
    let mut db = Database::new();
    db.add_category("pear", "green").unwrap();
    db.add_category("apple", "red").unwrap();
    db.add_category("mango", "yellow").unwrap();
    let cats = db.get_all_categories().unwrap();
    let names: Vec<&str> = cats.iter().map(|c| c.name.as_str()).collect();
    assert_eq!(names, vec!["apple", "mango", "pear"]);
}

#[test]
fn category_empty_name_is_validation_error() {
    let mut db = Database::new();
    assert_eq!(
        db.add_category("", "red").unwrap_err(),
        StoreError::ValidationError
    );
    let id = db.add_category("ok", "red").unwrap();
    assert_eq!(
        db.update_category(id, "", "red").unwrap_err(),
        StoreError::ValidationError
    );
}

#[test]
fn update_category_missing_is_not_found() {
    let mut db = Database::new();
    assert_eq!(
        db.update_category(4, "name", "red").unwrap_err(),
        StoreError::NotFound
    );
}

#[test]
fn update_category_renames() {
    let mut db = Database::new();
    let id = db.add_category("old", "red").unwrap();
    db.update_category(id, "new", "blue").unwrap();
    let cats = db.get_categories().unwrap();
    assert_eq!(cats.len(), 1);
    assert_eq!(cats[0].name, "new");
    assert_eq!(cats[0].color.as_deref(), Some("blue"));
}

#[test]
fn save_category_with_id_roundtrip() {
    let mut db = Database::new();
    let id = db.add_category("first", "red").unwrap();
    let c = Category {
        id: Some(id),
        name: "renamed".to_string(),
        color: None,
    };
    assert_eq!(db.save_category(&c).unwrap(), id);
    let cats = db.get_all_categories().unwrap();
    assert_eq!(cats[0].name, "renamed");
}

#[test]
fn delete_category_detaches_notes_and_leaves_them() {
    let mut db = Database::new();
    let cat = db.add_category("work", "blue").unwrap();
    let mut n = note("attached");
    n.category_id = Some(cat);
    let note_id = db.save_note(&n).unwrap();

    db.delete_category(cat).unwrap();

    let read = db.get_note(note_id).unwrap().unwrap();
    assert_eq!(read.category_id, None);
    assert_eq!(read.content, "attached");
    assert!(db.get_all_categories().unwrap().is_empty());
}

#[test]
fn delete_category_missing_is_silent() {
    let mut db = Database::new();
    assert!(db.delete_category(12).is_ok());
}

#[test]
fn add_reminder_requires_note() {
    let mut db = Database::new();
    assert_eq!(db.add_reminder(3, 100).unwrap_err(), StoreError::NotFound);
}

#[test]
fn reminders_by_note_sorted_by_time() {
    let mut db = Database::new();
    let id = db.save_note(&note("n")).unwrap();
    db.add_reminder(id, 300).unwrap();
    db.add_reminder(id, 100).unwrap();
    db.add_reminder(id, 200).unwrap();
    let rs = db.get_reminders_by_note(id).unwrap();
    let times: Vec<i64> = rs.iter().map(|r| r.reminder_time).collect();
    assert_eq!(times, vec![100, 200, 300]);
    assert!(rs.iter().all(|r| !r.completed));
}

#[test]
fn update_reminder_changes_time_only() {
    let mut db = Database::new();
    let id = db.save_note(&note("n")).unwrap();
    let rid = db.add_reminder(id, 100).unwrap();
    db.update_reminder(rid, 900).unwrap();
    let rs = db.get_reminders_by_note(id).unwrap();
    assert_eq!(rs[0].reminder_time, 900);
    assert!(!rs[0].completed);
    assert_eq!(
        db.update_reminder(777, 1).unwrap_err(),
        StoreError::NotFound
    );
}

#[test]
fn mark_triggered_is_monotonic() {
    let mut db = Database::new();
    let id = db.save_note(&note("n")).unwrap();
    let rid = db.add_reminder(id, 100).unwrap();
    db.mark_reminder_triggered(rid).unwrap();
    // an update through save_reminder cannot unset the flag
    let r = NoteReminder {
        id: Some(rid),
        note_id: id,
        reminder_time: 150,
        completed: false,
        created_at: 0,
    };
    db.save_reminder(&r).unwrap();
    let rs = db.get_reminders_by_note(id).unwrap();
    assert!(rs[0].completed);
    assert_eq!(rs[0].reminder_time, 150);
    assert_eq!(
        db.mark_reminder_triggered(888).unwrap_err(),
        StoreError::NotFound
    );
}

#[test]
fn delete_reminder_removes_and_tolerates_missing() {
    let mut db = Database::new();
    let id = db.save_note(&note("n")).unwrap();
    let rid = db.add_reminder(id, 100).unwrap();
    db.delete_reminder(rid).unwrap();
    assert!(db.get_reminders_by_note(id).unwrap().is_empty());
    assert!(db.delete_reminder(rid).is_ok());
}

#[test]
fn due_reminders_exclude_triggered_and_trashed() {
    let mut db = Database::new();
    let live = db.save_note(&note("live")).unwrap();
    let dead = db.save_note(&note("dead")).unwrap();
    let due = db.add_reminder(live, 100).unwrap();
    let done = db.add_reminder(live, 50).unwrap();
    db.add_reminder(dead, 10).unwrap();
    db.mark_reminder_triggered(done).unwrap();
    db.move_note_to_trash(dead, 1).unwrap();

    let pending = db.get_pending_reminders().unwrap();
    assert_eq!(pending.len(), 1);
    assert_eq!(pending[0].reminder.id, Some(due));
    assert_eq!(pending[0].note.content, "live");
    assert!(!pending[0].reminder.completed);
    assert!(pending[0].note.deleted_at.is_none());
}

#[test]
fn upcoming_reminders_are_capped_and_ordered() {
    let mut db = Database::new();
    let id = db.save_note(&note("n")).unwrap();
    db.add_reminder(id, 300).unwrap();
    db.add_reminder(id, 100).unwrap();
    db.add_reminder(id, 200).unwrap();
    let capped = db.get_upcoming_reminders(Some(2)).unwrap();
    assert_eq!(capped.len(), 2);
    assert_eq!(capped[0].reminder.reminder_time, 100);
    assert_eq!(capped[1].reminder.reminder_time, 200);
}

#[test]
fn category_response_carries_fields() {
    let mut db = Database::new();
    let id = db.add_category("work", "blue").unwrap();
    let cats = db.get_all_categories().unwrap();
    let resp = category_to_response(&cats[0]);
    assert_eq!(resp.id, id);
    assert_eq!(resp.name, "work");
    assert_eq!(resp.color.as_deref(), Some("blue"));
}

#[test]
fn reminder_response_carries_fields() {
    let mut db = Database::new();
    let nid = db.save_note(&note("n")).unwrap();
    let rid = db.add_reminder(nid, 250).unwrap();
    let rows = db.get_reminders_by_note(nid).unwrap();
    let resp = reminder_to_response(&rows[0]);
    assert_eq!(resp.id, rid);
    assert_eq!(resp.note_id, nid);
    assert_eq!(resp.reminder_time, 250u64);
    assert!(!resp.completed);
}
