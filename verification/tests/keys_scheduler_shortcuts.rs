use stickynotes::errors::StoreError;
use stickynotes::key_manager::KeyStore;
use stickynotes::model::Note;
use stickynotes::scheduler::{
    scheduler_tick, ReminderScheduler, SchedulerPhase, TickOutcome,
};
use stickynotes::shortcuts::{get_all_shortcuts, update_shortcut, Security, Shortcuts, Theme};
use stickynotes::store::Database;

fn note(content: &str) -> Note {
    Note {
        id: None,
        content: content.to_string(),
        screenshot_path: None,
        created_at: 0,
        updated_at: None,
        is_pinned: false,
        color: None,
        category_id: None,
        deleted_at: None,
    }
}

#[test]
fn key_is_32_alphanumeric_characters() {
    let mut ks = KeyStore::new();
    let key = ks.get_encryption_key();
    assert_eq!(key.len(), 32);
    assert!(key.chars().all(|c| c.is_ascii_alphanumeric()));
}

#[test]
fn key_is_stable_across_calls() {
    let mut ks = KeyStore::new();
    let k1 = ks.get_encryption_key();
    let k2 = ks.get_encryption_key();
    assert_eq!(k1, k2);
}

#[test]
fn key_survives_reload() {
    let mut ks = KeyStore::new();
    let k1 = ks.get_encryption_key();
    // as the platform store would hand it back on the next launch
    let mut reloaded = KeyStore::with_key(k1.clone());
    assert_eq!(reloaded.get_encryption_key(), k1);
}

#[test]
fn delete_then_get_yields_new_key() {
    let mut ks = KeyStore::new();
    let k1 = ks.get_encryption_key();
    ks.delete_encryption_key().unwrap();
    let k2 = ks.get_encryption_key();
    assert_eq!(k2.len(), 32);
    assert_ne!(k1, k2);
}

#[test]
fn delete_without_key_is_not_found() {
    let mut ks = KeyStore::new();
    assert_eq!(
        ks.delete_encryption_key().unwrap_err(),
        StoreError::NotFound
    );
    let _ = ks.get_encryption_key();
    assert!(ks.delete_encryption_key().is_ok());
    assert_eq!(
        ks.delete_encryption_key().unwrap_err(),
        StoreError::NotFound
    );
}

#[test]
fn scheduler_phases_step_idle_running_stopped() {
    let mut s = ReminderScheduler::new();
    assert_eq!(s.phase, SchedulerPhase::Idle);
    assert!(!s.is_running());
    assert!(!s.shutdown());
    assert_eq!(s.phase, SchedulerPhase::Idle);
    assert!(s.start());
    assert!(s.is_running());
    assert!(!s.start());
    assert!(s.shutdown());
    assert_eq!(s.phase, SchedulerPhase::Stopped);
    assert!(!s.start());
    assert_eq!(s.phase, SchedulerPhase::Stopped);
}

#[test]
fn tick_publishes_due_payloads() {
    let mut db = Database::new();
    let id = db.save_note(&note("note body")).unwrap();
    let rid = db.add_reminder(id, 60).unwrap();
    match scheduler_tick(&db, false) {
        TickOutcome::Publish(v) => {
            assert_eq!(v.len(), 1);
            assert_eq!(v[0].id, rid);
            assert_eq!(v[0].note_id, id);
            assert_eq!(v[0].remind_at, 60u64);
            assert!(!v[0].is_triggered);
            assert_eq!(v[0].note_content, "note body");
        }
        TickOutcome::Exit => panic!("tick must publish when not stopped"),
    }
}

#[test]
fn tick_exits_on_stop_signal() {
    let db = Database::new();
    assert!(matches!(scheduler_tick(&db, true), TickOutcome::Exit));
}

#[test]
fn tick_republishes_until_marked() {
    let mut db = Database::new();
    let id = db.save_note(&note("again")).unwrap();
    let rid = db.add_reminder(id, 60).unwrap();
    for _ in 0..2 {
        match scheduler_tick(&db, false) {
            TickOutcome::Publish(v) => assert_eq!(v.len(), 1),
            TickOutcome::Exit => panic!("unexpected exit"),
        }
    }
    db.mark_reminder_triggered(rid).unwrap();
    match scheduler_tick(&db, false) {
        TickOutcome::Publish(v) => assert!(v.is_empty()),
        TickOutcome::Exit => panic!("unexpected exit"),
    }
}

#[test]
fn default_shortcuts_and_settings_sections() {
    let s = Shortcuts::default();
    assert_eq!(s.new_note, "CommandOrControl+Shift+C");
    assert_eq!(s.screenshot, "CommandOrControl+Shift+X");
    let sec = Security::default();
    assert!(!sec.auto_lock);
    assert_eq!(sec.lock_timeout, 5);
    assert!(sec.encryption_enabled);
    assert_eq!(Theme::default(), Theme::System);
}

#[test]
fn shortcut_map_lists_both_actions() {
    let m = get_all_shortcuts();
    assert_eq!(m.len(), 2);
    assert_eq!(m[0].action, "open_main_window");
    assert_eq!(m[0].shortcut, "CommandOrControl+Shift+C");
    assert_eq!(m[1].action, "trigger_screenshot");
    assert_eq!(m[1].shortcut, "CommandOrControl+Shift+X");
}

#[test]
fn update_shortcut_replaces_or_appends() {
    let mut m = get_all_shortcuts();
    update_shortcut(&mut m, "open_main_window", "Alt+N");
    assert_eq!(m.len(), 2);
    assert_eq!(m[0].shortcut, "Alt+N");
    assert_eq!(m[1].shortcut, "CommandOrControl+Shift+X");
    update_shortcut(&mut m, "lock_screen", "Alt+L");
    assert_eq!(m.len(), 3);
    assert_eq!(m[2].action, "lock_screen");
    assert_eq!(m[2].shortcut, "Alt+L");
}
