use vstd::prelude::*;
use crate::errors::StoreError;
use crate::model::{
    clone_opt_string, view_opt_str, Category, CategoryModel, Note, NoteModel, NoteReminder,
    ReminderModel,
};
use crate::reminders::{DueModel, DueReminder};
use crate::store::{find_note, lemma_find_note_at, Database};

verus! {

// ---------------------------------------------------------------------------
// The response shapes handed across the command-layer boundary
// ---------------------------------------------------------------------------

/// A note as the command layer returns it: timestamps as unsigned seconds.
pub struct NoteResponse {
    pub id: i64,
    pub content: String,
    pub screenshot_path: Option<String>,
    pub created_at: u64,
    pub updated_at: Option<u64>,
    pub is_pinned: bool,
    pub color: Option<String>,
    pub category_id: Option<i64>,
    pub deleted_at: Option<u64>,
}

/// A category as the command layer returns it.
pub struct CategoryResponse {
    pub id: i64,
    pub name: String,
    pub color: Option<String>,
}

/// A reminder row as the command layer returns it.
pub struct NoteReminderResponse {
    pub id: i64,
    pub note_id: i64,
    pub reminder_time: u64,
    pub completed: bool,
}

/// A due-reminder payload for the notification sink: the reminder joined
/// with a snapshot of the owning note's content.
pub struct ReminderResponse {
    pub id: i64,
    pub note_id: i64,
    pub remind_at: u64,
    pub is_triggered: bool,
    pub created_at: u64,
    pub note_content: String,
}

/// A stored id, or 0 for a record that was never inserted.
pub open spec fn id_or_zero(id: Option<int>) -> int {
    match id {
        Some(v) => v,
        None => 0,
    }
}

pub open spec fn opt_int_as_u64(o: Option<int>) -> Option<u64> {
    match o {
        Some(v) => Some(v as u64),
        None => None,
    }
}

/// `r` is the response form of the note `n`.
pub open spec fn note_response_matches(r: NoteResponse, n: NoteModel) -> bool {
    &&& r.id as int == id_or_zero(n.id)
    &&& r.content@ == n.content
    &&& view_opt_str(r.screenshot_path) == n.screenshot_path
    &&& r.created_at == n.created_at as u64
    &&& r.updated_at == opt_int_as_u64(n.updated_at)
    &&& r.is_pinned == n.is_pinned
    &&& view_opt_str(r.color) == n.color
    &&& crate::model::view_opt_int(r.category_id) == n.category_id
    &&& r.deleted_at == opt_int_as_u64(n.deleted_at)
}

/// `r` is the response form of the category `c`.
pub open spec fn category_response_matches(r: CategoryResponse, c: CategoryModel) -> bool {
    &&& r.id as int == id_or_zero(c.id)
    &&& r.name@ == c.name
    &&& view_opt_str(r.color) == c.color
}

/// `r` is the response form of the reminder row `rem`.
pub open spec fn reminder_row_matches(r: NoteReminderResponse, rem: ReminderModel) -> bool {
    &&& r.id as int == id_or_zero(rem.id)
    &&& r.note_id as int == rem.note_id
    &&& r.reminder_time == rem.reminder_time as u64
    &&& r.completed == rem.completed
}

/// `r` is the sink payload of the due pair `d`.
pub open spec fn payload_matches(r: ReminderResponse, d: DueModel) -> bool {
    &&& r.id as int == id_or_zero(d.reminder.id)
    &&& r.note_id as int == d.reminder.note_id
    &&& r.remind_at == d.reminder.reminder_time as u64
    &&& r.is_triggered == d.reminder.completed
    &&& r.created_at == d.reminder.created_at as u64
    &&& r.note_content@ == d.note.content
}

pub fn note_to_response(n: &Note) -> (r: NoteResponse)
    ensures
        note_response_matches(r, n@),
{
    NoteResponse {
        id: match n.id {
            Some(v) => v,
            None => 0,
        },
        content: n.content.clone(),
        screenshot_path: clone_opt_string(&n.screenshot_path),
        created_at: n.created_at as u64,
        updated_at: match n.updated_at {
            Some(t) => Some(t as u64),
            None => None,
        },
        is_pinned: n.is_pinned,
        color: clone_opt_string(&n.color),
        category_id: n.category_id,
        deleted_at: match n.deleted_at {
            Some(t) => Some(t as u64),
            None => None,
        },
    }
}

pub fn category_to_response(c: &Category) -> (r: CategoryResponse)
    ensures
        category_response_matches(r, c@),
{
    CategoryResponse {
        id: match c.id {
            Some(v) => v,
            None => 0,
        },
        name: c.name.clone(),
        color: clone_opt_string(&c.color),
    }
}

pub fn reminder_to_response(rem: &NoteReminder) -> (r: NoteReminderResponse)
    ensures
        reminder_row_matches(r, rem@),
{
    NoteReminderResponse {
        id: match rem.id {
            Some(v) => v,
            None => 0,
        },
        note_id: rem.note_id,
        reminder_time: rem.reminder_time as u64,
        completed: rem.completed,
    }
}

pub fn due_to_payload(d: &DueReminder) -> (r: ReminderResponse)
    ensures
        payload_matches(r, d@),
{
    ReminderResponse {
        id: match d.reminder.id {
            Some(v) => v,
            None => 0,
        },
        note_id: d.reminder.note_id,
        remind_at: d.reminder.reminder_time as u64,
        is_triggered: d.reminder.completed,
        created_at: d.reminder.created_at as u64,
        note_content: d.note.content.clone(),
    }
}

impl Database {
    /// The note stored under `id` in response form, or `None`.
    pub fn get_note_by_id(&self, id: i64) -> (r: Result<Option<NoteResponse>, StoreError>)
        requires
            self.wf(),
        ensures
            match r {
                Ok(o) => match (o, find_note(self@.notes, id as int)) {
                    (Some(resp), Some(n)) => note_response_matches(resp, n),
                    (None, None) => true,
                    _ => false,
                },
                Err(_) => false,
            },
    {
        match self.find_note_index(id) {
            None => Ok(None),
            Some(i) => {
                proof {
                    lemma_find_note_at(self@.notes, id as int, i as int);
                }
                Ok(Some(note_to_response(&self.notes[i])))
            },
        }
    }
}

} // verus!
