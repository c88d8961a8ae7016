use vstd::prelude::*;

verus! {

// ---------------------------------------------------------------------------
// Stored records
// ---------------------------------------------------------------------------

/// A sticky note. `id` is `None` for a record that has not been inserted yet;
/// every stored note carries `Some(id)`. Timestamps are seconds since the Unix
/// epoch. `deleted_at` is the soft-delete marker: `None` means the note is
/// active, `Some(t)` means it sits in the trash since `t`.
pub struct Note {
    pub id: Option<i64>,
    pub content: String,
    pub screenshot_path: Option<String>,
    pub created_at: i64,
    pub updated_at: Option<i64>,
    pub is_pinned: bool,
    pub color: Option<String>,
    pub category_id: Option<i64>,
    pub deleted_at: Option<i64>,
}

/// A reminder owned by a note. `completed` is the triggered flag; it moves
/// from `false` to `true` and is never unset by any operation.
pub struct NoteReminder {
    pub id: Option<i64>,
    pub note_id: i64,
    pub reminder_time: i64,
    pub completed: bool,
    pub created_at: i64,
}

/// A category that notes may reference weakly through `category_id`.
pub struct Category {
    pub id: Option<i64>,
    pub name: String,
    pub color: Option<String>,
}

/// The sort keys a caller may ask listings for. Pinned notes always come
/// first; the chosen key breaks the tie.
#[derive(Clone, Copy, Debug, PartialEq, Eq, Structural)]
pub enum NoteSortOption {
    CreatedTimeDesc,
    CreatedTimeAsc,
    UpdatedTimeDesc,
    UpdatedTimeAsc,
}

// ---------------------------------------------------------------------------
// Mathematical views
// ---------------------------------------------------------------------------

/// The mathematical value of a `Note`.
#[verifier::ext_equal]
pub struct NoteModel {
    pub id: Option<int>,
    pub content: Seq<char>,
    pub screenshot_path: Option<Seq<char>>,
    pub created_at: int,
    pub updated_at: Option<int>,
    pub is_pinned: bool,
    pub color: Option<Seq<char>>,
    pub category_id: Option<int>,
    pub deleted_at: Option<int>,
}

/// The mathematical value of a `NoteReminder`.
#[verifier::ext_equal]
pub struct ReminderModel {
    pub id: Option<int>,
    pub note_id: int,
    pub reminder_time: int,
    pub completed: bool,
    pub created_at: int,
}

/// The mathematical value of a `Category`.
#[verifier::ext_equal]
pub struct CategoryModel {
    pub id: Option<int>,
    pub name: Seq<char>,
    pub color: Option<Seq<char>>,
}

pub open spec fn view_opt_int(o: Option<i64>) -> Option<int> {
    match o {
        Some(v) => Some(v as int),
        None => None,
    }
}

pub open spec fn view_opt_str(o: Option<String>) -> Option<Seq<char>> {
    match o {
        Some(s) => Some(s@),
        None => None,
    }
}

impl View for Note {
    type V = NoteModel;

    open spec fn view(&self) -> NoteModel {
        NoteModel {
            id: view_opt_int(self.id),
            content: self.content@,
            screenshot_path: view_opt_str(self.screenshot_path),
            created_at: self.created_at as int,
            updated_at: view_opt_int(self.updated_at),
            is_pinned: self.is_pinned,
            color: view_opt_str(self.color),
            category_id: view_opt_int(self.category_id),
            deleted_at: view_opt_int(self.deleted_at),
        }
    }
}

impl View for NoteReminder {
    type V = ReminderModel;

    open spec fn view(&self) -> ReminderModel {
        ReminderModel {
            id: view_opt_int(self.id),
            note_id: self.note_id as int,
            reminder_time: self.reminder_time as int,
            completed: self.completed,
            created_at: self.created_at as int,
        }
    }
}

impl View for Category {
    type V = CategoryModel;

    open spec fn view(&self) -> CategoryModel {
        CategoryModel {
            id: view_opt_int(self.id),
            name: self.name@,
            color: view_opt_str(self.color),
        }
    }
}

// ---------------------------------------------------------------------------
// Copy helpers (field-wise, so the copies have a known view)
// ---------------------------------------------------------------------------

pub fn clone_opt_string(o: &Option<String>) -> (r: Option<String>)
    ensures
        view_opt_str(r) == view_opt_str(*o),
{
    match o {
        Some(s) => Some(s.clone()),
        None => None,
    }
}

pub fn clone_note(n: &Note) -> (r: Note)
    ensures
        r@ == n@,
{
    Note {
        id: n.id,
        content: n.content.clone(),
        screenshot_path: clone_opt_string(&n.screenshot_path),
        created_at: n.created_at,
        updated_at: n.updated_at,
        is_pinned: n.is_pinned,
        color: clone_opt_string(&n.color),
        category_id: n.category_id,
        deleted_at: n.deleted_at,
    }
}

pub fn clone_reminder(r0: &NoteReminder) -> (r: NoteReminder)
    ensures
        r@ == r0@,
{
    NoteReminder {
        id: r0.id,
        note_id: r0.note_id,
        reminder_time: r0.reminder_time,
        completed: r0.completed,
        created_at: r0.created_at,
    }
}

pub fn clone_category(c: &Category) -> (r: Category)
    ensures
        r@ == c@,
{
    Category {
        id: c.id,
        name: c.name.clone(),
        color: clone_opt_string(&c.color),
    }
}

} // verus!
