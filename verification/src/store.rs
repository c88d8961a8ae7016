use vstd::prelude::*;
use crate::model::{Category, CategoryModel, Note, NoteModel, NoteReminder, ReminderModel};
use crate::errors::StoreError;

verus! {

// ---------------------------------------------------------------------------
// The storage engine and its mathematical model
// ---------------------------------------------------------------------------

/// The storage engine: three tables of records and the id counters that the
/// backing store's rowid allocation is modelled by. One instance owns the
/// whole store; the surrounding process serializes access to it and mirrors
/// it into the persisted database file.
pub struct Database {
    pub notes: Vec<Note>,
    pub categories: Vec<Category>,
    pub reminders: Vec<NoteReminder>,
    pub next_note_id: i64,
    pub next_category_id: i64,
    pub next_reminder_id: i64,
}

/// The mathematical value of a `Database`.
#[verifier::ext_equal]
pub struct DbModel {
    pub notes: Seq<NoteModel>,
    pub categories: Seq<CategoryModel>,
    pub reminders: Seq<ReminderModel>,
    pub next_note_id: int,
    pub next_category_id: int,
    pub next_reminder_id: int,
}

impl View for Database {
    type V = DbModel;

    open spec fn view(&self) -> DbModel {
        DbModel {
            notes: self.notes@.map_values(|n: Note| n@),
            categories: self.categories@.map_values(|c: Category| c@),
            reminders: self.reminders@.map_values(|r: NoteReminder| r@),
            next_note_id: self.next_note_id as int,
            next_category_id: self.next_category_id as int,
            next_reminder_id: self.next_reminder_id as int,
        }
    }
}

// ---------------------------------------------------------------------------
// Lookup by id
// ---------------------------------------------------------------------------

pub open spec fn contains_note_id(s: Seq<NoteModel>, id: int) -> bool {
    exists|i: int| 0 <= i < s.len() && (#[trigger] s[i]).id == Some(id)
}

pub open spec fn note_index_of(s: Seq<NoteModel>, id: int) -> int {
    choose|i: int| 0 <= i < s.len() && (#[trigger] s[i]).id == Some(id)
}

/// The note stored under `id`, if any. With unique ids this is the one
/// matching record.
pub open spec fn find_note(s: Seq<NoteModel>, id: int) -> Option<NoteModel> {
    if contains_note_id(s, id) {
        Some(s[note_index_of(s, id)])
    } else {
        None
    }
}

pub open spec fn contains_category_id(s: Seq<CategoryModel>, id: int) -> bool {
    exists|i: int| 0 <= i < s.len() && (#[trigger] s[i]).id == Some(id)
}

pub open spec fn category_index_of(s: Seq<CategoryModel>, id: int) -> int {
    choose|i: int| 0 <= i < s.len() && (#[trigger] s[i]).id == Some(id)
}

pub open spec fn find_category(s: Seq<CategoryModel>, id: int) -> Option<CategoryModel> {
    if contains_category_id(s, id) {
        Some(s[category_index_of(s, id)])
    } else {
        None
    }
}

pub open spec fn contains_reminder_id(s: Seq<ReminderModel>, id: int) -> bool {
    exists|i: int| 0 <= i < s.len() && (#[trigger] s[i]).id == Some(id)
}

pub open spec fn reminder_index_of(s: Seq<ReminderModel>, id: int) -> int {
    choose|i: int| 0 <= i < s.len() && (#[trigger] s[i]).id == Some(id)
}

pub open spec fn find_reminder(s: Seq<ReminderModel>, id: int) -> Option<ReminderModel> {
    if contains_reminder_id(s, id) {
        Some(s[reminder_index_of(s, id)])
    } else {
        None
    }
}

// ---------------------------------------------------------------------------
// Well-formedness
// ---------------------------------------------------------------------------

pub open spec fn unique_note_ids(s: Seq<NoteModel>) -> bool {
    forall|i: int, j: int|
        0 <= i < j < s.len() ==> (#[trigger] s[i]).id != (#[trigger] s[j]).id
}

pub open spec fn unique_category_ids(s: Seq<CategoryModel>) -> bool {
    forall|i: int, j: int|
        0 <= i < j < s.len() ==> (#[trigger] s[i]).id != (#[trigger] s[j]).id
}

pub open spec fn unique_reminder_ids(s: Seq<ReminderModel>) -> bool {
    forall|i: int, j: int|
        0 <= i < j < s.len() ==> (#[trigger] s[i]).id != (#[trigger] s[j]).id
}

/// Every stored record carries an id in `1 ..= i64::MAX`, already allocated
/// (below the table's next counter).
pub open spec fn note_id_bounded(n: NoteModel, next: int) -> bool {
    n.id matches Some(id) && 1 <= id < next
}

pub open spec fn category_id_bounded(c: CategoryModel, next: int) -> bool {
    c.id matches Some(id) && 1 <= id < next
}

pub open spec fn reminder_id_bounded(r: ReminderModel, next: int) -> bool {
    r.id matches Some(id) && 1 <= id < next
}

/// The storage invariant: ids are allocated, unique within their table;
/// every reminder's owning note exists; every note's category reference, when
/// present, points at an existing category.
pub open spec fn wf_model(m: DbModel) -> bool {
    &&& 1 <= m.next_note_id <= i64::MAX
    &&& 1 <= m.next_category_id <= i64::MAX
    &&& 1 <= m.next_reminder_id <= i64::MAX
    &&& m.notes.len() < m.next_note_id
    &&& m.categories.len() < m.next_category_id
    &&& m.reminders.len() < m.next_reminder_id
    &&& forall|i: int|
        0 <= i < m.notes.len() ==> note_id_bounded(#[trigger] m.notes[i], m.next_note_id)
    &&& forall|i: int|
        0 <= i < m.categories.len() ==> category_id_bounded(
            #[trigger] m.categories[i],
            m.next_category_id,
        )
    &&& forall|i: int|
        0 <= i < m.reminders.len() ==> reminder_id_bounded(
            #[trigger] m.reminders[i],
            m.next_reminder_id,
        )
    &&& unique_note_ids(m.notes)
    &&& unique_category_ids(m.categories)
    &&& unique_reminder_ids(m.reminders)
    &&& forall|i: int|
        0 <= i < m.reminders.len() ==> contains_note_id(
            m.notes,
            (#[trigger] m.reminders[i]).note_id,
        )
    &&& forall|i: int|
        0 <= i < m.notes.len() ==> ((#[trigger] m.notes[i]).category_id matches Some(c)
            ==> contains_category_id(m.categories, c))
}

impl Database {
    pub open spec fn wf(&self) -> bool {
        wf_model(self@)
    }

    /// An empty store with fresh id counters: the state right after the
    /// schema has been created in a new database file.
    pub fn new() -> (r: Database)
        ensures
            r.wf(),
            r@.notes == Seq::<NoteModel>::empty(),
            r@.categories == Seq::<CategoryModel>::empty(),
            r@.reminders == Seq::<ReminderModel>::empty(),
            r@.next_note_id == 1,
            r@.next_category_id == 1,
            r@.next_reminder_id == 1,
    {
        let r = Database {
            notes: Vec::new(),
            categories: Vec::new(),
            reminders: Vec::new(),
            next_note_id: 1,
            next_category_id: 1,
            next_reminder_id: 1,
        };
        proof {
            assert(r@.notes =~= Seq::<NoteModel>::empty());
            assert(r@.categories =~= Seq::<CategoryModel>::empty());
            assert(r@.reminders =~= Seq::<ReminderModel>::empty());
        }
        r
    }

    /// Index of the note stored under `id`, if any.
    pub(crate) fn find_note_index(&self, id: i64) -> (r: Option<usize>)
        ensures
            match r {
                Some(i) => i < self.notes.len() && self@.notes[i as int].id == Some(id as int),
                None => !contains_note_id(self@.notes, id as int),
            },
    {
        let mut i: usize = 0;
        while i < self.notes.len()
            invariant
                i <= self.notes.len(),
                forall|k: int| 0 <= k < i ==> (#[trigger] self@.notes[k]).id != Some(id as int),
            decreases self.notes.len() - i,
        {
            let hit = match self.notes[i].id {
                Some(v) => v == id,
                None => false,
            };
            if hit {
                return Some(i);
            }
            i += 1;
        }
        None
    }

    pub(crate) fn find_category_index(&self, id: i64) -> (r: Option<usize>)
        ensures
            match r {
                Some(i) => i < self.categories.len() && self@.categories[i as int].id == Some(
                    id as int,
                ),
                None => !contains_category_id(self@.categories, id as int),
            },
    {
        let mut i: usize = 0;
        while i < self.categories.len()
            invariant
                i <= self.categories.len(),
                forall|k: int|
                    0 <= k < i ==> (#[trigger] self@.categories[k]).id != Some(id as int),
            decreases self.categories.len() - i,
        {
            let hit = match self.categories[i].id {
                Some(v) => v == id,
                None => false,
            };
            if hit {
                return Some(i);
            }
            i += 1;
        }
        None
    }

    pub(crate) fn find_reminder_index(&self, id: i64) -> (r: Option<usize>)
        ensures
            match r {
                Some(i) => i < self.reminders.len() && self@.reminders[i as int].id == Some(
                    id as int,
                ),
                None => !contains_reminder_id(self@.reminders, id as int),
            },
    {
        let mut i: usize = 0;
        while i < self.reminders.len()
            invariant
                i <= self.reminders.len(),
                forall|k: int|
                    0 <= k < i ==> (#[trigger] self@.reminders[k]).id != Some(id as int),
            decreases self.reminders.len() - i,
        {
            let hit = match self.reminders[i].id {
                Some(v) => v == id,
                None => false,
            };
            if hit {
                return Some(i);
            }
            i += 1;
        }
        None
    }
}

// ---------------------------------------------------------------------------
// Uniqueness: a found index is the index, and `find_*` returns that record.
// ---------------------------------------------------------------------------

pub proof fn lemma_find_note_at(s: Seq<NoteModel>, id: int, i: int)
    requires
        unique_note_ids(s),
        0 <= i < s.len(),
        s[i].id == Some(id),
    ensures
        contains_note_id(s, id),
        note_index_of(s, id) == i,
        find_note(s, id) == Some(s[i]),
{
    assert(contains_note_id(s, id));
    let j = note_index_of(s, id);
    assert(0 <= j < s.len() && s[j].id == Some(id));
    if i != j {
        assert(s[i].id != s[j].id);
    }
}

pub proof fn lemma_find_category_at(s: Seq<CategoryModel>, id: int, i: int)
    requires
        unique_category_ids(s),
        0 <= i < s.len(),
        s[i].id == Some(id),
    ensures
        contains_category_id(s, id),
        category_index_of(s, id) == i,
        find_category(s, id) == Some(s[i]),
{
    assert(contains_category_id(s, id));
    let j = category_index_of(s, id);
    assert(0 <= j < s.len() && s[j].id == Some(id));
    if i != j {
        assert(s[i].id != s[j].id);
    }
}

pub proof fn lemma_find_reminder_at(s: Seq<ReminderModel>, id: int, i: int)
    requires
        unique_reminder_ids(s),
        0 <= i < s.len(),
        s[i].id == Some(id),
    ensures
        contains_reminder_id(s, id),
        reminder_index_of(s, id) == i,
        find_reminder(s, id) == Some(s[i]),
{
    assert(contains_reminder_id(s, id));
    let j = reminder_index_of(s, id);
    assert(0 <= j < s.len() && s[j].id == Some(id));
    if i != j {
        assert(s[i].id != s[j].id);
    }
}

/// A result of type `Result<i64, StoreError>` as its mathematical value.
pub open spec fn view_res_i64(r: Result<i64, StoreError>) -> Result<int, StoreError> {
    match r {
        Ok(v) => Ok(v as int),
        Err(e) => Err(e),
    }
}

} // verus!
