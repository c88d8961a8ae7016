use vstd::prelude::*;
use crate::clock::now_timestamp;
use crate::errors::StoreError;
use crate::model::{clone_note, clone_opt_string, clone_reminder, Note, NoteModel, NoteReminder, ReminderModel};
use crate::store::{
    contains_category_id, contains_note_id, find_note, lemma_find_note_at, note_id_bounded,
    note_index_of, reminder_id_bounded, view_res_i64, wf_model, Database, DbModel,
};

verus! {

// ---------------------------------------------------------------------------
// Transitions of the note table, as functions of the model
// ---------------------------------------------------------------------------

/// `n` with its identity set to `id`.
pub open spec fn note_with_id(n: NoteModel, id: int) -> NoteModel {
    NoteModel { id: Some(id), ..n }
}

/// An update of `prev` to `n`'s fields: identity and creation time are kept,
/// everything else is taken from `n`.
pub open spec fn merged_note(prev: NoteModel, n: NoteModel) -> NoteModel {
    NoteModel { id: prev.id, created_at: prev.created_at, ..n }
}

/// A category reference is admissible when it is absent or names an existing
/// category.
pub open spec fn category_ref_ok(m: DbModel, cat: Option<int>) -> bool {
    cat matches Some(c) ==> contains_category_id(m.categories, c)
}

/// Saving a note: a note without identity is inserted under the next free id;
/// one with identity updates the stored record of that id, keeping its
/// creation time. A missing target id or a dangling category reference is
/// refused with `NotFound` and leaves the store unchanged.
pub open spec fn spec_save_note(m: DbModel, n: NoteModel) -> (DbModel, Result<
    int,
    StoreError,
>) {
    if !category_ref_ok(m, n.category_id) {
        (m, Err(StoreError::NotFound))
    } else {
        match n.id {
            None => (
                DbModel {
                    notes: m.notes.push(note_with_id(n, m.next_note_id)),
                    next_note_id: m.next_note_id + 1,
                    ..m
                },
                Ok(m.next_note_id),
            ),
            Some(id) => {
                if contains_note_id(m.notes, id) {
                    let i = note_index_of(m.notes, id);
                    (
                        DbModel { notes: m.notes.update(i, merged_note(m.notes[i], n)), ..m },
                        Ok(id),
                    )
                } else {
                    (m, Err(StoreError::NotFound))
                }
            },
        }
    }
}

/// The note model that `add_note` inserts.
pub open spec fn fresh_note(
    content: Seq<char>,
    screenshot_path: Option<Seq<char>>,
    now: int,
) -> NoteModel {
    NoteModel {
        id: None,
        content: content,
        screenshot_path: screenshot_path,
        created_at: now,
        updated_at: None,
        is_pinned: false,
        color: None,
        category_id: None,
        deleted_at: None,
    }
}

/// The note model that `create_note` inserts: as `fresh_note`, but with the
/// update time set and a category reference.
pub open spec fn created_note(
    content: Seq<char>,
    screenshot_path: Option<Seq<char>>,
    category_id: Option<int>,
    now: int,
) -> NoteModel {
    NoteModel {
        id: None,
        content: content,
        screenshot_path: screenshot_path,
        created_at: now,
        updated_at: Some(now),
        is_pinned: false,
        color: None,
        category_id: category_id,
        deleted_at: None,
    }
}

/// `add_note`'s transition for a given timestamp.
pub open spec fn spec_add_note(
    m: DbModel,
    content: Seq<char>,
    screenshot_path: Option<Seq<char>>,
    now: int,
) -> (DbModel, Result<int, StoreError>) {
    spec_save_note(m, fresh_note(content, screenshot_path, now))
}

/// `create_note`'s transition for a given timestamp.
pub open spec fn spec_create_note(
    m: DbModel,
    content: Seq<char>,
    screenshot_path: Option<Seq<char>>,
    category_id: Option<int>,
    now: int,
) -> (DbModel, Result<int, StoreError>) {
    spec_save_note(m, created_note(content, screenshot_path, category_id, now))
}

impl Database {
    /// Insert a new note or update a stored one; see `spec_save_note`.
    pub fn save_note(&mut self, note: &Note) -> (r: Result<i64, StoreError>)
        requires
            old(self).wf(),
            old(self)@.next_note_id < i64::MAX,
        ensures
            final(self).wf(),
            final(self)@ == spec_save_note(old(self)@, note@).0,
            view_res_i64(r) == spec_save_note(old(self)@, note@).1,
    {
        let ghost m0 = self@;
        let cat_ok = match note.category_id {
            None => true,
            Some(c) => self.find_category_index(c).is_some(),
        };
        proof {
            assert(cat_ok == category_ref_ok(m0, note@.category_id));
        }
        if !cat_ok {
            return Err(StoreError::NotFound);
        }
        match note.id {
            None => {
                let id = self.next_note_id;
                let stored = Note {
                    id: Some(id),
                    content: note.content.clone(),
                    screenshot_path: clone_opt_string(&note.screenshot_path),
                    created_at: note.created_at,
                    updated_at: note.updated_at,
                    is_pinned: note.is_pinned,
                    color: clone_opt_string(&note.color),
                    category_id: note.category_id,
                    deleted_at: note.deleted_at,
                };
                proof {
                    assert(stored@ =~= note_with_id(note@, id as int));
                }
                self.notes.push(stored);
                self.next_note_id = id + 1;
                proof {
                    assert(self@.notes =~= m0.notes.push(note_with_id(note@, id as int)));
                    assert(self@ =~= spec_save_note(m0, note@).0);
                    assert(wf_model(self@)) by {
                        assert(forall|i: int|
                            0 <= i < m0.notes.len() ==> self@.notes[i] == m0.notes[i]);
                    }
                }
                Ok(id)
            },
            Some(id) => {
                match self.find_note_index(id) {
                    None => Err(StoreError::NotFound),
                    Some(i) => {
                        proof {
                            lemma_find_note_at(m0.notes, id as int, i as int);
                        }
                        let prev_created = self.notes[i].created_at;
                        let updated = Note {
                            id: Some(id),
                            content: note.content.clone(),
                            screenshot_path: clone_opt_string(&note.screenshot_path),
                            created_at: prev_created,
                            updated_at: note.updated_at,
                            is_pinned: note.is_pinned,
                            color: clone_opt_string(&note.color),
                            category_id: note.category_id,
                            deleted_at: note.deleted_at,
                        };
                        proof {
                            assert(updated@ =~= merged_note(m0.notes[i as int], note@));
                        }
                        self.notes.set(i, updated);
                        proof {
                            assert(self@.notes =~= m0.notes.update(
                                i as int,
                                merged_note(m0.notes[i as int], note@),
                            ));
                            assert(self@ =~= spec_save_note(m0, note@).0);
                            assert(wf_model(self@)) by {
                                assert(forall|k: int|
                                    0 <= k < m0.notes.len() && k != i ==> self@.notes[k]
                                        == m0.notes[k]);
                                assert(self@.notes[i as int].id == m0.notes[i as int].id);
                                assert(forall|k: int|
                                    0 <= k < m0.reminders.len() ==> contains_note_id(
                                        self@.notes,
                                        (#[trigger] m0.reminders[k]).note_id,
                                    )) by {
                                    assert forall|k: int|
                                        0 <= k < m0.reminders.len() implies contains_note_id(
                                        self@.notes,
                                        (#[trigger] m0.reminders[k]).note_id,
                                    ) by {
                                        let nid = m0.reminders[k].note_id;
                                        let w = choose|w: int|
                                            0 <= w < m0.notes.len() && (#[trigger] m0.notes[w]).id
                                                == Some(nid);
                                        assert(self@.notes[w].id == Some(nid));
                                    }
                                }
                            }
                        }
                        Ok(id)
                    },
                }
            },
        }
    }

    /// Insert a plain new note: content and optional screenshot reference,
    /// created now, not pinned, active. Returns the new id.
    pub fn add_note(&mut self, content: &str, screenshot_path: Option<&str>) -> (r: Result<
        i64,
        StoreError,
    >)
        requires
            old(self).wf(),
            old(self)@.next_note_id < i64::MAX,
        ensures
            final(self).wf(),
            exists|now: int|
                #![trigger spec_add_note(old(self)@, content@, view_opt_str_ref(screenshot_path), now)]
                {
                    let step = spec_add_note(
                        old(self)@,
                        content@,
                        view_opt_str_ref(screenshot_path),
                        now,
                    );
                    final(self)@ == step.0 && view_res_i64(r) == step.1
                },
    {
        let owned_path = match screenshot_path {
            Some(p) => Some(p.to_owned()),
            None => None,
        };
        let now = now_timestamp();
        let note = Note {
            id: None,
            content: content.to_owned(),
            screenshot_path: owned_path,
            created_at: now,
            updated_at: None,
            is_pinned: false,
            color: None,
            category_id: None,
            deleted_at: None,
        };
        proof {
            assert(note@ =~= fresh_note(content@, view_opt_str_ref(screenshot_path), now as int));
        }
        let r = self.save_note(&note);
        proof {
            let step = spec_add_note(
                old(self)@,
                content@,
                view_opt_str_ref(screenshot_path),
                now as int,
            );
            assert(self@ == step.0 && view_res_i64(r) == step.1);
        }
        r
    }

    /// Insert a new note with an optional category reference; creation and
    /// update time are both set to now. Returns the new id, or `NotFound` for
    /// a dangling category reference.
    pub fn create_note(
        &mut self,
        content: &str,
        screenshot_path: Option<&str>,
        category_id: Option<i64>,
    ) -> (r: Result<i64, StoreError>)
        requires
            old(self).wf(),
            old(self)@.next_note_id < i64::MAX,
        ensures
            final(self).wf(),
            exists|now: int|
                #![trigger spec_create_note(old(self)@, content@, view_opt_str_ref(screenshot_path), crate::model::view_opt_int(category_id), now)]
                {
                    let step = spec_create_note(
                        old(self)@,
                        content@,
                        view_opt_str_ref(screenshot_path),
                        crate::model::view_opt_int(category_id),
                        now,
                    );
                    final(self)@ == step.0 && view_res_i64(r) == step.1
                },
    {
        let owned_path = match screenshot_path {
            Some(p) => Some(p.to_owned()),
            None => None,
        };
        let now = now_timestamp();
        let note = Note {
            id: None,
            content: content.to_owned(),
            screenshot_path: owned_path,
            created_at: now,
            updated_at: Some(now),
            is_pinned: false,
            color: None,
            category_id: category_id,
            deleted_at: None,
        };
        proof {
            assert(note@ =~= created_note(
                content@,
                view_opt_str_ref(screenshot_path),
                crate::model::view_opt_int(category_id),
                now as int,
            ));
        }
        let r = self.save_note(&note);
        proof {
            let step = spec_create_note(
                old(self)@,
                content@,
                view_opt_str_ref(screenshot_path),
                crate::model::view_opt_int(category_id),
                now as int,
            );
            assert(self@ == step.0 && view_res_i64(r) == step.1);
        }
        r
    }

    /// The note stored under `id`, or `None`. Never fails.
    pub fn get_note(&self, id: i64) -> (r: Result<Option<Note>, StoreError>)
        requires
            self.wf(),
        ensures
            match r {
                Ok(o) => view_opt_note(o) == find_note(self@.notes, id as int),
                Err(_) => false,
            },
    {
        match self.find_note_index(id) {
            None => Ok(None),
            Some(i) => {
                proof {
                    lemma_find_note_at(self@.notes, id as int, i as int);
                }
                Ok(Some(clone_note(&self.notes[i])))
            },
        }
    }
}

/// View of an optional borrowed string.
pub open spec fn view_opt_str_ref(o: Option<&str>) -> Option<Seq<char>> {
    match o {
        Some(s) => Some(s@),
        None => None,
    }
}

/// View of an optional note.
pub open spec fn view_opt_note(o: Option<Note>) -> Option<NoteModel> {
    match o {
        Some(n) => Some(n@),
        None => None,
    }
}


// ---------------------------------------------------------------------------
// Field updates, pinning, soft delete
// ---------------------------------------------------------------------------

/// `update_note`'s transition: the note must exist and the category
/// reference must be admissible; creation time and the soft-delete marker
/// are preserved, the update time is set to `now`.
pub open spec fn spec_update_note(
    m: DbModel,
    id: int,
    content: Seq<char>,
    screenshot_path: Option<Seq<char>>,
    is_pinned: bool,
    color: Option<Seq<char>>,
    category_id: Option<int>,
    now: int,
) -> (DbModel, Result<bool, StoreError>) {
    if !contains_note_id(m.notes, id) {
        (m, Err(StoreError::NotFound))
    } else if !category_ref_ok(m, category_id) {
        (m, Err(StoreError::NotFound))
    } else {
        let i = note_index_of(m.notes, id);
        let prev = m.notes[i];
        let n2 = NoteModel {
            id: prev.id,
            content: content,
            screenshot_path: screenshot_path,
            created_at: prev.created_at,
            updated_at: Some(now),
            is_pinned: is_pinned,
            color: color,
            category_id: category_id,
            deleted_at: prev.deleted_at,
        };
        (DbModel { notes: m.notes.update(i, n2), ..m }, Ok(true))
    }
}

/// `update_note_color`'s transition: only the color tag changes.
pub open spec fn spec_update_note_color(m: DbModel, id: int, color: Seq<char>) -> (
    DbModel,
    Result<(), StoreError>,
) {
    if !contains_note_id(m.notes, id) {
        (m, Err(StoreError::NotFound))
    } else {
        let i = note_index_of(m.notes, id);
        (
            DbModel {
                notes: m.notes.update(i, NoteModel { color: Some(color), ..m.notes[i] }),
                ..m
            },
            Ok(()),
        )
    }
}

/// `update_note_category`'s transition: only the category reference changes,
/// and it must be admissible.
pub open spec fn spec_update_note_category(m: DbModel, id: int, category_id: Option<int>) -> (
    DbModel,
    Result<(), StoreError>,
) {
    if !contains_note_id(m.notes, id) {
        (m, Err(StoreError::NotFound))
    } else if !category_ref_ok(m, category_id) {
        (m, Err(StoreError::NotFound))
    } else {
        let i = note_index_of(m.notes, id);
        (
            DbModel {
                notes: m.notes.update(
                    i,
                    NoteModel { category_id: category_id, ..m.notes[i] },
                ),
                ..m
            },
            Ok(()),
        )
    }
}

/// `toggle_note_pin`'s transition: flip the pin flag of an existing note and
/// report the new state; a missing id is `NotFound`.
pub open spec fn spec_toggle_pin(m: DbModel, id: int) -> (DbModel, Result<bool, StoreError>) {
    if !contains_note_id(m.notes, id) {
        (m, Err(StoreError::NotFound))
    } else {
        let i = note_index_of(m.notes, id);
        let prev = m.notes[i];
        (
            DbModel {
                notes: m.notes.update(i, NoteModel { is_pinned: !prev.is_pinned, ..prev }),
                ..m
            },
            Ok(!prev.is_pinned),
        )
    }
}

/// `move_note_to_trash`'s transition: stamp the note's soft-delete marker
/// with `t`. A missing id is tolerated and changes nothing.
pub open spec fn spec_move_to_trash(m: DbModel, id: int, t: int) -> DbModel {
    if contains_note_id(m.notes, id) {
        let i = note_index_of(m.notes, id);
        DbModel {
            notes: m.notes.update(i, NoteModel { deleted_at: Some(t), ..m.notes[i] }),
            ..m
        }
    } else {
        m
    }
}

/// `restore_note_from_trash`'s transition: clear the soft-delete marker. A
/// missing id is tolerated and changes nothing.
pub open spec fn spec_restore_from_trash(m: DbModel, id: int) -> DbModel {
    if contains_note_id(m.notes, id) {
        let i = note_index_of(m.notes, id);
        DbModel {
            notes: m.notes.update(i, NoteModel { deleted_at: None, ..m.notes[i] }),
            ..m
        }
    } else {
        m
    }
}

/// The batch soft delete, left to right.
pub open spec fn spec_move_many_to_trash(m: DbModel, ids: Seq<int>, t: int) -> DbModel
    decreases ids.len(),
{
    if ids.len() == 0 {
        m
    } else {
        spec_move_to_trash(spec_move_many_to_trash(m, ids.drop_last(), t), ids.last(), t)
    }
}

/// The batch restore, left to right.
pub open spec fn spec_restore_many_from_trash(m: DbModel, ids: Seq<int>) -> DbModel
    decreases ids.len(),
{
    if ids.len() == 0 {
        m
    } else {
        spec_restore_from_trash(spec_restore_many_from_trash(m, ids.drop_last()), ids.last())
    }
}

/// Replacing a note by one with the same identity and an admissible category
/// reference preserves the storage invariant.
pub proof fn lemma_update_note_wf(m: DbModel, i: int, n2: NoteModel)
    requires
        wf_model(m),
        0 <= i < m.notes.len(),
        n2.id == m.notes[i].id,
        category_ref_ok(m, n2.category_id),
    ensures
        wf_model(DbModel { notes: m.notes.update(i, n2), ..m }),
{
    let m2 = DbModel { notes: m.notes.update(i, n2), ..m };
    assert(forall|k: int| 0 <= k < m.notes.len() && k != i ==> m2.notes[k] == m.notes[k]);
    assert(m2.notes[i].id == m.notes[i].id);
    assert forall|k: int| 0 <= k < m2.reminders.len() implies contains_note_id(
        m2.notes,
        (#[trigger] m2.reminders[k]).note_id,
    ) by {
        let nid = m2.reminders[k].note_id;
        let w = choose|w: int|
            0 <= w < m.notes.len() && (#[trigger] m.notes[w]).id == Some(nid);
        assert(m2.notes[w].id == Some(nid));
    }
}

impl Database {
    /// Update an existing note's content, screenshot reference, pin flag,
    /// color and category; `NotFound` when the note does not exist or the
    /// category reference dangles.
    pub fn update_note(
        &mut self,
        id: i64,
        content: &str,
        screenshot_path: Option<&str>,
        is_pinned: bool,
        color: Option<&str>,
        category_id: Option<i64>,
    ) -> (r: Result<bool, StoreError>)
        requires
            old(self).wf(),
            old(self)@.next_note_id < i64::MAX,
        ensures
            final(self).wf(),
            exists|now: int|
                #![trigger spec_update_note(old(self)@, id as int, content@, view_opt_str_ref(screenshot_path), is_pinned, view_opt_str_ref(color), crate::model::view_opt_int(category_id), now)]
                {
                    let step = spec_update_note(
                        old(self)@,
                        id as int,
                        content@,
                        view_opt_str_ref(screenshot_path),
                        is_pinned,
                        view_opt_str_ref(color),
                        crate::model::view_opt_int(category_id),
                        now,
                    );
                    final(self)@ == step.0 && r == step.1
                },
    {
        let ghost m0 = self@;
        let now = now_timestamp();
        match self.find_note_index(id) {
            None => {
                proof {
                    let step = spec_update_note(
                        m0,
                        id as int,
                        content@,
                        view_opt_str_ref(screenshot_path),
                        is_pinned,
                        view_opt_str_ref(color),
                        crate::model::view_opt_int(category_id),
                        now as int,
                    );
                    assert(self@ == step.0 && Err::<bool, StoreError>(StoreError::NotFound)
                        == step.1);
                }
                Err(StoreError::NotFound)
            },
            Some(i) => {
                proof {
                    lemma_find_note_at(m0.notes, id as int, i as int);
                }
                let owned_path = match screenshot_path {
                    Some(p) => Some(p.to_owned()),
                    None => None,
                };
                let owned_color = match color {
                    Some(c) => Some(c.to_owned()),
                    None => None,
                };
                let note = Note {
                    id: Some(id),
                    content: content.to_owned(),
                    screenshot_path: owned_path,
                    created_at: 0,
                    updated_at: Some(now),
                    is_pinned: is_pinned,
                    color: owned_color,
                    category_id: category_id,
                    deleted_at: self.notes[i].deleted_at,
                };
                let saved = self.save_note(&note);
                match saved {
                    Ok(_) => {
                        proof {
                            let step = spec_update_note(
                                m0,
                                id as int,
                                content@,
                                view_opt_str_ref(screenshot_path),
                                is_pinned,
                                view_opt_str_ref(color),
                                crate::model::view_opt_int(category_id),
                                now as int,
                            );
                            assert(merged_note(m0.notes[i as int], note@) =~= NoteModel {
                                id: m0.notes[i as int].id,
                                content: content@,
                                screenshot_path: view_opt_str_ref(screenshot_path),
                                created_at: m0.notes[i as int].created_at,
                                updated_at: Some(now as int),
                                is_pinned: is_pinned,
                                color: view_opt_str_ref(color),
                                category_id: crate::model::view_opt_int(category_id),
                                deleted_at: m0.notes[i as int].deleted_at,
                            });
                            assert(self@ == step.0 && Ok::<bool, StoreError>(true) == step.1);
                        }
                        Ok(true)
                    },
                    Err(e) => {
                        proof {
                            let step = spec_update_note(
                                m0,
                                id as int,
                                content@,
                                view_opt_str_ref(screenshot_path),
                                is_pinned,
                                view_opt_str_ref(color),
                                crate::model::view_opt_int(category_id),
                                now as int,
                            );
                            assert(self@ == step.0 && Err::<bool, StoreError>(e) == step.1);
                        }
                        Err(e)
                    },
                }
            },
        }
    }

    /// Set only the color tag of a note.
    pub fn update_note_color(&mut self, id: i64, color: &str) -> (r: Result<(), StoreError>)
        requires
            old(self).wf(),
        ensures
            final(self).wf(),
            final(self)@ == spec_update_note_color(old(self)@, id as int, color@).0,
            r == spec_update_note_color(old(self)@, id as int, color@).1,
    {
        let ghost m0 = self@;
        match self.find_note_index(id) {
            None => Err(StoreError::NotFound),
            Some(i) => {
                proof {
                    lemma_find_note_at(m0.notes, id as int, i as int);
                }
                let mut c = clone_note(&self.notes[i]);
                c.color = Some(color.to_owned());
                proof {
                    assert(c@ =~= NoteModel { color: Some(color@), ..m0.notes[i as int] });
                }
                self.notes.set(i, c);
                proof {
                    assert(self@.notes =~= m0.notes.update(
                        i as int,
                        NoteModel { color: Some(color@), ..m0.notes[i as int] },
                    ));
                    assert(self@ =~= spec_update_note_color(m0, id as int, color@).0);
                    lemma_update_note_wf(
                        m0,
                        i as int,
                        NoteModel { color: Some(color@), ..m0.notes[i as int] },
                    );
                }
                Ok(())
            },
        }
    }

    /// Move a note to another category (or out of any); `NotFound` when the
    /// note does not exist or the category reference dangles.
    pub fn update_note_category(&mut self, id: i64, category_id: Option<i64>) -> (r: Result<
        (),
        StoreError,
    >)
        requires
            old(self).wf(),
        ensures
            final(self).wf(),
            final(self)@ == spec_update_note_category(
                old(self)@,
                id as int,
                crate::model::view_opt_int(category_id),
            ).0,
            r == spec_update_note_category(
                old(self)@,
                id as int,
                crate::model::view_opt_int(category_id),
            ).1,
    {
        let ghost m0 = self@;
        match self.find_note_index(id) {
            None => Err(StoreError::NotFound),
            Some(i) => {
                proof {
                    lemma_find_note_at(m0.notes, id as int, i as int);
                }
                let cat_ok = match category_id {
                    None => true,
                    Some(c) => self.find_category_index(c).is_some(),
                };
                proof {
                    assert(cat_ok == category_ref_ok(
                        m0,
                        crate::model::view_opt_int(category_id),
                    ));
                }
                if !cat_ok {
                    return Err(StoreError::NotFound);
                }
                let mut c = clone_note(&self.notes[i]);
                c.category_id = category_id;
                proof {
                    assert(c@ =~= NoteModel {
                        category_id: crate::model::view_opt_int(category_id),
                        ..m0.notes[i as int]
                    });
                }
                self.notes.set(i, c);
                proof {
                    assert(self@.notes =~= m0.notes.update(
                        i as int,
                        NoteModel {
                            category_id: crate::model::view_opt_int(category_id),
                            ..m0.notes[i as int]
                        },
                    ));
                    assert(self@ =~= spec_update_note_category(
                        m0,
                        id as int,
                        crate::model::view_opt_int(category_id),
                    ).0);
                    lemma_update_note_wf(
                        m0,
                        i as int,
                        NoteModel {
                            category_id: crate::model::view_opt_int(category_id),
                            ..m0.notes[i as int]
                        },
                    );
                }
                Ok(())
            },
        }
    }

    /// Flip a note's pin flag under the engine's exclusive access and return
    /// the new state; `NotFound` for a missing id.
    pub fn toggle_note_pin(&mut self, id: i64) -> (r: Result<bool, StoreError>)
        requires
            old(self).wf(),
        ensures
            final(self).wf(),
            final(self)@ == spec_toggle_pin(old(self)@, id as int).0,
            r == spec_toggle_pin(old(self)@, id as int).1,
    {
        let ghost m0 = self@;
        match self.find_note_index(id) {
            None => Err(StoreError::NotFound),
            Some(i) => {
                proof {
                    lemma_find_note_at(m0.notes, id as int, i as int);
                }
                let new_state = !self.notes[i].is_pinned;
                let mut c = clone_note(&self.notes[i]);
                c.is_pinned = new_state;
                proof {
                    assert(c@ =~= NoteModel { is_pinned: new_state, ..m0.notes[i as int] });
                }
                self.notes.set(i, c);
                proof {
                    assert(self@.notes =~= m0.notes.update(
                        i as int,
                        NoteModel { is_pinned: new_state, ..m0.notes[i as int] },
                    ));
                    assert(self@ =~= spec_toggle_pin(m0, id as int).0);
                    lemma_update_note_wf(
                        m0,
                        i as int,
                        NoteModel { is_pinned: new_state, ..m0.notes[i as int] },
                    );
                }
                Ok(new_state)
            },
        }
    }

    /// Stamp a note's soft-delete marker with `timestamp`. A missing id is a
    /// tolerated no-op.
    pub fn move_note_to_trash(&mut self, id: i64, timestamp: i64) -> (r: Result<(), StoreError>)
        requires
            old(self).wf(),
        ensures
            final(self).wf(),
            final(self)@ == spec_move_to_trash(old(self)@, id as int, timestamp as int),
            r == Ok::<(), StoreError>(()),
    {
        let ghost m0 = self@;
        match self.find_note_index(id) {
            None => Ok(()),
            Some(i) => {
                proof {
                    lemma_find_note_at(m0.notes, id as int, i as int);
                }
                let mut c = clone_note(&self.notes[i]);
                c.deleted_at = Some(timestamp);
                proof {
                    assert(c@ =~= NoteModel {
                        deleted_at: Some(timestamp as int),
                        ..m0.notes[i as int]
                    });
                }
                self.notes.set(i, c);
                proof {
                    assert(self@.notes =~= m0.notes.update(
                        i as int,
                        NoteModel { deleted_at: Some(timestamp as int), ..m0.notes[i as int] },
                    ));
                    assert(self@ =~= spec_move_to_trash(m0, id as int, timestamp as int));
                    lemma_update_note_wf(
                        m0,
                        i as int,
                        NoteModel { deleted_at: Some(timestamp as int), ..m0.notes[i as int] },
                    );
                }
                Ok(())
            },
        }
    }

    /// Clear a note's soft-delete marker. A missing id is a tolerated no-op.
    pub fn restore_note_from_trash(&mut self, id: i64) -> (r: Result<(), StoreError>)
        requires
            old(self).wf(),
        ensures
            final(self).wf(),
            final(self)@ == spec_restore_from_trash(old(self)@, id as int),
            r == Ok::<(), StoreError>(()),
    {
        let ghost m0 = self@;
        match self.find_note_index(id) {
            None => Ok(()),
            Some(i) => {
                proof {
                    lemma_find_note_at(m0.notes, id as int, i as int);
                }
                let mut c = clone_note(&self.notes[i]);
                c.deleted_at = None;
                proof {
                    assert(c@ =~= NoteModel { deleted_at: None, ..m0.notes[i as int] });
                }
                self.notes.set(i, c);
                proof {
                    assert(self@.notes =~= m0.notes.update(
                        i as int,
                        NoteModel { deleted_at: None, ..m0.notes[i as int] },
                    ));
                    assert(self@ =~= spec_restore_from_trash(m0, id as int));
                    lemma_update_note_wf(
                        m0,
                        i as int,
                        NoteModel { deleted_at: None, ..m0.notes[i as int] },
                    );
                }
                Ok(())
            },
        }
    }

    /// Soft-delete each listed note that exists, all stamped with one
    /// timestamp; missing ids are skipped.
    pub fn move_notes_to_trash(&mut self, ids: &Vec<i64>) -> (r: Result<(), StoreError>)
        requires
            old(self).wf(),
        ensures
            final(self).wf(),
            exists|t: int|
                #![trigger spec_move_many_to_trash(old(self)@, seq_int(ids@), t)]
                final(self)@ == spec_move_many_to_trash(old(self)@, seq_int(ids@), t),
            r == Ok::<(), StoreError>(()),
    {
        let ghost m0 = self@;
        let now = now_timestamp();
        let mut i: usize = 0;
        while i < ids.len()
            invariant
                self.wf(),
                i <= ids.len(),
                self@ == spec_move_many_to_trash(m0, seq_int(ids@).take(i as int), now as int),
            decreases ids.len() - i,
        {
            let ghost prefix = seq_int(ids@).take(i as int);
            let _ = self.move_note_to_trash(ids[i], now);
            proof {
                assert(seq_int(ids@).take(i as int + 1).drop_last() =~= prefix);
                assert(seq_int(ids@).take(i as int + 1).last() == ids@[i as int] as int);
            }
            i += 1;
        }
        proof {
            assert(seq_int(ids@).take(ids@.len() as int) =~= seq_int(ids@));
        }
        Ok(())
    }

    /// Restore each listed note that exists; missing ids are skipped.
    pub fn restore_notes_from_trash(&mut self, ids: &Vec<i64>) -> (r: Result<(), StoreError>)
        requires
            old(self).wf(),
        ensures
            final(self).wf(),
            final(self)@ == spec_restore_many_from_trash(old(self)@, seq_int(ids@)),
            r == Ok::<(), StoreError>(()),
    {
        let ghost m0 = self@;
        let mut i: usize = 0;
        while i < ids.len()
            invariant
                self.wf(),
                i <= ids.len(),
                self@ == spec_restore_many_from_trash(m0, seq_int(ids@).take(i as int)),
            decreases ids.len() - i,
        {
            let ghost prefix = seq_int(ids@).take(i as int);
            let _ = self.restore_note_from_trash(ids[i]);
            proof {
                assert(seq_int(ids@).take(i as int + 1).drop_last() =~= prefix);
                assert(seq_int(ids@).take(i as int + 1).last() == ids@[i as int] as int);
            }
            i += 1;
        }
        proof {
            assert(seq_int(ids@).take(ids@.len() as int) =~= seq_int(ids@));
        }
        Ok(())
    }
}

/// A sequence of machine ids as mathematical integers.
pub open spec fn seq_int(s: Seq<i64>) -> Seq<int> {
    s.map_values(|x: i64| x as int)
}


// ---------------------------------------------------------------------------
// Permanent deletion and trash retention
// ---------------------------------------------------------------------------

/// `delete_note_permanently`'s transition: drop every reminder owned by the
/// note, then the note row itself. A missing id still clears any reminders
/// that name it (there are none in a well-formed store).
pub open spec fn not_reminder_of(id: int) -> spec_fn(ReminderModel) -> bool {
    |r: ReminderModel| r.note_id != id
}

pub open spec fn spec_delete_note_permanently(m: DbModel, id: int) -> DbModel {
    DbModel {
        notes: if contains_note_id(m.notes, id) {
            m.notes.remove(note_index_of(m.notes, id))
        } else {
            m.notes
        },
        reminders: m.reminders.filter(not_reminder_of(id)),
        ..m
    }
}

/// The batch permanent delete, left to right.
pub open spec fn spec_delete_many_permanently(m: DbModel, ids: Seq<int>) -> DbModel
    decreases ids.len(),
{
    if ids.len() == 0 {
        m
    } else {
        spec_delete_note_permanently(spec_delete_many_permanently(m, ids.drop_last()), ids.last())
    }
}

/// A note is expired once its soft-delete stamp lies before the threshold.
pub open spec fn note_expired(n: NoteModel, threshold: int) -> bool {
    n.deleted_at matches Some(d) && d < threshold
}

/// The note that a reminder references is expired.
pub open spec fn owner_expired(m: DbModel, note_id: int, threshold: int) -> bool {
    find_note(m.notes, note_id) matches Some(n) && note_expired(n, threshold)
}

/// `cleanup_trash`'s transition and count: every expired note leaves,
/// together with all its reminders, in one step.
/// Keep a note that is not expired.
pub open spec fn surviving_note(threshold: int) -> spec_fn(NoteModel) -> bool {
    |n: NoteModel| !note_expired(n, threshold)
}

/// An expired note (the complement, for the count).
pub open spec fn expired_note(threshold: int) -> spec_fn(NoteModel) -> bool {
    |n: NoteModel| note_expired(n, threshold)
}

/// Keep a reminder whose owning note is not expired.
pub open spec fn surviving_reminder(m: DbModel, threshold: int) -> spec_fn(ReminderModel) -> bool {
    |r: ReminderModel| !owner_expired(m, r.note_id, threshold)
}

pub open spec fn spec_cleanup_trash(m: DbModel, threshold: int) -> (DbModel, int) {
    (
        DbModel {
            notes: m.notes.filter(surviving_note(threshold)),
            reminders: m.reminders.filter(surviving_reminder(m, threshold)),
            ..m
        },
        m.notes.filter(expired_note(threshold)).len() as int,
    )
}

/// The retention threshold: `now` minus the retention period in seconds,
/// clamped at the representable minimum.
pub open spec fn trash_threshold(now: int, days: int) -> int {
    if now - days * 86400 >= i64::MIN {
        now - days * 86400
    } else {
        i64::MIN as int
    }
}

/// `spec_cleanup_trash` at a threshold computed from the clock.
pub open spec fn spec_cleanup_trash_days(m: DbModel, days: int, now: int) -> (DbModel, int) {
    spec_cleanup_trash(m, trash_threshold(now, days))
}

/// Removing the note at `i` keeps every other id present.
pub proof fn lemma_remove_keeps_other_ids(s: Seq<NoteModel>, i: int, nid: int)
    requires
        0 <= i < s.len(),
        contains_note_id(s, nid),
        s[i].id != Some(nid),
    ensures
        contains_note_id(s.remove(i), nid),
{
    let w = choose|w: int| 0 <= w < s.len() && (#[trigger] s[w]).id == Some(nid);
    s.remove_ensures(i);
    if w < i {
        assert(s.remove(i)[w].id == Some(nid));
    } else {
        assert(s.remove(i)[w - 1].id == Some(nid));
    }
}

impl Database {
    /// Permanently erase a note and, first, every reminder owned by it; both
    /// removals land together, never one without the other.
    pub fn delete_note_permanently(&mut self, id: i64) -> (r: Result<(), StoreError>)
        requires
            old(self).wf(),
        ensures
            final(self).wf(),
            final(self)@ == spec_delete_note_permanently(old(self)@, id as int),
            r == Ok::<(), StoreError>(()),
    {
        let ghost m0 = self@;
        let ghost pred = not_reminder_of(id as int);
        let mut kept: Vec<NoteReminder> = Vec::new();
        let mut i: usize = 0;
        proof {
            assert(m0.reminders.take(0) =~= Seq::<ReminderModel>::empty());
            reveal(Seq::filter);
            assert(kept@.map_values(|x: NoteReminder| x@) =~= m0.reminders.take(0).filter(pred));
        }
        while i < self.reminders.len()
            invariant
                i <= self.reminders.len(),
                pred == not_reminder_of(id as int),
                self.reminders@.map_values(|x: NoteReminder| x@) == m0.reminders,
                kept@.map_values(|x: NoteReminder| x@) == m0.reminders.take(i as int).filter(
                    pred,
                ),
            decreases self.reminders.len() - i,
        {
            let ghost prefix = m0.reminders.take(i as int);
            let keep = self.reminders[i].note_id != id;
            if keep {
                kept.push(clone_reminder(&self.reminders[i]));
            }
            proof {
                assert(m0.reminders.take(i as int + 1).drop_last() =~= prefix);
                assert(m0.reminders.take(i as int + 1).last() == m0.reminders[i as int]);
                assert(prefix.push(m0.reminders[i as int]) =~= m0.reminders.take(i as int + 1));
                crate::order::lemma_filter_push(prefix, m0.reminders[i as int], pred);
                if keep {
                    assert(kept@.map_values(|x: NoteReminder| x@) =~= prefix.filter(pred).push(
                        m0.reminders[i as int],
                    ));
                } else {
                    assert(kept@.map_values(|x: NoteReminder| x@) =~= prefix.filter(pred));
                }
            }
            i += 1;
        }
        proof {
            assert(m0.reminders.take(m0.reminders.len() as int) =~= m0.reminders);
        }
        self.reminders = kept;
        match self.find_note_index(id) {
            None => {
                proof {
                    assert(self@.notes =~= m0.notes);
                    assert(self@ =~= spec_delete_note_permanently(m0, id as int));
                    lemma_cascade_wf(m0, self@, id as int);
                }
                Ok(())
            },
            Some(j) => {
                proof {
                    lemma_find_note_at(m0.notes, id as int, j as int);
                }
                self.notes.remove(j);
                proof {
                    assert(self@.notes =~= m0.notes.remove(j as int));
                    assert(self@ =~= spec_delete_note_permanently(m0, id as int));
                    lemma_cascade_wf(m0, self@, id as int);
                }
                Ok(())
            },
        }
    }

    /// Permanently erase each listed note with its reminders.
    pub fn permanently_delete_notes(&mut self, ids: &Vec<i64>) -> (r: Result<(), StoreError>)
        requires
            old(self).wf(),
        ensures
            final(self).wf(),
            final(self)@ == spec_delete_many_permanently(old(self)@, seq_int(ids@)),
            r == Ok::<(), StoreError>(()),
    {
        let ghost m0 = self@;
        let mut i: usize = 0;
        while i < ids.len()
            invariant
                self.wf(),
                i <= ids.len(),
                self@ == spec_delete_many_permanently(m0, seq_int(ids@).take(i as int)),
            decreases ids.len() - i,
        {
            let ghost prefix = seq_int(ids@).take(i as int);
            let _ = self.delete_note_permanently(ids[i]);
            proof {
                assert(seq_int(ids@).take(i as int + 1).drop_last() =~= prefix);
                assert(seq_int(ids@).take(i as int + 1).last() == ids@[i as int] as int);
            }
            i += 1;
        }
        proof {
            assert(seq_int(ids@).take(ids@.len() as int) =~= seq_int(ids@));
        }
        Ok(())
    }

    /// Erase every note whose soft-delete stamp lies more than `days` days
    /// before `now`, with its reminders, and report how many notes left.
    /// All removals land together.
    pub fn cleanup_trash_at(&mut self, days: i64, now: i64) -> (r: Result<i32, StoreError>)
        requires
            old(self).wf(),
            0 <= days,
            days * 86400 <= i64::MAX,
            old(self)@.notes.len() <= i32::MAX,
        ensures
            final(self).wf(),
            final(self)@ == spec_cleanup_trash_days(old(self)@, days as int, now as int).0,
            view_res_i32(r) == Ok::<int, StoreError>(
                spec_cleanup_trash_days(old(self)@, days as int, now as int).1,
            ),
    {
        let ghost m0 = self@;
        let secs = days * 86400;
        let threshold = if now >= i64::MIN + secs {
            now - secs
        } else {
            i64::MIN
        };
        proof {
            assert(threshold as int == trash_threshold(now as int, days as int));
        }
        let ghost keep_rem = surviving_reminder(m0, threshold as int);
        let ghost keep_note = surviving_note(threshold as int);
        let ghost gone_note = expired_note(threshold as int);

        // Reminders of expired notes leave first.
        let mut kept_rem: Vec<NoteReminder> = Vec::new();
        let mut i: usize = 0;
        proof {
            assert(m0.reminders.take(0) =~= Seq::<ReminderModel>::empty());
            reveal(Seq::filter);
            assert(kept_rem@.map_values(|x: NoteReminder| x@) =~= m0.reminders.take(0).filter(
                keep_rem,
            ));
        }
        while i < self.reminders.len()
            invariant
                self.wf(),
                self@ == m0,
                i <= self.reminders.len(),
                keep_rem == surviving_reminder(m0, threshold as int),
                kept_rem@.map_values(|x: NoteReminder| x@) == m0.reminders.take(
                    i as int,
                ).filter(keep_rem),
            decreases self.reminders.len() - i,
        {
            let ghost prefix = m0.reminders.take(i as int);
            let owner = self.find_note_index(self.reminders[i].note_id);
            let keep = match owner {
                Some(j) => {
                    proof {
                        lemma_find_note_at(m0.notes, m0.reminders[i as int].note_id, j as int);
                    }
                    match self.notes[j].deleted_at {
                        Some(d) => !(d < threshold),
                        None => true,
                    }
                },
                None => {
                    proof {
                        assert(contains_note_id(m0.notes, m0.reminders[i as int].note_id));
                        assert(false);
                    }
                    true
                },
            };
            proof {
                assert(keep == keep_rem(m0.reminders[i as int]));
            }
            if keep {
                kept_rem.push(clone_reminder(&self.reminders[i]));
            }
            proof {
                assert(prefix.push(m0.reminders[i as int]) =~= m0.reminders.take(i as int + 1));
                crate::order::lemma_filter_push(prefix, m0.reminders[i as int], keep_rem);
                if keep {
                    assert(kept_rem@.map_values(|x: NoteReminder| x@) =~= prefix.filter(
                        keep_rem,
                    ).push(m0.reminders[i as int]));
                } else {
                    assert(kept_rem@.map_values(|x: NoteReminder| x@) =~= prefix.filter(
                        keep_rem,
                    ));
                }
            }
            i += 1;
        }
        proof {
            assert(m0.reminders.take(m0.reminders.len() as int) =~= m0.reminders);
        }

        // Then the expired notes themselves, counted as they leave.
        let mut kept_notes: Vec<Note> = Vec::new();
        let mut removed: i32 = 0;
        let mut k: usize = 0;
        proof {
            assert(m0.notes.take(0) =~= Seq::<NoteModel>::empty());
            reveal(Seq::filter);
            assert(kept_notes@.map_values(|x: Note| x@) =~= m0.notes.take(0).filter(keep_note));
            assert(m0.notes.take(0).filter(gone_note).len() == 0);
        }
        while k < self.notes.len()
            invariant
                self.wf(),
                self@ == m0,
                k <= self.notes.len(),
                m0.notes.len() <= i32::MAX,
                keep_note == surviving_note(threshold as int),
                gone_note == expired_note(threshold as int),
                kept_notes@.map_values(|x: Note| x@) == m0.notes.take(k as int).filter(
                    keep_note,
                ),
                removed as int == m0.notes.take(k as int).filter(gone_note).len(),
                kept_notes@.len() + removed as int == k as int,
            decreases self.notes.len() - k,
        {
            let ghost prefix = m0.notes.take(k as int);
            let expired = match self.notes[k].deleted_at {
                Some(d) => d < threshold,
                None => false,
            };
            proof {
                assert(expired == gone_note(m0.notes[k as int]));
                assert(prefix.push(m0.notes[k as int]) =~= m0.notes.take(k as int + 1));
                crate::order::lemma_filter_push(prefix, m0.notes[k as int], keep_note);
                crate::order::lemma_filter_push(prefix, m0.notes[k as int], gone_note);
            }
            if expired {
                removed = removed + 1;
            } else {
                kept_notes.push(clone_note(&self.notes[k]));
                proof {
                    assert(kept_notes@.map_values(|x: Note| x@) =~= prefix.filter(
                        keep_note,
                    ).push(m0.notes[k as int]));
                }
            }
            k += 1;
        }
        proof {
            assert(m0.notes.take(m0.notes.len() as int) =~= m0.notes);
        }
        self.reminders = kept_rem;
        self.notes = kept_notes;
        proof {
            assert(self@ =~= spec_cleanup_trash(m0, threshold as int).0);
            lemma_cleanup_wf(m0, self@, threshold as int);
        }
        Ok(removed)
    }

    /// `cleanup_trash_at` against the clock: the threshold is `days` days
    /// before the current time.
    pub fn cleanup_trash(&mut self, days: i64) -> (r: Result<i32, StoreError>)
        requires
            old(self).wf(),
            0 <= days,
            days * 86400 <= i64::MAX,
            old(self)@.notes.len() <= i32::MAX,
        ensures
            final(self).wf(),
            exists|now: int|
                #![trigger spec_cleanup_trash_days(old(self)@, days as int, now)]
                {
                    let step = spec_cleanup_trash_days(old(self)@, days as int, now);
                    final(self)@ == step.0 && view_res_i32(r) == Ok::<int, StoreError>(step.1)
                },
    {
        let now = now_timestamp();
        let r = self.cleanup_trash_at(days, now);
        proof {
            let step = spec_cleanup_trash_days(old(self)@, days as int, now as int);
            assert(self@ == step.0 && view_res_i32(r) == Ok::<int, StoreError>(step.1));
        }
        r
    }
}

/// A result of type `Result<i32, StoreError>` as its mathematical value.
pub open spec fn view_res_i32(r: Result<i32, StoreError>) -> Result<int, StoreError> {
    match r {
        Ok(v) => Ok(v as int),
        Err(e) => Err(e),
    }
}

/// The cascade of `delete_note_permanently` preserves the storage invariant.
proof fn lemma_cascade_wf(m: DbModel, m2: DbModel, id: int)
    requires
        wf_model(m),
        m2 == spec_delete_note_permanently(m, id),
    ensures
        wf_model(m2),
{
    let pred = not_reminder_of(id);
    crate::order::lemma_filter_elems(m.reminders, pred);
    crate::order::lemma_filter_unique_by(m.reminders, pred, |r: ReminderModel| r.id);
    if contains_note_id(m.notes, id) {
        let i = note_index_of(m.notes, id);
        m.notes.remove_ensures(i);
        assert(forall|k: int|
            0 <= k < m2.notes.len() ==> m.notes.contains(#[trigger] m2.notes[k]));
        assert forall|k: int, l: int| 0 <= k < l < m2.notes.len() implies (
        #[trigger] m2.notes[k]).id != (#[trigger] m2.notes[l]).id by {
            if l < i {
                assert(m2.notes[k] == m.notes[k] && m2.notes[l] == m.notes[l]);
            } else if k < i {
                assert(m2.notes[k] == m.notes[k] && m2.notes[l] == m.notes[l + 1]);
            } else {
                assert(m2.notes[k] == m.notes[k + 1] && m2.notes[l] == m.notes[l + 1]);
            }
        }
        assert forall|k: int| 0 <= k < m2.reminders.len() implies contains_note_id(
            m2.notes,
            (#[trigger] m2.reminders[k]).note_id,
        ) by {
            assert(m.reminders.contains(m2.reminders[k]));
            let w = choose|w: int|
                0 <= w < m.reminders.len() && m.reminders[w] == m2.reminders[k];
            assert(contains_note_id(m.notes, m2.reminders[k].note_id));
            assert(m2.reminders[k].note_id != id);
            assert(m.notes[i].id == Some(id));
            lemma_remove_keeps_other_ids(m.notes, i, m2.reminders[k].note_id);
        }
        assert forall|k: int| 0 <= k < m2.notes.len() implies ((
        #[trigger] m2.notes[k]).category_id matches Some(c) ==> contains_category_id(
            m2.categories,
            c,
        )) by {
            let w = choose|w: int| 0 <= w < m.notes.len() && m.notes[w] == m2.notes[k];
        }
        assert forall|k: int| 0 <= k < m2.reminders.len() implies reminder_id_bounded(
            #[trigger] m2.reminders[k],
            m2.next_reminder_id,
        ) by {
            let w = choose|w: int|
                0 <= w < m.reminders.len() && m.reminders[w] == m2.reminders[k];
        }
        assert forall|k: int| 0 <= k < m2.notes.len() implies note_id_bounded(
            #[trigger] m2.notes[k],
            m2.next_note_id,
        ) by {
            let w = choose|w: int| 0 <= w < m.notes.len() && m.notes[w] == m2.notes[k];
        }
    } else {
        assert forall|k: int| 0 <= k < m2.reminders.len() implies contains_note_id(
            m2.notes,
            (#[trigger] m2.reminders[k]).note_id,
        ) by {
            assert(m.reminders.contains(m2.reminders[k]));
            let w = choose|w: int|
                0 <= w < m.reminders.len() && m.reminders[w] == m2.reminders[k];
        }
        assert forall|k: int| 0 <= k < m2.reminders.len() implies reminder_id_bounded(
            #[trigger] m2.reminders[k],
            m2.next_reminder_id,
        ) by {
            let w = choose|w: int|
                0 <= w < m.reminders.len() && m.reminders[w] == m2.reminders[k];
        }
    }
}

/// The cascade of `cleanup_trash` preserves the storage invariant.
proof fn lemma_cleanup_wf(m: DbModel, m2: DbModel, threshold: int)
    requires
        wf_model(m),
        m2 == spec_cleanup_trash(m, threshold).0,
    ensures
        wf_model(m2),
{
    let keep_rem = surviving_reminder(m, threshold);
    let keep_note = surviving_note(threshold);
    crate::order::lemma_filter_elems(m.reminders, keep_rem);
    crate::order::lemma_filter_unique_by(m.reminders, keep_rem, |r: ReminderModel| r.id);
    crate::order::lemma_filter_elems(m.notes, keep_note);
    crate::order::lemma_filter_unique_by(m.notes, keep_note, |n: NoteModel| n.id);
    assert(m2.notes.len() <= m.notes.len()) by {
        m.notes.lemma_filter_len(keep_note);
    }
    assert forall|k: int| 0 <= k < m2.notes.len() implies note_id_bounded(
        #[trigger] m2.notes[k],
        m2.next_note_id,
    ) by {
        let w = choose|w: int| 0 <= w < m.notes.len() && m.notes[w] == m2.notes[k];
    }
    assert forall|k: int| 0 <= k < m2.reminders.len() implies reminder_id_bounded(
        #[trigger] m2.reminders[k],
        m2.next_reminder_id,
    ) by {
        let w = choose|w: int|
            0 <= w < m.reminders.len() && m.reminders[w] == m2.reminders[k];
    }
    assert forall|k: int| 0 <= k < m2.notes.len() implies ((
    #[trigger] m2.notes[k]).category_id matches Some(c) ==> contains_category_id(
        m2.categories,
        c,
    )) by {
        let w = choose|w: int| 0 <= w < m.notes.len() && m.notes[w] == m2.notes[k];
    }
    assert forall|k: int| 0 <= k < m2.reminders.len() implies contains_note_id(
        m2.notes,
        (#[trigger] m2.reminders[k]).note_id,
    ) by {
        let r = m2.reminders[k];
        assert(m.reminders.contains(r));
        let w = choose|w: int| 0 <= w < m.reminders.len() && m.reminders[w] == r;
        assert(keep_rem(r));
        assert(contains_note_id(m.notes, r.note_id));
        let nw = choose|nw: int|
            0 <= nw < m.notes.len() && (#[trigger] m.notes[nw]).id == Some(r.note_id);
        lemma_find_note_at(m.notes, r.note_id, nw);
        assert(!note_expired(m.notes[nw], threshold));
        assert(m.notes.filter(keep_note).contains(m.notes[nw]));
        let fw = choose|fw: int|
            0 <= fw < m2.notes.len() && m2.notes[fw] == m.notes[nw];
        assert(m2.notes[fw].id == Some(r.note_id));
    }
}

} // verus!
