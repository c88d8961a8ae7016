use vstd::prelude::*;
use vstd::relations::sorted_by;
use crate::clock::now_timestamp;
use crate::errors::StoreError;
use crate::model::{clone_note, clone_reminder, Note, NoteModel, NoteReminder, ReminderModel};
use crate::order::{
    lemma_filter_push, lemma_insort_position, lemma_reminder_time_leq_props,
    lemma_sort_seq_contains, lemma_sort_seq_len, lemma_sort_seq_sorted, reminder_time_leq,
    sort_seq,
};
use crate::store::{
    contains_note_id, contains_reminder_id, find_note, lemma_find_note_at,
    lemma_find_reminder_at, reminder_index_of, view_res_i64, wf_model, Database, DbModel,
};

verus! {

// ---------------------------------------------------------------------------
// Transitions of the reminder table
// ---------------------------------------------------------------------------

/// Saving a reminder: the owning note must exist. A reminder without
/// identity is inserted under the next free id; one with identity updates
/// the stored record of that id, keeping its creation time, and never unsets
/// the triggered flag.
pub open spec fn spec_save_reminder(m: DbModel, r: ReminderModel) -> (DbModel, Result<
    int,
    StoreError,
>) {
    if !contains_note_id(m.notes, r.note_id) {
        (m, Err(StoreError::NotFound))
    } else {
        match r.id {
            None => (
                DbModel {
                    reminders: m.reminders.push(
                        ReminderModel { id: Some(m.next_reminder_id), ..r },
                    ),
                    next_reminder_id: m.next_reminder_id + 1,
                    ..m
                },
                Ok(m.next_reminder_id),
            ),
            Some(id) => {
                if contains_reminder_id(m.reminders, id) {
                    let i = reminder_index_of(m.reminders, id);
                    let prev = m.reminders[i];
                    (
                        DbModel {
                            reminders: m.reminders.update(
                                i,
                                ReminderModel {
                                    id: prev.id,
                                    note_id: r.note_id,
                                    reminder_time: r.reminder_time,
                                    completed: prev.completed || r.completed,
                                    created_at: prev.created_at,
                                },
                            ),
                            ..m
                        },
                        Ok(id),
                    )
                } else {
                    (m, Err(StoreError::NotFound))
                }
            },
        }
    }
}

/// `add_reminder`'s transition for a given creation timestamp.
pub open spec fn spec_add_reminder(m: DbModel, note_id: int, remind_at: int, now: int) -> (
    DbModel,
    Result<int, StoreError>,
) {
    spec_save_reminder(
        m,
        ReminderModel {
            id: None,
            note_id: note_id,
            reminder_time: remind_at,
            completed: false,
            created_at: now,
        },
    )
}

/// `update_reminder`'s transition: only the scheduled time changes.
pub open spec fn spec_update_reminder(m: DbModel, id: int, remind_at: int) -> (DbModel, Result<
    (),
    StoreError,
>) {
    if !contains_reminder_id(m.reminders, id) {
        (m, Err(StoreError::NotFound))
    } else {
        let i = reminder_index_of(m.reminders, id);
        (
            DbModel {
                reminders: m.reminders.update(
                    i,
                    ReminderModel { reminder_time: remind_at, ..m.reminders[i] },
                ),
                ..m
            },
            Ok(()),
        )
    }
}

/// `mark_reminder_triggered`'s transition: the flag moves to `true` and no
/// operation moves it back.
pub open spec fn spec_mark_triggered(m: DbModel, id: int) -> (DbModel, Result<(), StoreError>) {
    if !contains_reminder_id(m.reminders, id) {
        (m, Err(StoreError::NotFound))
    } else {
        let i = reminder_index_of(m.reminders, id);
        (
            DbModel {
                reminders: m.reminders.update(
                    i,
                    ReminderModel { completed: true, ..m.reminders[i] },
                ),
                ..m
            },
            Ok(()),
        )
    }
}

/// `delete_reminder`'s transition: the row leaves; a missing id is a
/// tolerated no-op.
pub open spec fn spec_delete_reminder(m: DbModel, id: int) -> DbModel {
    if contains_reminder_id(m.reminders, id) {
        DbModel { reminders: m.reminders.remove(reminder_index_of(m.reminders, id)), ..m }
    } else {
        m
    }
}

/// Reminders owned by one note.
pub open spec fn owned_by(note_id: int) -> spec_fn(ReminderModel) -> bool {
    |r: ReminderModel| r.note_id == note_id
}

/// `get_reminders_by_note`: that note's reminders, earliest first.
pub open spec fn spec_reminders_by_note(m: DbModel, note_id: int) -> Seq<ReminderModel> {
    sort_seq(m.reminders.filter(owned_by(note_id)), reminder_time_leq())
}

/// The owning note exists and is not in the trash.
pub open spec fn owner_active(m: DbModel, note_id: int) -> bool {
    find_note(m.notes, note_id) matches Some(n) && n.deleted_at is None
}

/// A reminder is eligible for delivery iff it is untriggered and its owning
/// note is active.
pub open spec fn due_pred(m: DbModel) -> spec_fn(ReminderModel) -> bool {
    |r: ReminderModel| !r.completed && owner_active(m, r.note_id)
}

/// The due reminders, earliest first.
pub open spec fn spec_due_reminders(m: DbModel) -> Seq<ReminderModel> {
    sort_seq(m.reminders.filter(due_pred(m)), reminder_time_leq())
}

/// An optional cap on the front of a listing.
pub open spec fn cap<A>(s: Seq<A>, limit: Option<int>) -> Seq<A> {
    match limit {
        None => s,
        Some(l) => if l < s.len() {
            s.take(l)
        } else {
            s
        },
    }
}

// ---------------------------------------------------------------------------
// A due reminder joined with its owning note
// ---------------------------------------------------------------------------

/// A due reminder together with the note it belongs to, as handed to the
/// notification sink.
pub struct DueReminder {
    pub reminder: NoteReminder,
    pub note: Note,
}

/// The mathematical value of a `DueReminder`.
#[verifier::ext_equal]
pub struct DueModel {
    pub reminder: ReminderModel,
    pub note: NoteModel,
}

impl View for DueReminder {
    type V = DueModel;

    open spec fn view(&self) -> DueModel {
        DueModel { reminder: self.reminder@, note: self.note@ }
    }
}

/// The placeholder owner of an unowned reminder; a well-formed store never
/// produces it.
pub open spec fn empty_note_model() -> NoteModel {
    NoteModel {
        id: None,
        content: Seq::empty(),
        screenshot_path: None,
        created_at: 0,
        updated_at: None,
        is_pinned: false,
        color: None,
        category_id: None,
        deleted_at: None,
    }
}

/// A reminder joined with its owning note.
pub open spec fn with_owner(m: DbModel) -> spec_fn(ReminderModel) -> DueModel {
    |r: ReminderModel|
        DueModel {
            reminder: r,
            note: match find_note(m.notes, r.note_id) {
                Some(n) => n,
                None => empty_note_model(),
            },
        }
}

/// `get_upcoming_reminders`: the due reminders, earliest first, capped,
/// each joined with its owning note.
pub open spec fn spec_upcoming(m: DbModel, limit: Option<int>) -> Seq<DueModel> {
    cap(spec_due_reminders(m), limit).map_values(with_owner(m))
}

/// Stable insertion sort of reminders by scheduled time.
fn sort_reminders(v: Vec<NoteReminder>) -> (r: Vec<NoteReminder>)
    ensures
        r@.map_values(|x: NoteReminder| x@) == sort_seq(
            v@.map_values(|x: NoteReminder| x@),
            reminder_time_leq(),
        ),
        r@.len() == v@.len(),
{
    let ghost leq = reminder_time_leq();
    let ghost src = v@.map_values(|x: NoteReminder| x@);
    let mut out: Vec<NoteReminder> = Vec::new();
    proof {
        assert(src.take(0) =~= Seq::<ReminderModel>::empty());
        assert(out@.map_values(|x: NoteReminder| x@) =~= sort_seq(src.take(0), leq));
    }
    let mut i: usize = 0;
    while i < v.len()
        invariant
            i <= v.len(),
            leq == reminder_time_leq(),
            src == v@.map_values(|x: NoteReminder| x@),
            out@.map_values(|x: NoteReminder| x@) == sort_seq(src.take(i as int), leq),
            out@.len() == i,
        decreases v.len() - i,
    {
        let ghost sorted0 = sort_seq(src.take(i as int), leq);
        let mut p: usize = 0;
        while p < out.len() && out[p].reminder_time <= v[i].reminder_time
            invariant
                i < v.len(),
                leq == reminder_time_leq(),
                src == v@.map_values(|x: NoteReminder| x@),
                out@.map_values(|x: NoteReminder| x@) == sorted0,
                out@.len() == i,
                0 <= p <= out.len(),
                forall|j: int| 0 <= j < p ==> leq(sorted0[j], src[i as int]),
            decreases out.len() - p,
        {
            proof {
                assert(leq(sorted0[p as int], src[i as int]));
            }
            p += 1;
        }
        proof {
            assert(p as int == out@.len() || !leq(sorted0[p as int], src[i as int]));
            lemma_insort_position(sorted0, src[i as int], leq, p as int);
        }
        out.insert(p, clone_reminder(&v[i]));
        proof {
            assert(out@.map_values(|x: NoteReminder| x@) =~= sorted0.insert(
                p as int,
                src[i as int],
            ));
            assert(src.take(i as int + 1).drop_last() =~= src.take(i as int));
            assert(src.take(i as int + 1).last() == src[i as int]);
        }
        i += 1;
    }
    proof {
        assert(src.take(src.len() as int) =~= src);
        lemma_sort_seq_len(src, leq);
    }
    out
}

impl Database {
    /// Insert a new reminder or update a stored one; see
    /// `spec_save_reminder`.
    pub fn save_reminder(&mut self, reminder: &NoteReminder) -> (r: Result<i64, StoreError>)
        requires
            old(self).wf(),
            old(self)@.next_reminder_id < i64::MAX,
        ensures
            final(self).wf(),
            final(self)@ == spec_save_reminder(old(self)@, reminder@).0,
            view_res_i64(r) == spec_save_reminder(old(self)@, reminder@).1,
    {
        let ghost m0 = self@;
        match self.find_note_index(reminder.note_id) {
            None => Err(StoreError::NotFound),
            Some(_) => {
                match reminder.id {
                    None => {
                        let id = self.next_reminder_id;
                        let stored = NoteReminder {
                            id: Some(id),
                            note_id: reminder.note_id,
                            reminder_time: reminder.reminder_time,
                            completed: reminder.completed,
                            created_at: reminder.created_at,
                        };
                        proof {
                            assert(stored@ =~= ReminderModel {
                                id: Some(id as int),
                                ..reminder@
                            });
                        }
                        self.reminders.push(stored);
                        self.next_reminder_id = id + 1;
                        proof {
                            assert(self@.reminders =~= m0.reminders.push(
                                ReminderModel { id: Some(id as int), ..reminder@ },
                            ));
                            assert(self@ =~= spec_save_reminder(m0, reminder@).0);
                            assert(wf_model(self@)) by {
                                assert(forall|k: int|
                                    0 <= k < m0.reminders.len() ==> self@.reminders[k]
                                        == m0.reminders[k]);
                            }
                        }
                        Ok(id)
                    },
                    Some(id) => {
                        match self.find_reminder_index(id) {
                            None => Err(StoreError::NotFound),
                            Some(i) => {
                                proof {
                                    lemma_find_reminder_at(m0.reminders, id as int, i as int);
                                }
                                let prev_completed = self.reminders[i].completed;
                                let prev_created = self.reminders[i].created_at;
                                let updated = NoteReminder {
                                    id: Some(id),
                                    note_id: reminder.note_id,
                                    reminder_time: reminder.reminder_time,
                                    completed: prev_completed || reminder.completed,
                                    created_at: prev_created,
                                };
                                proof {
                                    assert(updated@ =~= ReminderModel {
                                        id: m0.reminders[i as int].id,
                                        note_id: reminder@.note_id,
                                        reminder_time: reminder@.reminder_time,
                                        completed: m0.reminders[i as int].completed
                                            || reminder@.completed,
                                        created_at: m0.reminders[i as int].created_at,
                                    });
                                }
                                self.reminders.set(i, updated);
                                proof {
                                    assert(self@.reminders =~= m0.reminders.update(
                                        i as int,
                                        ReminderModel {
                                            id: m0.reminders[i as int].id,
                                            note_id: reminder@.note_id,
                                            reminder_time: reminder@.reminder_time,
                                            completed: m0.reminders[i as int].completed
                                                || reminder@.completed,
                                            created_at: m0.reminders[i as int].created_at,
                                        },
                                    ));
                                    assert(self@ =~= spec_save_reminder(m0, reminder@).0);
                                    assert(wf_model(self@)) by {
                                        assert(forall|k: int|
                                            0 <= k < m0.reminders.len() && k != i
                                                ==> self@.reminders[k] == m0.reminders[k]);
                                        assert(self@.reminders[i as int].id == m0.reminders[
                                            i as int].id);
                                    }
                                }
                                Ok(id)
                            },
                        }
                    },
                }
            },
        }
    }

    /// Schedule a new reminder on a note, untriggered, created now;
    /// `NotFound` when the note does not exist.
    pub fn add_reminder(&mut self, note_id: i64, remind_at: i64) -> (r: Result<i64, StoreError>)
        requires
            old(self).wf(),
            old(self)@.next_reminder_id < i64::MAX,
        ensures
            final(self).wf(),
            exists|now: int|
                #![trigger spec_add_reminder(old(self)@, note_id as int, remind_at as int, now)]
                {
                    let step = spec_add_reminder(
                        old(self)@,
                        note_id as int,
                        remind_at as int,
                        now,
                    );
                    final(self)@ == step.0 && view_res_i64(r) == step.1
                },
    {
        let now = now_timestamp();
        let reminder = NoteReminder {
            id: None,
            note_id: note_id,
            reminder_time: remind_at,
            completed: false,
            created_at: now,
        };
        let r = self.save_reminder(&reminder);
        proof {
            let step = spec_add_reminder(
                old(self)@,
                note_id as int,
                remind_at as int,
                now as int,
            );
            assert(reminder@ =~= ReminderModel {
                id: None,
                note_id: note_id as int,
                reminder_time: remind_at as int,
                completed: false,
                created_at: now as int,
            });
            assert(self@ == step.0 && view_res_i64(r) == step.1);
        }
        r
    }

    /// Reschedule a stored reminder; `NotFound` for a missing id.
    pub fn update_reminder(&mut self, id: i64, remind_at: i64) -> (r: Result<(), StoreError>)
        requires
            old(self).wf(),
        ensures
            final(self).wf(),
            final(self)@ == spec_update_reminder(old(self)@, id as int, remind_at as int).0,
            r == spec_update_reminder(old(self)@, id as int, remind_at as int).1,
    {
        let ghost m0 = self@;
        match self.find_reminder_index(id) {
            None => Err(StoreError::NotFound),
            Some(i) => {
                proof {
                    lemma_find_reminder_at(m0.reminders, id as int, i as int);
                }
                let mut c = clone_reminder(&self.reminders[i]);
                c.reminder_time = remind_at;
                proof {
                    assert(c@ =~= ReminderModel {
                        reminder_time: remind_at as int,
                        ..m0.reminders[i as int]
                    });
                }
                self.reminders.set(i, c);
                proof {
                    assert(self@.reminders =~= m0.reminders.update(
                        i as int,
                        ReminderModel {
                            reminder_time: remind_at as int,
                            ..m0.reminders[i as int]
                        },
                    ));
                    assert(self@ =~= spec_update_reminder(m0, id as int, remind_at as int).0);
                    assert(wf_model(self@)) by {
                        assert(forall|k: int|
                            0 <= k < m0.reminders.len() && k != i ==> self@.reminders[k]
                                == m0.reminders[k]);
                        assert(self@.reminders[i as int].id == m0.reminders[i as int].id);
                    }
                }
                Ok(())
            },
        }
    }

    /// Mark a reminder as delivered; the flag never moves back. `NotFound`
    /// for a missing id.
    pub fn mark_reminder_triggered(&mut self, id: i64) -> (r: Result<(), StoreError>)
        requires
            old(self).wf(),
        ensures
            final(self).wf(),
            final(self)@ == spec_mark_triggered(old(self)@, id as int).0,
            r == spec_mark_triggered(old(self)@, id as int).1,
    {
        let ghost m0 = self@;
        match self.find_reminder_index(id) {
            None => Err(StoreError::NotFound),
            Some(i) => {
                proof {
                    lemma_find_reminder_at(m0.reminders, id as int, i as int);
                }
                let mut c = clone_reminder(&self.reminders[i]);
                c.completed = true;
                proof {
                    assert(c@ =~= ReminderModel { completed: true, ..m0.reminders[i as int] });
                }
                self.reminders.set(i, c);
                proof {
                    assert(self@.reminders =~= m0.reminders.update(
                        i as int,
                        ReminderModel { completed: true, ..m0.reminders[i as int] },
                    ));
                    assert(self@ =~= spec_mark_triggered(m0, id as int).0);
                    assert(wf_model(self@)) by {
                        assert(forall|k: int|
                            0 <= k < m0.reminders.len() && k != i ==> self@.reminders[k]
                                == m0.reminders[k]);
                        assert(self@.reminders[i as int].id == m0.reminders[i as int].id);
                    }
                }
                Ok(())
            },
        }
    }

    /// Remove a reminder row. A missing id is a tolerated no-op.
    pub fn delete_reminder(&mut self, id: i64) -> (r: Result<(), StoreError>)
        requires
            old(self).wf(),
        ensures
            final(self).wf(),
            final(self)@ == spec_delete_reminder(old(self)@, id as int),
            r == Ok::<(), StoreError>(()),
    {
        let ghost m0 = self@;
        match self.find_reminder_index(id) {
            None => Ok(()),
            Some(i) => {
                proof {
                    lemma_find_reminder_at(m0.reminders, id as int, i as int);
                }
                self.reminders.remove(i);
                proof {
                    assert(self@.reminders =~= m0.reminders.remove(i as int));
                    assert(self@ =~= spec_delete_reminder(m0, id as int));
                    m0.reminders.remove_ensures(i as int);
                    assert(wf_model(self@)) by {
                        assert forall|k: int, l: int|
                            0 <= k < l < self@.reminders.len() implies (
                        #[trigger] self@.reminders[k]).id != (
                        #[trigger] self@.reminders[l]).id by {
                            if l < i {
                            } else if k < i as int {
                                assert(self@.reminders[k] == m0.reminders[k]
                                    && self@.reminders[l] == m0.reminders[l + 1]);
                            } else {
                                assert(self@.reminders[k] == m0.reminders[k + 1]
                                    && self@.reminders[l] == m0.reminders[l + 1]);
                            }
                        }
                        assert forall|k: int|
                            0 <= k < self@.reminders.len() implies crate::store::reminder_id_bounded(
                            #[trigger] self@.reminders[k],
                            self@.next_reminder_id,
                        ) && contains_note_id(
                            self@.notes,
                            self@.reminders[k].note_id,
                        ) by {
                            if k < i as int {
                            } else {
                                assert(self@.reminders[k] == m0.reminders[k + 1]);
                            }
                        }
                    }
                }
                Ok(())
            },
        }
    }

    /// One note's reminders, earliest scheduled first.
    pub fn get_reminders_by_note(&self, note_id: i64) -> (r: Result<Vec<NoteReminder>, StoreError>)
        requires
            self.wf(),
        ensures
            match r {
                Ok(v) => {
                    &&& v@.map_values(|x: NoteReminder| x@) == spec_reminders_by_note(
                        self@,
                        note_id as int,
                    )
                    &&& sorted_by(
                        v@.map_values(|x: NoteReminder| x@),
                        reminder_time_leq(),
                    )
                },
                Err(_) => false,
            },
    {
        let ghost pred = owned_by(note_id as int);
        let ghost src = self@.reminders;
        let mut picked: Vec<NoteReminder> = Vec::new();
        let mut i: usize = 0;
        proof {
            assert(src.take(0) =~= Seq::<ReminderModel>::empty());
            reveal(Seq::filter);
            assert(picked@.map_values(|x: NoteReminder| x@) =~= src.take(0).filter(pred));
        }
        while i < self.reminders.len()
            invariant
                self.wf(),
                src == self@.reminders,
                pred == owned_by(note_id as int),
                i <= self.reminders.len(),
                picked@.map_values(|x: NoteReminder| x@) == src.take(i as int).filter(pred),
            decreases self.reminders.len() - i,
        {
            let ghost prefix = src.take(i as int);
            let keep = self.reminders[i].note_id == note_id;
            proof {
                assert(keep == pred(src[i as int]));
                assert(prefix.push(src[i as int]) =~= src.take(i as int + 1));
                lemma_filter_push(prefix, src[i as int], pred);
            }
            if keep {
                picked.push(clone_reminder(&self.reminders[i]));
                proof {
                    assert(picked@.map_values(|x: NoteReminder| x@) =~= prefix.filter(
                        pred,
                    ).push(src[i as int]));
                }
            }
            i += 1;
        }
        proof {
            assert(src.take(src.len() as int) =~= src);
        }
        let out = sort_reminders(picked);
        proof {
            lemma_reminder_time_leq_props();
            lemma_sort_seq_sorted(src.filter(pred), reminder_time_leq());
        }
        Ok(out)
    }

    /// The due reminders joined with their notes, earliest first, optionally
    /// capped. Every returned reminder is untriggered and its owning note is
    /// active: triggered reminders and notes in the trash never appear.
    pub fn get_upcoming_reminders(&self, limit: Option<i64>) -> (r: Result<
        Vec<DueReminder>,
        StoreError,
    >)
        requires
            self.wf(),
            limit matches Some(l) ==> l >= 0,
        ensures
            match r {
                Ok(v) => {
                    &&& v@.map_values(|x: DueReminder| x@) == spec_upcoming(
                        self@,
                        crate::model::view_opt_int(limit),
                    )
                    &&& forall|k: int|
                        0 <= k < v@.len() ==> !(#[trigger] v@[k]@).reminder.completed && v@[k]@
                            .note.deleted_at is None
                },
                Err(_) => false,
            },
    {
        let ghost m0 = self@;
        let ghost pred = due_pred(m0);
        let ghost src = self@.reminders;
        let mut picked: Vec<NoteReminder> = Vec::new();
        let mut i: usize = 0;
        proof {
            assert(src.take(0) =~= Seq::<ReminderModel>::empty());
            reveal(Seq::filter);
            assert(picked@.map_values(|x: NoteReminder| x@) =~= src.take(0).filter(pred));
        }
        while i < self.reminders.len()
            invariant
                self.wf(),
                self@ == m0,
                src == self@.reminders,
                pred == due_pred(m0),
                i <= self.reminders.len(),
                picked@.map_values(|x: NoteReminder| x@) == src.take(i as int).filter(pred),
            decreases self.reminders.len() - i,
        {
            let ghost prefix = src.take(i as int);
            let mut keep = !self.reminders[i].completed;
            if keep {
                keep = match self.find_note_index(self.reminders[i].note_id) {
                    Some(j) => {
                        proof {
                            lemma_find_note_at(
                                m0.notes,
                                m0.reminders[i as int].note_id,
                                j as int,
                            );
                        }
                        match self.notes[j].deleted_at {
                            Some(_) => false,
                            None => true,
                        }
                    },
                    None => {
                        proof {
                            assert(contains_note_id(
                                m0.notes,
                                m0.reminders[i as int].note_id,
                            ));
                            assert(false);
                        }
                        false
                    },
                };
            }
            proof {
                assert(keep == pred(src[i as int]));
                assert(prefix.push(src[i as int]) =~= src.take(i as int + 1));
                lemma_filter_push(prefix, src[i as int], pred);
            }
            if keep {
                picked.push(clone_reminder(&self.reminders[i]));
                proof {
                    assert(picked@.map_values(|x: NoteReminder| x@) =~= prefix.filter(
                        pred,
                    ).push(src[i as int]));
                }
            }
            i += 1;
        }
        proof {
            assert(src.take(src.len() as int) =~= src);
        }
        let base = sort_reminders(picked);
        let ghost base_s = spec_due_reminders(m0);
        proof {
            assert(base@.map_values(|x: NoteReminder| x@) == base_s);
            lemma_sort_seq_contains(src.filter(pred), reminder_time_leq());
            assert forall|t: int|
                0 <= t < src.filter(due_pred(m0)).len() implies due_pred(m0)(
                #[trigger] src.filter(due_pred(m0))[t],
            ) by {
                src.lemma_filter_pred(due_pred(m0), t);
            }
            src.lemma_filter_len(pred);
        }
        let end: usize = match limit {
            Some(l) => {
                let blen: i64 = base.len() as i64;
                if l < blen {
                    l as usize
                } else {
                    base.len()
                }
            },
            None => base.len(),
        };
        let ghost capped = cap(base_s, crate::model::view_opt_int(limit));
        proof {
            assert(capped =~= base_s.take(end as int));
        }
        let mut out: Vec<DueReminder> = Vec::new();
        let mut k: usize = 0;
        proof {
            assert(out@.map_values(|x: DueReminder| x@) =~= base_s.take(0).map_values(
                with_owner(m0),
            ));
        }
        while k < end
            invariant
                self.wf(),
                self@ == m0,
                base@.map_values(|x: NoteReminder| x@) == base_s,
                base@.len() == base_s.len(),
                end as int <= base_s.len(),
                0 <= k <= end,
                forall|y: ReminderModel| base_s.contains(y) ==> src.filter(due_pred(m0)).contains(y),
                forall|t: int|
                    0 <= t < src.filter(due_pred(m0)).len() ==> due_pred(m0)(
                        #[trigger] src.filter(due_pred(m0))[t],
                    ),
                out@.map_values(|x: DueReminder| x@) == base_s.take(k as int).map_values(
                    with_owner(m0),
                ),
            decreases end - k,
        {
            let rem = &base[k];
            proof {
                assert(base_s.contains(base_s[k as int])) by {
                    assert(base_s[k as int] == base_s[k as int]);
                }
                assert(src.filter(due_pred(m0)).contains(rem@));
                let t = choose|t: int|
                    0 <= t < src.filter(due_pred(m0)).len() && src.filter(due_pred(m0))[t]
                        == rem@;
                assert(due_pred(m0)(rem@));
            }
            let note = match self.find_note_index(rem.note_id) {
                Some(j) => {
                    proof {
                        lemma_find_note_at(m0.notes, rem@.note_id, j as int);
                    }
                    clone_note(&self.notes[j])
                },
                None => {
                    proof {
                        assert(owner_active(m0, rem@.note_id));
                        assert(false);
                    }
                    clone_note(&self.notes[0])
                },
            };
            let pair = DueReminder { reminder: clone_reminder(rem), note: note };
            proof {
                assert(pair@ =~= with_owner(m0)(base_s[k as int]));
            }
            out.push(pair);
            proof {
                assert(base_s.take(k as int + 1).drop_last() =~= base_s.take(k as int));
                assert(base_s.take(k as int + 1).last() == base_s[k as int]);
                assert(out@.map_values(|x: DueReminder| x@) =~= base_s.take(k as int)
                    .map_values(with_owner(m0)).push(with_owner(m0)(base_s[k as int])));
                assert(base_s.take(k as int).map_values(with_owner(m0)).push(
                    with_owner(m0)(base_s[k as int]),
                ) =~= base_s.take(k as int + 1).map_values(with_owner(m0)));
            }
            k += 1;
        }
        proof {
            assert(base_s.take(end as int).map_values(with_owner(m0)) == capped.map_values(
                with_owner(m0),
            ));
            assert(out@.map_values(|x: DueReminder| x@) == spec_upcoming(
                m0,
                crate::model::view_opt_int(limit),
            ));
            assert forall|t: int| 0 <= t < out@.len() implies !(#[trigger] out@[t]@).reminder
                .completed && out@[t]@.note.deleted_at is None by {
                let dm = out@.map_values(|x: DueReminder| x@)[t];
                assert(dm == capped.map_values(with_owner(m0))[t]);
                assert(capped[t] == base_s[t]);
                assert(base_s.contains(base_s[t]));
                assert(src.filter(due_pred(m0)).contains(base_s[t]));
                let w = choose|w: int|
                    0 <= w < src.filter(due_pred(m0)).len() && src.filter(due_pred(m0))[w]
                        == base_s[t];
                assert(due_pred(m0)(base_s[t]));
            }
        }
        Ok(out)
    }

    /// All due reminders joined with their notes, earliest first.
    pub fn get_pending_reminders(&self) -> (r: Result<Vec<DueReminder>, StoreError>)
        requires
            self.wf(),
        ensures
            match r {
                Ok(v) => {
                    &&& v@.map_values(|x: DueReminder| x@) == spec_upcoming(self@, None)
                    &&& forall|k: int|
                        0 <= k < v@.len() ==> !(#[trigger] v@[k]@).reminder.completed && v@[k]@
                            .note.deleted_at is None
                },
                Err(_) => false,
            },
    {
        self.get_upcoming_reminders(None)
    }
}

} // verus!
