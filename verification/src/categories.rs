use vstd::prelude::*;
use vstd::relations::sorted_by;
use crate::errors::StoreError;
use crate::model::{clone_category, Category, CategoryModel, NoteModel};
use crate::order::{
    category_name_leq, lemma_category_name_leq_props, lemma_insort_position,
    lemma_sort_seq_sorted, lex_leq, sort_seq,
};
use crate::store::{
    category_id_bounded, contains_category_id, contains_note_id, lemma_find_category_at,
    category_index_of, view_res_i64, wf_model, Database, DbModel,
};

verus! {

// ---------------------------------------------------------------------------
// Transitions of the category table
// ---------------------------------------------------------------------------

/// Saving a category: an empty name is refused with `ValidationError`; a
/// category without identity is inserted under the next free id; one with
/// identity updates the stored record of that id, or is `NotFound`.
pub open spec fn spec_save_category(m: DbModel, c: CategoryModel) -> (DbModel, Result<
    int,
    StoreError,
>) {
    if c.name.len() == 0 {
        (m, Err(StoreError::ValidationError))
    } else {
        match c.id {
            None => (
                DbModel {
                    categories: m.categories.push(
                        CategoryModel { id: Some(m.next_category_id), ..c },
                    ),
                    next_category_id: m.next_category_id + 1,
                    ..m
                },
                Ok(m.next_category_id),
            ),
            Some(id) => {
                if contains_category_id(m.categories, id) {
                    let i = category_index_of(m.categories, id);
                    (
                        DbModel {
                            categories: m.categories.update(
                                i,
                                CategoryModel { id: Some(id), ..c },
                            ),
                            ..m
                        },
                        Ok(id),
                    )
                } else {
                    (m, Err(StoreError::NotFound))
                }
            },
        }
    }
}

/// A note with any reference to category `id` cleared.
pub open spec fn cleared_of_category(id: int) -> spec_fn(NoteModel) -> NoteModel {
    |n: NoteModel|
        if n.category_id == Some(id) {
            NoteModel { category_id: None, ..n }
        } else {
            n
        }
}

/// `delete_category`'s transition: every referencing note is detached, then
/// the category row leaves; both happen together. A missing id still clears
/// references (there are none in a well-formed store).
pub open spec fn spec_delete_category(m: DbModel, id: int) -> DbModel {
    DbModel {
        notes: m.notes.map_values(cleared_of_category(id)),
        categories: if contains_category_id(m.categories, id) {
            m.categories.remove(category_index_of(m.categories, id))
        } else {
            m.categories
        },
        ..m
    }
}

/// Literal character-by-character order on borrowed strings.
pub fn str_lex_leq(a: &str, b: &str) -> (r: bool)
    ensures
        r == lex_leq(a@, b@),
{
    let alen = a.unicode_len();
    let blen = b.unicode_len();
    let mut i: usize = 0;
    while i < alen && i < blen
        invariant
            alen == a@.len(),
            blen == b@.len(),
            0 <= i <= alen,
            i <= blen,
            forall|j: int| 0 <= j < i ==> a@[j] == b@[j],
        ensures
            alen == a@.len(),
            blen == b@.len(),
            0 <= i <= alen,
            i <= blen,
            forall|j: int| 0 <= j < i ==> a@[j] == b@[j],
            i == alen || i == blen || a@[i as int] != b@[i as int],
        decreases alen - i,
    {
        let ca = a.get_char(i);
        let cb = b.get_char(i);
        if ca != cb {
            break;
        }
        i += 1;
    }
    let r = if i >= alen {
        true
    } else if i >= blen {
        false
    } else {
        (a.get_char(i) as u32) < (b.get_char(i) as u32)
    };
    proof {
        lemma_lex_leq_at(a@, b@, i as int);
    }
    r
}

/// `lex_leq` is decided at the first differing position (or at the end of
/// either string).
proof fn lemma_lex_leq_at(a: Seq<char>, b: Seq<char>, stop: int)
    requires
        0 <= stop <= a.len(),
        stop <= b.len(),
        forall|j: int| 0 <= j < stop ==> a[j] == b[j],
        stop == a.len() || stop == b.len() || a[stop] != b[stop],
    ensures
        lex_leq(a, b) == if stop == a.len() {
            true
        } else if stop == b.len() {
            false
        } else {
            (a[stop] as int) < (b[stop] as int)
        },
    decreases stop,
{
    if stop == 0 {
    } else {
        let a2 = a.drop_first();
        let b2 = b.drop_first();
        assert(forall|j: int| 0 <= j < stop - 1 ==> a2[j] == b2[j]);
        lemma_lex_leq_at(a2, b2, stop - 1);
    }
}

impl Database {
    /// Insert a new category or update a stored one; see
    /// `spec_save_category`.
    pub fn save_category(&mut self, category: &Category) -> (r: Result<i64, StoreError>)
        requires
            old(self).wf(),
            old(self)@.next_category_id < i64::MAX,
        ensures
            final(self).wf(),
            final(self)@ == spec_save_category(old(self)@, category@).0,
            view_res_i64(r) == spec_save_category(old(self)@, category@).1,
    {
        let ghost m0 = self@;
        if category.name.as_str().is_empty() {
            return Err(StoreError::ValidationError);
        }
        match category.id {
            None => {
                let id = self.next_category_id;
                let stored = Category {
                    id: Some(id),
                    name: category.name.clone(),
                    color: crate::model::clone_opt_string(&category.color),
                };
                proof {
                    assert(stored@ =~= CategoryModel { id: Some(id as int), ..category@ });
                }
                self.categories.push(stored);
                self.next_category_id = id + 1;
                proof {
                    assert(self@.categories =~= m0.categories.push(
                        CategoryModel { id: Some(id as int), ..category@ },
                    ));
                    assert(self@ =~= spec_save_category(m0, category@).0);
                    assert(wf_model(self@)) by {
                        assert(forall|i: int|
                            0 <= i < m0.categories.len() ==> self@.categories[i]
                                == m0.categories[i]);
                        assert(forall|i: int|
                            0 <= i < m0.notes.len() ==> self@.notes[i] == m0.notes[i]);
                        assert forall|i: int|
                            0 <= i < self@.notes.len() implies ((
                        #[trigger] self@.notes[i]).category_id matches Some(c)
                            ==> contains_category_id(self@.categories, c)) by {
                            match self@.notes[i].category_id {
                                Some(c) => {
                                    let w = choose|w: int|
                                        0 <= w < m0.categories.len() && (
                                        #[trigger] m0.categories[w]).id == Some(c);
                                    assert(self@.categories[w].id == Some(c));
                                },
                                None => {},
                            }
                        }
                    }
                }
                Ok(id)
            },
            Some(id) => {
                match self.find_category_index(id) {
                    None => Err(StoreError::NotFound),
                    Some(i) => {
                        proof {
                            lemma_find_category_at(m0.categories, id as int, i as int);
                        }
                        let updated = Category {
                            id: Some(id),
                            name: category.name.clone(),
                            color: crate::model::clone_opt_string(&category.color),
                        };
                        proof {
                            assert(updated@ =~= CategoryModel {
                                id: Some(id as int),
                                ..category@
                            });
                        }
                        self.categories.set(i, updated);
                        proof {
                            assert(self@.categories =~= m0.categories.update(
                                i as int,
                                CategoryModel { id: Some(id as int), ..category@ },
                            ));
                            assert(self@ =~= spec_save_category(m0, category@).0);
                            assert(wf_model(self@)) by {
                                assert(forall|k: int|
                                    0 <= k < m0.categories.len() && k != i
                                        ==> self@.categories[k] == m0.categories[k]);
                                assert(self@.categories[i as int].id == m0.categories[
                                    i as int].id);
                                assert(forall|k: int|
                                    0 <= k < m0.notes.len() ==> self@.notes[k] == m0.notes[k]);
                                assert forall|k: int|
                                    0 <= k < self@.notes.len() implies ((
                                #[trigger] self@.notes[k]).category_id matches Some(c)
                                    ==> contains_category_id(self@.categories, c)) by {
                                    match self@.notes[k].category_id {
                                        Some(c) => {
                                            let w = choose|w: int|
                                                0 <= w < m0.categories.len() && (
                                                #[trigger] m0.categories[w]).id == Some(c);
                                            assert(self@.categories[w].id == Some(c));
                                        },
                                        None => {},
                                    }
                                }
                            }
                        }
                        Ok(id)
                    },
                }
            },
        }
    }

    /// Insert a new category with a name and a color tag; the name must not
    /// be empty.
    pub fn add_category(&mut self, name: &str, color: &str) -> (r: Result<i64, StoreError>)
        requires
            old(self).wf(),
            old(self)@.next_category_id < i64::MAX,
        ensures
            final(self).wf(),
            final(self)@ == spec_save_category(
                old(self)@,
                CategoryModel { id: None, name: name@, color: Some(color@) },
            ).0,
            view_res_i64(r) == spec_save_category(
                old(self)@,
                CategoryModel { id: None, name: name@, color: Some(color@) },
            ).1,
    {
        let category = Category {
            id: None,
            name: name.to_owned(),
            color: Some(color.to_owned()),
        };
        proof {
            assert(category@ =~= CategoryModel { id: None, name: name@, color: Some(color@) });
        }
        self.save_category(&category)
    }

    /// Rename or recolor a stored category; `NotFound` for a missing id,
    /// `ValidationError` for an empty name.
    pub fn update_category(&mut self, id: i64, name: &str, color: &str) -> (r: Result<
        (),
        StoreError,
    >)
        requires
            old(self).wf(),
            old(self)@.next_category_id < i64::MAX,
        ensures
            final(self).wf(),
            final(self)@ == spec_save_category(
                old(self)@,
                CategoryModel { id: Some(id as int), name: name@, color: Some(color@) },
            ).0,
            r == match spec_save_category(
                old(self)@,
                CategoryModel { id: Some(id as int), name: name@, color: Some(color@) },
            ).1 {
                Ok(_) => Ok::<(), StoreError>(()),
                Err(e) => Err::<(), StoreError>(e),
            },
    {
        let category = Category {
            id: Some(id),
            name: name.to_owned(),
            color: Some(color.to_owned()),
        };
        proof {
            assert(category@ =~= CategoryModel {
                id: Some(id as int),
                name: name@,
                color: Some(color@),
            });
        }
        match self.save_category(&category) {
            Ok(_) => Ok(()),
            Err(e) => Err(e),
        }
    }

    /// All categories, ordered by name ascending.
    pub fn get_all_categories(&self) -> (r: Result<Vec<Category>, StoreError>)
        requires
            self.wf(),
        ensures
            match r {
                Ok(v) => {
                    &&& v@.map_values(|c: Category| c@) == sort_seq(
                        self@.categories,
                        category_name_leq(),
                    )
                    &&& sorted_by(
                        v@.map_values(|c: Category| c@),
                        category_name_leq(),
                    )
                },
                Err(_) => false,
            },
    {
        let ghost leq = category_name_leq();
        let ghost src = self@.categories;
        let mut out: Vec<Category> = Vec::new();
        proof {
            assert(src.take(0) =~= Seq::<CategoryModel>::empty());
            assert(out@.map_values(|c: Category| c@) =~= sort_seq(src.take(0), leq));
        }
        let mut i: usize = 0;
        while i < self.categories.len()
            invariant
                self.wf(),
                src == self@.categories,
                leq == category_name_leq(),
                i <= self.categories.len(),
                out@.map_values(|c: Category| c@) == sort_seq(src.take(i as int), leq),
                out@.len() == i,
            decreases self.categories.len() - i,
        {
            let ghost sorted0 = sort_seq(src.take(i as int), leq);
            let mut p: usize = 0;
            while p < out.len() && str_lex_leq(out[p].name.as_str(), self.categories[i].name.as_str())
                invariant
                    self.wf(),
                    src == self@.categories,
                    leq == category_name_leq(),
                    i < self.categories.len(),
                    out@.map_values(|c: Category| c@) == sorted0,
                    out@.len() == i,
                    0 <= p <= out.len(),
                    forall|j: int| 0 <= j < p ==> leq(sorted0[j], src[i as int]),
                decreases out.len() - p,
            {
                proof {
                    assert(leq(sorted0[p as int], src[i as int]));
                }
                p += 1;
            }
            proof {
                assert(p as int == out@.len() || !leq(sorted0[p as int], src[i as int]));
                lemma_insort_position(sorted0, src[i as int], leq, p as int);
            }
            out.insert(p, clone_category(&self.categories[i]));
            proof {
                assert(out@.map_values(|c: Category| c@) =~= sorted0.insert(
                    p as int,
                    src[i as int],
                ));
                assert(src.take(i as int + 1).drop_last() =~= src.take(i as int));
                assert(src.take(i as int + 1).last() == src[i as int]);
            }
            i += 1;
        }
        proof {
            assert(src.take(src.len() as int) =~= src);
            lemma_category_name_leq_props();
            lemma_sort_seq_sorted(src, leq);
        }
        Ok(out)
    }

    /// All categories, ordered by name ascending (the command-layer alias).
    pub fn get_categories(&self) -> (r: Result<Vec<Category>, StoreError>)
        requires
            self.wf(),
        ensures
            match r {
                Ok(v) => {
                    &&& v@.map_values(|c: Category| c@) == sort_seq(
                        self@.categories,
                        category_name_leq(),
                    )
                    &&& sorted_by(
                        v@.map_values(|c: Category| c@),
                        category_name_leq(),
                    )
                },
                Err(_) => false,
            },
    {
        self.get_all_categories()
    }

    /// Remove a category: every note that references it is detached first,
    /// then the row leaves; both land together. A missing id is a tolerated
    /// no-op on the category table.
    pub fn delete_category(&mut self, id: i64) -> (r: Result<(), StoreError>)
        requires
            old(self).wf(),
        ensures
            final(self).wf(),
            final(self)@ == spec_delete_category(old(self)@, id as int),
            r == Ok::<(), StoreError>(()),
    {
        let ghost m0 = self@;
        let ghost clear = cleared_of_category(id as int);
        let mut k: usize = 0;
        while k < self.notes.len()
            invariant
                clear == cleared_of_category(id as int),
                k <= self.notes.len(),
                self@.notes.len() == m0.notes.len(),
                forall|j: int| 0 <= j < k ==> self@.notes[j] == clear(#[trigger] m0.notes[j]),
                forall|j: int| k <= j < m0.notes.len() ==> self@.notes[j] == #[trigger] m0.notes[j],
                self@.categories == m0.categories,
                self@.reminders == m0.reminders,
                self@.next_note_id == m0.next_note_id,
                self@.next_category_id == m0.next_category_id,
                self@.next_reminder_id == m0.next_reminder_id,
                self.notes@.len() == m0.notes.len(),
            decreases self.notes.len() - k,
        {
            let hit = match self.notes[k].category_id {
                Some(c) => c == id,
                None => false,
            };
            if hit {
                let mut c = crate::model::clone_note(&self.notes[k]);
                c.category_id = None;
                proof {
                    assert(c@ =~= clear(m0.notes[k as int]));
                }
                self.notes.set(k, c);
            } else {
                proof {
                    assert(self@.notes[k as int] =~= clear(m0.notes[k as int]));
                }
            }
            k += 1;
        }
        proof {
            assert(self@.notes =~= m0.notes.map_values(clear));
        }
        let ghost mid = self@;
        match self.find_category_index(id) {
            None => {
                proof {
                    assert(self@ =~= spec_delete_category(m0, id as int));
                    lemma_delete_category_wf(m0, self@, id as int);
                }
                Ok(())
            },
            Some(i) => {
                proof {
                    lemma_find_category_at(m0.categories, id as int, i as int);
                }
                self.categories.remove(i);
                proof {
                    assert(self@.categories =~= m0.categories.remove(i as int));
                    assert(self@ =~= spec_delete_category(m0, id as int));
                    lemma_delete_category_wf(m0, self@, id as int);
                }
                Ok(())
            },
        }
    }
}

/// The cascade of `delete_category` preserves the storage invariant.
proof fn lemma_delete_category_wf(m: DbModel, m2: DbModel, id: int)
    requires
        wf_model(m),
        m2 == spec_delete_category(m, id),
    ensures
        wf_model(m2),
{
    let clear = cleared_of_category(id);
    assert(forall|k: int|
        0 <= k < m2.notes.len() ==> (#[trigger] m2.notes[k]).id == m.notes[k].id);
    assert forall|k: int| 0 <= k < m2.reminders.len() implies contains_note_id(
        m2.notes,
        (#[trigger] m2.reminders[k]).note_id,
    ) by {
        let nid = m2.reminders[k].note_id;
        let w = choose|w: int| 0 <= w < m.notes.len() && (#[trigger] m.notes[w]).id == Some(nid);
        assert(m2.notes[w].id == Some(nid));
    }
    if contains_category_id(m.categories, id) {
        let i = category_index_of(m.categories, id);
        m.categories.remove_ensures(i);
        assert forall|k: int, l: int| 0 <= k < l < m2.categories.len() implies (
        #[trigger] m2.categories[k]).id != (#[trigger] m2.categories[l]).id by {
            if l < i {
            } else if k < i {
                assert(m2.categories[k] == m.categories[k] && m2.categories[l] == m.categories[l
                    + 1]);
            } else {
                assert(m2.categories[k] == m.categories[k + 1] && m2.categories[l]
                    == m.categories[l + 1]);
            }
        }
        assert forall|k: int| 0 <= k < m2.categories.len() implies category_id_bounded(
            #[trigger] m2.categories[k],
            m2.next_category_id,
        ) by {
            if k < i {
            } else {
                assert(m2.categories[k] == m.categories[k + 1]);
            }
        }
        assert forall|k: int| 0 <= k < m2.notes.len() implies ((
        #[trigger] m2.notes[k]).category_id matches Some(c) ==> contains_category_id(
            m2.categories,
            c,
        )) by {
            match m2.notes[k].category_id {
                Some(c) => {
                    assert(m2.notes[k] == clear(m.notes[k]));
                    assert(m.notes[k].category_id == Some(c));
                    assert(c != id);
                    let w = choose|w: int|
                        0 <= w < m.categories.len() && (#[trigger] m.categories[w]).id == Some(
                            c,
                        );
                    assert(m.categories[i].id == Some(id));
                    assert(w != i);
                    if w < i {
                        assert(m2.categories[w].id == Some(c));
                    } else {
                        assert(m2.categories[w - 1].id == Some(c));
                    }
                },
                None => {},
            }
        }
    } else {
        assert forall|k: int| 0 <= k < m2.notes.len() implies ((
        #[trigger] m2.notes[k]).category_id matches Some(c) ==> contains_category_id(
            m2.categories,
            c,
        )) by {
            match m2.notes[k].category_id {
                Some(c) => {
                    assert(m2.notes[k] == clear(m.notes[k]));
                    assert(m.notes[k].category_id == Some(c));
                },
                None => {},
            }
        }
    }
}

} // verus!
