use vstd::prelude::*;
use vstd::relations::sorted_by;
use crate::errors::StoreError;
use crate::model::{clone_note, Note, NoteModel, NoteSortOption};
use crate::notes::view_opt_str_ref;
use crate::order::{
    contains_substr, lemma_insort_position, lemma_listing_leq_props, lemma_sort_seq_len,
    lemma_sort_seq_sorted, lemma_trash_leq_props, listing_leq, opt_time_leq, sort_seq,
    str_contains_str, trash_leq,
};
use crate::store::{Database, DbModel};

verus! {

// ---------------------------------------------------------------------------
// Listing queries: filter, order, paginate
// ---------------------------------------------------------------------------

/// The filter of normal listings: active notes, optionally restricted to a
/// category and to contents containing a search term (literal,
/// case-sensitive).
pub open spec fn active_pred(cat: Option<int>, search: Option<Seq<char>>) -> spec_fn(
    NoteModel,
) -> bool {
    |n: NoteModel|
        {
            &&& n.deleted_at is None
            &&& (cat matches Some(c) ==> n.category_id == Some(c))
            &&& (search matches Some(q) ==> contains_substr(n.content, q))
        }
}

/// The trash listing's filter: soft-deleted notes only.
pub open spec fn trashed_pred() -> spec_fn(NoteModel) -> bool {
    |n: NoteModel| n.deleted_at is Some
}

/// A normal listing: the active notes passing the filter, pinned first, then
/// ordered by the chosen key.
pub open spec fn spec_list_notes(
    m: DbModel,
    opt: NoteSortOption,
    cat: Option<int>,
    search: Option<Seq<char>>,
) -> Seq<NoteModel> {
    sort_seq(m.notes.filter(active_pred(cat, search)), listing_leq(opt))
}

/// The trash listing: soft-deleted notes, most recently deleted first.
pub open spec fn spec_trash_notes(m: DbModel) -> Seq<NoteModel> {
    sort_seq(m.notes.filter(trashed_pred()), trash_leq())
}

/// An optional limit and offset applied to a listing; the offset counts
/// only when a limit is given.
pub open spec fn paginate<A>(s: Seq<A>, limit: Option<int>, offset: Option<int>) -> Seq<A> {
    match limit {
        None => s,
        Some(l) => {
            let o = match offset {
                Some(o) => o,
                None => 0,
            };
            let start = if o < s.len() {
                o
            } else {
                s.len() as int
            };
            let end = if o + l < s.len() {
                o + l
            } else {
                s.len() as int
            };
            if start <= end {
                s.subrange(start, end)
            } else {
                Seq::empty()
            }
        },
    }
}

/// The two orders a note listing can carry.
#[derive(Clone, Copy)]
pub enum NoteOrdering {
    Listing(NoteSortOption),
    TrashNewestFirst,
}

pub open spec fn note_ordering_leq(o: NoteOrdering) -> spec_fn(NoteModel, NoteModel) -> bool {
    match o {
        NoteOrdering::Listing(opt) => listing_leq(opt),
        NoteOrdering::TrashNewestFirst => trash_leq(),
    }
}

fn opt_leq_exec(a: Option<i64>, b: Option<i64>) -> (r: bool)
    ensures
        r == opt_time_leq(crate::model::view_opt_int(a), crate::model::view_opt_int(b)),
{
    match (a, b) {
        (None, _) => true,
        (Some(_), None) => false,
        (Some(x), Some(y)) => x <= y,
    }
}

fn note_leq_exec(o: NoteOrdering, a: &Note, b: &Note) -> (r: bool)
    ensures
        r == note_ordering_leq(o)(a@, b@),
{
    match o {
        NoteOrdering::Listing(opt) => {
            if a.is_pinned != b.is_pinned {
                a.is_pinned
            } else {
                match opt {
                    NoteSortOption::CreatedTimeDesc => b.created_at <= a.created_at,
                    NoteSortOption::CreatedTimeAsc => a.created_at <= b.created_at,
                    NoteSortOption::UpdatedTimeDesc => opt_leq_exec(b.updated_at, a.updated_at),
                    NoteSortOption::UpdatedTimeAsc => opt_leq_exec(a.updated_at, b.updated_at),
                }
            }
        },
        NoteOrdering::TrashNewestFirst => opt_leq_exec(b.deleted_at, a.deleted_at),
    }
}

/// Stable insertion sort of notes under the given order.
fn sort_notes(v: Vec<Note>, o: NoteOrdering) -> (r: Vec<Note>)
    ensures
        r@.map_values(|n: Note| n@) == sort_seq(
            v@.map_values(|n: Note| n@),
            note_ordering_leq(o),
        ),
        r@.len() == v@.len(),
{
    let ghost leq = note_ordering_leq(o);
    let ghost src = v@.map_values(|n: Note| n@);
    let mut out: Vec<Note> = Vec::new();
    proof {
        assert(src.take(0) =~= Seq::<NoteModel>::empty());
        assert(out@.map_values(|n: Note| n@) =~= sort_seq(src.take(0), leq));
    }
    let mut i: usize = 0;
    while i < v.len()
        invariant
            i <= v.len(),
            leq == note_ordering_leq(o),
            src == v@.map_values(|n: Note| n@),
            out@.map_values(|n: Note| n@) == sort_seq(src.take(i as int), leq),
            out@.len() == i,
        decreases v.len() - i,
    {
        let ghost sorted0 = sort_seq(src.take(i as int), leq);
        let mut p: usize = 0;
        while p < out.len() && note_leq_exec(o, &out[p], &v[i])
            invariant
                i < v.len(),
                leq == note_ordering_leq(o),
                src == v@.map_values(|n: Note| n@),
                out@.map_values(|n: Note| n@) == sorted0,
                out@.len() == i,
                0 <= p <= out.len(),
                forall|j: int| 0 <= j < p ==> leq(sorted0[j], src[i as int]),
            decreases out.len() - p,
        {
            proof {
                assert(leq(sorted0[p as int], src[i as int]));
            }
            p += 1;
        }
        proof {
            assert(p as int == out@.len() || !leq(sorted0[p as int], src[i as int]));
            lemma_insort_position(sorted0, src[i as int], leq, p as int);
        }
        out.insert(p, clone_note(&v[i]));
        proof {
            assert(out@.map_values(|n: Note| n@) =~= sorted0.insert(p as int, src[i as int]));
            assert(src.take(i as int + 1).drop_last() =~= src.take(i as int));
            assert(src.take(i as int + 1).last() == src[i as int]);
        }
        i += 1;
    }
    proof {
        assert(src.take(src.len() as int) =~= src);
        lemma_sort_seq_len(src, leq);
    }
    out
}

impl Database {
    /// The full listing query: filter by category and search term, order
    /// with pinned notes first and the chosen key as tiebreak, then apply an
    /// optional limit and offset.
    pub fn get_notes_sorted(
        &self,
        sort_by: NoteSortOption,
        category_id: Option<i64>,
        search: Option<&str>,
        limit: Option<i64>,
        offset: Option<i64>,
    ) -> (r: Result<Vec<Note>, StoreError>)
        requires
            self.wf(),
            limit matches Some(l) ==> l >= 0,
            offset matches Some(o) ==> o >= 0,
        ensures
            match r {
                Ok(v) => {
                    &&& v@.map_values(|n: Note| n@) == paginate(
                        spec_list_notes(
                            self@,
                            sort_by,
                            crate::model::view_opt_int(category_id),
                            view_opt_str_ref(search),
                        ),
                        crate::model::view_opt_int(limit),
                        crate::model::view_opt_int(offset),
                    )
                    &&& sorted_by(v@.map_values(|n: Note| n@), listing_leq(sort_by))
                },
                Err(_) => false,
            },
    {
        let ghost pred = active_pred(
            crate::model::view_opt_int(category_id),
            view_opt_str_ref(search),
        );
        let ghost src = self@.notes;

        // Filter: active, in the category, containing the search term.
        let mut picked: Vec<Note> = Vec::new();
        let mut i: usize = 0;
        proof {
            assert(src.take(0) =~= Seq::<NoteModel>::empty());
            reveal(Seq::filter);
            assert(picked@.map_values(|n: Note| n@) =~= src.take(0).filter(pred));
        }
        while i < self.notes.len()
            invariant
                self.wf(),
                src == self@.notes,
                pred == active_pred(
                    crate::model::view_opt_int(category_id),
                    view_opt_str_ref(search),
                ),
                i <= self.notes.len(),
                picked@.map_values(|n: Note| n@) == src.take(i as int).filter(pred),
            decreases self.notes.len() - i,
        {
            let ghost prefix = src.take(i as int);
            let n = &self.notes[i];
            let mut keep = match n.deleted_at {
                Some(_) => false,
                None => true,
            };
            if keep {
                keep = match category_id {
                    Some(c) => match n.category_id {
                        Some(nc) => nc == c,
                        None => false,
                    },
                    None => true,
                };
            }
            if keep {
                keep = match search {
                    Some(q) => str_contains_str(n.content.as_str(), q),
                    None => true,
                };
            }
            proof {
                assert(keep == pred(src[i as int]));
                assert(prefix.push(src[i as int]) =~= src.take(i as int + 1));
                crate::order::lemma_filter_push(prefix, src[i as int], pred);
            }
            if keep {
                picked.push(clone_note(n));
                proof {
                    assert(picked@.map_values(|n2: Note| n2@) =~= prefix.filter(pred).push(
                        src[i as int],
                    ));
                }
            }
            i += 1;
        }
        proof {
            assert(src.take(src.len() as int) =~= src);
        }

        // Order: pinned first, then the chosen key.
        let full = sort_notes(picked, NoteOrdering::Listing(sort_by));
        let ghost full_s = sort_seq(src.filter(pred), listing_leq(sort_by));
        proof {
            assert(full@.map_values(|n: Note| n@) == full_s);
            lemma_listing_leq_props(sort_by);
            lemma_sort_seq_sorted(src.filter(pred), listing_leq(sort_by));
            src.lemma_filter_len(pred);
        }

        // Paginate.
        match limit {
            None => {
                proof {
                    assert(paginate(
                        full_s,
                        crate::model::view_opt_int(limit),
                        crate::model::view_opt_int(offset),
                    ) == full_s);
                }
                Ok(full)
            },
            Some(l) => {
                let len_i: i64 = full.len() as i64;
                let o_i: i64 = match offset {
                    Some(o) => o,
                    None => 0,
                };
                let (start, end) = if o_i >= len_i {
                    (len_i, len_i)
                } else if len_i - o_i <= l {
                    (o_i, len_i)
                } else {
                    (o_i, o_i + l)
                };
                let ghost page = paginate(
                    full_s,
                    crate::model::view_opt_int(limit),
                    crate::model::view_opt_int(offset),
                );
                proof {
                    assert(page == full_s.subrange(start as int, end as int));
                }
                let mut out: Vec<Note> = Vec::new();
                let mut k: usize = start as usize;
                proof {
                    assert(out@.map_values(|n: Note| n@) =~= full_s.subrange(
                        start as int,
                        start as int,
                    ));
                }
                while k < end as usize
                    invariant
                        full@.map_values(|n: Note| n@) == full_s,
                        0 <= start <= end,
                        end as int <= full_s.len(),
                        full@.len() == full_s.len(),
                        start as usize <= k <= end as usize,
                        end as usize == end as int,
                        start as usize == start as int,
                        out@.map_values(|n: Note| n@) == full_s.subrange(
                            start as int,
                            k as int,
                        ),
                    decreases end as usize - k,
                {
                    let ghost before = full_s.subrange(start as int, k as int);
                    out.push(clone_note(&full[k]));
                    proof {
                        assert(full@.map_values(|n: Note| n@)[k as int] == full_s[k as int]);
                        assert(out@.map_values(|n: Note| n@) =~= before.push(full_s[k as int]));
                        assert(before.push(full_s[k as int]) =~= full_s.subrange(
                            start as int,
                            k as int + 1,
                        ));
                    }
                    k += 1;
                }
                proof {
                    assert(out@.map_values(|n: Note| n@) == page);
                    assert forall|a: int, b: int|
                        0 <= a < b < page.len() implies listing_leq(sort_by)(
                        page[a],
                        page[b],
                    ) by {
                        assert(page[a] == full_s[start as int + a]);
                        assert(page[b] == full_s[start as int + b]);
                    }
                }
                Ok(out)
            },
        }
    }

    /// All active notes, pinned first, newest first.
    pub fn get_notes(&self) -> (r: Result<Vec<Note>, StoreError>)
        requires
            self.wf(),
        ensures
            match r {
                Ok(v) => {
                    &&& v@.map_values(|n: Note| n@) == spec_list_notes(
                        self@,
                        NoteSortOption::CreatedTimeDesc,
                        None,
                        None,
                    )
                    &&& sorted_by(
                        v@.map_values(|n: Note| n@),
                        listing_leq(NoteSortOption::CreatedTimeDesc),
                    )
                },
                Err(_) => false,
            },
    {
        self.get_notes_sorted(NoteSortOption::CreatedTimeDesc, None, None, None, None)
    }

    /// Active notes whose content contains the query (literal,
    /// case-sensitive), optionally within one category; pinned first, newest
    /// first.
    pub fn search_notes(&self, query: &str, category_id: Option<i64>) -> (r: Result<
        Vec<Note>,
        StoreError,
    >)
        requires
            self.wf(),
        ensures
            match r {
                Ok(v) => {
                    &&& v@.map_values(|n: Note| n@) == spec_list_notes(
                        self@,
                        NoteSortOption::CreatedTimeDesc,
                        crate::model::view_opt_int(category_id),
                        Some(query@),
                    )
                    &&& sorted_by(
                        v@.map_values(|n: Note| n@),
                        listing_leq(NoteSortOption::CreatedTimeDesc),
                    )
                },
                Err(_) => false,
            },
    {
        self.get_notes_sorted(
            NoteSortOption::CreatedTimeDesc,
            category_id,
            Some(query),
            None,
            None,
        )
    }

    /// Active notes of one category, pinned first, newest first.
    pub fn get_notes_by_category(&self, category_id: i64) -> (r: Result<Vec<Note>, StoreError>)
        requires
            self.wf(),
        ensures
            match r {
                Ok(v) => {
                    &&& v@.map_values(|n: Note| n@) == spec_list_notes(
                        self@,
                        NoteSortOption::CreatedTimeDesc,
                        Some(category_id as int),
                        None,
                    )
                    &&& sorted_by(
                        v@.map_values(|n: Note| n@),
                        listing_leq(NoteSortOption::CreatedTimeDesc),
                    )
                },
                Err(_) => false,
            },
    {
        self.get_notes_sorted(
            NoteSortOption::CreatedTimeDesc,
            Some(category_id),
            None,
            None,
            None,
        )
    }

    /// The trash: soft-deleted notes, most recently deleted first.
    pub fn get_trash_notes(&self) -> (r: Result<Vec<Note>, StoreError>)
        requires
            self.wf(),
        ensures
            match r {
                Ok(v) => {
                    &&& v@.map_values(|n: Note| n@) == spec_trash_notes(self@)
                    &&& sorted_by(v@.map_values(|n: Note| n@), trash_leq())
                },
                Err(_) => false,
            },
    {
        let ghost pred = trashed_pred();
        let ghost src = self@.notes;
        let mut picked: Vec<Note> = Vec::new();
        let mut i: usize = 0;
        proof {
            assert(src.take(0) =~= Seq::<NoteModel>::empty());
            reveal(Seq::filter);
            assert(picked@.map_values(|n: Note| n@) =~= src.take(0).filter(pred));
        }
        while i < self.notes.len()
            invariant
                self.wf(),
                src == self@.notes,
                pred == trashed_pred(),
                i <= self.notes.len(),
                picked@.map_values(|n: Note| n@) == src.take(i as int).filter(pred),
            decreases self.notes.len() - i,
        {
            let ghost prefix = src.take(i as int);
            let keep = match self.notes[i].deleted_at {
                Some(_) => true,
                None => false,
            };
            proof {
                assert(keep == pred(src[i as int]));
                assert(prefix.push(src[i as int]) =~= src.take(i as int + 1));
                crate::order::lemma_filter_push(prefix, src[i as int], pred);
            }
            if keep {
                picked.push(clone_note(&self.notes[i]));
                proof {
                    assert(picked@.map_values(|n2: Note| n2@) =~= prefix.filter(pred).push(
                        src[i as int],
                    ));
                }
            }
            i += 1;
        }
        proof {
            assert(src.take(src.len() as int) =~= src);
        }
        let full = sort_notes(picked, NoteOrdering::TrashNewestFirst);
        proof {
            lemma_trash_leq_props();
            lemma_sort_seq_sorted(src.filter(pred), trash_leq());
        }
        Ok(full)
    }
}

} // verus!
