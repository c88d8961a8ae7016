use vstd::prelude::*;
use crate::errors::StoreError;
use crate::key_manager::{spec_delete_key, spec_get_key};
use crate::listings::{active_pred, spec_list_notes, spec_trash_notes, trashed_pred};
use crate::model::{NoteModel, NoteSortOption};
use crate::notes::{
    category_ref_ok, note_expired, spec_cleanup_trash, spec_create_note,
    spec_delete_note_permanently, spec_move_to_trash, spec_restore_from_trash, spec_toggle_pin,
    surviving_note, trash_threshold,
};
use crate::order::{
    category_name_leq, lemma_filter_elems, lemma_sort_seq_contains, listing_leq, sort_seq,
    trash_leq,
};
use crate::reminders::spec_upcoming;
use crate::store::{
    contains_category_id, contains_note_id, find_note, lemma_find_note_at, note_index_of,
    unique_note_ids, wf_model, DbModel,
};

verus! {

// ---------------------------------------------------------------------------
// Shared stepping stone: what stands in a listing stands in the table.
// ---------------------------------------------------------------------------

/// Every element of a filtered, sorted listing is a record of the underlying
/// table and passes the listing's filter.
pub proof fn lemma_listing_elem<A>(s: Seq<A>, pred: spec_fn(A) -> bool, leq: spec_fn(A, A) -> bool, k: int)
    requires
        0 <= k < sort_seq(s.filter(pred), leq).len(),
    ensures
        s.contains(sort_seq(s.filter(pred), leq)[k]),
        pred(sort_seq(s.filter(pred), leq)[k]),
{
    let f = s.filter(pred);
    let e = sort_seq(f, leq)[k];
    lemma_sort_seq_contains(f, leq);
    assert(sort_seq(f, leq).contains(e));
    assert(f.contains(e));
    let w = choose|w: int| 0 <= w < f.len() && f[w] == e;
    s.lemma_filter_pred(pred, w);
    lemma_filter_elems(s, pred);
    assert(s.contains(f[w]));
}

/// In a well-formed table, a listed note carrying `Some(id)` is the one note
/// stored under `id`.
proof fn lemma_listed_note_is_stored(s: Seq<NoteModel>, e: NoteModel, id: int)
    requires
        unique_note_ids(s),
        s.contains(e),
        e.id == Some(id),
    ensures
        contains_note_id(s, id),
        find_note(s, id) == Some(e),
{
    let w = choose|w: int| 0 <= w < s.len() && s[w] == e;
    lemma_find_note_at(s, id, w);
}

// ---------------------------------------------------------------------------
// Creating a note and reading it back
// ---------------------------------------------------------------------------

/// Round trip: creating a note and reading the returned id yields a note
/// with exactly the given content, not yet deleted and not pinned, whatever
/// timestamp the clock handed out.
pub proof fn lemma_create_note_round_trip(
    m: DbModel,
    content: Seq<char>,
    path: Option<Seq<char>>,
    cat: Option<int>,
    now: int,
)
    requires
        wf_model(m),
        m.next_note_id < i64::MAX,
        category_ref_ok(m, cat),
    ensures
        ({
            let step = spec_create_note(m, content, path, cat, now);
            &&& step.1 == Ok::<int, StoreError>(m.next_note_id)
            &&& find_note(step.0.notes, m.next_note_id) matches Some(n) && n.content == content
                && n.deleted_at is None && !n.is_pinned && n.created_at == now
        }),
{
    let step = spec_create_note(m, content, path, cat, now);
    let id = m.next_note_id;
    let s2 = step.0.notes;
    assert(s2[m.notes.len() as int].id == Some(id));
    assert forall|i: int, j: int| 0 <= i < j < s2.len() implies (#[trigger] s2[i]).id != (
    #[trigger] s2[j]).id by {
        if j < m.notes.len() {
            assert(s2[i] == m.notes[i] && s2[j] == m.notes[j]);
        } else {
            assert(s2[j].id == Some(id));
        }
    }
    lemma_find_note_at(s2, id, m.notes.len() as int);
}

// ---------------------------------------------------------------------------
// The soft-delete lifecycle
// ---------------------------------------------------------------------------

/// After a move to the trash, the note appears in no normal listing but
/// stands in the trash listing.
pub proof fn lemma_move_to_trash_lifecycle(m: DbModel, id: int, t: int, opt: NoteSortOption)
    requires
        wf_model(m),
        contains_note_id(m.notes, id),
    ensures
        ({
            let m2 = spec_move_to_trash(m, id, t);
            &&& forall|k: int|
                0 <= k < spec_list_notes(m2, opt, None, None).len() ==> (
                #[trigger] spec_list_notes(m2, opt, None, None)[k]).id != Some(id)
            &&& exists|k: int|
                0 <= k < spec_trash_notes(m2).len() && (#[trigger] spec_trash_notes(m2)[k]).id == Some(id)
        }),
{
    let m2 = spec_move_to_trash(m, id, t);
    let i = note_index_of(m.notes, id);
    assert(m2.notes[i].deleted_at == Some(t));
    assert(forall|k: int| 0 <= k < m2.notes.len() ==> (#[trigger] m2.notes[k]).id == m.notes[k].id);
    assert forall|k: int|
        0 <= k < spec_list_notes(m2, opt, None, None).len() implies (
    #[trigger] spec_list_notes(m2, opt, None, None)[k]).id != Some(id) by {
        let pred = active_pred(None, None);
        let leq = listing_leq(opt);
        lemma_listing_elem(m2.notes, pred, leq, k);
        let e = sort_seq(m2.notes.filter(pred), leq)[k];
        if e.id == Some(id) {
            lemma_listed_note_is_stored(m2.notes, e, id);
            let w = choose|w: int| 0 <= w < m2.notes.len() && m2.notes[w] == e;
            assert(w == i) by {
                if w != i {
                    assert(m2.notes[w].id != m2.notes[i].id);
                }
            }
            assert(e.deleted_at == Some(t));
            assert(pred(e));
            assert(false);
        }
    }
    let pred2 = trashed_pred();
    assert(pred2(m2.notes[i]));
    m2.notes.lemma_filter_contains(pred2, i);
    assert(m2.notes.filter(pred2).contains(m2.notes[i]));
    lemma_sort_seq_contains(m2.notes.filter(pred2), trash_leq());
    assert(spec_trash_notes(m2).contains(m2.notes[i]));
    let k = choose|k: int|
        0 <= k < spec_trash_notes(m2).len() && spec_trash_notes(m2)[k] == m2.notes[i];
    assert(spec_trash_notes(m2)[k].id == Some(id));
}

/// Restoring an active note after a move to the trash reproduces the exact
/// previous store.
pub proof fn lemma_restore_reverses_move(m: DbModel, id: int, t: int)
    requires
        wf_model(m),
        find_note(m.notes, id) matches Some(n) && n.deleted_at is None,
    ensures
        spec_restore_from_trash(spec_move_to_trash(m, id, t), id) == m,
{
    let m2 = spec_move_to_trash(m, id, t);
    let i = note_index_of(m.notes, id);
    assert(m2.notes[i].id == Some(id));
    assert(forall|k: int| 0 <= k < m2.notes.len() ==> (#[trigger] m2.notes[k]).id == m.notes[k].id);
    assert(contains_note_id(m2.notes, id)) by {
        assert(m2.notes[i].id == Some(id));
    }
    let j = note_index_of(m2.notes, id);
    assert(j == i) by {
        if j != i {
            assert(m2.notes[j].id != m2.notes[i].id);
        }
    }
    let m3 = spec_restore_from_trash(m2, id);
    assert(m3.notes =~= m.notes);
    assert(m3 =~= m);
}

// ---------------------------------------------------------------------------
// Trash retention
// ---------------------------------------------------------------------------

/// Cleaning the trash removes exactly the notes whose soft-delete stamp lies
/// before the threshold: older ones leave, younger ones and active notes
/// stay.
pub proof fn lemma_cleanup_retention(m: DbModel, id: int, days: int, now: int)
    requires
        wf_model(m),
        contains_note_id(m.notes, id),
    ensures
        ({
            let th = trash_threshold(now, days);
            let m2 = spec_cleanup_trash(m, th).0;
            &&& (find_note(m.notes, id) matches Some(n) && note_expired(n, th))
                ==> !contains_note_id(m2.notes, id)
            &&& (find_note(m.notes, id) matches Some(n) ==> (!note_expired(n, th)
                ==> find_note(m2.notes, id) == Some(n)))
        }),
{
    let th = trash_threshold(now, days);
    let m2 = spec_cleanup_trash(m, th).0;
    let keep = surviving_note(th);
    let i = note_index_of(m.notes, id);
    let n = m.notes[i];
    lemma_filter_elems(m.notes, keep);
    crate::order::lemma_filter_unique_by(m.notes, keep, |x: NoteModel| x.id);
    if note_expired(n, th) {
        assert forall|k: int| 0 <= k < m2.notes.len() implies (#[trigger] m2.notes[k]).id
            != Some(id) by {
            m.notes.lemma_filter_pred(keep, k);
            assert(m.notes.contains(m2.notes[k]));
            if m2.notes[k].id == Some(id) {
                let w = choose|w: int| 0 <= w < m.notes.len() && m.notes[w] == m2.notes[k];
                assert(w == i) by {
                    if w != i {
                        assert(m.notes[w].id != m.notes[i].id);
                    }
                }
                assert(keep(n));
                assert(false);
            }
        }
        if contains_note_id(m2.notes, id) {
            let w = choose|w: int| 0 <= w < m2.notes.len() && (#[trigger] m2.notes[w]).id == Some(id);
        }
    } else {
        assert(keep(n));
        m.notes.lemma_filter_contains(keep, i);
        assert(m2.notes.contains(n));
        let w = choose|w: int| 0 <= w < m2.notes.len() && m2.notes[w] == n;
        assert forall|a: int, b: int| 0 <= a < b < m2.notes.len() implies (
        #[trigger] m2.notes[a]).id != (#[trigger] m2.notes[b]).id by {}
        lemma_find_note_at(m2.notes, id, w);
    }
}

// ---------------------------------------------------------------------------
// The cascade of a permanent delete
// ---------------------------------------------------------------------------

/// A permanent delete leaves no reminder referencing the note, removes the
/// note from the table, and touches no other note.
pub proof fn lemma_permanent_delete_cascades(m: DbModel, id: int, opt: NoteSortOption)
    requires
        wf_model(m),
    ensures
        ({
            let m2 = spec_delete_note_permanently(m, id);
            &&& !contains_note_id(m2.notes, id)
            &&& forall|k: int|
                0 <= k < m2.reminders.len() ==> (#[trigger] m2.reminders[k]).note_id != id
            &&& forall|x: int|
                x != id ==> (contains_note_id(m2.notes, x) <==> contains_note_id(m.notes, x))
            &&& forall|k: int|
                0 <= k < spec_list_notes(m2, opt, None, None).len() ==> (
                #[trigger] spec_list_notes(m2, opt, None, None)[k]).id != Some(id)
            &&& forall|k: int|
                0 <= k < spec_trash_notes(m2).len() ==> (#[trigger] spec_trash_notes(m2)[k]).id != Some(id)
        }),
{
    let m2 = spec_delete_note_permanently(m, id);
    let pred = crate::notes::not_reminder_of(id);
    assert forall|k: int| 0 <= k < m2.reminders.len() implies (#[trigger] m2.reminders[k]).note_id
        != id by {
        m.reminders.lemma_filter_pred(pred, k);
    }
    if contains_note_id(m.notes, id) {
        let i = note_index_of(m.notes, id);
        m.notes.remove_ensures(i);
        assert forall|k: int| 0 <= k < m2.notes.len() implies (#[trigger] m2.notes[k]).id != Some(
            id,
        ) by {
            if k < i {
                assert(m2.notes[k] == m.notes[k]);
                if m.notes[k].id == Some(id) {
                    assert(m.notes[k].id != m.notes[i].id);
                }
            } else {
                assert(m2.notes[k] == m.notes[k + 1]);
                if m.notes[k + 1].id == Some(id) {
                    assert(m.notes[k + 1].id != m.notes[i].id);
                }
            }
        }
        if contains_note_id(m2.notes, id) {
            let w = choose|w: int|
                0 <= w < m2.notes.len() && (#[trigger] m2.notes[w]).id == Some(id);
        }
        assert forall|x: int| x != id implies (contains_note_id(m2.notes, x)
            <==> contains_note_id(m.notes, x)) by {
            if contains_note_id(m.notes, x) {
                crate::notes::lemma_remove_keeps_other_ids(m.notes, i, x);
            }
            if contains_note_id(m2.notes, x) {
                let w = choose|w: int|
                    0 <= w < m2.notes.len() && (#[trigger] m2.notes[w]).id == Some(x);
                if w < i {
                    assert(m.notes[w].id == Some(x));
                } else {
                    assert(m.notes[w + 1].id == Some(x));
                }
            }
        }
    } else {
        if contains_note_id(m2.notes, id) {
            let w = choose|w: int|
                0 <= w < m2.notes.len() && (#[trigger] m2.notes[w]).id == Some(id);
        }
    }
    assert forall|k: int| 0 <= k < spec_list_notes(m2, opt, None, None).len() implies (
    #[trigger] spec_list_notes(m2, opt, None, None)[k]).id != Some(id) by {
        lemma_listing_elem(m2.notes, active_pred(None, None), listing_leq(opt), k);
        let e = sort_seq(m2.notes.filter(active_pred(None, None)), listing_leq(opt))[k];
        if e.id == Some(id) {
            let w = choose|w: int| 0 <= w < m2.notes.len() && m2.notes[w] == e;
        }
    }
    assert forall|k: int| 0 <= k < spec_trash_notes(m2).len() implies (
    #[trigger] spec_trash_notes(m2)[k]).id != Some(id) by {
        lemma_listing_elem(m2.notes, trashed_pred(), trash_leq(), k);
        let e = sort_seq(m2.notes.filter(trashed_pred()), trash_leq())[k];
        if e.id == Some(id) {
            let w = choose|w: int| 0 <= w < m2.notes.len() && m2.notes[w] == e;
        }
    }
}

// ---------------------------------------------------------------------------
// The cascade of a category delete
// ---------------------------------------------------------------------------

/// Deleting a category detaches every referencing note — the notes survive
/// with their content — and removes the category from the table and from
/// the category listing.
pub proof fn lemma_delete_category_cascades(m: DbModel, cid: int, nid: int)
    requires
        wf_model(m),
    ensures
        ({
            let m2 = crate::categories::spec_delete_category(m, cid);
            &&& !contains_category_id(m2.categories, cid)
            &&& forall|k: int|
                0 <= k < m2.notes.len() ==> (#[trigger] m2.notes[k]).category_id != Some(cid)
            &&& (find_note(m.notes, nid) matches Some(n) && n.category_id == Some(cid)) ==> (
                find_note(m2.notes, nid) matches Some(n2) && n2.category_id is None
                    && n2.content == find_note(m.notes, nid)->0.content)
            &&& forall|k: int|
                0 <= k < sort_seq(m2.categories, category_name_leq()).len() ==> (
                #[trigger] sort_seq(m2.categories, category_name_leq())[k]).id != Some(cid)
        }),
{
    let m2 = crate::categories::spec_delete_category(m, cid);
    let clear = crate::categories::cleared_of_category(cid);
    assert(forall|k: int|
        0 <= k < m2.notes.len() ==> #[trigger] m2.notes[k] == clear(m.notes[k]));
    assert forall|k: int| 0 <= k < m2.notes.len() implies (#[trigger] m2.notes[k]).category_id
        != Some(cid) by {
        assert(m2.notes[k] == clear(m.notes[k]));
    }
    if contains_category_id(m.categories, cid) {
        let i = crate::store::category_index_of(m.categories, cid);
        m.categories.remove_ensures(i);
        assert forall|k: int| 0 <= k < m2.categories.len() implies (
        #[trigger] m2.categories[k]).id != Some(cid) by {
            if k < i {
                if m.categories[k].id == Some(cid) {
                    assert(m.categories[k].id != m.categories[i].id);
                }
            } else {
                assert(m2.categories[k] == m.categories[k + 1]);
                if m.categories[k + 1].id == Some(cid) {
                    assert(m.categories[k + 1].id != m.categories[i].id);
                }
            }
        }
        if contains_category_id(m2.categories, cid) {
            let w = choose|w: int|
                0 <= w < m2.categories.len() && (#[trigger] m2.categories[w]).id == Some(cid);
        }
    } else {
        if contains_category_id(m2.categories, cid) {
            let w = choose|w: int|
                0 <= w < m2.categories.len() && (#[trigger] m2.categories[w]).id == Some(cid);
        }
    }
    if find_note(m.notes, nid) matches Some(n) && n.category_id == Some(cid) {
        let i = note_index_of(m.notes, nid);
        assert(m2.notes[i] == clear(m.notes[i]));
        assert(m2.notes[i].id == Some(nid));
        assert forall|a: int, b: int| 0 <= a < b < m2.notes.len() implies (
        #[trigger] m2.notes[a]).id != (#[trigger] m2.notes[b]).id by {
            assert(m2.notes[a] == clear(m.notes[a]));
            assert(m2.notes[b] == clear(m.notes[b]));
        }
        lemma_find_note_at(m2.notes, nid, i);
    }
    assert forall|k: int| 0 <= k < sort_seq(m2.categories, category_name_leq()).len() implies (
    #[trigger] sort_seq(m2.categories, category_name_leq())[k]).id != Some(cid) by {
        lemma_sort_seq_contains(m2.categories, category_name_leq());
        let e = sort_seq(m2.categories, category_name_leq())[k];
        assert(sort_seq(m2.categories, category_name_leq()).contains(e));
        assert(m2.categories.contains(e));
        if e.id == Some(cid) {
            let w = choose|w: int| 0 <= w < m2.categories.len() && m2.categories[w] == e;
        }
    }
}

// ---------------------------------------------------------------------------
// Pin toggling
// ---------------------------------------------------------------------------

/// Toggling twice restores the exact previous store; a missing id is
/// `NotFound` and changes nothing; one toggle reports the flipped state.
pub proof fn lemma_toggle_pin_involution(m: DbModel, id: int)
    requires
        wf_model(m),
    ensures
        !contains_note_id(m.notes, id) ==> spec_toggle_pin(m, id) == (
            m,
            Err::<bool, StoreError>(StoreError::NotFound),
        ),
        contains_note_id(m.notes, id) ==> ({
            let s1 = spec_toggle_pin(m, id);
            let s2 = spec_toggle_pin(s1.0, id);
            &&& s1.1 == Ok::<bool, StoreError>(!find_note(m.notes, id)->0.is_pinned)
            &&& s2.1 == Ok::<bool, StoreError>(find_note(m.notes, id)->0.is_pinned)
            &&& s2.0 == m
        }),
{
    if contains_note_id(m.notes, id) {
        let i = note_index_of(m.notes, id);
        let s1 = spec_toggle_pin(m, id);
        assert(s1.0.notes[i].id == Some(id));
        assert(forall|k: int|
            0 <= k < s1.0.notes.len() ==> (#[trigger] s1.0.notes[k]).id == m.notes[k].id);
        assert(contains_note_id(s1.0.notes, id)) by {
            assert(s1.0.notes[i].id == Some(id));
        }
        let j = note_index_of(s1.0.notes, id);
        assert(j == i) by {
            if j != i {
                assert(s1.0.notes[j].id != s1.0.notes[i].id);
            }
        }
        let s2 = spec_toggle_pin(s1.0, id);
        assert(s2.0.notes =~= m.notes);
        assert(s2.0 =~= m);
    }
}

// ---------------------------------------------------------------------------
// Reminder eligibility
// ---------------------------------------------------------------------------

/// No triggered reminder, and no reminder of a trashed note, ever appears in
/// the due listing.
pub proof fn lemma_due_reminders_eligible(m: DbModel, limit: Option<int>, k: int)
    requires
        wf_model(m),
        limit matches Some(l) ==> l >= 0,
        0 <= k < spec_upcoming(m, limit).len(),
    ensures
        !spec_upcoming(m, limit)[k].reminder.completed,
        spec_upcoming(m, limit)[k].note.deleted_at is None,
{
    let pred = crate::reminders::due_pred(m);
    let base = crate::reminders::spec_due_reminders(m);
    let capped = crate::reminders::cap(base, limit);
    assert(spec_upcoming(m, limit)[k] == crate::reminders::with_owner(m)(capped[k]));
    assert(capped.len() <= base.len());
    assert(capped[k] == base[k]);
    assert(base.contains(base[k])) by {
        assert(0 <= k < base.len());
    }
    lemma_sort_seq_contains(m.reminders.filter(pred), crate::order::reminder_time_leq());
    assert(m.reminders.filter(pred).contains(base[k]));
    let w = choose|w: int|
        0 <= w < m.reminders.filter(pred).len() && m.reminders.filter(pred)[w] == base[k];
    m.reminders.lemma_filter_pred(pred, w);
    assert(pred(base[k]));
}

// ---------------------------------------------------------------------------
// Key stability
// ---------------------------------------------------------------------------

/// Two sequential key acquisitions return the identical key, whatever fresh
/// keys the generator would offer.
pub proof fn lemma_key_stability(stored: Option<Seq<char>>, f1: Seq<char>, f2: Seq<char>)
    ensures
        spec_get_key(spec_get_key(stored, f1).0, f2).1 == spec_get_key(stored, f1).1,
        spec_get_key(spec_get_key(stored, f1).0, f2).0 == spec_get_key(stored, f1).0,
{
}

/// Deleting the key and acquiring again yields the freshly generated key —
/// a different one whenever the generator does not reproduce the old key.
pub proof fn lemma_key_reset_differs(stored: Option<Seq<char>>, f1: Seq<char>, f2: Seq<char>)
    requires
        f2 != spec_get_key(stored, f1).1,
    ensures
        spec_get_key(spec_delete_key(spec_get_key(stored, f1).0).0, f2).1 == f2,
        spec_get_key(spec_delete_key(spec_get_key(stored, f1).0).0, f2).1 != spec_get_key(
            stored,
            f1,
        ).1,
{
}

} // verus!
