use vstd::prelude::*;
use vstd::relations::{sorted_by, strongly_connected, transitive};
use crate::model::{CategoryModel, NoteModel, NoteSortOption, ReminderModel};

verus! {

// ---------------------------------------------------------------------------
// A stable insertion sort, specified as a recursive function on sequences.
// ---------------------------------------------------------------------------

/// `x` inserted into `s` before the first element `e` with `!leq(e, x)`.
/// When `s` is sorted and `leq` is a total preorder, the insertion keeps the
/// sequence sorted and places `x` after every element it ties with.
pub open spec fn insort<A>(s: Seq<A>, x: A, leq: spec_fn(A, A) -> bool) -> Seq<A>
    decreases s.len(),
{
    if s.len() == 0 {
        seq![x]
    } else if !leq(s[0], x) {
        seq![x] + s
    } else {
        seq![s[0]] + insort(s.drop_first(), x, leq)
    }
}

/// Stable sort of `s` under the total preorder `leq`: the elements are taken
/// left to right and each is inserted after every earlier element that does
/// not strictly follow it.
pub open spec fn sort_seq<A>(s: Seq<A>, leq: spec_fn(A, A) -> bool) -> Seq<A>
    decreases s.len(),
{
    if s.len() == 0 {
        Seq::empty()
    } else {
        insort(sort_seq(s.drop_last(), leq), s.last(), leq)
    }
}

pub proof fn lemma_insort_len<A>(s: Seq<A>, x: A, leq: spec_fn(A, A) -> bool)
    ensures
        insort(s, x, leq).len() == s.len() + 1,
    decreases s.len(),
{
    if s.len() == 0 {
    } else if !leq(s[0], x) {
    } else {
        lemma_insort_len(s.drop_first(), x, leq);
    }
}

pub proof fn lemma_insort_contains<A>(s: Seq<A>, x: A, leq: spec_fn(A, A) -> bool)
    ensures
        forall|y: A| #[trigger] insort(s, x, leq).contains(y) <==> (s.contains(y) || y == x),
    decreases s.len(),
{
    if s.len() == 0 {
        assert forall|y: A| #[trigger] insort(s, x, leq).contains(y) implies (s.contains(y) || y
            == x) by {
            let i = choose|i: int| 0 <= i < insort(s, x, leq).len() && insort(s, x, leq)[i] == y;
            assert(insort(s, x, leq)[i] == x);
        }
        assert(insort(s, x, leq)[0] == x);
    } else if !leq(s[0], x) {
        let r = seq![x] + s;
        assert forall|y: A| #[trigger] r.contains(y) implies (s.contains(y) || y == x) by {
            let i = choose|i: int| 0 <= i < r.len() && r[i] == y;
            if i > 0 {
                assert(s[i - 1] == y);
            }
        }
        assert forall|y: A| (s.contains(y) || y == x) implies #[trigger] r.contains(y) by {
            if y == x {
                assert(r[0] == y);
            } else {
                let i = choose|i: int| 0 <= i < s.len() && s[i] == y;
                assert(r[i + 1] == y);
            }
        }
    } else {
        let d = s.drop_first();
        lemma_insort_contains(d, x, leq);
        let rec = insort(d, x, leq);
        let r = seq![s[0]] + rec;
        assert forall|y: A| #[trigger] r.contains(y) implies (s.contains(y) || y == x) by {
            let i = choose|i: int| 0 <= i < r.len() && r[i] == y;
            if i == 0 {
                assert(s[0] == y);
            } else {
                assert(rec[i - 1] == y);
                assert(rec.contains(y));
                if d.contains(y) {
                    let j = choose|j: int| 0 <= j < d.len() && d[j] == y;
                    assert(s[j + 1] == y);
                }
            }
        }
        assert forall|y: A| (s.contains(y) || y == x) implies #[trigger] r.contains(y) by {
            if y == x {
                assert(rec.contains(y));
                let j = choose|j: int| 0 <= j < rec.len() && rec[j] == y;
                assert(r[j + 1] == y);
            } else {
                let i = choose|i: int| 0 <= i < s.len() && s[i] == y;
                if i == 0 {
                    assert(r[0] == y);
                } else {
                    assert(d[i - 1] == y);
                    assert(d.contains(y));
                    assert(rec.contains(y));
                    let j = choose|j: int| 0 <= j < rec.len() && rec[j] == y;
                    assert(r[j + 1] == y);
                }
            }
        }
    }
}

/// When `p` is the first position of `s` whose element does not precede `x`,
/// `insort` is exactly insertion at `p`.
pub proof fn lemma_insort_position<A>(s: Seq<A>, x: A, leq: spec_fn(A, A) -> bool, p: int)
    requires
        0 <= p <= s.len(),
        forall|j: int| 0 <= j < p ==> leq(#[trigger] s[j], x),
        p < s.len() ==> !leq(s[p], x),
    ensures
        insort(s, x, leq) == s.insert(p, x),
    decreases s.len(),
{
    if s.len() == 0 {
        assert(insort(s, x, leq) =~= s.insert(0, x));
    } else if !leq(s[0], x) {
        assert(p == 0);
        assert(seq![x] + s =~= s.insert(0, x));
    } else {
        assert(p >= 1);
        let d = s.drop_first();
        assert(forall|j: int| 0 <= j < p - 1 ==> leq(#[trigger] d[j], x));
        lemma_insort_position(d, x, leq, p - 1);
        assert(seq![s[0]] + d.insert(p - 1, x) =~= s.insert(p, x));
    }
}

pub proof fn lemma_insort_sorted<A>(s: Seq<A>, x: A, leq: spec_fn(A, A) -> bool)
    requires
        sorted_by(s, leq),
        transitive(leq),
        strongly_connected(leq),
    ensures
        sorted_by(insort(s, x, leq), leq),
    decreases s.len(),
{
    if s.len() == 0 {
    } else if !leq(s[0], x) {
        let r = seq![x] + s;
        assert(leq(x, s[0]));
        assert forall|i: int, j: int| 0 <= i < j < r.len() implies leq(r[i], r[j]) by {
            if i == 0 {
                if j == 1 {
                    assert(leq(x, s[0]));
                } else {
                    assert(leq(s[0], s[j - 1]));
                }
            } else {
                assert(leq(s[i - 1], s[j - 1]));
            }
        }
    } else {
        let d = s.drop_first();
        assert forall|i: int, j: int| 0 <= i < j < d.len() implies leq(d[i], d[j]) by {
            assert(leq(s[i + 1], s[j + 1]));
        }
        lemma_insort_sorted(d, x, leq);
        lemma_insort_contains(d, x, leq);
        let rec = insort(d, x, leq);
        let r = seq![s[0]] + rec;
        assert forall|i: int, j: int| 0 <= i < j < r.len() implies leq(r[i], r[j]) by {
            if i == 0 {
                assert(rec.contains(rec[j - 1]));
                if rec[j - 1] == x {
                    assert(leq(s[0], x));
                } else {
                    assert(d.contains(rec[j - 1]));
                    let k = choose|k: int| 0 <= k < d.len() && d[k] == rec[j - 1];
                    assert(leq(s[0], s[k + 1]));
                }
            } else {
                assert(leq(rec[i - 1], rec[j - 1]));
            }
        }
    }
}

pub proof fn lemma_sort_seq_len<A>(s: Seq<A>, leq: spec_fn(A, A) -> bool)
    ensures
        sort_seq(s, leq).len() == s.len(),
    decreases s.len(),
{
    if s.len() == 0 {
    } else {
        lemma_sort_seq_len(s.drop_last(), leq);
        lemma_insort_len(sort_seq(s.drop_last(), leq), s.last(), leq);
    }
}

pub proof fn lemma_sort_seq_sorted<A>(s: Seq<A>, leq: spec_fn(A, A) -> bool)
    requires
        transitive(leq),
        strongly_connected(leq),
    ensures
        sorted_by(sort_seq(s, leq), leq),
    decreases s.len(),
{
    if s.len() == 0 {
    } else {
        lemma_sort_seq_sorted(s.drop_last(), leq);
        lemma_insort_sorted(sort_seq(s.drop_last(), leq), s.last(), leq);
    }
}

pub proof fn lemma_sort_seq_contains<A>(s: Seq<A>, leq: spec_fn(A, A) -> bool)
    ensures
        forall|y: A| #[trigger] sort_seq(s, leq).contains(y) <==> s.contains(y),
    decreases s.len(),
{
    if s.len() == 0 {
        assert forall|y: A| #[trigger] sort_seq(s, leq).contains(y) implies s.contains(y) by {
            let i = choose|i: int|
                0 <= i < sort_seq(s, leq).len() && sort_seq(s, leq)[i] == y;
        }
    } else {
        let d = s.drop_last();
        lemma_sort_seq_contains(d, leq);
        lemma_insort_contains(sort_seq(d, leq), s.last(), leq);
        assert(d.push(s.last()) =~= s);
        assert forall|y: A| #[trigger] sort_seq(s, leq).contains(y) implies s.contains(y) by {
            if sort_seq(d, leq).contains(y) {
                assert(d.contains(y));
                let i = choose|i: int| 0 <= i < d.len() && d[i] == y;
                assert(s[i] == y);
            } else {
                assert(y == s.last());
                assert(s[s.len() - 1] == y);
            }
        }
        assert forall|y: A| s.contains(y) implies #[trigger] sort_seq(s, leq).contains(y) by {
            let i = choose|i: int| 0 <= i < s.len() && s[i] == y;
            if i < s.len() - 1 {
                assert(d[i] == y);
                assert(d.contains(y));
            } else {
                assert(y == s.last());
            }
        }
    }
}

// ---------------------------------------------------------------------------
// The concrete orders used by the store's listings.
// ---------------------------------------------------------------------------

/// Order on optional timestamps with `None` before every value, matching the
/// backing store's placement of null timestamps in ascending order.
pub open spec fn opt_time_leq(a: Option<int>, b: Option<int>) -> bool {
    match (a, b) {
        (Option::None, _) => true,
        (Option::Some(_), Option::None) => false,
        (Option::Some(x), Option::Some(y)) => x <= y,
    }
}

pub open spec fn sort_key_leq(opt: NoteSortOption, a: NoteModel, b: NoteModel) -> bool {
    match opt {
        NoteSortOption::CreatedTimeDesc => b.created_at <= a.created_at,
        NoteSortOption::CreatedTimeAsc => a.created_at <= b.created_at,
        NoteSortOption::UpdatedTimeDesc => opt_time_leq(b.updated_at, a.updated_at),
        NoteSortOption::UpdatedTimeAsc => opt_time_leq(a.updated_at, b.updated_at),
    }
}

/// Listing order: pinned notes first, then the chosen sort key.
pub open spec fn listing_leq(opt: NoteSortOption) -> spec_fn(NoteModel, NoteModel) -> bool {
    |a: NoteModel, b: NoteModel|
        if a.is_pinned != b.is_pinned {
            a.is_pinned
        } else {
            sort_key_leq(opt, a, b)
        }
}

/// Trash listing order: most recently deleted first.
pub open spec fn trash_leq() -> spec_fn(NoteModel, NoteModel) -> bool {
    |a: NoteModel, b: NoteModel| opt_time_leq(b.deleted_at, a.deleted_at)
}

/// Reminder listing order: earliest scheduled time first.
pub open spec fn reminder_time_leq() -> spec_fn(ReminderModel, ReminderModel) -> bool {
    |a: ReminderModel, b: ReminderModel| a.reminder_time <= b.reminder_time
}

pub proof fn lemma_listing_leq_props(opt: NoteSortOption)
    ensures
        transitive(listing_leq(opt)),
        strongly_connected(listing_leq(opt)),
{
    let leq = listing_leq(opt);
    assert forall|x: NoteModel, y: NoteModel, z: NoteModel| #[trigger]
        leq(x, y) && #[trigger] leq(y, z) implies leq(x, z) by {}
    assert forall|x: NoteModel, y: NoteModel| #[trigger] leq(x, y) || #[trigger] leq(y, x) by {}
}

pub proof fn lemma_trash_leq_props()
    ensures
        transitive(trash_leq()),
        strongly_connected(trash_leq()),
{
    let leq = trash_leq();
    assert forall|x: NoteModel, y: NoteModel, z: NoteModel| #[trigger]
        leq(x, y) && #[trigger] leq(y, z) implies leq(x, z) by {}
    assert forall|x: NoteModel, y: NoteModel| #[trigger] leq(x, y) || #[trigger] leq(y, x) by {}
}

pub proof fn lemma_reminder_time_leq_props()
    ensures
        transitive(reminder_time_leq()),
        strongly_connected(reminder_time_leq()),
{
    let leq = reminder_time_leq();
    assert forall|x: ReminderModel, y: ReminderModel, z: ReminderModel| #[trigger]
        leq(x, y) && #[trigger] leq(y, z) implies leq(x, z) by {}
    assert forall|x: ReminderModel, y: ReminderModel| #[trigger] leq(x, y) || #[trigger]
        leq(y, x) by {}
}

// ---------------------------------------------------------------------------
// Lexicographic order on character sequences (category names).
// ---------------------------------------------------------------------------

pub open spec fn lex_leq(a: Seq<char>, b: Seq<char>) -> bool
    decreases a.len(),
{
    if a.len() == 0 {
        true
    } else if b.len() == 0 {
        false
    } else if a[0] != b[0] {
        (a[0] as int) < (b[0] as int)
    } else {
        lex_leq(a.drop_first(), b.drop_first())
    }
}

pub proof fn lemma_lex_leq_connected(a: Seq<char>, b: Seq<char>)
    ensures
        lex_leq(a, b) || lex_leq(b, a),
    decreases a.len(),
{
    if a.len() == 0 || b.len() == 0 {
    } else if a[0] != b[0] {
    } else {
        lemma_lex_leq_connected(a.drop_first(), b.drop_first());
    }
}

pub proof fn lemma_lex_leq_trans(a: Seq<char>, b: Seq<char>, c: Seq<char>)
    requires
        lex_leq(a, b),
        lex_leq(b, c),
    ensures
        lex_leq(a, c),
    decreases a.len(),
{
    if a.len() == 0 {
    } else if b.len() == 0 {
    } else if c.len() == 0 {
    } else if a[0] == b[0] && b[0] == c[0] {
        lemma_lex_leq_trans(a.drop_first(), b.drop_first(), c.drop_first());
    }
}

/// Category listing order: name ascending, lexicographically by character.
pub open spec fn category_name_leq() -> spec_fn(CategoryModel, CategoryModel) -> bool {
    |a: CategoryModel, b: CategoryModel| lex_leq(a.name, b.name)
}

pub proof fn lemma_category_name_leq_props()
    ensures
        transitive(category_name_leq()),
        strongly_connected(category_name_leq()),
{
    let leq = category_name_leq();
    assert forall|x: CategoryModel, y: CategoryModel, z: CategoryModel| #[trigger]
        leq(x, y) && #[trigger] leq(y, z) implies leq(x, z) by {
        lemma_lex_leq_trans(x.name, y.name, z.name);
    }
    assert forall|x: CategoryModel, y: CategoryModel| #[trigger] leq(x, y) || #[trigger]
        leq(y, x) by {
        lemma_lex_leq_connected(x.name, y.name);
    }
}

// ---------------------------------------------------------------------------
// Substring containment (the content search filter).
// ---------------------------------------------------------------------------

/// The needle `n` occurs in `h` starting at character position `i`.
pub open spec fn matches_at(h: Seq<char>, n: Seq<char>, i: int) -> bool {
    &&& 0 <= i
    &&& i + n.len() <= h.len()
    &&& forall|j: int| 0 <= j < n.len() ==> h[i + j] == #[trigger] n[j]
}

/// The needle `n` occurs somewhere in `h` (literal, case-sensitive).
pub open spec fn contains_substr(h: Seq<char>, n: Seq<char>) -> bool {
    exists|i: int| matches_at(h, n, i)
}

/// Literal, case-sensitive substring test over characters.
pub fn str_contains_str(h: &str, n: &str) -> (r: bool)
    ensures
        r == contains_substr(h@, n@),
{
    let hl = h.unicode_len();
    let nl = n.unicode_len();
    if nl > hl {
        assert(!contains_substr(h@, n@)) by {
            if contains_substr(h@, n@) {
                let i = choose|i: int| matches_at(h@, n@, i);
            }
        }
        return false;
    }
    let mut i: usize = 0;
    while i <= hl - nl
        invariant
            nl <= hl,
            hl == h@.len(),
            nl == n@.len(),
            0 <= i <= hl - nl + 1,
            forall|k: int| 0 <= k < i ==> !matches_at(h@, n@, k),
        decreases hl - nl - i + 1,
    {
        let mut j: usize = 0;
        let mut ok = true;
        while j < nl
            invariant
                nl <= hl,
                hl == h@.len(),
                nl == n@.len(),
                0 <= i <= hl - nl,
                0 <= j <= nl,
                ok <==> (forall|t: int| 0 <= t < j ==> h@[i + t] == #[trigger] n@[t]),
            decreases nl - j,
        {
            if ok {
                let hc = h.get_char(i + j);
                let nc = n.get_char(j);
                if hc != nc {
                    ok = false;
                }
            }
            j += 1;
        }
        if ok {
            assert(matches_at(h@, n@, i as int));
            return true;
        }
        i += 1;
    }
    assert forall|k: int| matches_at(h@, n@, k) implies false by {
        assert(0 <= k && k + n@.len() <= h@.len());
        assert(k < i);
    }
    false
}


// ---------------------------------------------------------------------------
// Facts about Seq::filter used by the store's cascades and listings.
// ---------------------------------------------------------------------------

pub proof fn lemma_filter_push<A>(s: Seq<A>, x: A, pred: spec_fn(A) -> bool)
    ensures
        s.push(x).filter(pred) == if pred(x) {
            s.filter(pred).push(x)
        } else {
            s.filter(pred)
        },
{
    reveal(Seq::filter);
    assert(s.push(x).drop_last() =~= s);
    assert(s.push(x).last() == x);
}

/// Every element of a filtered sequence is an element of the original.
pub proof fn lemma_filter_elems<A>(s: Seq<A>, pred: spec_fn(A) -> bool)
    ensures
        forall|i: int|
            0 <= i < s.filter(pred).len() ==> s.contains(#[trigger] s.filter(pred)[i]),
    decreases s.len(),
{
    reveal(Seq::filter);
    if s.len() == 0 {
    } else {
        let d = s.drop_last();
        lemma_filter_elems(d, pred);
        let f = s.filter(pred);
        let fd = d.filter(pred);
        assert forall|i: int| 0 <= i < f.len() implies s.contains(#[trigger] f[i]) by {
            if pred(s.last()) {
                if i < fd.len() {
                    assert(f[i] == fd[i]);
                    assert(d.contains(fd[i]));
                    let w = choose|w: int| 0 <= w < d.len() && d[w] == fd[i];
                    assert(s[w] == f[i]);
                } else {
                    assert(f[i] == s.last());
                    assert(s[s.len() - 1] == s.last());
                }
            } else {
                assert(f[i] == fd[i]);
                assert(d.contains(fd[i]));
                let w = choose|w: int| 0 <= w < d.len() && d[w] == fd[i];
                assert(s[w] == f[i]);
            }
        }
    }
}

/// A filter keeps keys pairwise distinct.
pub proof fn lemma_filter_unique_by<A>(
    s: Seq<A>,
    pred: spec_fn(A) -> bool,
    key: spec_fn(A) -> Option<int>,
)
    requires
        forall|i: int, j: int| 0 <= i < j < s.len() ==> key(#[trigger] s[i]) != key(#[trigger] s[j]),
    ensures
        forall|i: int, j: int|
            0 <= i < j < s.filter(pred).len() ==> key(#[trigger] s.filter(pred)[i]) != key(
                #[trigger] s.filter(pred)[j],
            ),
    decreases s.len(),
{
    reveal(Seq::filter);
    if s.len() == 0 {
    } else {
        let d = s.drop_last();
        assert(forall|i: int, j: int|
            0 <= i < j < d.len() ==> key(#[trigger] d[i]) != key(#[trigger] d[j])) by {
            assert(forall|i: int| 0 <= i < d.len() ==> d[i] == s[i]);
        }
        lemma_filter_unique_by(d, pred, key);
        lemma_filter_elems(d, pred);
        let f = s.filter(pred);
        let fd = d.filter(pred);
        assert forall|i: int, j: int| 0 <= i < j < f.len() implies key(#[trigger] f[i]) != key(
            #[trigger] f[j],
        ) by {
            if pred(s.last()) {
                if j < fd.len() {
                    assert(f[i] == fd[i] && f[j] == fd[j]);
                } else {
                    assert(f[j] == s.last());
                    assert(f[i] == fd[i]);
                    assert(d.contains(fd[i]));
                    let w = choose|w: int| 0 <= w < d.len() && d[w] == fd[i];
                    assert(key(s[w]) != key(s[s.len() - 1]));
                }
            } else {
                assert(f[i] == fd[i] && f[j] == fd[j]);
            }
        }
    }
}

} // verus!
