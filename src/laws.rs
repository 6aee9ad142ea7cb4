use vstd::prelude::*;
use crate::order::{lemma_sort_desc, sort_desc};
use crate::record::{
    Entry, MAX_RECENT, first_index, has_path, lemma_has_path_first, paths_unique, sorted_desc,
};
use crate::registry::{bumped, keep_recent, saved, stale, touch_all, touched};

verus! {

/// Cutting to `MAX_RECENT` keeps order and uniqueness and adds nothing.
pub proof fn lemma_keep_recent(s: Seq<Entry>)
    ensures
        keep_recent(s).len() <= MAX_RECENT,
        s.len() <= MAX_RECENT ==> keep_recent(s) == s,
        forall|i: int| 0 <= i < keep_recent(s).len() ==> #[trigger] keep_recent(s)[i] == s[i],
        sorted_desc(s) ==> sorted_desc(keep_recent(s)),
        paths_unique(s) ==> paths_unique(keep_recent(s)),
{
}

/// Opening `p` leaves one record of `p`, opened at `now`, when paths were
/// unique before.
pub proof fn lemma_bumped(s: Seq<Entry>, p: Seq<char>, now: u64)
    requires
        paths_unique(s),
    ensures
        paths_unique(bumped(s, p, now)),
        has_path(bumped(s, p, now), p),
        forall|i: int|
            0 <= i < bumped(s, p, now).len() && #[trigger] bumped(s, p, now)[i].path == p
                ==> bumped(s, p, now)[i].last_opened == now,
        bumped(s, p, now).len() == if has_path(s, p) { s.len() } else { s.len() + 1 },
        forall|i: int|
            0 <= i < s.len() && s[i].path != p ==> bumped(s, p, now).contains(#[trigger] s[i]),
{
    let b = bumped(s, p, now);
    if has_path(s, p) {
        lemma_has_path_first(s, p);
        let k = first_index(s, p);
        assert(b[k].path == p);
        assert forall|i: int| 0 <= i < s.len() && s[i].path != p implies b.contains(#[trigger] s[i]) by {
            assert(b[i] == s[i]);
        }
    } else {
        assert(b[s.len() as int].path == p);
        assert forall|i: int| 0 <= i < s.len() && s[i].path != p implies b.contains(#[trigger] s[i]) by {
            assert(b[i] == s[i]);
        }
    }
}

/// After a `touch`, the records number at most `MAX_RECENT`, run from most to
/// least recently opened, and keep one record per path if they did before.
pub proof fn lemma_touched_invariants(s: Seq<Entry>, p: Seq<char>, now: u64)
    ensures
        touched(s, p, now).len() <= MAX_RECENT,
        sorted_desc(touched(s, p, now)),
        paths_unique(s) ==> paths_unique(touched(s, p, now)),
{
    let b = bumped(s, p, now);
    lemma_sort_desc(b);
    lemma_keep_recent(sort_desc(b));
    if paths_unique(s) {
        lemma_bumped(s, p, now);
    }
}

/// Over any sequence of `touch` calls, paths stay unique; after at least one,
/// the records number at most `MAX_RECENT` and run from most to least
/// recently opened.
pub proof fn lemma_touch_all(s: Seq<Entry>, ops: Seq<(Seq<char>, u64)>)
    requires
        paths_unique(s),
    ensures
        paths_unique(touch_all(s, ops)),
        ops.len() > 0 ==> touch_all(s, ops).len() <= MAX_RECENT,
        ops.len() > 0 ==> sorted_desc(touch_all(s, ops)),
    decreases ops.len(),
{
    if ops.len() > 0 {
        lemma_touch_all(s, ops.drop_last());
        lemma_touched_invariants(touch_all(s, ops.drop_last()), ops.last().0, ops.last().1);
    }
}

/// The records a `touch` keeps are the most recently opened ones: every
/// record it drops was opened no later than every record it keeps, and none
/// is dropped while at most `MAX_RECENT` remain.
pub proof fn lemma_touch_keeps_most_recent(s: Seq<Entry>, p: Seq<char>, now: u64)
    ensures
        forall|y: Entry|
            #[trigger] bumped(s, p, now).contains(y) && !touched(s, p, now).contains(y)
                ==> forall|i: int| 0 <= i < touched(s, p, now).len()
                    ==> y.last_opened <= #[trigger] touched(s, p, now)[i].last_opened,
        bumped(s, p, now).len() <= MAX_RECENT ==> forall|y: Entry|
            #[trigger] bumped(s, p, now).contains(y) ==> touched(s, p, now).contains(y),
{
    let b = bumped(s, p, now);
    let t = sort_desc(b);
    let r = touched(s, p, now);
    lemma_sort_desc(b);
    lemma_keep_recent(t);
    assert forall|y: Entry, i: int|
        #[trigger] b.contains(y) && !r.contains(y) && 0 <= i < r.len() implies y.last_opened
        <= #[trigger] r[i].last_opened by {
        assert(t.contains(y));
        let j = choose|j: int| 0 <= j < t.len() && t[j] == y;
        if j < r.len() {
            assert(r[j] == y);
        } else {
            assert(t[i].last_opened >= t[j].last_opened);
        }
    }
    if b.len() <= MAX_RECENT {
        assert forall|y: Entry| #[trigger] b.contains(y) implies r.contains(y) by {
            assert(t.contains(y));
        }
    }
}

/// A `touch` of `p` keeps a record of `p`, and every record of `p` it keeps
/// was opened at `now`, unless the list was full, did not hold `p`, and every
/// record in it was opened at `now` or later.
pub proof fn lemma_touch_retains(s: Seq<Entry>, p: Seq<char>, now: u64)
    requires
        paths_unique(s),
        s.len() <= MAX_RECENT,
        !(s.len() == MAX_RECENT && !has_path(s, p) && forall|i: int|
            0 <= i < s.len() ==> #[trigger] s[i].last_opened >= now),
    ensures
        has_path(touched(s, p, now), p),
        forall|i: int|
            0 <= i < touched(s, p, now).len() && #[trigger] touched(s, p, now)[i].path == p
                ==> touched(s, p, now)[i].last_opened == now,
{
    let b = bumped(s, p, now);
    let t = sort_desc(b);
    let r = touched(s, p, now);
    lemma_bumped(s, p, now);
    lemma_sort_desc(b);
    lemma_keep_recent(t);
    assert forall|i: int| 0 <= i < r.len() && #[trigger] r[i].path == p implies r[i].last_opened
        == now by {
        assert(t[i] == r[i]);
        assert(t.contains(t[i]));
        assert(b.contains(t[i]));
        let j = choose|j: int| 0 <= j < b.len() && b[j] == t[i];
        assert(b[j].path == p);
    }
    if b.len() > MAX_RECENT {
        // the list was full and did not hold `p`: some record is older than `now`
        let w = choose|i: int| 0 <= i < s.len() && !(#[trigger] s[i].last_opened >= now);
        assert(s[w].path != p);
        assert(b.contains(s[w]));
        assert(t.contains(s[w]));
        let m = choose|m: int| 0 <= m < t.len() && t[m] == s[w];
        assert(has_path(b, p));
        assert(has_path(t, p));
        let k = choose|k: int| 0 <= k < t.len() && #[trigger] t[k].path == p;
        assert(t.contains(t[k]));
        assert(b.contains(t[k]));
        let j = choose|j: int| 0 <= j < b.len() && b[j] == t[k];
        assert(b[j].path == p);
        assert(t[k].last_opened == now);
        if k >= MAX_RECENT {
            assert(k == MAX_RECENT);
            assert(m != k);
            assert(t[m].last_opened >= t[k].last_opened);
        }
        assert(r[k].path == p);
    } else {
        assert(has_path(b, p));
        let k = choose|k: int| 0 <= k < b.len() && #[trigger] b[k].path == p;
        assert(b.contains(b[k]));
        assert(t.contains(b[k]));
        let m = choose|m: int| 0 <= m < t.len() && t[m] == b[k];
        assert(r[m].path == p);
    }
}

/// Two `touch` calls on `p` in succession leave exactly one record of `p`,
/// opened at the second call's time, when the first call keeps `p` (it does
/// unless the list was full without `p` and nothing in it was opened before
/// the first call).
pub proof fn lemma_touch_twice(s: Seq<Entry>, p: Seq<char>, t1: u64, t2: u64)
    requires
        paths_unique(s),
        s.len() <= MAX_RECENT,
        !(s.len() == MAX_RECENT && !has_path(s, p) && forall|i: int|
            0 <= i < s.len() ==> #[trigger] s[i].last_opened >= t1),
    ensures
        paths_unique(touched(touched(s, p, t1), p, t2)),
        has_path(touched(touched(s, p, t1), p, t2), p),
        touched(touched(s, p, t1), p, t2)[first_index(touched(touched(s, p, t1), p, t2), p)].last_opened
            == t2,
{
    let s1 = touched(s, p, t1);
    lemma_touch_retains(s, p, t1);
    lemma_touched_invariants(s, p, t1);
    lemma_touch_retains(s1, p, t2);
    lemma_touched_invariants(s1, p, t2);
    lemma_has_path_first(touched(s1, p, t2), p);
}

/// With one record per path, `is_stale` holds exactly when the on-disk time
/// is later than the record's modification time, and never for an untracked
/// path.
pub proof fn lemma_stale(s: Seq<Entry>, p: Seq<char>, disk: u64)
    requires
        paths_unique(s),
    ensures
        forall|i: int|
            0 <= i < s.len() && #[trigger] s[i].path == p ==> (stale(s, p, disk) <==> disk
                > s[i].last_modified),
        !has_path(s, p) ==> !stale(s, p, disk),
{
    if has_path(s, p) {
        lemma_has_path_first(s, p);
    }
}

/// A content save changes no open time, so it keeps the order and the
/// uniqueness of paths, and it leaves the records alone for an untracked path.
pub proof fn lemma_saved(s: Seq<Entry>, p: Seq<char>, now: u64)
    ensures
        saved(s, p, now).len() == s.len(),
        sorted_desc(s) ==> sorted_desc(saved(s, p, now)),
        paths_unique(s) ==> paths_unique(saved(s, p, now)),
        !has_path(s, p) ==> saved(s, p, now) == s,
{
    if has_path(s, p) {
        lemma_has_path_first(s, p);
        let r = saved(s, p, now);
        assert forall|i: int| 0 <= i < s.len() implies #[trigger] r[i].path == s[i].path
            && r[i].last_opened == s[i].last_opened by {}
    }
}

} // verus!
