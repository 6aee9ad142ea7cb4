use vstd::prelude::*;
use crate::record::{Entry, RecentFile, entries_of, has_path, paths_unique, sorted_desc};

verus! {

/// Where a record goes when placed into `s`: after the leading records that
/// were opened no earlier than it.
pub open spec fn insert_pos(s: Seq<Entry>, x: Entry) -> int
    decreases s.len(),
{
    if s.len() == 0 {
        0
    } else if s[0].last_opened < x.last_opened {
        0
    } else {
        1 + insert_pos(s.drop_first(), x)
    }
}

/// `x` placed into `s` after every leading record opened no earlier than it.
pub open spec fn insert_desc(s: Seq<Entry>, x: Entry) -> Seq<Entry> {
    s.insert(insert_pos(s, x), x)
}

/// `s` ordered from most to least recently opened; records opened at the same
/// time keep their relative order (a stable sort).
pub open spec fn sort_desc(s: Seq<Entry>) -> Seq<Entry>
    decreases s.len(),
{
    if s.len() == 0 {
        s
    } else {
        insert_desc(sort_desc(s.drop_last()), s.last())
    }
}

/// The insertion point is the first record opened strictly before `x`.
pub proof fn lemma_insert_pos(s: Seq<Entry>, x: Entry)
    ensures
        0 <= insert_pos(s, x) <= s.len(),
        forall|k: int| 0 <= k < insert_pos(s, x) ==> #[trigger] s[k].last_opened >= x.last_opened,
        insert_pos(s, x) < s.len() ==> s[insert_pos(s, x)].last_opened < x.last_opened,
    decreases s.len(),
{
    if s.len() > 0 && s[0].last_opened >= x.last_opened {
        let t = s.drop_first();
        lemma_insert_pos(t, x);
        assert forall|k: int| 0 <= k < insert_pos(s, x) implies #[trigger] s[k].last_opened
            >= x.last_opened by {
            if k > 0 {
                assert(s[k] == t[k - 1]);
            }
        }
    }
}

/// Any first position with those two properties is the insertion point.
pub proof fn lemma_insert_pos_unique(s: Seq<Entry>, x: Entry, j: int)
    requires
        0 <= j <= s.len(),
        forall|k: int| 0 <= k < j ==> #[trigger] s[k].last_opened >= x.last_opened,
        j < s.len() ==> s[j].last_opened < x.last_opened,
    ensures
        insert_pos(s, x) == j,
{
    lemma_insert_pos(s, x);
    let p = insert_pos(s, x);
    if p < j {
        assert(s[p].last_opened >= x.last_opened);
    } else if j < p {
        assert(s[j].last_opened >= x.last_opened);
    }
}

/// Index facts of `Seq::insert`.
pub proof fn lemma_insert_index(s: Seq<Entry>, pos: int, x: Entry)
    requires
        0 <= pos <= s.len(),
    ensures
        s.insert(pos, x).len() == s.len() + 1,
        s.insert(pos, x)[pos] == x,
        forall|i: int| 0 <= i < pos ==> #[trigger] s.insert(pos, x)[i] == s[i],
        forall|i: int| pos < i <= s.len() ==> #[trigger] s.insert(pos, x)[i] == s[i - 1],
{
    s.insert_ensures(pos, x);
    assert forall|i: int| pos < i <= s.len() implies #[trigger] s.insert(pos, x)[i] == s[i - 1] by {
        assert(s.insert(pos, x)[(i - 1) + 1] == s[i - 1]);
    }
}

/// Placing a record keeps the order and adds exactly that record.
pub proof fn lemma_insert_desc(s: Seq<Entry>, x: Entry)
    ensures
        insert_desc(s, x).len() == s.len() + 1,
        forall|y: Entry| #[trigger] insert_desc(s, x).contains(y) <==> (y == x || s.contains(y)),
        sorted_desc(s) ==> sorted_desc(insert_desc(s, x)),
        forall|p: Seq<char>| #[trigger] has_path(insert_desc(s, x), p) <==> (x.path == p || has_path(s, p)),
        paths_unique(s) && !has_path(s, x.path) ==> paths_unique(insert_desc(s, x)),
{
    lemma_insert_pos(s, x);
    let pos = insert_pos(s, x);
    let r = insert_desc(s, x);
    lemma_insert_index(s, pos, x);
    assert forall|y: Entry| #[trigger] r.contains(y) <==> (y == x || s.contains(y)) by {
        if r.contains(y) {
            let i = choose|i: int| 0 <= i < r.len() && r[i] == y;
            if i > pos {
                assert(s[i - 1] == y);
            } else if i < pos {
                assert(s[i] == y);
            }
        }
        if s.contains(y) {
            let i = choose|i: int| 0 <= i < s.len() && s[i] == y;
            if i < pos {
                assert(r[i] == y);
            } else {
                assert(r[i + 1] == y);
            }
        }
        if y == x {
            assert(r[pos] == y);
        }
    }
    assert forall|p: Seq<char>| #[trigger] has_path(r, p) <==> (x.path == p || has_path(s, p)) by {
        if has_path(r, p) {
            let i = choose|i: int| 0 <= i < r.len() && #[trigger] r[i].path == p;
            if i > pos {
                assert(s[i - 1].path == p);
            } else if i < pos {
                assert(s[i].path == p);
            }
        }
        if has_path(s, p) {
            let i = choose|i: int| 0 <= i < s.len() && #[trigger] s[i].path == p;
            if i < pos {
                assert(r[i].path == p);
            } else {
                assert(r[i + 1].path == p);
            }
        }
        if x.path == p {
            assert(r[pos].path == p);
        }
    }
    if sorted_desc(s) {
        assert forall|i: int, j: int| 0 <= i < j < r.len() implies #[trigger] r[i].last_opened
            >= #[trigger] r[j].last_opened by {
            if j < pos {
            } else if j == pos {
            } else if i < pos {
            } else if i == pos {
                assert(s[pos].last_opened >= s[j - 1].last_opened);
            } else {
                assert(s[i - 1].last_opened >= s[j - 1].last_opened);
            }
        }
    }
    if paths_unique(s) && !has_path(s, x.path) {
        assert forall|i: int, j: int| 0 <= i < r.len() && 0 <= j < r.len() && i != j implies
            #[trigger] r[i].path != #[trigger] r[j].path by {
            let a = if i < pos { i } else { i - 1 };
            let b = if j < pos { j } else { j - 1 };
            if i == pos {
                assert(s[b].path == r[j].path);
            } else if j == pos {
                assert(s[a].path == r[i].path);
            } else {
                assert(s[a].path == r[i].path && s[b].path == r[j].path);
            }
        }
    }
}

/// Sorting keeps the length, the records and the uniqueness of paths, and
/// orders them from most to least recently opened.
pub proof fn lemma_sort_desc(s: Seq<Entry>)
    ensures
        sort_desc(s).len() == s.len(),
        sorted_desc(sort_desc(s)),
        forall|y: Entry| #[trigger] sort_desc(s).contains(y) <==> s.contains(y),
        forall|p: Seq<char>| #[trigger] has_path(sort_desc(s), p) <==> has_path(s, p),
        paths_unique(s) ==> paths_unique(sort_desc(s)),
    decreases s.len(),
{
    if s.len() > 0 {
        let d = s.drop_last();
        let x = s.last();
        lemma_sort_desc(d);
        lemma_insert_desc(sort_desc(d), x);
        assert forall|y: Entry| #[trigger] s.contains(y) <==> (y == x || d.contains(y)) by {
            if s.contains(y) {
                let i = choose|i: int| 0 <= i < s.len() && s[i] == y;
                if i < d.len() {
                    assert(d[i] == y);
                }
            }
            if d.contains(y) {
                let i = choose|i: int| 0 <= i < d.len() && d[i] == y;
                assert(s[i] == y);
            }
        }
        assert forall|p: Seq<char>| #[trigger] has_path(s, p) <==> (x.path == p || has_path(d, p)) by {
            if has_path(s, p) {
                let i = choose|i: int| 0 <= i < s.len() && #[trigger] s[i].path == p;
                if i < d.len() {
                    assert(d[i].path == p);
                }
            }
            if has_path(d, p) {
                let i = choose|i: int| 0 <= i < d.len() && #[trigger] d[i].path == p;
                assert(s[i].path == p);
            }
        }
        if paths_unique(s) {
            assert(paths_unique(d));
            if has_path(d, x.path) {
                let i = choose|i: int| 0 <= i < d.len() && #[trigger] d[i].path == x.path;
                assert(s[i].path == s[s.len() - 1].path);
            }
        }
    } else {
        assert(sorted_desc(sort_desc(s)));
    }
}

/// Finds where `x` goes in `v`: after the leading records opened no earlier.
fn find_insert_pos(v: &Vec<RecentFile>, x: &RecentFile) -> (j: usize)
    ensures
        j as int == insert_pos(entries_of(v@), x@),
{
    let ghost s = entries_of(v@);
    let mut j: usize = 0;
    while j < v.len() && v[j].last_opened >= x.last_opened
        invariant
            j <= v.len(),
            s == entries_of(v@),
            forall|k: int| 0 <= k < j ==> #[trigger] s[k].last_opened >= x.last_opened,
        decreases v.len() - j,
    {
        j = j + 1;
    }
    proof {
        lemma_insert_pos_unique(s, x@, j as int);
    }
    j
}

/// Stable sort of the records, most recently opened first.
pub fn sort_by_opened_desc(v: Vec<RecentFile>) -> (r: Vec<RecentFile>)
    ensures
        entries_of(r@) == sort_desc(entries_of(v@)),
{
    let ghost s = entries_of(v@);
    let ghost n = v.len() as int;
    let mut rest = v;
    let mut out: Vec<RecentFile> = Vec::new();
    assert(entries_of(out@) =~= sort_desc(s.take(0)));
    while rest.len() > 0
        invariant
            0 <= n - rest.len() <= n,
            n == s.len(),
            entries_of(rest@) == s.subrange(n - rest.len(), n),
            entries_of(out@) == sort_desc(s.take(n - rest.len())),
        decreases rest.len(),
    {
        let ghost i = n - rest.len();
        let ghost old_out = entries_of(out@);
        let ghost old_rest = rest@;
        assert(entries_of(old_rest)[0] == s[i]);
        let x = rest.remove(0);
        assert(x@ == s[i]);
        assert(entries_of(rest@) =~= s.subrange(i + 1, n)) by {
            assert(rest@ =~= old_rest.subrange(1, old_rest.len() as int));
            assert forall|k: int| 0 <= k < rest.len() implies #[trigger] entries_of(rest@)[k] == s[i + 1 + k] by {
                assert(entries_of(old_rest)[k + 1] == s.subrange(i, n)[k + 1]);
            }
        }
        let j = find_insert_pos(&out, &x);
        proof {
            lemma_insert_pos(old_out, x@);
            lemma_insert_index(old_out, j as int, x@);
        }
        out.insert(j, x);
        assert(entries_of(out@) =~= old_out.insert(j as int, s[i]));
        assert(s.take(i + 1).drop_last() =~= s.take(i));
        assert(s.take(i + 1).last() == s[i]);
    }
    assert(s.take(n) =~= s);
    out
}

} // verus!
