use vstd::prelude::*;

verus! {

/// Most records the registry keeps.
pub const MAX_RECENT: usize = 10;

/// What a record says, as plain values.
pub struct Entry {
    pub path: Seq<char>,
    pub last_modified: u64,
    pub last_opened: u64,
}

/// One tracked file: its path (the identity key), the content modification
/// time last recorded by a save, and the time it was last opened.
pub struct RecentFile {
    pub path: String,
    pub last_modified: u64,
    pub last_opened: u64,
}

impl View for RecentFile {
    type V = Entry;

    open spec fn view(&self) -> Entry {
        Entry { path: self.path@, last_modified: self.last_modified, last_opened: self.last_opened }
    }
}

impl RecentFile {
    pub fn new(path: &str, last_modified: u64, last_opened: u64) -> (r: RecentFile)
        ensures
            r@ == (Entry { path: path@, last_modified, last_opened }),
    {
        RecentFile { path: path.to_owned(), last_modified, last_opened }
    }

    /// A copy with the same path and timestamps.
    pub fn duplicate(&self) -> (r: RecentFile)
        ensures
            r@ == self@,
    {
        RecentFile {
            path: self.path.clone(),
            last_modified: self.last_modified,
            last_opened: self.last_opened,
        }
    }
}

/// The persisted application state.
pub struct AppState {
    pub recent_files: Vec<RecentFile>,
    /// Reserved for session restore; no operation here sets it.
    pub current_file: Option<String>,
}

/// The records of a list of files, as plain values.
pub open spec fn entries_of(v: Seq<RecentFile>) -> Seq<Entry> {
    v.map_values(|r: RecentFile| r@)
}

impl AppState {
    pub open spec fn entries(&self) -> Seq<Entry> {
        entries_of(self.recent_files@)
    }

    /// A state with no records and no current file.
    pub fn empty() -> (r: AppState)
        ensures
            r.entries() == Seq::<Entry>::empty(),
            r.current_file.is_none(),
    {
        let r = AppState { recent_files: Vec::new(), current_file: None };
        assert(r.entries() =~= Seq::<Entry>::empty());
        r
    }
}

impl Default for AppState {
    fn default() -> (r: AppState)
        ensures
            r.entries() == Seq::<Entry>::empty(),
            r.current_file.is_none(),
    {
        AppState::empty()
    }
}

/// Whether some record has path `p`.
pub open spec fn has_path(s: Seq<Entry>, p: Seq<char>) -> bool {
    exists|i: int| 0 <= i < s.len() && #[trigger] s[i].path == p
}

/// `i` is the first index of a record with path `p`.
pub open spec fn is_first_index(s: Seq<Entry>, p: Seq<char>, i: int) -> bool {
    &&& 0 <= i < s.len()
    &&& s[i].path == p
    &&& forall|j: int| 0 <= j < i ==> #[trigger] s[j].path != p
}

/// The index of the first record with path `p` (meaningful when `has_path`).
pub open spec fn first_index(s: Seq<Entry>, p: Seq<char>) -> int {
    choose|i: int| is_first_index(s, p, i)
}

/// At most one record per path.
pub open spec fn paths_unique(s: Seq<Entry>) -> bool {
    forall|i: int, j: int|
        0 <= i < s.len() && 0 <= j < s.len() && i != j ==> #[trigger] s[i].path != #[trigger] s[j].path
}

/// Ordered from most to least recently opened.
pub open spec fn sorted_desc(s: Seq<Entry>) -> bool {
    forall|i: int, j: int|
        0 <= i < j < s.len() ==> #[trigger] s[i].last_opened >= #[trigger] s[j].last_opened
}

/// The first-index choice is the unique first match.
pub proof fn lemma_first_index(s: Seq<Entry>, p: Seq<char>, i: int)
    requires
        is_first_index(s, p, i),
    ensures
        has_path(s, p),
        first_index(s, p) == i,
{
    let k = first_index(s, p);
    assert(is_first_index(s, p, k));
    if k < i {
        assert(s[k].path != p);
    } else if i < k {
        assert(s[i].path != p);
    }
}

/// Whenever a record has path `p`, the first-index choice picks the first one.
pub proof fn lemma_has_path_first(s: Seq<Entry>, p: Seq<char>)
    requires
        has_path(s, p),
    ensures
        is_first_index(s, p, first_index(s, p)),
    decreases s.len(),
{
    if s[0].path == p {
        lemma_first_index(s, p, 0);
    } else {
        let t = s.drop_first();
        let w = choose|i: int| 0 <= i < s.len() && #[trigger] s[i].path == p;
        assert(t[w - 1].path == p);
        lemma_has_path_first(t, p);
        let k = first_index(t, p);
        assert forall|j: int| 0 <= j < k + 1 implies #[trigger] s[j].path != p by {
            if j > 0 {
                assert(s[j] == t[j - 1]);
            }
        }
        lemma_first_index(s, p, k + 1);
    }
}

/// Finds the first record with path `path`.
pub fn find_index(v: &Vec<RecentFile>, path: &str) -> (r: Option<usize>)
    ensures
        match r {
            Some(i) => is_first_index(entries_of(v@), path@, i as int),
            None => !has_path(entries_of(v@), path@),
        },
{
    let ghost s = entries_of(v@);
    let key = path.to_owned();
    let mut i: usize = 0;
    while i < v.len()
        invariant
            i <= v.len(),
            s == entries_of(v@),
            key@ == path@,
            forall|j: int| 0 <= j < i ==> #[trigger] s[j].path != path@,
        decreases v.len() - i,
    {
        if v[i].path == key {
            assert(s[i as int].path == path@);
            return Some(i);
        }
        i = i + 1;
    }
    None
}

} // verus!
