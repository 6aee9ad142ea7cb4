use vstd::prelude::*;
use crate::laws::{lemma_saved, lemma_touched_invariants};
use crate::order::{sort_by_opened_desc, sort_desc};
use crate::record::{
    AppState, Entry, MAX_RECENT, RecentFile, entries_of, find_index, first_index, has_path,
    lemma_first_index, paths_unique, sorted_desc,
};

verus! {

/// `s` after opening `p` at `now`: the first record of `p` gets `now` as its
/// open time, or a record of `p` with both times `now` is appended.
pub open spec fn bumped(s: Seq<Entry>, p: Seq<char>, now: u64) -> Seq<Entry> {
    if has_path(s, p) {
        let k = first_index(s, p);
        s.update(k, Entry { path: s[k].path, last_modified: s[k].last_modified, last_opened: now })
    } else {
        s.push(Entry { path: p, last_modified: now, last_opened: now })
    }
}

/// The first `MAX_RECENT` records of `s`.
pub open spec fn keep_recent(s: Seq<Entry>) -> Seq<Entry> {
    if s.len() > MAX_RECENT {
        s.take(MAX_RECENT as int)
    } else {
        s
    }
}

/// The records after `touch(p)` at time `now`: bumped, stably sorted by open
/// time (latest first), cut to `MAX_RECENT`.
pub open spec fn touched(s: Seq<Entry>, p: Seq<char>, now: u64) -> Seq<Entry> {
    keep_recent(sort_desc(bumped(s, p, now)))
}

/// The records after a content save of `p` at time `now`: the first record of
/// `p`, if any, gets `now` as its modification time; nothing else changes.
pub open spec fn saved(s: Seq<Entry>, p: Seq<char>, now: u64) -> Seq<Entry> {
    if has_path(s, p) {
        let k = first_index(s, p);
        s.update(k, Entry { path: s[k].path, last_modified: now, last_opened: s[k].last_opened })
    } else {
        s
    }
}

/// Whether `p` is tracked and its on-disk time `disk` is later than the
/// modification time recorded for it.
pub open spec fn stale(s: Seq<Entry>, p: Seq<char>, disk: u64) -> bool {
    has_path(s, p) && disk > s[first_index(s, p)].last_modified
}

/// The records after touching each `(path, time)` of `ops` in turn.
pub open spec fn touch_all(s: Seq<Entry>, ops: Seq<(Seq<char>, u64)>) -> Seq<Entry>
    decreases ops.len(),
{
    if ops.len() == 0 {
        s
    } else {
        touched(touch_all(s, ops.drop_last()), ops.last().0, ops.last().1)
    }
}

impl AppState {
    /// Opens `path` at time `now` (seconds since the epoch): updates the open
    /// time of its record or adds a record for it, re-sorts by open time
    /// (latest first, stable) and keeps the first `MAX_RECENT` records.
    pub fn touch(&mut self, path: &str, now: u64)
        ensures
            final(self).entries() == touched(old(self).entries(), path@, now),
            final(self).entries().len() <= MAX_RECENT,
            sorted_desc(final(self).entries()),
            paths_unique(old(self).entries()) ==> paths_unique(final(self).entries()),
            final(self).current_file == old(self).current_file,
    {
        let ghost s = self.entries();
        proof {
            lemma_touched_invariants(s, path@, now);
        }
        match find_index(&self.recent_files, path) {
            Some(i) => {
                proof {
                    lemma_first_index(s, path@, i as int);
                }
                let mut r = self.recent_files.remove(i);
                r.last_opened = now;
                self.recent_files.insert(i, r);
                assert(self.entries() =~= bumped(s, path@, now));
            },
            None => {
                self.recent_files.push(RecentFile::new(path, now, now));
                assert(self.entries() =~= bumped(s, path@, now));
            },
        }
        let mut files: Vec<RecentFile> = Vec::new();
        std::mem::swap(&mut files, &mut self.recent_files);
        let mut sorted = sort_by_opened_desc(files);
        let ghost t = entries_of(sorted@);
        sorted.truncate(MAX_RECENT);
        assert(entries_of(sorted@) =~= keep_recent(t));
        self.recent_files = sorted;
    }

    /// Records a content save of `path` at time `now`: if `path` is tracked,
    /// its modification time becomes `now` and the result is `true` (the state
    /// changed); otherwise nothing changes and the result is `false`.
    pub fn record_content_saved(&mut self, path: &str, now: u64) -> (changed: bool)
        ensures
            changed == has_path(old(self).entries(), path@),
            final(self).entries() == saved(old(self).entries(), path@, now),
            sorted_desc(old(self).entries()) ==> sorted_desc(final(self).entries()),
            paths_unique(old(self).entries()) ==> paths_unique(final(self).entries()),
            final(self).current_file == old(self).current_file,
    {
        let ghost s = self.entries();
        proof {
            lemma_saved(s, path@, now);
        }
        match find_index(&self.recent_files, path) {
            Some(i) => {
                proof {
                    lemma_first_index(s, path@, i as int);
                }
                let mut r = self.recent_files.remove(i);
                r.last_modified = now;
                self.recent_files.insert(i, r);
                assert(self.entries() =~= saved(s, path@, now));
                true
            },
            None => false,
        }
    }

    /// Whether `path` changed on disk since this registry last recorded a save
    /// of it: `true` iff it is tracked and `disk_modified` (its current on-disk
    /// modification time) is later than the recorded one.
    pub fn is_stale(&self, path: &str, disk_modified: u64) -> (r: bool)
        ensures
            r == stale(self.entries(), path@, disk_modified),
    {
        match find_index(&self.recent_files, path) {
            Some(i) => {
                proof {
                    lemma_first_index(self.entries(), path@, i as int);
                }
                disk_modified > self.recent_files[i].last_modified
            },
            None => false,
        }
    }

    /// A copy of the recent-file records, in their stored order.
    pub fn list_recent(&self) -> (r: Vec<RecentFile>)
        ensures
            entries_of(r@) == self.entries(),
    {
        let mut out: Vec<RecentFile> = Vec::new();
        let mut i: usize = 0;
        while i < self.recent_files.len()
            invariant
                i <= self.recent_files.len(),
                entries_of(out@) == self.entries().take(i as int),
            decreases self.recent_files.len() - i,
        {
            let c = self.recent_files[i].duplicate();
            assert(c@ == self.entries()[i as int]);
            let ghost prev = out@;
            out.push(c);
            assert(entries_of(out@) =~= entries_of(prev).push(c@));
            assert(entries_of(out@) =~= self.entries().take(i + 1));
            i = i + 1;
        }
        assert(self.entries().take(i as int) =~= self.entries());
        out
    }

    /// The state to work on after loading: what was read and parsed, or an
    /// empty state where the state file was missing, unreadable or corrupt.
    pub fn from_loaded(loaded: Option<AppState>) -> (r: AppState)
        ensures
            match loaded {
                Some(st) => r == st,
                None => r.entries() == Seq::<Entry>::empty() && r.current_file.is_none(),
            },
    {
        match loaded {
            Some(st) => st,
            None => AppState::empty(),
        }
    }
}

} // verus!
