use lumen::record::{AppState, RecentFile, MAX_RECENT};

fn paths(state: &AppState) -> Vec<String> {
    state.list_recent().into_iter().map(|r| r.path).collect()
}

#[test]
fn later_touch_is_listed_first() {
    let mut state = AppState::empty();
    state.touch("/a.md", 100);
    state.touch("/b.md", 101);
    assert_eq!(paths(&state), vec!["/b.md".to_string(), "/a.md".to_string()]);
}

#[test]
fn external_modification_makes_file_stale() {
    let mut state = AppState::empty();
    state.touch("/a.md", 100);
    assert!(!state.is_stale("/a.md", 100));
    assert!(state.is_stale("/a.md", 160));
}

#[test]
fn save_of_untracked_path_adds_no_record() {
    let mut state = AppState::empty();
    state.touch("/a.md", 100);
    let changed = state.record_content_saved("/never-opened.md", 120);
    assert!(!changed);
    assert_eq!(paths(&state), vec!["/a.md".to_string()]);
    assert_eq!(state.recent_files[0].last_modified, 100);
}

#[test]
fn eleven_paths_keep_the_ten_latest() {
    let mut state = AppState::empty();
    for i in 0..11u64 {
        state.touch(&format!("/f{}.md", i), 1000 + i);
    }
    let listed = paths(&state);
    assert_eq!(listed.len(), 10);
    assert_eq!(MAX_RECENT, 10);
    assert!(!listed.contains(&"/f0.md".to_string()));
    assert_eq!(listed[0], "/f10.md");
    assert_eq!(listed[9], "/f1.md");
}

#[test]
fn touching_twice_leaves_one_record_with_second_time() {
    let mut state = AppState::empty();
    state.touch("/a.md", 50);
    state.touch("/p.md", 100);
    state.touch("/p.md", 101);
    let recs = state.list_recent();
    let of_p: Vec<&RecentFile> = recs.iter().filter(|r| r.path == "/p.md").collect();
    assert_eq!(of_p.len(), 1);
    assert_eq!(of_p[0].last_opened, 101);
    assert_eq!(of_p[0].last_modified, 100);
}

#[test]
fn many_touches_stay_bounded_unique_and_sorted() {
    let mut state = AppState::empty();
    for i in 0..40u64 {
        let name = format!("/n{}.md", i % 13);
        state.touch(&name, 500 + i);
        let recs = state.list_recent();
        assert!(recs.len() <= 10);
        for a in 0..recs.len() {
            for b in 0..recs.len() {
                if a != b {
                    assert_ne!(recs[a].path, recs[b].path);
                }
                if a < b {
                    assert!(recs[a].last_opened >= recs[b].last_opened);
                }
            }
        }
    }
    assert_eq!(state.list_recent().len(), 10);
}

#[test]
fn same_second_touches_keep_their_order() {
    let mut state = AppState::empty();
    state.touch("/a.md", 7);
    state.touch("/b.md", 7);
    assert_eq!(paths(&state), vec!["/a.md".to_string(), "/b.md".to_string()]);
}

#[test]
fn touch_sorts_an_unordered_loaded_state() {
    let mut state = AppState::empty();
    state.recent_files.push(RecentFile::new("/old.md", 1, 1));
    state.recent_files.push(RecentFile::new("/new.md", 9, 9));
    state.recent_files.push(RecentFile::new("/mid.md", 5, 5));
    state.touch("/x.md", 3);
    assert_eq!(
        paths(&state),
        vec![
            "/new.md".to_string(),
            "/mid.md".to_string(),
            "/x.md".to_string(),
            "/old.md".to_string()
        ]
    );
}

#[test]
fn touch_of_tracked_path_keeps_modified_time() {
    let mut state = AppState::empty();
    state.touch("/a.md", 10);
    state.touch("/a.md", 20);
    let recs = state.list_recent();
    assert_eq!(recs.len(), 1);
    assert_eq!(recs[0].last_modified, 10);
    assert_eq!(recs[0].last_opened, 20);
}

#[test]
fn content_save_of_tracked_path_updates_modified_time() {
    let mut state = AppState::empty();
    state.touch("/a.md", 10);
    state.touch("/b.md", 11);
    assert!(state.record_content_saved("/a.md", 30));
    let recs = state.list_recent();
    assert_eq!(recs[1].path, "/a.md");
    assert_eq!(recs[1].last_modified, 30);
    assert_eq!(recs[1].last_opened, 10);
    assert!(!state.is_stale("/a.md", 30));
    assert!(state.is_stale("/a.md", 31));
}

#[test]
fn untracked_path_is_never_stale() {
    let mut state = AppState::empty();
    state.touch("/a.md", 10);
    assert!(!state.is_stale("/other.md", u64::MAX));
    assert!(!AppState::empty().is_stale("/a.md", 5));
}

#[test]
fn stale_only_when_strictly_later() {
    let mut state = AppState::empty();
    state.touch("/a.md", 40);
    assert!(!state.is_stale("/a.md", 39));
    assert!(!state.is_stale("/a.md", 40));
    assert!(state.is_stale("/a.md", 41));
}

#[test]
fn corrupt_state_loads_as_empty() {
    let state = AppState::from_loaded(None);
    assert!(state.list_recent().is_empty());
    assert!(state.current_file.is_none());
}

#[test]
fn loaded_state_is_kept() {
    let mut loaded = AppState::empty();
    loaded.recent_files.push(RecentFile::new("/k.md", 3, 4));
    loaded.current_file = Some("/k.md".to_string());
    let state = AppState::from_loaded(Some(loaded));
    assert_eq!(paths(&state), vec!["/k.md".to_string()]);
    assert_eq!(state.current_file, Some("/k.md".to_string()));
}

#[test]
fn default_state_is_empty() {
    let state = AppState::default();
    assert!(state.recent_files.is_empty());
    assert!(state.current_file.is_none());
}

#[test]
fn duplicate_copies_all_fields() {
    let r = RecentFile::new("/d.md", 1, 2);
    let c = r.duplicate();
    assert_eq!(c.path, "/d.md");
    assert_eq!(c.last_modified, 1);
    assert_eq!(c.last_opened, 2);
}
