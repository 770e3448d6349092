use app_launcher::entry::AppEntry;
use app_launcher::index::AppIndex;
use app_launcher::recency::RecencyStore;
use app_launcher::session::{commit_launch, shell_invocation, LaunchError, Phase, Session};

fn index() -> AppIndex {
    AppIndex::new(vec![
        AppEntry::new("Firefox".to_string(), "firefox".to_string()),
        AppEntry::new("Files".to_string(), "nautilus".to_string()),
    ])
}

#[test]
fn session_lists_recent_then_search_results() {
    let idx = index();
    let mut store = RecencyStore::new();
    store.record("Files");
    let mut s = Session::start(&idx, &store);
    assert_eq!(s.phase(), Phase::Searching);
    assert_eq!(s.results().len(), 1);
    assert_eq!(s.results()[0].name(), "Files");
    s.query_changed("fire", &idx, &store);
    assert_eq!(s.query(), "fire");
    assert_eq!(s.results().len(), 1);
    assert_eq!(s.results()[0].name(), "Firefox");
}

#[test]
fn submit_launches_first_and_always_ends() {
    let idx = index();
    let store = RecencyStore::new();
    let mut s = Session::start(&idx, &store);
    assert!(s.submit().is_none());
    s.query_changed("fi", &idx, &store);
    let e = s.submit().unwrap();
    assert_eq!(e.name(), "Files");
    assert_eq!(s.phase(), Phase::Launching);
    assert!(s.submit().is_none());
    s.launch_finished(false);
    assert!(s.should_exit());
}

#[test]
fn select_ends_only_on_success() {
    let idx = index();
    let store = RecencyStore::new();
    let mut s = Session::start(&idx, &store);
    s.query_changed("fi", &idx, &store);
    assert!(s.select(5).is_none());
    let e = s.select(1).unwrap();
    assert_eq!(e.name(), "Firefox");
    s.launch_finished(false);
    assert_eq!(s.phase(), Phase::Searching);
    assert!(!s.should_exit());
    s.select(0).unwrap();
    s.launch_finished(true);
    assert!(s.should_exit());
}

#[test]
fn cancel_ends_the_session() {
    let idx = index();
    let store = RecencyStore::new();
    let mut s = Session::start(&idx, &store);
    s.cancel();
    assert_eq!(s.phase(), Phase::Terminated);
    s.query_changed("fi", &idx, &store);
    assert_eq!(s.query(), "");
}

#[test]
fn commit_records_and_returns_the_persisted_form() {
    let mut store = RecencyStore::new();
    store.record("Files");
    let e = AppEntry::new("Firefox".to_string(), "firefox".to_string());
    let bytes = commit_launch(&mut store, &e).unwrap();
    assert_eq!(store.get(0), "Firefox");
    assert_eq!(store.get(1), "Files");
    let back = RecencyStore::from_bytes(&bytes, store.capacity()).unwrap();
    assert_eq!(back.len(), 2);
    assert_eq!(back.get(0), "Firefox");
    assert_ne!(LaunchError::Spawn, LaunchError::Persistence);
}

#[test]
fn commands_run_through_the_shell() {
    let e = AppEntry::new("X".to_string(), "myapp --flag".to_string());
    let (program, args) = shell_invocation(&e);
    assert_eq!(program, "sh");
    assert_eq!(args, vec!["-c".to_string(), "myapp --flag".to_string()]);
}
