use app_launcher::entry::AppEntry;
use app_launcher::index::{rank, AppIndex, MAX_RESULTS};
use app_launcher::recency::RecencyStore;

fn entry(name: &str, command: &str) -> AppEntry {
    AppEntry::new(name.to_string(), command.to_string())
}

fn names(v: &[AppEntry]) -> Vec<String> {
    v.iter().map(|e| e.name().to_string()).collect()
}

#[test]
fn search_sorts_by_folded_name() {
    let index = AppIndex::new(vec![
        entry("Firefox", "firefox"),
        entry("Files", "nautilus"),
        entry("Finder-like", "thunar"),
    ]);
    let r = index.search("fi");
    assert_eq!(names(&r), vec!["Files", "Finder-like", "Firefox"]);
    assert_eq!(r[0].command(), "nautilus");
}

#[test]
fn search_folds_the_case_of_query_and_names() {
    let index = AppIndex::new(vec![entry("firefox", "firefox"), entry("GIMP", "gimp")]);
    assert_eq!(names(&index.search("FIRE")), vec!["firefox"]);
    assert_eq!(names(&index.search("gim")), vec!["GIMP"]);
}

#[test]
fn search_orders_upper_case_names_by_their_folded_form() {
    let index = AppIndex::new(vec![entry("b-tool", "b"), entry("A-tool", "a"), entry("C-tool", "c")]);
    assert_eq!(names(&index.search("tool")), vec!["A-tool", "b-tool", "C-tool"]);
}

#[test]
fn search_caps_the_number_of_results() {
    let all: Vec<AppEntry> = (0..8).map(|i| entry(&format!("app{}", 7 - i), "x")).collect();
    let index = AppIndex::new(all);
    let r = index.search("app");
    assert_eq!(r.len(), MAX_RESULTS);
    assert_eq!(names(&r), vec!["app0", "app1", "app2", "app3", "app4"]);
}

#[test]
fn search_results_all_contain_the_query() {
    let index = AppIndex::new(vec![
        entry("Terminal", "xterm"),
        entry("Text Editor", "gedit"),
        entry("Calculator", "calc"),
        entry("Settings", "settings"),
    ]);
    let r = index.search("te");
    assert_eq!(names(&r), vec!["Terminal", "Text Editor"]);
    for e in &r {
        assert!(e.name().to_lowercase().contains("te"));
    }
}

#[test]
fn search_keeps_index_order_for_equal_names() {
    let index = AppIndex::new(vec![entry("Editor", "first"), entry("editor", "second"), entry("Editor", "third")]);
    let r = index.search("edit");
    let commands: Vec<&str> = r.iter().map(|e| e.command()).collect();
    assert_eq!(commands, vec!["first", "second", "third"]);
}

#[test]
fn search_with_no_match_is_empty() {
    let index = AppIndex::new(vec![entry("Firefox", "firefox")]);
    assert!(index.search("zzz").is_empty());
}

#[test]
fn search_over_empty_index_is_empty() {
    let index = AppIndex::new(Vec::new());
    assert_eq!(index.len(), 0);
    assert!(index.search("fi").is_empty());
    assert!(index.search("").is_empty());
    assert!(index.search("anything at all").is_empty());
}

#[test]
fn empty_query_finds_nothing_by_search() {
    let index = AppIndex::new(vec![entry("Firefox", "firefox")]);
    assert!(index.search("").is_empty());
}

#[test]
fn lookup_by_name_finds_the_first_entry() {
    let index = AppIndex::new(vec![entry("Files", "a"), entry("Files", "b"), entry("Mail", "m")]);
    assert_eq!(index.lookup_by_name("Files").unwrap().command(), "a");
    assert_eq!(index.lookup_by_name("Mail").unwrap().command(), "m");
    assert!(index.lookup_by_name("files").is_none());
}

#[test]
fn empty_query_lists_recent_entries_that_still_exist() {
    let index = AppIndex::new(vec![entry("Files", "nautilus"), entry("Mail", "mail"), entry("Web", "web")]);
    let mut store = RecencyStore::new();
    store.record("Web");
    store.record("Gone");
    store.record("Files");
    let r = index.listing("", &store);
    assert_eq!(names(&r), vec!["Files", "Web"]);
    assert_eq!(names(&index.recent_entries(&store)), vec!["Files", "Web"]);
    assert_eq!(names(&index.listing("ma", &store)), vec!["Mail"]);
}

#[test]
fn recent_listing_is_capped() {
    let all: Vec<AppEntry> = (0..7).map(|i| entry(&format!("a{}", i), "x")).collect();
    let index = AppIndex::new(all);
    let mut store = RecencyStore::new();
    for i in 0..7 {
        store.record(&format!("a{}", i));
    }
    assert_eq!(names(&index.listing("", &store)), vec!["a6", "a5", "a4", "a3", "a2"]);
}

fn chars(s: &str) -> Vec<char> {
    s.chars().collect()
}

#[test]
fn rank_orders_by_the_given_keys() {
    let entries = vec![entry("Firefox", "firefox"), entry("Files", "nautilus"), entry("Finder-like", "thunar")];
    let keys = vec![chars("firefox"), chars("files"), chars("finder-like")];
    let r = rank(&chars("fi"), &entries, &keys);
    assert_eq!(names(&r), vec!["Files", "Finder-like", "Firefox"]);
}

#[test]
fn rank_matches_and_sorts_by_key_not_by_name() {
    let entries = vec![entry("A", "a"), entry("B", "b"), entry("C", "c")];
    let keys = vec![chars("zeta"), chars("alpha"), chars("omega")];
    let r = rank(&chars("a"), &entries, &keys);
    assert_eq!(names(&r), vec!["B", "C", "A"]);
    let r = rank(&chars("ph"), &entries, &keys);
    assert_eq!(names(&r), vec!["B"]);
    let r = rank(&chars("x"), &entries, &keys);
    assert!(r.is_empty());
}

#[test]
fn rank_keeps_at_most_the_first_results() {
    let entries: Vec<AppEntry> = (0..7).map(|i| entry(&format!("e{}", i), "x")).collect();
    let keys: Vec<Vec<char>> = (0..7).map(|i| chars(&format!("k{}", 6 - i))).collect();
    let r = rank(&chars("k"), &entries, &keys);
    assert_eq!(names(&r), vec!["e6", "e5", "e4", "e3", "e2"]);
}
