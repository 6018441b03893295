use pomelo::bookmarks::BookmarkCollection;
use pomelo::bookmarks::Listing;

fn collection(entries: &[(&str, &str)]) -> BookmarkCollection {
    let mut c = BookmarkCollection::new();
    for (a, p) in entries {
        c.add(a.to_string(), p.to_string());
    }
    c
}

fn fields(c: &BookmarkCollection) -> Vec<(String, String)> {
    c.bookmarks.iter().map(|b| (b.alias.clone(), b.path.clone())).collect()
}

#[test]
fn add_appends_at_the_end() {
    let mut c = collection(&[("a", "/p1"), ("b", "/p2")]);
    assert_eq!(c.len(), 2);
    c.add("c".to_string(), "/p3".to_string());
    assert_eq!(c.len(), 3);
    assert_eq!(c.bookmarks[2].alias, "c");
    assert_eq!(c.bookmarks[2].path, "/p3");
}

#[test]
fn add_accepts_duplicate_aliases() {
    let mut c = collection(&[("x", "/p1")]);
    c.add("x".to_string(), "/p2".to_string());
    assert_eq!(fields(&c), vec![
        ("x".to_string(), "/p1".to_string()),
        ("x".to_string(), "/p2".to_string()),
    ]);
}

#[test]
fn remove_deletes_only_the_first_match() {
    let mut c = collection(&[("x", "/p1"), ("y", "/p2"), ("x", "/p3")]);
    let removed = c.remove(&"x".to_string());
    assert!(removed);
    assert_eq!(fields(&c), vec![
        ("y".to_string(), "/p2".to_string()),
        ("x".to_string(), "/p3".to_string()),
    ]);
}

#[test]
fn remove_not_found_is_a_no_op() {
    let mut c = collection(&[("x", "/p1"), ("y", "/p2")]);
    let removed = c.remove(&"nonexistent".to_string());
    assert!(!removed);
    assert_eq!(fields(&c), vec![
        ("x".to_string(), "/p1".to_string()),
        ("y".to_string(), "/p2".to_string()),
    ]);
}

#[test]
fn rename_changes_only_the_first_match() {
    let mut c = collection(&[("x", "/p1"), ("x", "/p2")]);
    let renamed = c.rename(&"x".to_string(), &"z".to_string());
    assert!(renamed);
    assert_eq!(fields(&c), vec![
        ("z".to_string(), "/p1".to_string()),
        ("x".to_string(), "/p2".to_string()),
    ]);
}

#[test]
fn rename_not_found_is_a_no_op() {
    let mut c = collection(&[("x", "/p1")]);
    let renamed = c.rename(&"y".to_string(), &"z".to_string());
    assert!(!renamed);
    assert_eq!(fields(&c), vec![("x".to_string(), "/p1".to_string())]);
}

#[test]
fn list_on_empty_gives_the_explicit_indicator() {
    let c = BookmarkCollection::new();
    match c.list() {
        Listing::NoBookmarks => {}
        Listing::Entries(_) => panic!("an empty collection must not list entries"),
    }
}

#[test]
fn list_pairs_entries_with_one_based_positions() {
    let c = collection(&[("home", "/home/u"), ("work", "/srv/work")]);
    match c.list() {
        Listing::NoBookmarks => panic!("a non-empty collection must list entries"),
        Listing::Entries(v) => {
            assert_eq!(v.len(), 2);
            assert_eq!(v[0].position, 1);
            assert_eq!(v[0].alias, "home");
            assert_eq!(v[0].path, "/home/u");
            assert_eq!(v[1].position, 2);
            assert_eq!(v[1].alias, "work");
            assert_eq!(v[1].path, "/srv/work");
        }
    }
}

#[test]
fn jump_resolves_the_first_match() {
    let c = collection(&[("x", "/p1"), ("x", "/p2")]);
    assert_eq!(c.jump(&"x".to_string()), Some("/p1".to_string()));
}

#[test]
fn jump_not_found_is_none() {
    let c = collection(&[("x", "/p1")]);
    assert_eq!(c.jump(&"y".to_string()), None);
}

#[test]
fn find_by_alias_reports_the_earliest_position() {
    let c = collection(&[("a", "/1"), ("b", "/2"), ("b", "/3")]);
    assert_eq!(c.find_by_alias(&"b".to_string()), Some(1));
    assert_eq!(c.find_by_alias(&"c".to_string()), None);
}
