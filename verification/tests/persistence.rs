use pomelo::bookmarks::BookmarkCollection;
use pomelo::bookmarks::Listing;
use pomelo::store::StoreError;
use pomelo::store::config_path_for;
use pomelo::store::load_from_contents;
use pomelo::store::resolve_config_path;
use pomelo::store::save_to_text;

fn collection(entries: &[(&str, &str)]) -> BookmarkCollection {
    let mut c = BookmarkCollection::new();
    for (a, p) in entries {
        c.add(a.to_string(), p.to_string());
    }
    c
}

fn fields(c: &BookmarkCollection) -> Vec<(String, String)> {
    c.bookmarks.iter().map(|b| (b.alias.clone(), b.path.clone())).collect()
}

#[test]
fn serialized_text_is_exactly_the_format() {
    let c = collection(&[("home", "/home/u")]);
    let text = save_to_text(&c).unwrap();
    assert_eq!(text, "bookmarks = [\n  { alias = \"home\", path = \"/home/u\" },\n]\n");
}

#[test]
fn empty_collection_serializes_to_an_empty_array() {
    let c = BookmarkCollection::new();
    let text = save_to_text(&c).unwrap();
    assert_eq!(text, "bookmarks = [\n]\n");
}

#[test]
fn round_trip_reproduces_the_collection() {
    let c = collection(&[("home", "/home/u"), ("work", "/srv/work"), ("home", "/tmp")]);
    let text = save_to_text(&c).unwrap();
    let back = load_from_contents(Some(&text)).unwrap();
    assert_eq!(fields(&back), fields(&c));
}

#[test]
fn missing_file_loads_as_an_empty_collection() {
    let c = load_from_contents(None).unwrap();
    assert_eq!(c.len(), 0);
}

#[test]
fn hand_written_text_in_the_format_parses() {
    let text = "bookmarks = [\n  { alias = \"a\", path = \"/p\" },\n  { alias = \"b\", path = \"/q\" },\n]\n";
    let c = load_from_contents(Some(text)).unwrap();
    assert_eq!(fields(&c), vec![
        ("a".to_string(), "/p".to_string()),
        ("b".to_string(), "/q".to_string()),
    ]);
}

#[test]
fn malformed_text_is_a_parse_error() {
    assert_eq!(load_from_contents(Some("")).unwrap_err(), StoreError::ConfigParseFailed);
    assert_eq!(load_from_contents(Some("bookmarks = \n")).unwrap_err(), StoreError::ConfigParseFailed);
    assert_eq!(
        load_from_contents(Some("bookmarks = [\n  { alias = \"a\", path = \"/p\" }\n]\n")).unwrap_err(),
        StoreError::ConfigParseFailed
    );
    assert_eq!(
        load_from_contents(Some("bookmarks = [\n]\ntrailing")).unwrap_err(),
        StoreError::ConfigParseFailed
    );
    assert_eq!(
        load_from_contents(Some("bookmarks = [\n  { alias = \"a\\b\", path = \"/p\" },\n]\n")).unwrap_err(),
        StoreError::ConfigParseFailed
    );
}

#[test]
fn a_field_the_format_cannot_hold_is_a_write_error() {
    let c = collection(&[("say \"hi\"", "/p")]);
    assert_eq!(save_to_text(&c).unwrap_err(), StoreError::ConfigWriteFailed);
    let c2 = collection(&[("a", "/p\nq")]);
    assert_eq!(save_to_text(&c2).unwrap_err(), StoreError::ConfigWriteFailed);
}

#[test]
fn config_path_is_the_fixed_spot_under_home() {
    assert_eq!(config_path_for("/home/u"), "/home/u/.pomelo/config.toml");
}

#[test]
fn resolved_config_path_ends_with_the_fixed_suffix() {
    match resolve_config_path() {
        Ok(p) => {
            assert!(p.ends_with("/.pomelo/config.toml"));
            assert!(p.len() > "/.pomelo/config.toml".len());
        }
        Err(e) => assert_eq!(e, StoreError::HomeDirNotFound),
    }
}

#[test]
fn error_messages_name_the_condition() {
    assert_eq!(StoreError::HomeDirNotFound.message(), "Failed to find home directory");
    assert_eq!(StoreError::ConfigDirCreateFailed.message(), "Failed to create config directory");
    assert_eq!(StoreError::ConfigWriteFailed.message(), "Failed to write to config file");
    assert_eq!(StoreError::ConfigParseFailed.message(), "Failed to parse config file");
}

#[test]
fn end_to_end_scenario() {
    // start with no config file
    let mut c = load_from_contents(None).unwrap();
    assert_eq!(c.len(), 0);

    // add a bookmark; the saved text holds exactly one entry
    c.add("home".to_string(), "/home/u".to_string());
    let text = save_to_text(&c).unwrap();
    assert_eq!(text, "bookmarks = [\n  { alias = \"home\", path = \"/home/u\" },\n]\n");

    // a fresh load shows it, listed with its 1-based position
    let loaded = load_from_contents(Some(&text)).unwrap();
    match loaded.list() {
        Listing::NoBookmarks => panic!("the bookmark must be listed"),
        Listing::Entries(v) => {
            assert_eq!(v.len(), 1);
            assert_eq!(v[0].position, 1);
            assert_eq!(v[0].alias, "home");
            assert_eq!(v[0].path, "/home/u");
        }
    }

    // rename it
    let mut c = loaded;
    assert!(c.rename(&"home".to_string(), &"h".to_string()));
    assert_eq!(c.bookmarks[0].alias, "h");
    let text = save_to_text(&c).unwrap();

    // remove it: the saved array becomes empty, not absent
    let mut c = load_from_contents(Some(&text)).unwrap();
    assert!(c.remove(&"h".to_string()));
    let text = save_to_text(&c).unwrap();
    assert_eq!(text, "bookmarks = [\n]\n");
}
