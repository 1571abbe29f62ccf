use reed::library::{Library, QueryError, QueryParams, VersionSpec};
use reed::model::{LibraryEntry, LibraryEntryMeta, LibraryEntryType, Month};

fn entry(
    key: &str,
    etype: LibraryEntryType,
    title: &str,
    authors: Vec<&str>,
    year: u32,
    month: Option<Month>,
    tags: Vec<&str>,
) -> LibraryEntry {
    let meta = LibraryEntryMeta::new(
        String::from(key),
        etype,
        String::from(title),
        authors.into_iter().map(String::from).collect(),
        year,
        month,
        Some(vec![(String::from("note"), String::from("from a \"test\" \\ corpus"))]),
    );
    let digest: Vec<u8> = (0..32u8).collect();
    let paths = vec![format!("/tmp/papers/{}.pdf", key)];
    LibraryEntry::new(meta, tags.into_iter().map(String::from).collect(), paths, digest)
}

fn sample_library() -> Library {
    let mut lib = Library::new(String::from("/tmp/papers/library.json"));
    lib.add_entry(entry(
        "cats2020",
        LibraryEntryType::Article,
        "On Cats",
        vec!["Alice Smith", "Bob Jones"],
        2020,
        Some(Month::Feb),
        vec!["pets"],
    ));
    lib.add_entry(entry(
        "dogs2021",
        LibraryEntryType::Book,
        "On Dogs",
        vec!["Carol Lee"],
        2021,
        None,
        vec![],
    ));
    lib.add_entry(entry(
        "fish2020",
        LibraryEntryType::PHDThesis,
        "On Fish",
        vec!["Dan Smith"],
        2020,
        None,
        vec!["pets", "water"],
    ));
    lib
}

#[test]
fn version_text_parses_and_renders() {
    let v = VersionSpec::from_str("1.2.3").unwrap();
    assert_eq!(v, VersionSpec { major: 1, minor: 2, patch: 3 });
    assert_eq!(v.render(), "1.2.3");
    assert!(VersionSpec::from_str("1.2").is_err());
    assert!(VersionSpec::from_str("1.2.x").is_err());
    assert!(VersionSpec::from_str("").is_err());
}

#[test]
fn new_library_is_empty_and_dirty() {
    let lib = Library::new(String::from("/tmp/lib.json"));
    assert_eq!(lib.entries().len(), 0);
    assert!(lib.is_changed());
    assert_eq!(lib.path(), "/tmp/lib.json");
}

#[test]
fn query_with_no_patterns_returns_all_entries() {
    let lib = sample_library();
    let idxs = lib.query(&QueryParams::none()).unwrap();
    assert_eq!(idxs, vec![0, 1, 2]);
}

#[test]
fn query_by_author_matches_any_author() {
    let lib = sample_library();
    let mut q = QueryParams::none();
    q.author = Some(String::from("Smith"));
    assert_eq!(lib.query(&q).unwrap(), vec![0, 2]);
    let mut q = QueryParams::none();
    q.author = Some(String::from("Jones"));
    assert_eq!(lib.query(&q).unwrap(), vec![0]);
}

#[test]
fn query_by_year_title_and_type() {
    let lib = sample_library();
    let mut q = QueryParams::none();
    q.year = Some(String::from("^2020$"));
    assert_eq!(lib.query(&q).unwrap(), vec![0, 2]);
    let mut q = QueryParams::none();
    q.title = Some(String::from("Dogs"));
    assert_eq!(lib.query(&q).unwrap(), vec![1]);
    let mut q = QueryParams::none();
    q.doc_type = Some(String::from("PHDThesis"));
    assert_eq!(lib.query(&q).unwrap(), vec![2]);
}

#[test]
fn query_combines_fields_conjunctively() {
    let lib = sample_library();
    let mut q = QueryParams::none();
    q.author = Some(String::from("Smith"));
    q.year = Some(String::from("^2020$"));
    q.title = Some(String::from("Cats"));
    assert_eq!(lib.query(&q).unwrap(), vec![0]);
}

#[test]
fn general_pattern_matches_any_of_the_fields() {
    let lib = sample_library();
    let mut q = QueryParams::none();
    q.general = Some(String::from("Carol"));
    assert_eq!(lib.query(&q).unwrap(), vec![1]);
    let mut q = QueryParams::none();
    q.general = Some(String::from("2020"));
    assert_eq!(lib.query(&q).unwrap(), vec![0, 2]);
    let mut q = QueryParams::none();
    q.general = Some(String::from("Book"));
    assert_eq!(lib.query(&q).unwrap(), vec![1]);
}

#[test]
fn an_empty_result_is_not_an_error() {
    let lib = sample_library();
    let mut q = QueryParams::none();
    q.title = Some(String::from("Sharks"));
    assert_eq!(lib.query(&q).unwrap(), Vec::<usize>::new());
}

#[test]
fn an_invalid_pattern_fails_the_whole_query() {
    let lib = sample_library();
    let mut q = QueryParams::none();
    q.author = Some(String::from("Smith"));
    q.year = Some(String::from("(unclosed"));
    assert!(matches!(lib.query(&q), Err(QueryError::Regex(_))));
}

#[test]
fn removal_deletes_exactly_the_matched_entries() {
    let mut lib = sample_library();
    let mut q = QueryParams::none();
    q.year = Some(String::from("^2020$"));
    let removed = lib.remove_entry(&q, |_: &Vec<LibraryEntry>| true).unwrap();
    let paths = removed.expect("the removal was confirmed");
    assert_eq!(paths, vec![
        String::from("/tmp/papers/cats2020.pdf"),
        String::from("/tmp/papers/fish2020.pdf"),
    ]);
    assert_eq!(lib.entries().len(), 1);
    assert_eq!(lib.entries()[0].meta().key(), "dogs2021");
    assert!(lib.is_changed());
}

#[test]
fn removal_hands_the_matched_entries_to_the_confirmation() {
    let mut lib = sample_library();
    let mut q = QueryParams::none();
    q.author = Some(String::from("Carol"));
    let removed = lib
        .remove_entry(&q, |matched: &Vec<LibraryEntry>| {
            matched.len() == 1 && matched[0].meta().key() == "dogs2021"
        })
        .unwrap();
    assert!(removed.is_some());
    assert_eq!(lib.entries().len(), 2);
}

#[test]
fn a_vetoing_confirmation_leaves_the_library_unchanged() {
    let mut lib = sample_library();
    let before = lib.store();
    let mut q = QueryParams::none();
    q.year = Some(String::from("^2020$"));
    let removed = lib.remove_entry(&q, |_: &Vec<LibraryEntry>| false).unwrap();
    assert!(removed.is_none());
    assert_eq!(lib.entries().len(), 3);
    assert_eq!(lib.store(), before);
}

#[test]
fn removal_with_an_invalid_pattern_changes_nothing() {
    let mut lib = sample_library();
    let before = lib.store();
    let mut q = QueryParams::none();
    q.title = Some(String::from("(unclosed"));
    assert!(lib.remove_entry(&q, |_: &Vec<LibraryEntry>| true).is_err());
    assert_eq!(lib.store(), before);
}

#[test]
fn store_then_load_reproduces_an_empty_library() {
    let lib = Library::new(String::from("/tmp/a.json"));
    let text = lib.store();
    let loaded = Library::load(text.as_str(), String::from("/tmp/a.json")).unwrap();
    assert_eq!(loaded.entries().len(), 0);
    assert_eq!(loaded.creation_version(), lib.creation_version());
    assert!(!loaded.is_changed());
    assert_eq!(loaded.store(), text);
}

#[test]
fn store_then_load_reproduces_one_entry_exactly() {
    let mut lib = Library::new(String::from("/tmp/b.json"));
    lib.add_entry(entry(
        "cats2020",
        LibraryEntryType::Article,
        "On \"quoted\" Cats \\ and newlines\n",
        vec!["Alice Smith"],
        2020,
        Some(Month::Feb),
        vec!["pets"],
    ));
    let text = lib.store();
    let loaded = Library::load(text.as_str(), String::from("/tmp/b.json")).unwrap();
    assert_eq!(loaded.entries().len(), 1);
    let e = &loaded.entries()[0];
    assert_eq!(e.meta().key(), "cats2020");
    assert_eq!(e.meta().entry_type(), LibraryEntryType::Article);
    assert_eq!(e.meta().title(), "On \"quoted\" Cats \\ and newlines\n");
    assert_eq!(e.meta().authors(), &vec![String::from("Alice Smith")]);
    assert_eq!(e.meta().year(), 2020);
    assert_eq!(e.meta().month(), Some(Month::Feb));
    assert_eq!(
        e.meta().original_tags().unwrap(),
        &vec![(String::from("note"), String::from("from a \"test\" \\ corpus"))]
    );
    assert_eq!(e.tags(), &vec![String::from("pets")]);
    assert_eq!(e.file_paths(), &vec![String::from("/tmp/papers/cats2020.pdf")]);
    assert_eq!(e.digest(), &(0..32u8).collect::<Vec<u8>>());
    assert_eq!(loaded.store(), text);
}

#[test]
fn store_then_load_reproduces_many_entries_in_order() {
    let lib = sample_library();
    let text = lib.store();
    let loaded = Library::load(text.as_str(), String::from("/tmp/c.json")).unwrap();
    assert_eq!(loaded.entries().len(), 3);
    assert_eq!(loaded.entries()[0].meta().key(), "cats2020");
    assert_eq!(loaded.entries()[1].meta().key(), "dogs2021");
    assert_eq!(loaded.entries()[2].meta().key(), "fish2020");
    assert_eq!(loaded.store(), text);
}

#[test]
fn the_stored_document_uses_hex_digests_and_a_version_marker() {
    let lib = sample_library();
    let text = lib.store();
    assert!(text.starts_with("{\"creation_version\":\"1.0.0\",\"entries\":["));
    assert!(text.contains("\"digest\":\"000102030405060708090a0b0c0d0e0f101112131415161718191a1b1c1d1e1f\""));
}

#[test]
fn a_library_still_round_trips_after_removal() {
    let mut lib = sample_library();
    let mut q = QueryParams::none();
    q.title = Some(String::from("Dogs"));
    lib.remove_entry(&q, |_: &Vec<LibraryEntry>| true).unwrap();
    let text = lib.store();
    let loaded = Library::load(text.as_str(), String::from("/tmp/d.json")).unwrap();
    assert_eq!(loaded.entries().len(), 2);
    assert_eq!(loaded.entries()[0].meta().key(), "cats2020");
    assert_eq!(loaded.entries()[1].meta().key(), "fish2020");
    assert_eq!(loaded.store(), text);
}

#[test]
fn loading_tolerates_insignificant_whitespace() {
    let text = "{\"creation_version\": \"1.0.0\", \"entries\": []}";
    let loaded = Library::load(text, String::from("/tmp/w.json")).unwrap();
    assert_eq!(loaded.entries().len(), 0);
    assert_eq!(loaded.creation_version(), VersionSpec { major: 1, minor: 0, patch: 0 });
}

#[test]
fn loading_tolerates_pretty_printing_and_trailing_newline() {
    let lib = sample_library();
    let compact = lib.store();
    let spaced = compact
        .replace(",\"", ",\n  \"")
        .replace("{\"meta\"", "{\n  \"meta\"")
        + "\n";
    let loaded = Library::load(spaced.as_str(), String::from("/tmp/p.json")).unwrap();
    assert_eq!(loaded.store(), compact);
    assert_eq!(loaded.entries().len(), 3);
    assert_eq!(loaded.entries()[1].meta().key(), "dogs2021");
}

#[test]
fn loading_tolerates_short_escapes() {
    let mut lib = Library::new(String::from("/tmp/e.json"));
    lib.add_entry(entry(
        "esc2020",
        LibraryEntryType::Article,
        "line one\nline two\ttabbed",
        vec!["A"],
        2020,
        None,
        vec![],
    ));
    let canonical = lib.store();
    assert!(canonical.contains("\\u000a"));
    let short = canonical.replace("\\u000a", "\\n").replace("\\u0009", "\\t");
    assert_ne!(short, canonical);
    let loaded = Library::load(short.as_str(), String::from("/tmp/e.json")).unwrap();
    assert_eq!(loaded.entries()[0].meta().title(), "line one\nline two\ttabbed");
    assert_eq!(loaded.store(), canonical);
}

#[test]
fn loading_garbage_fails() {
    assert!(Library::load("not a library", String::from("/tmp/x.json")).is_err());
    assert!(Library::load("", String::from("/tmp/x.json")).is_err());
    assert!(Library::load("{\"creation_version\":\"1.0.0\",\"entries\":[}", String::from(
        "/tmp/x.json"
    ))
    .is_err());
}
