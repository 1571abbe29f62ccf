use reed::configuration::{assemble_name, get_last_name, Configuration, ConfigurationVariables};
use reed::model::{LibraryEntryMeta, LibraryEntryType, Month};

fn config(pattern: &str, max_authors: u32, separator: &str) -> Configuration {
    Configuration::new(ConfigurationVariables::new(
        String::from("/tmp/papers"),
        String::from("/tmp/papers/library.json"),
        String::from(pattern),
        max_authors,
        String::from(separator),
        true,
    ))
}

fn meta(authors: Vec<&str>, year: u32, title: &str, month: Option<Month>) -> LibraryEntryMeta {
    LibraryEntryMeta::new(
        String::from("key2020"),
        LibraryEntryType::Article,
        String::from(title),
        authors.into_iter().map(String::from).collect(),
        year,
        month,
        None,
    )
}

#[test]
fn default_pattern_renders_author_year_title() {
    let conf = config("%A-%y-%T", 2, "_");
    let m = meta(vec!["Alice Smith"], 2020, "On Cats", None);
    assert_eq!(assemble_name("draft", &m, &conf), "Alice Smith-20-On Cats");
}

#[test]
fn changing_one_field_changes_only_its_token() {
    let conf = config("%A-%y-%T", 2, "_");
    let m1 = meta(vec!["Alice Smith"], 2020, "On Cats", None);
    let m2 = meta(vec!["Alice Smith"], 2020, "On Dogs", None);
    assert_eq!(assemble_name("draft", &m1, &conf), "Alice Smith-20-On Cats");
    assert_eq!(assemble_name("draft", &m2, &conf), "Alice Smith-20-On Dogs");
}

#[test]
fn name_assembly_is_reproducible() {
    let conf = config("%A-%y-%T", 2, "_");
    let m = meta(vec!["Alice Smith"], 2020, "On Cats", None);
    let first = assemble_name("draft", &m, &conf);
    let second = assemble_name("draft", &m, &conf);
    assert_eq!(first, second);
}

#[test]
fn author_limit_and_separator_apply() {
    let conf = config("%A", 2, "_");
    let m = meta(vec!["Alice Smith", "Bob Jones", "Carol Lee"], 2020, "T", None);
    assert_eq!(assemble_name("draft", &m, &conf), "Alice Smith_Bob Jones");
}

#[test]
fn zero_author_limit_renders_empty_authors() {
    let conf = config("%A-%T", 0, "_");
    let m = meta(vec!["Alice Smith"], 2020, "On Cats", None);
    assert_eq!(assemble_name("draft", &m, &conf), "-On Cats");
}

#[test]
fn last_name_placeholder_uses_final_token_or_comma_prefix() {
    let conf = config("%L", 2, "_");
    let m = meta(vec!["Alice Smith", "Jones, Bob"], 2020, "T", None);
    assert_eq!(assemble_name("draft", &m, &conf), "Smith_Jones");
}

#[test]
fn lowercase_placeholders_lowercase_their_fields() {
    let conf = config("%t.%a.%f", 2, "_");
    let m = meta(vec!["Alice Smith"], 2020, "On CATS", None);
    assert_eq!(assemble_name("DraftX", &m, &conf), "on cats.alice smith.draftx");
}

#[test]
fn year_and_month_placeholders_render() {
    let conf = config("%Y %y %M %m", 2, "_");
    let m = meta(vec!["A"], 1999, "T", Some(Month::Mar));
    assert_eq!(assemble_name("d", &m, &conf), "1999 99 March march");
}

#[test]
fn missing_month_renders_empty() {
    let conf = config("x%My", 2, "_");
    let m = meta(vec!["A"], 2001, "T", None);
    assert_eq!(assemble_name("d", &m, &conf), "xy");
}

#[test]
fn original_name_placeholder_keeps_capitalization() {
    let conf = config("%F", 2, "_");
    let m = meta(vec!["A"], 2001, "T", None);
    assert_eq!(assemble_name("My Draft", &m, &conf), "My Draft");
}

#[test]
fn get_last_name_splits_on_comma_first() {
    assert_eq!(get_last_name("Smith, John").unwrap(), "Smith");
    assert_eq!(get_last_name("John Smith").unwrap(), "Smith");
    assert_eq!(get_last_name("Plato").unwrap(), "Plato");
}

#[test]
fn defaults_follow_the_documented_values() {
    let v = ConfigurationVariables::defaults_under("/home/someone/Documents");
    assert_eq!(v.document_location(), "/home/someone/Documents/Papers");
    assert_eq!(v.library_location(), "/home/someone/Documents/Papers/library.json");
    assert_eq!(v.name_pattern(), "%A-%y-%T");
    assert_eq!(v.max_author_names(), 2);
    assert_eq!(v.author_separator(), "_");
    assert!(v.move_files());
}
