use reed::configuration::{Configuration, ConfigurationVariables};
use reed::import::{
    import, parse_author_list, parse_entry_type, select_record, split_file_name, ImportError,
};
use reed::model::{LibraryEntryMeta, LibraryEntryType, Month};

const TWO_RECORDS: &str = "@article{foo2020,\n    author = \"Alice Smith\",\n    title = \"On Cats\",\n    year = \"2020\"\n}\n@book{bar2021,\n    author = \"Bob Jones\",\n    title = \"On Dogs\",\n    year = \"2021\"\n}\n";

fn config() -> Configuration {
    Configuration::new(ConfigurationVariables::new(
        String::from("/tmp/papers"),
        String::from("/tmp/papers/library.json"),
        String::from("%A-%y-%T"),
        2,
        String::from("_"),
        true,
    ))
}

#[test]
fn parse_entry_type_is_case_insensitive() {
    assert_eq!(parse_entry_type("Article").unwrap(), LibraryEntryType::Article);
    assert_eq!(parse_entry_type("ARTICLE").unwrap(), LibraryEntryType::Article);
    assert_eq!(parse_entry_type("phdthesis").unwrap(), LibraryEntryType::PHDThesis);
    assert_eq!(parse_entry_type("PhdThesis").unwrap(), LibraryEntryType::PHDThesis);
    assert_eq!(parse_entry_type("techreport").unwrap(), LibraryEntryType::Techreport);
    match parse_entry_type("poem") {
        Err(ImportError::Parse(m)) => assert_eq!(m, "Entry type poem not known"),
        _ => panic!("expected a parse failure"),
    }
}

#[test]
fn author_lists_split_on_the_literal_and() {
    assert_eq!(parse_author_list("Alice Smith and Bob Jones"), vec![
        String::from("Alice Smith"),
        String::from("Bob Jones"),
    ]);
    assert_eq!(parse_author_list("Plato"), vec![String::from("Plato")]);
    assert_eq!(parse_author_list("Grand Androids and Bob"), vec![
        String::from("Grand Androids"),
        String::from("Bob"),
    ]);
}

#[test]
fn split_file_name_separates_stem_and_extension() {
    let (stem, ext) = split_file_name("papers/draft v2.pdf").unwrap();
    assert_eq!(stem, "draft v2");
    assert_eq!(ext, "pdf");
    let (stem, ext) = split_file_name("archive.tar.gz").unwrap();
    assert_eq!(stem, "archive.tar");
    assert_eq!(ext, "gz");
    assert!(matches!(split_file_name("noextension"), Err(ImportError::CorruptFilePath(_))));
    assert!(matches!(split_file_name("dir/.bashrc"), Err(ImportError::CorruptFilePath(_))));
    assert!(matches!(split_file_name("dir/"), Err(ImportError::CorruptFilePath(_))));
}

#[test]
fn select_record_without_key_needs_exactly_one() {
    let one = vec![meta("foo2020")];
    assert_eq!(select_record(&one, None).unwrap().key(), "foo2020");
    let two = vec![meta("foo2020"), meta("bar2021")];
    match select_record(&two, None) {
        Err(ImportError::NoBibliographyFound(requested, keys)) => {
            assert_eq!(requested, None);
            assert_eq!(keys, vec![String::from("foo2020"), String::from("bar2021")]);
        },
        _ => panic!("expected the keys to be listed"),
    }
}

#[test]
fn select_record_by_key_finds_the_match_or_lists_keys() {
    let two = vec![meta("foo2020"), meta("bar2021")];
    assert_eq!(select_record(&two, Some("bar2021")).unwrap().key(), "bar2021");
    match select_record(&two, Some("baz")) {
        Err(err) => {
            match &err {
                ImportError::NoBibliographyFound(requested, keys) => {
                    assert_eq!(requested.as_deref(), Some("baz"));
                    assert_eq!(keys, &vec![String::from("foo2020"), String::from("bar2021")]);
                },
                _ => panic!("expected a failed selection"),
            }
            assert_eq!(err.message(), "Key baz unknown; known keys are: foo2020 bar2021");
        },
        _ => panic!("expected the keys to be listed"),
    }
}

fn meta(key: &str) -> LibraryEntryMeta {
    LibraryEntryMeta::new(
        String::from(key),
        LibraryEntryType::Article,
        String::from("T"),
        vec![String::from("A")],
        2020,
        None,
        None,
    )
}

#[test]
fn import_without_key_fails_listing_both_keys() {
    let conf = config();
    let bytes: Vec<u8> = b"abc".to_vec();
    let r = import(
        "draft.pdf",
        "refs.bib",
        TWO_RECORDS,
        &bytes,
        None,
        false,
        false,
        vec![],
        &conf,
    );
    match r {
        Err(ImportError::NoBibliographyFound(requested, keys)) => {
            assert_eq!(requested, None);
            assert_eq!(keys, vec![String::from("foo2020"), String::from("bar2021")]);
        },
        _ => panic!("expected the keys to be listed"),
    }
}

#[test]
fn import_with_key_builds_the_full_entry() {
    let conf = config();
    let bytes: Vec<u8> = b"abc".to_vec();
    let (entry, plan) = import(
        "drafts/Cats Draft.pdf",
        "refs.bib",
        TWO_RECORDS,
        &bytes,
        Some("foo2020"),
        false,
        false,
        vec![],
        &conf,
    )
    .unwrap();
    assert_eq!(entry.meta().key(), "foo2020");
    assert_eq!(entry.meta().title(), "On Cats");
    assert_eq!(entry.meta().authors(), &vec![String::from("Alice Smith")]);
    assert_eq!(entry.meta().year(), 2020);
    assert_eq!(entry.file_paths(), &vec![String::from(
        "/tmp/papers/Alice Smith-20-On Cats.pdf",
    )]);
    assert!(plan.move_file);
    let expected_digest: Vec<u8> = vec![
        0xba, 0x78, 0x16, 0xbf, 0x8f, 0x01, 0xcf, 0xea, 0x41, 0x41, 0x40, 0xde, 0x5d, 0xae, 0x22,
        0x23, 0xb0, 0x03, 0x61, 0xa3, 0x96, 0x17, 0x7a, 0x9c, 0xb4, 0x10, 0xff, 0x61, 0xf2, 0x00,
        0x15, 0xad,
    ];
    assert_eq!(entry.digest(), &expected_digest);
}

#[test]
fn import_with_tags_links_one_path_per_tag() {
    let conf = config();
    let bytes: Vec<u8> = b"abc".to_vec();
    let (entry, _) = import(
        "draft.pdf",
        "refs.bib",
        TWO_RECORDS,
        &bytes,
        Some("foo2020"),
        false,
        false,
        vec![String::from("ml"), String::from("to-read")],
        &conf,
    )
    .unwrap();
    assert_eq!(entry.file_paths(), &vec![
        String::from("/tmp/papers/ml/Alice Smith-20-On Cats.pdf"),
        String::from("/tmp/papers/to-read/Alice Smith-20-On Cats.pdf"),
    ]);
    assert_eq!(entry.tags(), &vec![String::from("ml"), String::from("to-read")]);
}

#[test]
fn import_respects_the_copy_override() {
    let conf = config();
    let bytes: Vec<u8> = b"abc".to_vec();
    let (_, plan) = import(
        "draft.pdf",
        "refs.bib",
        TWO_RECORDS,
        &bytes,
        Some("foo2020"),
        false,
        true,
        vec![],
        &conf,
    )
    .unwrap();
    assert!(!plan.move_file);
}

#[test]
fn import_rejects_unknown_document_types() {
    let conf = config();
    let bytes: Vec<u8> = b"abc".to_vec();
    let r = import(
        "draft.pdf",
        "refs.txt",
        TWO_RECORDS,
        &bytes,
        Some("foo2020"),
        false,
        false,
        vec![],
        &conf,
    );
    assert!(matches!(r, Err(ImportError::UnknownFile(_))));
    let r = import(
        "draft.pdf",
        "refs",
        TWO_RECORDS,
        &bytes,
        Some("foo2020"),
        false,
        false,
        vec![],
        &conf,
    );
    assert!(matches!(r, Err(ImportError::UnknownFile(_))));
}

#[test]
fn import_drops_malformed_blocks_and_keeps_the_rest() {
    // The middle block lacks a title and its year does not parse, so only
    // the first and third block become records, in source order.
    let text = "@article{good1,\n    author = \"A\",\n    title = \"T1\",\n    year = \"2001\"\n}\n@article{bad,\n    author = \"B\",\n    year = \"twenty\"\n}\n@article{good2,\n    author = \"C\",\n    title = \"T3\",\n    year = \"2003\"\n}\n";
    let conf = config();
    let bytes: Vec<u8> = b"abc".to_vec();
    let r = import("d.pdf", "refs.bib", text, &bytes, None, false, false, vec![], &conf);
    match r {
        Err(ImportError::NoBibliographyFound(requested, keys)) => {
            assert_eq!(requested, None);
            assert_eq!(keys, vec![String::from("good1"), String::from("good2")]);
        },
        _ => panic!("expected two well-formed records"),
    }
}

#[test]
fn import_rejects_documents_the_parser_cannot_scan_safely() {
    let conf = config();
    let bytes: Vec<u8> = b"abc".to_vec();
    let r = import("d.pdf", "refs.bib", "@comment{", &bytes, None, false, false, vec![], &conf);
    assert!(matches!(r, Err(ImportError::Parse(_))));
    let r = import(
        "d.pdf",
        "refs.bib",
        "@string{a = a}\n",
        &bytes,
        None,
        false,
        false,
        vec![],
        &conf,
    );
    assert!(matches!(r, Err(ImportError::Parse(_))));
    let r = import(
        "d.pdf",
        "refs.bib",
        "@ StrIng ( key = b )\n",
        &bytes,
        None,
        false,
        false,
        vec![],
        &conf,
    );
    assert!(matches!(r, Err(ImportError::Parse(_))));
}

#[test]
fn import_joins_destinations_with_a_single_separator() {
    let conf = Configuration::new(ConfigurationVariables::new(
        String::from("/tmp/papers/"),
        String::from("/tmp/papers/library.json"),
        String::from("%A-%y-%T"),
        2,
        String::from("_"),
        true,
    ));
    let bytes: Vec<u8> = b"abc".to_vec();
    let (entry, _) = import(
        "draft.pdf",
        "refs.bib",
        TWO_RECORDS,
        &bytes,
        Some("foo2020"),
        false,
        false,
        vec![],
        &conf,
    )
    .unwrap();
    assert_eq!(entry.file_paths(), &vec![String::from(
        "/tmp/papers/Alice Smith-20-On Cats.pdf",
    )]);
}

#[test]
fn import_reads_months_and_keeps_unused_fields() {
    let text = "@article{m2020,\n    author = \"A\",\n    title = \"T\",\n    year = \"2020\",\n    month = \"feb\",\n    note = \"kept verbatim\"\n}\n";
    let conf = config();
    let bytes: Vec<u8> = b"xyz".to_vec();
    let (entry, _) = import(
        "d.pdf",
        "refs.bib",
        text,
        &bytes,
        None,
        false,
        false,
        vec![],
        &conf,
    )
    .unwrap();
    assert_eq!(entry.meta().month(), Some(Month::Feb));
    let tags = entry.meta().original_tags().unwrap();
    assert!(tags.iter().any(|(k, v)| k == "note" && v == "kept verbatim"));
}
