use article_engine::errors::EngineError;
use article_engine::metadata::{parse_article_id, parse_metainfo};

const GOOD: &str = "[article]\n\
id = 5\n\
title = \"Hello\"\n\
description = \"On rights and duties\"\n\
markdown_path = \"body.md\"\n\
date = 20240101\n\
tags = [\"Politics\", \"History\"]\n\
keywords = [\"k1\", \"k2\"]\n";

#[test]
fn well_formed_record_parses() {
    let m = parse_metainfo(GOOD).expect("record must parse");
    assert_eq!(m.id, 5);
    assert_eq!(*m.title, "Hello");
    assert_eq!(*m.description, "On rights and duties");
    assert_eq!(*m.markdown_path, "body.md");
    assert_eq!(m.date, 20240101);
    assert_eq!(*m.tags, vec!["Politics".to_string(), "History".to_string()]);
    assert_eq!(*m.keywords, vec!["k1".to_string(), "k2".to_string()]);
}

#[test]
fn missing_field_is_malformed() {
    let text = "[article]\nid = 5\ntitle = \"Hello\"\n";
    assert!(matches!(parse_metainfo(text), Err(EngineError::MalformedMetadata)));
}

#[test]
fn missing_article_table_is_malformed() {
    let text = "id = 5\ntitle = \"Hello\"\n";
    assert!(matches!(parse_metainfo(text), Err(EngineError::MalformedMetadata)));
}

#[test]
fn bad_syntax_is_malformed() {
    assert!(matches!(parse_metainfo("not toml ["), Err(EngineError::MalformedMetadata)));
}

#[test]
fn non_string_tag_rejects_whole_record() {
    let text = "[article]\n\
id = 5\n\
title = \"Hello\"\n\
description = \"d\"\n\
markdown_path = \"body.md\"\n\
date = 20240101\n\
tags = [\"ok\", 3]\n\
keywords = []\n";
    assert!(matches!(parse_metainfo(text), Err(EngineError::MalformedMetadata)));
}

#[test]
fn wrong_field_shape_is_malformed() {
    let text = "[article]\n\
id = \"five\"\n\
title = \"Hello\"\n\
description = \"d\"\n\
markdown_path = \"body.md\"\n\
date = 20240101\n\
tags = []\n\
keywords = []\n";
    assert!(matches!(parse_metainfo(text), Err(EngineError::MalformedMetadata)));
}

#[test]
fn empty_arrays_are_accepted() {
    let text = "[article]\n\
id = 1\n\
title = \"t\"\n\
description = \"d\"\n\
markdown_path = \"b.md\"\n\
date = 19990101\n\
tags = []\n\
keywords = []\n";
    let m = parse_metainfo(text).unwrap();
    assert!(m.tags.is_empty());
    assert!(m.keywords.is_empty());
}

#[test]
fn id_parsing_matches_integer_syntax() {
    assert_eq!(parse_article_id("5"), Some(5));
    assert_eq!(parse_article_id("007"), Some(7));
    assert_eq!(parse_article_id("-12"), Some(-12));
    assert_eq!(parse_article_id("+8"), Some(8));
    assert_eq!(parse_article_id("0"), Some(0));
    assert_eq!(parse_article_id("2147483647"), Some(2147483647));
    assert_eq!(parse_article_id("-2147483648"), Some(-2147483648));
    assert_eq!(parse_article_id("2147483648"), None);
    assert_eq!(parse_article_id("-2147483649"), None);
    assert_eq!(parse_article_id(""), None);
    assert_eq!(parse_article_id("abc"), None);
    assert_eq!(parse_article_id("12a"), None);
    assert_eq!(parse_article_id("-"), None);
    assert_eq!(parse_article_id("+"), None);
    assert_eq!(parse_article_id("1 2"), None);
}

#[test]
fn error_messages_are_nonempty() {
    for e in [
        EngineError::MalformedMetadata,
        EngineError::ItemDirectoryMissing,
        EngineError::MissingBodyFile,
        EngineError::NotFound,
        EngineError::PageOutOfRange,
    ] {
        assert!(!e.message().is_empty());
    }
}
