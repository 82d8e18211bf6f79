use std::sync::Arc;

use article_engine::article::{Article, ArticleSummary, CachedStatus};
use article_engine::config::{
    default_address, default_front_matter_delimiter, default_header_ids,
    default_markdown_to_html, default_max_cached_articles, default_port,
    default_record_cache_stats, default_sample_article, default_true, Config, Extensions, Main,
};
use article_engine::engine::{Articles, FetchOutcome};
use article_engine::errors::EngineError;
use article_engine::render::plain_options;
use article_engine::storage::{ArticleStorage, BodyFile, ScanEntry};

const RECORD_5: &str = "[article]\n\
id = 5\n\
title = \"Fifth\"\n\
description = \"A note on rights\"\n\
markdown_path = \"body.md\"\n\
date = 20240101\n\
tags = [\"Politics\"]\n\
keywords = [\"k\"]\n";

const RECORD_7: &str = "[article]\n\
id = 7\n\
title = \"Seventh\"\n\
description = \"Something else\"\n\
markdown_path = \"body.md\"\n\
date = 20240202\n\
tags = [\"Politics\", \"History\"]\n\
keywords = []\n";

fn engine(sample: Option<Article>) -> Articles {
    let storage = ArticleStorage::new("root".to_string(), false, plain_options());
    Articles::new(storage, 4, sample)
}

fn entry(name: &str, record: Option<&str>) -> ScanEntry {
    ScanEntry { name: name.to_string(), metainfo: record.map(|r| r.to_string()) }
}

fn sample_article() -> Article {
    Article {
        id: 0,
        title: Arc::new("Universal Declaration of Human Rights".to_string()),
        description: Arc::new("A seminal document".to_string()),
        content: Arc::new("All human beings are born free".to_string()),
        date: 19481210,
        tags: Arc::new(vec!["Politics".to_string(), "History".to_string()]),
        keywords: Arc::new(vec!["human rights".to_string()]),
    }
}

fn titles(summaries: &[ArticleSummary]) -> Vec<String> {
    summaries.iter().map(|s| (*s.title).clone()).collect()
}

#[test]
fn scan_fetch_and_cache_scenario() {
    let mut e = engine(None);
    e.refresh_index(&vec![entry("5", Some(RECORD_5))]);

    // First fetch: the engine asks for the body file, then assembles
    // and caches the article.
    let m = match e.get_article(5) {
        FetchOutcome::NeedsBody(m) => m,
        _ => panic!("expected a body request for an uncached id"),
    };
    assert_eq!(m.id, 5);
    assert_eq!(*m.markdown_path, "body.md");
    let (a, status) = e
        .get_article_with_body(5, BodyFile::Content("the text".to_string()))
        .expect("fetch must succeed");
    assert_eq!(status, CachedStatus::NotCached);
    assert_eq!(a.id, 5);
    assert_eq!(*a.title, "Fifth");
    assert_eq!(*a.content, "the text");

    // Second fetch: answered from the cache with an equal article.
    match e.get_article(5) {
        FetchOutcome::Found(b, status) => {
            assert_eq!(status, CachedStatus::Cached);
            assert_eq!(b.id, a.id);
            assert_eq!(*b.title, *a.title);
            assert_eq!(*b.content, *a.content);
        },
        _ => panic!("expected a cached article"),
    }
}

#[test]
fn non_numeric_directory_is_skipped() {
    let mut e = engine(None);
    e.refresh_index(&vec![entry("abc", Some(RECORD_5)), entry("7", Some(RECORD_7))]);
    let summaries = e.list_article_summaries().unwrap();
    assert_eq!(titles(&summaries), vec!["Seventh"]);
    assert!(matches!(e.get_article(5), FetchOutcome::Absent));
}

#[test]
fn mismatched_id_field_is_skipped() {
    let mut e = engine(None);
    // Directory name 6, record says 5: skipped silently.
    e.refresh_index(&vec![entry("6", Some(RECORD_5))]);
    assert!(e.list_article_summaries().unwrap().is_empty());
}

#[test]
fn malformed_record_is_skipped_not_fatal() {
    let mut e = engine(None);
    e.refresh_index(&vec![entry("5", Some("not toml [")), entry("7", Some(RECORD_7))]);
    let summaries = e.list_article_summaries().unwrap();
    assert_eq!(titles(&summaries), vec!["Seventh"]);
}

#[test]
fn refresh_twice_gives_identical_results() {
    let entries = vec![entry("5", Some(RECORD_5)), entry("7", Some(RECORD_7))];
    let mut e = engine(None);
    e.refresh_index(&entries);
    let first = titles(&e.list_article_summaries().unwrap());
    let first_tagged = titles(&e.list_article_summaries_by_tag("Politics").unwrap());
    e.refresh_index(&entries);
    let second = titles(&e.list_article_summaries().unwrap());
    let second_tagged = titles(&e.list_article_summaries_by_tag("Politics").unwrap());
    assert_eq!(first, second);
    assert_eq!(first_tagged, second_tagged);
}

#[test]
fn sample_article_is_served_regardless_of_filesystem() {
    let mut e = engine(Some(sample_article()));
    e.refresh_index(&vec![entry("5", Some(RECORD_5))]);
    for _ in 0..2 {
        match e.get_article(0) {
            FetchOutcome::Found(a, status) => {
                assert_eq!(status, CachedStatus::NotCached);
                assert_eq!(a.id, 0);
                assert_eq!(*a.title, "Universal Declaration of Human Rights");
            },
            _ => panic!("the enabled sample must always be found"),
        }
    }
    // The sample is also listed alongside scanned articles.
    let summaries = e.list_article_summaries().unwrap();
    assert_eq!(
        titles(&summaries),
        vec!["Universal Declaration of Human Rights", "Fifth"]
    );
}

#[test]
fn scanned_item_overrides_sample_metadata_but_not_fetch() {
    const RECORD_0: &str = "[article]\n\
id = 0\n\
title = \"Zeroth\"\n\
description = \"d\"\n\
markdown_path = \"body.md\"\n\
date = 20240303\n\
tags = []\n\
keywords = []\n";
    let mut e = engine(Some(sample_article()));
    e.refresh_index(&vec![entry("0", Some(RECORD_0))]);
    // The scanned record claims the reserved id, so listings show it.
    let summaries = e.list_article_summaries().unwrap();
    assert_eq!(titles(&summaries), vec!["Zeroth"]);
    // The fetch path still short-circuits to the in-memory sample.
    match e.get_article(0) {
        FetchOutcome::Found(a, status) => {
            assert_eq!(status, CachedStatus::NotCached);
            assert_eq!(*a.title, "Universal Declaration of Human Rights");
        },
        _ => panic!("the enabled sample must always be found"),
    }
}

#[test]
fn sample_disabled_means_id_zero_is_absent() {
    let mut e = engine(None);
    e.refresh_index(&vec![entry("5", Some(RECORD_5))]);
    assert!(matches!(e.get_article(0), FetchOutcome::Absent));
}

#[test]
fn search_matches_substring_in_description() {
    let mut e = engine(None);
    e.refresh_index(&vec![entry("5", Some(RECORD_5)), entry("7", Some(RECORD_7))]);
    let hits = e.search_articles("rights").unwrap();
    assert_eq!(titles(&hits), vec!["Fifth"]);
    let none = e.search_articles("zzz-no-match").unwrap();
    assert!(none.is_empty());
    // Case-sensitive: the capitalised form does not match.
    assert!(e.search_articles("Rights").unwrap().is_empty());
}

#[test]
fn search_pagination_and_count() {
    let mut e = engine(None);
    e.refresh_index(&vec![entry("5", Some(RECORD_5)), entry("7", Some(RECORD_7))]);
    assert_eq!(e.get_search_article_page_count("e", 1), 2);
    let page = e.search_articles_paginated("e", 1, 1).unwrap();
    assert_eq!(titles(&page), vec!["Seventh"]);
    assert!(matches!(
        e.search_articles_paginated("e", 1, 2),
        Err(EngineError::PageOutOfRange)
    ));
    assert!(e.search_articles_paginated("e", 0, 9).unwrap().is_empty());
}

#[test]
fn listings_by_tag() {
    let mut e = engine(None);
    e.refresh_index(&vec![entry("5", Some(RECORD_5)), entry("7", Some(RECORD_7))]);
    assert_eq!(
        titles(&e.list_article_summaries_by_tag("Politics").unwrap()),
        vec!["Fifth", "Seventh"]
    );
    assert_eq!(
        titles(&e.list_article_summaries_by_tag("History").unwrap()),
        vec!["Seventh"]
    );
    assert!(e.list_article_summaries_by_tag("absent").unwrap().is_empty());
    assert_eq!(e.get_article_summary_by_tag_page_count("Politics", 1), 2);
    let page = e
        .list_article_summaries_by_tag_paginated("Politics", 1, 0)
        .unwrap();
    assert_eq!(titles(&page), vec!["Fifth"]);
    assert!(matches!(
        e.list_article_summaries_by_tag_paginated("Politics", 1, 2),
        Err(EngineError::PageOutOfRange)
    ));
}

#[test]
fn listing_pagination_and_count() {
    let mut e = engine(None);
    e.refresh_index(&vec![entry("5", Some(RECORD_5)), entry("7", Some(RECORD_7))]);
    assert_eq!(e.get_article_summary_page_count(1), 2);
    assert_eq!(e.get_article_summary_page_count(0), 0);
    let page = e.list_article_summaries_paginated(1, 1).unwrap();
    assert_eq!(titles(&page), vec!["Seventh"]);
    assert!(e.list_article_summaries_paginated(0, 3).unwrap().is_empty());
    assert!(matches!(
        e.list_article_summaries_paginated(1, 2),
        Err(EngineError::PageOutOfRange)
    ));
}

#[test]
fn fetch_failures_are_typed() {
    let mut e = engine(None);
    e.refresh_index(&vec![entry("5", Some(RECORD_5))]);
    assert!(matches!(
        e.get_article_with_body(9, BodyFile::Content("x".to_string())),
        Err(EngineError::NotFound)
    ));
    assert!(matches!(
        e.get_article_with_body(5, BodyFile::DirectoryMissing),
        Err(EngineError::ItemDirectoryMissing)
    ));
    assert!(matches!(
        e.get_article_with_body(5, BodyFile::FileMissing),
        Err(EngineError::MissingBodyFile)
    ));
    assert!(matches!(e.refresh_article(9), Err(EngineError::NotFound)));
}

#[test]
fn refresh_article_overwrites_cache_entry() {
    let mut e = engine(None);
    e.refresh_index(&vec![entry("5", Some(RECORD_5))]);
    e.get_article(5);
    e.get_article_with_body(5, BodyFile::Content("old".to_string()))
        .unwrap();
    let m = e.refresh_article(5).unwrap();
    assert_eq!(m.id, 5);
    let a = e
        .refresh_article_with_body(5, BodyFile::Content("new".to_string()))
        .unwrap();
    assert_eq!(*a.content, "new");
    match e.get_article(5) {
        FetchOutcome::Found(b, CachedStatus::Cached) => assert_eq!(*b.content, "new"),
        _ => panic!("refreshed article must be cached"),
    }
}

#[test]
fn clear_cache_forces_reload() {
    let mut e = engine(None);
    e.refresh_index(&vec![entry("5", Some(RECORD_5))]);
    e.get_article(5);
    e.get_article_with_body(5, BodyFile::Content("text".to_string()))
        .unwrap();
    e.clear_cache();
    assert!(matches!(e.get_article(5), FetchOutcome::NeedsBody(_)));
}

#[test]
fn rendering_transforms_the_body() {
    let storage = ArticleStorage::new("root".to_string(), true, plain_options());
    let mut e = Articles::new(storage, 4, None);
    e.refresh_index(&vec![entry("5", Some(RECORD_5))]);
    e.get_article(5);
    let (a, _) = e
        .get_article_with_body(5, BodyFile::Content("# Title".to_string()))
        .unwrap();
    assert!(a.content.contains("<h1>"), "markdown must be rendered: {}", a.content);
}

#[test]
fn config_defaults() {
    assert_eq!(default_max_cached_articles(), 100);
    assert!(!default_sample_article());
    assert_eq!(default_address(), "127.0.0.1");
    assert_eq!(default_port(), 8080);
    assert!(!default_record_cache_stats());
    assert!(default_markdown_to_html());
    assert!(default_true());
    assert!(default_front_matter_delimiter().is_none());
    assert!(default_header_ids().is_none());
    let c = Config::default();
    assert_eq!(c.mainconfig.max_cached_articles, 0);
    assert!(!c.extensions.table);
    let m = Main::default();
    assert_eq!(m.port, 0);
    let x = Extensions::standard();
    assert!(x.table && x.autolink && x.footnotes);
}
