use std::sync::Arc;

use article_engine::article::Metainfo;
use article_engine::index::ArticleIndex;

fn meta(id: i32, title: &str, tags: &[&str]) -> Metainfo {
    Metainfo {
        id,
        title: Arc::new(title.to_string()),
        description: Arc::new(format!("about {title}")),
        markdown_path: Arc::new("body.md".to_string()),
        date: 20240101,
        tags: Arc::new(tags.iter().map(|t| t.to_string()).collect()),
        keywords: Arc::new(vec![]),
    }
}

#[test]
fn rebuild_sorts_ids_ascending_without_duplicates() {
    let mut index = ArticleIndex::new();
    let descriptors = vec![
        meta(5, "five", &["a"]),
        meta(3, "three", &["a", "b"]),
        meta(9, "nine", &[]),
        meta(3, "three again", &["c"]),
    ];
    index.rebuild(&descriptors);
    assert_eq!(index.get_all_ids(), vec![3, 5, 9]);
    // The later descriptor with id 3 superseded the earlier one.
    let m = index.get_metainfo(3).unwrap();
    assert_eq!(*m.title, "three again");
}

#[test]
fn ids_for_tag_are_exactly_the_carriers_ascending() {
    let mut index = ArticleIndex::new();
    let descriptors = vec![
        meta(8, "eight", &["news", "old"]),
        meta(2, "two", &["news"]),
        meta(6, "six", &["other"]),
    ];
    index.rebuild(&descriptors);
    assert_eq!(index.get_ids_by_tag("news"), vec![2, 8]);
    assert_eq!(index.get_ids_by_tag("old"), vec![8]);
    assert_eq!(index.get_ids_by_tag("other"), vec![6]);
    assert_eq!(index.get_ids_by_tag("absent"), Vec::<i32>::new());
}

#[test]
fn rebuild_is_deterministic() {
    let descriptors = vec![meta(4, "four", &["x"]), meta(1, "one", &["x", "y"])];
    let mut a = ArticleIndex::new();
    let mut b = ArticleIndex::new();
    a.rebuild(&descriptors);
    b.rebuild(&descriptors);
    assert_eq!(a.get_all_ids(), b.get_all_ids());
    assert_eq!(a.get_ids_by_tag("x"), b.get_ids_by_tag("x"));
    assert_eq!(a.get_ids_by_tag("y"), b.get_ids_by_tag("y"));
}

#[test]
fn incremental_build_matches_rebuild() {
    let mut a = ArticleIndex::new();
    a.clear();
    a.add_metainfo(meta(7, "seven", &["t"]));
    a.add_metainfo(meta(4, "four", &["t"]));
    a.sort_indices();
    assert_eq!(a.get_all_ids(), vec![4, 7]);
    assert_eq!(a.get_ids_by_tag("t"), vec![4, 7]);
}

#[test]
fn lookup_of_missing_id_is_none() {
    let mut index = ArticleIndex::new();
    index.rebuild(&vec![meta(1, "one", &[])]);
    assert!(index.get_metainfo(2).is_none());
}
