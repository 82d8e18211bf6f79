use article_engine::errors::EngineError;
use article_engine::pagination::Paginator;

#[test]
fn page_count_exact_values() {
    assert_eq!(Paginator::compute_total_pages(7, 3), 3);
    assert_eq!(Paginator::compute_total_pages(6, 3), 2);
    assert_eq!(Paginator::compute_total_pages(1, 3), 1);
    assert_eq!(Paginator::compute_total_pages(0, 3), 0);
    assert_eq!(Paginator::compute_total_pages(7, 0), 0);
    assert_eq!(Paginator::compute_total_pages(0, 0), 0);
}

#[test]
fn seven_ids_in_pages_of_three() {
    let ids: Vec<i32> = vec![1, 2, 3, 4, 5, 6, 7];
    assert_eq!(Paginator::compute_total_pages(ids.len(), 3), 3);

    let page0 = Paginator::paginate(&ids, 3, 0).unwrap().unwrap();
    assert_eq!(page0, &[1, 2, 3]);

    let page1 = Paginator::paginate(&ids, 3, 1).unwrap().unwrap();
    assert_eq!(page1, &[4, 5, 6]);

    let page2 = Paginator::paginate(&ids, 3, 2).unwrap().unwrap();
    assert_eq!(page2, &[7]);

    let out_of_range = Paginator::paginate(&ids, 3, 3);
    assert_eq!(out_of_range, Err(EngineError::PageOutOfRange));
}

#[test]
fn page_size_zero_never_fails() {
    let ids: Vec<i32> = vec![1, 2, 3, 4, 5, 6, 7];
    let r = Paginator::paginate(&ids, 0, 0).unwrap();
    assert!(r.is_none());
    let r = Paginator::paginate(&ids, 0, 99).unwrap();
    assert!(r.is_none());
    let empty: Vec<i32> = vec![];
    let r = Paginator::paginate(&empty, 0, 5).unwrap();
    assert!(r.is_none());
}

#[test]
fn any_page_of_empty_collection_is_empty() {
    let empty: Vec<i32> = vec![];
    let r = Paginator::paginate(&empty, 4, 12).unwrap().unwrap();
    assert!(r.is_empty());
}
