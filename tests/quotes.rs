use cch24::{
    cite, cite_quote, draft, draft_quote, remove, remove_quote, reset, undo, undo_quote, ApiError,
    QuoteData, QuoteStore, StoreError,
};

fn data(author: Option<&str>, quote: Option<&str>) -> QuoteData {
    QuoteData { author: author.map(|a| a.to_string()), quote: quote.map(|q| q.to_string()) }
}

#[test]
fn cite_returns_the_drafted_quote() {
    let mut store = QuoteStore::new();
    let q = draft_quote(&mut store, "Santa".to_string(), "Ho ho ho".to_string()).unwrap();
    assert_eq!(q.version, 1);
    let c = cite_quote(&store, q.id).unwrap();
    assert_eq!(c.id, q.id);
    assert_eq!(c.author, "Santa");
    assert_eq!(c.quote, "Ho ho ho");
    assert_eq!(c.created_at, q.created_at);
    assert_eq!(c.version, 1);
}

#[test]
fn drafted_ids_differ() {
    let mut store = QuoteStore::new();
    let a = draft_quote(&mut store, "A".to_string(), "one".to_string()).unwrap();
    let b = draft_quote(&mut store, "B".to_string(), "two".to_string()).unwrap();
    assert_ne!(a.id, b.id);
    assert_eq!(store.len(), 2);
}

#[test]
fn cite_unknown_id_is_not_found() {
    let store = QuoteStore::new();
    assert!(matches!(cite_quote(&store, 42), Err(StoreError::NotFound)));
}

#[test]
fn undo_with_only_author_keeps_text_and_bumps_version() {
    let mut store = QuoteStore::new();
    let q = draft_quote(&mut store, "Santa".to_string(), "Ho ho ho".to_string()).unwrap();
    let u = undo_quote(&mut store, q.id, Some("Rudolph".to_string()), None).unwrap();
    assert_eq!(u.author, "Rudolph");
    assert_eq!(u.quote, "Ho ho ho");
    assert_eq!(u.version, 2);
    assert!(u.created_at >= q.created_at);
    let u2 = undo_quote(&mut store, q.id, None, Some("Ho".to_string())).unwrap();
    assert_eq!(u2.author, "Rudolph");
    assert_eq!(u2.quote, "Ho");
    assert_eq!(u2.version, 3);
    assert!(u2.created_at >= u.created_at);
}

#[test]
fn edit_never_moves_back_in_time() {
    let mut store = QuoteStore::new();
    let q = store.insert(7, "A".to_string(), "x".to_string(), 1_000).unwrap();
    assert_eq!(q.created_at, 1_000);
    let e = store.edit(7, None, None, 500).unwrap();
    assert_eq!(e.created_at, 1_000);
    assert_eq!(e.version, 2);
    let f = store.edit(7, None, None, 2_000).unwrap();
    assert_eq!(f.created_at, 2_000);
    assert_eq!(f.version, 3);
}

#[test]
fn insert_with_taken_id_is_refused() {
    let mut store = QuoteStore::new();
    store.insert(7, "A".to_string(), "x".to_string(), 1).unwrap();
    assert!(matches!(store.insert(7, "B".to_string(), "y".to_string(), 2), Err(StoreError::Internal)));
    assert_eq!(store.len(), 1);
    assert_eq!(store.cite(7).unwrap().author, "A");
}

#[test]
fn undo_unknown_id_is_not_found() {
    let mut store = QuoteStore::new();
    assert!(matches!(undo_quote(&mut store, 9, None, None), Err(StoreError::NotFound)));
}

#[test]
fn remove_unknown_id_changes_nothing() {
    let mut store = QuoteStore::new();
    let q = draft_quote(&mut store, "A".to_string(), "x".to_string()).unwrap();
    assert!(matches!(remove_quote(&mut store, q.id.wrapping_add(1)), Err(StoreError::NotFound)));
    assert_eq!(store.len(), 1);
    assert_eq!(cite_quote(&store, q.id).unwrap().quote, "x");
}

#[test]
fn remove_known_id_returns_its_last_value() {
    let mut store = QuoteStore::new();
    let a = draft_quote(&mut store, "A".to_string(), "x".to_string()).unwrap();
    let b = draft_quote(&mut store, "B".to_string(), "y".to_string()).unwrap();
    undo_quote(&mut store, a.id, None, Some("z".to_string())).unwrap();
    let r = remove_quote(&mut store, a.id).unwrap();
    assert_eq!(r.quote, "z");
    assert_eq!(r.version, 2);
    assert_eq!(store.len(), 1);
    assert!(cite_quote(&store, a.id).is_err());
    assert_eq!(cite_quote(&store, b.id).unwrap().author, "B");
}

#[test]
fn page_orders_by_version_then_age() {
    let mut store = QuoteStore::new();
    store.insert(1, "a".to_string(), "1".to_string(), 30).unwrap();
    store.insert(2, "b".to_string(), "2".to_string(), 10).unwrap();
    store.insert(3, "c".to_string(), "3".to_string(), 20).unwrap();
    store.edit(3, None, None, 5).unwrap();
    let page = store.page(0, 10);
    let ids: Vec<u128> = page.iter().map(|q| q.id).collect();
    assert_eq!(ids, vec![3, 2, 1]);
    let tail = store.page(1, 1);
    assert_eq!(tail.len(), 1);
    assert_eq!(tail[0].id, 2);
    assert!(store.page(5, 3).is_empty());
}

#[test]
fn reset_empties_the_store() {
    let mut store = QuoteStore::new();
    draft_quote(&mut store, "A".to_string(), "x".to_string()).unwrap();
    reset(&mut store);
    assert_eq!(store.len(), 0);
}

#[test]
fn api_rejects_malformed_ids() {
    let mut store = QuoteStore::new();
    assert!(matches!(cite(&store, "not-a-uuid"), Err(ApiError::BadRequest)));
    assert!(matches!(remove(&mut store, "xyz"), Err(ApiError::BadRequest)));
    assert!(matches!(undo(&mut store, "", data(Some("a"), None)), Err(ApiError::BadRequest)));
}

#[test]
fn api_reads_ids_as_uuids() {
    let mut store = QuoteStore::new();
    store.insert(0x67e55044_10b1_426f_9247_bb680e5fe0c8, "A".to_string(), "x".to_string(), 1).unwrap();
    let q = cite(&store, "67e55044-10b1-426f-9247-bb680e5fe0c8").unwrap();
    assert_eq!(q.author, "A");
    assert!(matches!(cite(&store, "00000000-0000-0000-0000-000000000001"), Err(ApiError::NotFound)));
    let u = undo(&mut store, "67e55044-10b1-426f-9247-bb680e5fe0c8", data(None, Some("y"))).unwrap();
    assert_eq!(u.quote, "y");
    assert_eq!(u.version, 2);
    let r = remove(&mut store, "67e55044-10b1-426f-9247-bb680e5fe0c8").unwrap();
    assert_eq!(r.quote, "y");
    assert!(matches!(remove(&mut store, "67e55044-10b1-426f-9247-bb680e5fe0c8"), Err(ApiError::NotFound)));
}

#[test]
fn draft_needs_both_fields() {
    let mut store = QuoteStore::new();
    assert!(matches!(draft(&mut store, data(Some("a"), None)), Err(ApiError::BadRequest)));
    assert!(matches!(draft(&mut store, data(None, Some("b"))), Err(ApiError::BadRequest)));
    assert_eq!(store.len(), 0);
    let q = draft(&mut store, data(Some("a"), Some("b"))).unwrap();
    assert_eq!(q.author, "a");
    assert_eq!(q.quote, "b");
    assert_eq!(q.version, 1);
}

#[test]
fn an_issued_id_is_never_reused() {
    let mut store = QuoteStore::new();
    store.insert(5, "A".to_string(), "x".to_string(), 1).unwrap();
    store.delete(5).unwrap();
    assert!(matches!(store.insert(5, "B".to_string(), "y".to_string(), 2), Err(StoreError::Internal)));
    reset(&mut store);
    assert!(matches!(store.insert(5, "C".to_string(), "z".to_string(), 3), Err(StoreError::Internal)));
    assert!(store.insert(6, "D".to_string(), "w".to_string(), 4).is_ok());
}
