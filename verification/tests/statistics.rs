//! Tests for name similarity and the market statistics engine.

use market_map::stats::similar;
use market_map::store::{Candidate, Store};

fn candidate(name: &str, price: u64) -> Candidate {
    Candidate {
        name: String::from(name),
        price,
        category: String::from("laptops"),
        image_ref: None,
    }
}

#[test]
fn similar_is_reflexive() {
    assert!(similar("dell xps 13", "dell xps 13"));
    assert!(similar("x", "x"));
}

#[test]
fn similar_close_names() {
    assert!(similar("dell xps 13", "dell xps 15"));
    assert!(similar("HP Pavilion 15", "hp pavilion 14"));
}

#[test]
fn dissimilar_names() {
    assert!(!similar("dell xps 13", "zzzz"));
    assert!(!similar("laptop", "qqqq"));
}

#[test]
fn stats_for_unknown_id_is_not_found() {
    let mut store = Store::new();
    store.reconcile(candidate("dell xps 13", 100), 1);
    assert!(store.market_stats(5).is_none());
    let empty = Store::new();
    assert!(empty.market_stats(0).is_none());
}

#[test]
fn stats_with_no_neighbors_count_only_the_product() {
    let mut store = Store::new();
    let id = store.reconcile(candidate("dell xps 13", 100), 1);
    store.reconcile(candidate("zzzz", 900), 1);
    let st = store.market_stats(id).unwrap();
    assert_eq!(st.similar_count, 1);
    assert_eq!(st.highest_price, 100);
    assert_eq!(st.lowest_price, 100);
    assert_eq!(st.average_price, 100);
}

#[test]
fn stats_aggregate_over_similar_products() {
    let mut store = Store::new();
    let id = store.reconcile(candidate("dell xps 13", 100), 1);
    store.reconcile(candidate("dell xps 15", 300), 1);
    store.reconcile(candidate("zzzz", 900), 1);
    let st = store.market_stats(id).unwrap();
    assert_eq!(st.similar_count, 2);
    assert_eq!(st.highest_price, 300);
    assert_eq!(st.lowest_price, 100);
    assert_eq!(st.average_price, 200);
}

#[test]
fn stats_average_rounds_down() {
    let mut store = Store::new();
    let id = store.reconcile(candidate("dell xps 13", 100), 1);
    store.reconcile(candidate("dell xps 15", 101), 1);
    let st = store.market_stats(id).unwrap();
    assert_eq!(st.average_price, 100);
}

#[test]
fn stats_read_the_current_price() {
    let mut store = Store::new();
    let id = store.reconcile(candidate("dell xps 13", 100), 1);
    store.reconcile(candidate("dell xps 13", 250), 2);
    let st = store.market_stats(id).unwrap();
    // The aggregates read avg_price, not the creation-time bounds.
    assert_eq!(st.highest_price, 250);
    assert_eq!(st.lowest_price, 250);
    assert_eq!(st.average_price, 250);
    assert_eq!(st.similar_count, 1);
}
