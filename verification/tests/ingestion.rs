//! Tests for the price normalizer, the listing extractor, the trimming
//! helper, the reconciliation engine, and the whole ingestion pipeline.

use market_map::extract::extract;
use market_map::ingest::ingest_page;
use market_map::price::clean_price;
use market_map::store::{Candidate, Store};
use market_map::text::trim;

#[test]
fn normalize_currency_text() {
    assert_eq!(clean_price("\u{20a6}1,250,000.00"), 125000000);
}

#[test]
fn normalize_empty_text() {
    assert_eq!(clean_price(""), 0);
}

#[test]
fn normalize_unparsable_text() {
    assert_eq!(clean_price("N/A"), 0);
}

#[test]
fn normalize_plain_digits() {
    assert_eq!(clean_price("2500"), 2500);
}

#[test]
fn normalize_oversized_digit_run() {
    assert_eq!(clean_price("999999999999999999999"), 0);
}

#[test]
fn trim_strips_both_ends() {
    assert_eq!(trim("  HP 15 \n"), "HP 15");
    assert_eq!(trim("   "), "");
    assert_eq!(trim("x"), "x");
}

#[test]
fn extract_one_full_card() {
    let page = "<article class=\"prd\"><h3 class=\"name\">Laptop</h3>\
                <div class=\"prc\">\u{20a6}1,000</div>\
                <img class=\"img\" src=\"std.jpg\"></article>";
    let out = extract(page);
    assert_eq!(out.len(), 1);
    assert_eq!(out[0].name, "Laptop");
    assert_eq!(out[0].raw_price, "\u{20a6}1,000");
    assert_eq!(out[0].image_ref.as_deref(), Some("std.jpg"));
}

#[test]
fn extract_card_missing_price_is_dropped() {
    let page = "<article class=\"prd\"><h3 class=\"name\">X</h3>\
                <img class=\"img\" src=\"a.jpg\"></article>";
    let out = extract(page);
    assert_eq!(out.len(), 0);
}

#[test]
fn extract_card_missing_name_is_dropped() {
    let page = "<article class=\"prd\"><div class=\"prc\">500</div></article>";
    let out = extract(page);
    assert_eq!(out.len(), 0);
}

#[test]
fn extract_card_with_empty_name_is_dropped() {
    let page = "<article class=\"prd\"><h3 class=\"name\"></h3>\
                <div class=\"prc\">500</div></article>";
    let out = extract(page);
    assert_eq!(out.len(), 0);
}

#[test]
fn extract_prefers_lazy_load_image() {
    let page = "<article class=\"prd\"><h3 class=\"name\">Laptop</h3>\
                <div class=\"prc\">900</div>\
                <img class=\"img\" data-src=\"lazy.jpg\" src=\"std.jpg\"></article>";
    let out = extract(page);
    assert_eq!(out.len(), 1);
    assert_eq!(out[0].image_ref.as_deref(), Some("lazy.jpg"));
}

#[test]
fn extract_without_image_has_no_reference() {
    let page = "<article class=\"prd\"><h3 class=\"name\">Laptop</h3>\
                <div class=\"prc\">900</div></article>";
    let out = extract(page);
    assert_eq!(out.len(), 1);
    assert_eq!(out[0].image_ref, None);
}

#[test]
fn extract_several_cards_in_page_order() {
    let page = "junk<article class=\"prd\"><h3 class=\"name\">A</h3>\
                <div class=\"prc\">1</div></article>\
                <article class=\"prd\"><h3 class=\"name\">B</h3>\
                <div class=\"prc\">2</div></article>trailer";
    let out = extract(page);
    assert_eq!(out.len(), 2);
    assert_eq!(out[0].name, "A");
    assert_eq!(out[1].name, "B");
}

#[test]
fn extract_empty_page() {
    assert_eq!(extract("").len(), 0);
    assert_eq!(extract("<div>no cards here</div>").len(), 0);
}

fn candidate(name: &str, price: u64) -> Candidate {
    Candidate {
        name: String::from(name),
        price,
        category: String::from("laptops"),
        image_ref: None,
    }
}

#[test]
fn reconcile_insert_then_update() {
    let mut store = Store::new();
    let id1 = store.reconcile(candidate("X", 100), 1);
    let id2 = store.reconcile(candidate("X", 120), 2);
    assert_eq!(id1, id2);
    assert_eq!(store.len(), 1);
    let key = String::from("X");
    let row = store.find_product_by_name(&key).unwrap();
    assert_eq!(row.avg_price, 120);
    assert_eq!(row.previous_price, Some(100));
    assert_eq!(row.min_price, 100);
    assert_eq!(row.max_price, 100);
    assert_eq!(row.last_updated, 2);
}

#[test]
fn reconcile_repeated_write_converges() {
    let mut store = Store::new();
    store.reconcile(candidate("X", 100), 1);
    store.reconcile(candidate("X", 120), 2);
    store.reconcile(candidate("X", 120), 3);
    let key = String::from("X");
    let row = store.find_product_by_name(&key).unwrap();
    assert_eq!(row.avg_price, 120);
    assert_eq!(row.previous_price, Some(120));
    // A further identical write shifts nothing further.
    store.reconcile(candidate("X", 120), 4);
    let row = store.find_product_by_name(&key).unwrap();
    assert_eq!(row.avg_price, 120);
    assert_eq!(row.previous_price, Some(120));
}

#[test]
fn reconcile_keeps_names_unique() {
    let mut store = Store::new();
    for price in [100u64, 200, 300, 400] {
        store.reconcile(candidate("same name", price), 1);
    }
    assert_eq!(store.len(), 1);
    let key = String::from("same name");
    let row = store.find_product_by_name(&key).unwrap();
    // First writer fixed the identifier, the last price stands.
    assert_eq!(row.id, 0);
    assert_eq!(row.avg_price, 400);
}

#[test]
fn reconcile_replaces_image_wholesale() {
    let mut store = Store::new();
    let mut with_image = candidate("X", 100);
    with_image.image_ref = Some(String::from("a.jpg"));
    store.reconcile(with_image, 1);
    store.reconcile(candidate("X", 100), 2);
    let key = String::from("X");
    let row = store.find_product_by_name(&key).unwrap();
    assert_eq!(row.image_url, None);
}

#[test]
fn ingest_page_end_to_end() {
    let page = "<article class=\"prd\"><h3 class=\"name\"> HP 15 </h3>\
                <div class=\"prc\">\u{20a6}2,500</div>\
                <img class=\"img\" data-src=\"hp.jpg\"></article>";
    let mut store = Store::new();
    let count = ingest_page(&mut store, page, "laptops", 10);
    assert_eq!(count, 1);
    assert_eq!(store.len(), 1);
    let key = String::from("HP 15");
    let row = store.find_product_by_name(&key).unwrap();
    assert_eq!(row.name, "HP 15");
    assert_eq!(row.category, "laptops");
    assert_eq!(row.avg_price, 2500);
    assert_eq!(row.min_price, 2500);
    assert_eq!(row.max_price, 2500);
    assert_eq!(row.previous_price, None);
    assert_eq!(row.image_url.as_deref(), Some("hp.jpg"));
    assert_eq!(row.last_updated, 10);

    let second = "<article class=\"prd\"><h3 class=\"name\">HP 15</h3>\
                  <div class=\"prc\">3,000</div></article>";
    let count = ingest_page(&mut store, second, "laptops", 11);
    assert_eq!(count, 1);
    assert_eq!(store.len(), 1);
    let row = store.find_product_by_name(&key).unwrap();
    assert_eq!(row.avg_price, 3000);
    assert_eq!(row.previous_price, Some(2500));
    assert_eq!(row.min_price, 2500);
    assert_eq!(row.image_url, None);
    assert_eq!(row.last_updated, 11);
}
