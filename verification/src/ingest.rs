//! The ingestion pipeline after a successful page fetch: extract candidate
//! records, normalize each price text, trim each name, and reconcile every
//! candidate into the store under the run's category.
//!
//! Per-candidate work is independent: the in-memory store cannot fail, and
//! any serialization of the per-candidate writes yields the state this
//! sequential pass computes (see the reconciliation laws in `store`).

use crate::extract::{extract, extract_spec, lemma_extract_spec_len, views_of, RawCandidateView};
use crate::price::{clean_price, normalized_price};
use crate::store::{
    lemma_reconcile_view_bridge, reconcile_rows_v, views_of_rows, Candidate, CandidateView, Store,
};
use crate::text::{trim, trim_spec};
use vstd::prelude::*;

verus! {

/// The candidate that one extracted record contributes: trimmed name,
/// normalized price, the run's category.
pub open spec fn candidate_of(rc: RawCandidateView, category: Seq<char>) -> CandidateView {
    CandidateView {
        name: trim_spec(rc.name),
        price: normalized_price(rc.raw_price) as u64,
        category: category,
        image_ref: rc.image_ref,
    }
}

/// The store contents after ingesting the given extracted records in page
/// order.
pub open spec fn ingest_rows(
    rows: Seq<crate::store::ProductView>,
    cands: Seq<RawCandidateView>,
    category: Seq<char>,
    now: u64,
) -> Seq<crate::store::ProductView>
    decreases cands.len(),
{
    if cands.len() == 0 {
        rows
    } else {
        reconcile_rows_v(
            ingest_rows(rows, cands.drop_last(), category, now),
            candidate_of(cands.last(), category),
            now,
        )
    }
}

/// Ingest one fetched page: every extracted candidate is normalized and
/// reconciled into the store, in page order. Returns how many candidates
/// were processed.
pub fn ingest_page(store: &mut Store, page: &str, category: &str, now: u64) -> (count: usize)
    requires
        old(store).wf(),
        old(store).rows().len() + page@.len() < u64::MAX,
    ensures
        final(store).wf(),
        views_of_rows(final(store).rows()) == ingest_rows(
            views_of_rows(old(store).rows()),
            extract_spec(page@),
            category@,
            now,
        ),
        count == extract_spec(page@).len(),
{
    let ghost rows0 = old(store).rows();
    let ghost specs = extract_spec(page@);
    proof {
        lemma_extract_spec_len(page@);
    }
    let cands = extract(page);
    let total = cands.len();
    let mut k: usize = 0;
    while k < total
        invariant
            store.wf(),
            views_of(cands@) == specs,
            total == cands.len(),
            total == specs.len(),
            0 <= k <= total,
            rows0.len() + total < u64::MAX,
            store.rows().len() <= rows0.len() + k,
            views_of_rows(store.rows()) == ingest_rows(
                views_of_rows(rows0),
                specs.take(k as int),
                category@,
                now,
            ),
        decreases total - k,
    {
        let name = trim(cands[k].name.as_str());
        let price = clean_price(cands[k].raw_price.as_str());
        let image_ref: Option<String> = match &cands[k].image_ref {
            Some(s) => Some(s.clone()),
            None => None,
        };
        let cand = Candidate {
            name,
            price,
            category: String::from_str(category),
            image_ref,
        };
        proof {
            assert(views_of(cands@)[k as int] == cands@[k as int]@);
            assert(cand@ == candidate_of(specs[k as int], category@));
            assert(specs.take(k + 1).drop_last() =~= specs.take(k as int));
            assert(specs.take(k + 1).last() == specs[k as int]);
        }
        let ghost pre_rows = store.rows();
        let ghost gcand = cand;
        store.reconcile(cand, now);
        proof {
            assert(store.rows() == crate::store::reconcile_rows(pre_rows, gcand, now));
            lemma_reconcile_view_bridge(pre_rows, gcand, now);
            crate::store::lemma_index_of_name_from(pre_rows, gcand.name@, 0);
            match crate::store::index_of_name(pre_rows, gcand.name@) {
                Some(i) => {
                    assert(crate::store::reconcile_rows(pre_rows, gcand, now).len()
                        == pre_rows.len());
                },
                None => {
                    assert(crate::store::reconcile_rows(pre_rows, gcand, now).len()
                        == pre_rows.len() + 1);
                },
            }
            assert(store.rows().len() <= pre_rows.len() + 1);
        }
        k = k + 1;
    }
    proof {
        assert(specs.take(total as int) =~= specs);
    }
    total
}

} // verus!
