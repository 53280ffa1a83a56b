//! The product store and the reconciliation engine.
//!
//! The store keeps one row per product name. Reconciling a candidate either
//! inserts a new row (first sighting of the name) or updates the existing
//! row, shifting the current price into the one-level history. Identifiers
//! are assigned at first insertion, in insertion order, and never change.

use vstd::prelude::*;

verus! {

/// One stored product row.
pub struct Product {
    /// Unique identifier, assigned at first insertion, immutable.
    pub id: u64,
    /// Natural key for reconciliation: unique across all rows.
    pub name: String,
    /// Set at creation, not revised by later ingestion.
    pub category: String,
    /// Current representative price.
    pub avg_price: u64,
    /// Lower bound, set equal to `avg_price` at creation and left untouched
    /// by updates (documented drift of the fixed-field upsert).
    pub min_price: u64,
    /// Upper bound, handled exactly as `min_price`.
    pub max_price: u64,
    /// Replaced wholesale on every update, including with an absent value.
    pub image_url: Option<String>,
    /// The `avg_price` that held immediately before the most recent update;
    /// absent for a never-updated product.
    pub previous_price: Option<u64>,
    /// Refreshed on every reconciliation write.
    pub last_updated: u64,
}

/// A candidate record ready for reconciliation: an extracted listing entry
/// whose price text has already been normalized.
pub struct Candidate {
    pub name: String,
    pub price: u64,
    pub category: String,
    pub image_ref: Option<String>,
}

/// The mathematical content of a stored row.
pub struct ProductView {
    pub id: u64,
    pub name: Seq<char>,
    pub category: Seq<char>,
    pub avg_price: u64,
    pub min_price: u64,
    pub max_price: u64,
    pub image_url: Option<Seq<char>>,
    pub previous_price: Option<u64>,
    pub last_updated: u64,
}

impl View for Product {
    type V = ProductView;

    open spec fn view(&self) -> ProductView {
        ProductView {
            id: self.id,
            name: self.name@,
            category: self.category@,
            avg_price: self.avg_price,
            min_price: self.min_price,
            max_price: self.max_price,
            image_url: match self.image_url {
                Some(s) => Some(s@),
                None => None,
            },
            previous_price: self.previous_price,
            last_updated: self.last_updated,
        }
    }
}

/// The mathematical content of a candidate.
pub struct CandidateView {
    pub name: Seq<char>,
    pub price: u64,
    pub category: Seq<char>,
    pub image_ref: Option<Seq<char>>,
}

/// Index of the first row whose name is `name`, scanning from `from`.
pub open spec fn index_of_name_from(rows: Seq<Product>, name: Seq<char>, from: int) -> Option<int>
    decreases rows.len() - from,
{
    if from < 0 || from >= rows.len() {
        None
    } else if rows[from].name@ == name {
        Some(from)
    } else {
        index_of_name_from(rows, name, from + 1)
    }
}

/// Index of the row holding `name`, if any.
pub open spec fn index_of_name(rows: Seq<Product>, name: Seq<char>) -> Option<int> {
    index_of_name_from(rows, name, 0)
}

/// No two rows share a name.
pub open spec fn unique_names(rows: Seq<Product>) -> bool {
    forall|i: int, j: int|
        0 <= i < j < rows.len() ==> rows[i].name@ != rows[j].name@
}

/// Every row's identifier equals its position: identifiers are assigned in
/// insertion order and rows are never removed.
pub open spec fn sequential_ids(rows: Seq<Product>) -> bool {
    forall|i: int| 0 <= i < rows.len() ==> #[trigger] rows[i].id == i
}

/// The row that an update write produces: the current price moves into the
/// one-level history, the candidate's price and image reference move in,
/// and identifier, name, category and the creation-time bounds stay.
pub open spec fn updated_product(p: Product, c: Candidate, now: u64) -> Product {
    Product {
        avg_price: c.price,
        image_url: c.image_ref,
        previous_price: Some(p.avg_price),
        last_updated: now,
        ..p
    }
}

/// The row that a first insertion produces: all three price fields start
/// equal and the history is absent.
pub open spec fn new_product(c: Candidate, now: u64, id: u64) -> Product {
    Product {
        id: id,
        name: c.name,
        category: c.category,
        avg_price: c.price,
        min_price: c.price,
        max_price: c.price,
        image_url: c.image_ref,
        previous_price: None,
        last_updated: now,
    }
}

/// The store contents after reconciling one candidate.
pub open spec fn reconcile_rows(rows: Seq<Product>, c: Candidate, now: u64) -> Seq<Product> {
    match index_of_name(rows, c.name@) {
        Some(i) => rows.update(i, updated_product(rows[i], c, now)),
        None => rows.push(new_product(c, now, rows.len() as u64)),
    }
}

/// The identifier that reconciling one candidate reports: the existing
/// row's, or the fresh one just assigned.
pub open spec fn reconcile_id(rows: Seq<Product>, c: Candidate, now: u64) -> u64 {
    match index_of_name(rows, c.name@) {
        Some(i) => rows[i].id,
        None => rows.len() as u64,
    }
}

impl View for Candidate {
    type V = CandidateView;

    open spec fn view(&self) -> CandidateView {
        CandidateView {
            name: self.name@,
            price: self.price,
            category: self.category@,
            image_ref: match self.image_ref {
                Some(s) => Some(s@),
                None => None,
            },
        }
    }
}

/// The views of the stored rows.
pub open spec fn views_of_rows(rows: Seq<Product>) -> Seq<ProductView> {
    rows.map_values(|p: Product| p@)
}

/// `index_of_name_from`, over row views.
pub open spec fn index_of_name_v_from(
    rows: Seq<ProductView>,
    name: Seq<char>,
    from: int,
) -> Option<int>
    decreases rows.len() - from,
{
    if from < 0 || from >= rows.len() {
        None
    } else if rows[from].name == name {
        Some(from)
    } else {
        index_of_name_v_from(rows, name, from + 1)
    }
}

/// `updated_product`, over views.
pub open spec fn updated_product_v(p: ProductView, c: CandidateView, now: u64) -> ProductView {
    ProductView {
        avg_price: c.price,
        image_url: c.image_ref,
        previous_price: Some(p.avg_price),
        last_updated: now,
        ..p
    }
}

/// `new_product`, over views.
pub open spec fn new_product_v(c: CandidateView, now: u64, id: u64) -> ProductView {
    ProductView {
        id: id,
        name: c.name,
        category: c.category,
        avg_price: c.price,
        min_price: c.price,
        max_price: c.price,
        image_url: c.image_ref,
        previous_price: None,
        last_updated: now,
    }
}

/// The reconciliation transition, over views.
pub open spec fn reconcile_rows_v(
    rows: Seq<ProductView>,
    c: CandidateView,
    now: u64,
) -> Seq<ProductView> {
    match index_of_name_v_from(rows, c.name, 0) {
        Some(i) => rows.update(i, updated_product_v(rows[i], c, now)),
        None => rows.push(new_product_v(c, now, rows.len() as u64)),
    }
}

/// Scanning rows and scanning their views agree.
proof fn lemma_index_views(rows: Seq<Product>, name: Seq<char>, from: int)
    requires
        0 <= from,
    ensures
        index_of_name_from(rows, name, from) == index_of_name_v_from(
            views_of_rows(rows),
            name,
            from,
        ),
    decreases rows.len() - from,
{
    if from < rows.len() {
        lemma_index_views(rows, name, from + 1);
    }
}

/// Reconciliation commutes with taking views: the store transition, seen
/// through row views, is exactly the view-level transition.
pub proof fn lemma_reconcile_view_bridge(rows: Seq<Product>, c: Candidate, now: u64)
    ensures
        views_of_rows(reconcile_rows(rows, c, now)) == reconcile_rows_v(
            views_of_rows(rows),
            c@,
            now,
        ),
{
    lemma_index_views(rows, c.name@, 0);
    lemma_index_of_name_from(rows, c.name@, 0);
    match index_of_name(rows, c.name@) {
        Some(i) => {
            assert(updated_product(rows[i], c, now)@ == updated_product_v(
                views_of_rows(rows)[i],
                c@,
                now,
            ));
            assert(views_of_rows(rows.update(i, updated_product(rows[i], c, now)))
                =~= views_of_rows(rows).update(i, updated_product_v(views_of_rows(rows)[i], c@, now)));
        },
        None => {
            assert(new_product(c, now, rows.len() as u64)@ == new_product_v(
                c@,
                now,
                rows.len() as u64,
            ));
            assert(views_of_rows(rows.push(new_product(c, now, rows.len() as u64)))
                =~= views_of_rows(rows).push(new_product_v(c@, now, rows.len() as u64)));
        },
    }
}

/// A found index is in bounds, holds the name, and is the first such; a miss
/// means no row from `from` on holds the name.
pub proof fn lemma_index_of_name_from(rows: Seq<Product>, name: Seq<char>, from: int)
    requires
        0 <= from,
    ensures
        match index_of_name_from(rows, name, from) {
            Some(i) => from <= i < rows.len() && rows[i].name@ == name && (forall|k: int|
                from <= k < i ==> rows[k].name@ != name),
            None => forall|k: int| from <= k < rows.len() ==> rows[k].name@ != name,
        },
    decreases rows.len() - from,
{
    if from >= rows.len() {
    } else if rows[from].name@ == name {
    } else {
        lemma_index_of_name_from(rows, name, from + 1);
    }
}

/// If the first `i` rows miss the name and row `i` holds it, the scan finds
/// exactly `i`.
pub proof fn lemma_index_of_first_match(rows: Seq<Product>, name: Seq<char>, from: int, i: int)
    requires
        0 <= from <= i < rows.len(),
        rows[i].name@ == name,
        forall|k: int| from <= k < i ==> rows[k].name@ != name,
    ensures
        index_of_name_from(rows, name, from) == Some(i),
    decreases i - from,
{
    if from < i {
        lemma_index_of_first_match(rows, name, from + 1, i);
    }
}

/// Two row sequences with pointwise-equal names are scanned identically.
pub proof fn lemma_index_same_names(a: Seq<Product>, b: Seq<Product>, name: Seq<char>, from: int)
    requires
        0 <= from,
        a.len() == b.len(),
        forall|k: int| 0 <= k < a.len() ==> a[k].name@ == b[k].name@,
    ensures
        index_of_name_from(a, name, from) == index_of_name_from(b, name, from),
    decreases a.len() - from,
{
    if from < a.len() {
        lemma_index_same_names(a, b, name, from + 1);
    }
}

/// Reconciliation keeps names unique: an update leaves every name as it
/// was, and an insertion only happens when the name is absent.
pub proof fn lemma_reconcile_preserves_uniqueness(rows: Seq<Product>, c: Candidate, now: u64)
    requires
        unique_names(rows),
    ensures
        unique_names(reconcile_rows(rows, c, now)),
{
    lemma_index_of_name_from(rows, c.name@, 0);
    match index_of_name(rows, c.name@) {
        Some(i) => {
            let out = rows.update(i, updated_product(rows[i], c, now));
            assert(forall|k: int| 0 <= k < out.len() ==> out[k].name@ == rows[k].name@);
        },
        None => {
            let out = rows.push(new_product(c, now, rows.len() as u64));
            assert(forall|k: int| 0 <= k < rows.len() ==> out[k].name@ == rows[k].name@);
            assert(out.last().name@ == c.name@);
        },
    }
}

/// Reconciliation keeps identifiers equal to row positions.
pub proof fn lemma_reconcile_preserves_ids(rows: Seq<Product>, c: Candidate, now: u64)
    requires
        sequential_ids(rows),
        rows.len() < u64::MAX,
    ensures
        sequential_ids(reconcile_rows(rows, c, now)),
{
    lemma_index_of_name_from(rows, c.name@, 0);
    match index_of_name(rows, c.name@) {
        Some(i) => {
            let out = rows.update(i, updated_product(rows[i], c, now));
            assert(forall|k: int| 0 <= k < out.len() ==> #[trigger] out[k].id == rows[k].id);
        },
        None => {
            let out = rows.push(new_product(c, now, rows.len() as u64));
            assert(forall|k: int| 0 <= k < rows.len() ==> #[trigger] out[k].id == rows[k].id);
            assert(out[rows.len() as int].id == rows.len());
        },
    }
}

/// Applying the same candidate again converges: after the second write the
/// row's current price and its one-level history both hold the candidate's
/// price, and a further identical write (at the same time) changes nothing.
pub proof fn lemma_reconcile_converges(rows: Seq<Product>, c: Candidate, now1: u64, now2: u64)
    requires
        rows.len() < u64::MAX,
    ensures
        ({
            let r1 = reconcile_rows(rows, c, now1);
            let r2 = reconcile_rows(r1, c, now2);
            &&& index_of_name(r2, c.name@) is Some
            &&& r2[index_of_name(r2, c.name@).unwrap()].avg_price == c.price
            &&& r2[index_of_name(r2, c.name@).unwrap()].previous_price == Some(c.price)
            &&& reconcile_rows(r2, c, now2) == r2
        }),
{
    let name = c.name@;
    lemma_index_of_name_from(rows, name, 0);
    let r1 = reconcile_rows(rows, c, now1);
    let i: int = match index_of_name(rows, name) {
        Some(i) => i,
        None => rows.len() as int,
    };
    // After the first write a row named `name` stands at `i`, with the
    // candidate's price, and every other row keeps its name.
    assert(0 <= i < r1.len() && r1[i].name@ == name && r1[i].avg_price == c.price);
    assert(forall|k: int| 0 <= k < r1.len() && k != i ==> #[trigger] r1[k].name@ == rows[k].name@);
    lemma_index_of_first_match(r1, name, 0, i);
    let r2 = reconcile_rows(r1, c, now2);
    assert(r2 == r1.update(i, updated_product(r1[i], c, now2)));
    assert(r2[i].avg_price == c.price && r2[i].previous_price == Some(c.price));
    assert(forall|k: int| 0 <= k < r2.len() && k != i ==> #[trigger] r2[k].name@ == rows[k].name@);
    lemma_index_of_first_match(r2, name, 0, i);
    assert(index_of_name(r2, name) == Some(i));
    assert(updated_product(r2[i], c, now2) == r2[i]);
    assert(r2.update(i, updated_product(r2[i], c, now2)) =~= r2);
}

/// The store contents after reconciling each candidate in turn, left to
/// right: one serialization of a batch of concurrent reconciliations.
pub open spec fn reconcile_all(rows: Seq<Product>, cs: Seq<Candidate>, now: u64) -> Seq<Product>
    decreases cs.len(),
{
    if cs.len() == 0 {
        rows
    } else {
        reconcile_rows(reconcile_all(rows, cs.drop_last(), now), cs.last(), now)
    }
}

/// Serializing any number of reconciliations for the same, previously
/// unseen name produces exactly one row with that name: the first write
/// fixes its identifier and position, the last write's price stands.
pub proof fn lemma_concurrent_reconcile_single_row(
    rows: Seq<Product>,
    cs: Seq<Candidate>,
    x: Seq<char>,
    now: u64,
)
    requires
        rows.len() < u64::MAX,
        index_of_name(rows, x) is None,
        cs.len() >= 1,
        forall|k: int| 0 <= k < cs.len() ==> #[trigger] cs[k].name@ == x,
    ensures
        ({
            let out = reconcile_all(rows, cs, now);
            &&& out.len() == rows.len() + 1
            &&& (forall|k: int|
                0 <= k < rows.len() ==> #[trigger] out[k].name@ == rows[k].name@)
            &&& out[rows.len() as int].name@ == x
            &&& out[rows.len() as int].id == rows.len()
            &&& out[rows.len() as int].avg_price == cs.last().price
            &&& (forall|k: int|
                0 <= k < out.len() && #[trigger] out[k].name@ == x ==> k == rows.len())
        }),
    decreases cs.len(),
{
    lemma_index_of_name_from(rows, x, 0);
    let pos = rows.len() as int;
    if cs.len() == 1 {
        assert(cs.drop_last().len() == 0);
        assert(reconcile_all(rows, cs.drop_last(), now) == rows);
        let c = cs.last();
        lemma_index_of_name_from(rows, c.name@, 0);
        let out = reconcile_rows(rows, c, now);
        assert(out == rows.push(new_product(c, now, rows.len() as u64)));
        assert(out[pos].id == rows.len());
    } else {
        lemma_concurrent_reconcile_single_row(rows, cs.drop_last(), x, now);
        let pre = reconcile_all(rows, cs.drop_last(), now);
        let c = cs.last();
        assert(forall|k: int| 0 <= k < pos ==> #[trigger] pre[k].name@ != x);
        lemma_index_of_first_match(pre, x, 0, pos);
        assert(index_of_name(pre, c.name@) == Some(pos));
        let out = reconcile_rows(pre, c, now);
        assert(out == pre.update(pos, updated_product(pre[pos], c, now)));
        assert(out[pos].id == pre[pos].id);
    }
}

/// The persistent store: one row per product name.
pub struct Store {
    products: Vec<Product>,
}

impl Store {
    /// The stored rows, in insertion order.
    pub closed spec fn rows(self) -> Seq<Product> {
        self.products@
    }

    /// Well-formedness: names unique, identifiers equal to positions.
    pub open spec fn wf(self) -> bool {
        unique_names(self.rows()) && sequential_ids(self.rows())
    }

    /// An empty store.
    pub fn new() -> (s: Store)
        ensures
            s.wf(),
            s.rows() == Seq::<Product>::empty(),
    {
        Store { products: Vec::new() }
    }

    /// How many products are stored.
    pub fn len(&self) -> (n: usize)
        ensures
            n == self.rows().len(),
    {
        self.products.len()
    }

    /// Read one row by position.
    pub fn row_at(&self, i: usize) -> (p: &Product)
        requires
            i < self.rows().len(),
        ensures
            *p == self.rows()[i as int],
    {
        &self.products[i]
    }

    /// Exact-name lookup: the row holding `name`, if any.
    pub fn find_product_by_name(&self, name: &String) -> (r: Option<&Product>)
        ensures
            match r {
                Some(p) => {
                    &&& index_of_name(self.rows(), name@) is Some
                    &&& *p == self.rows()[index_of_name(self.rows(), name@).unwrap()]
                },
                None => index_of_name(self.rows(), name@) is None && (forall|k: int|
                    0 <= k < self.rows().len() ==> self.rows()[k].name@ != name@),
            },
    {
        let ghost rows = self.rows();
        let n = self.products.len();
        let mut i: usize = 0;
        while i < n
            invariant
                rows == self.rows(),
                n == rows.len(),
                0 <= i <= n,
                index_of_name_from(rows, name@, 0) == index_of_name_from(rows, name@, i as int),
            decreases n - i,
        {
            if self.products[i].name == *name {
                return Some(&self.products[i]);
            }
            i = i + 1;
        }
        proof {
            lemma_index_of_name_from(rows, name@, 0);
        }
        None
    }

    /// Identifier lookup. With identifiers equal to positions, an identifier
    /// is stored exactly when it is below the row count.
    pub fn get_product(&self, id: u64) -> (r: Option<&Product>)
        requires
            self.wf(),
        ensures
            match r {
                Some(p) => id < self.rows().len() && *p == self.rows()[id as int],
                None => id >= self.rows().len(),
            },
    {
        let n = self.products.len();
        if id < n as u64 {
            let i = id as usize;
            Some(&self.products[i])
        } else {
            None
        }
    }

    /// Reconcile one candidate into the store: update the row holding the
    /// candidate's name, or insert a fresh row for an unseen name. Returns
    /// the affected row's identifier.
    pub fn reconcile(&mut self, c: Candidate, now: u64) -> (id: u64)
        requires
            old(self).wf(),
            old(self).rows().len() < u64::MAX,
        ensures
            final(self).wf(),
            final(self).rows() == reconcile_rows(old(self).rows(), c, now),
            id == reconcile_id(old(self).rows(), c, now),
    {
        let ghost rows = self.rows();
        let n = self.products.len();
        let mut i: usize = 0;
        while i < n
            invariant
                rows == old(self).rows(),
                rows == self.rows(),
                old(self).wf(),
                n == rows.len(),
                n < u64::MAX,
                0 <= i <= n,
                index_of_name_from(rows, c.name@, 0) == index_of_name_from(rows, c.name@, i as int),
            decreases n - i,
        {
            if self.products[i].name == c.name {
                proof {
                    assert(index_of_name_from(rows, c.name@, i as int) == Some(i as int));
                    lemma_reconcile_preserves_uniqueness(rows, c, now);
                    lemma_reconcile_preserves_ids(rows, c, now);
                }
                let prev = self.products[i].avg_price;
                let updated = Product {
                    id: self.products[i].id,
                    name: self.products[i].name.clone(),
                    category: self.products[i].category.clone(),
                    avg_price: c.price,
                    min_price: self.products[i].min_price,
                    max_price: self.products[i].max_price,
                    image_url: c.image_ref,
                    previous_price: Some(prev),
                    last_updated: now,
                };
                let id = updated.id;
                proof {
                    assert(updated == updated_product(rows[i as int], c, now));
                }
                self.products.set(i, updated);
                return id;
            }
            i = i + 1;
        }
        proof {
            lemma_reconcile_preserves_uniqueness(rows, c, now);
            lemma_reconcile_preserves_ids(rows, c, now);
        }
        let id: u64 = n as u64;
        let fresh = Product {
            id: id,
            name: c.name,
            category: c.category,
            avg_price: c.price,
            min_price: c.price,
            max_price: c.price,
            image_url: c.image_ref,
            previous_price: None,
            last_updated: now,
        };
        self.products.push(fresh);
        id
    }
}

} // verus!
