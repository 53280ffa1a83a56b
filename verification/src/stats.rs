//! The market statistics engine.
//!
//! For a queried product, the engine retains every stored product whose
//! name is textually similar to the queried name (the queried product
//! itself always qualifies) and aggregates their current prices: maximum,
//! minimum, mean, and how many were retained.
//!
//! Similarity is trigram overlap: each name is ASCII-lowercased and padded
//! (two spaces in front, one behind), its set of three-character windows is
//! taken, and two names are similar when the shared trigrams exceed three
//! tenths of the trigrams of either name combined (counted once each, by
//! inclusion-exclusion). The similarity function is a stand-in for a
//! product taxonomy and is deliberately separate from the aggregation.

use crate::store::{Product, Store};
use crate::text::{lower_chars, lower_spec};
use vstd::arithmetic::div_mod::{lemma_div_by_multiple, lemma_div_is_ordered};
use vstd::prelude::*;
use vstd::seq_lib::seq_to_set_is_finite;
use vstd::set_lib::lemma_len_intersect;

verus! {

/// Aggregated price statistics over the products similar to a query.
pub struct MarketStats {
    pub highest_price: u64,
    pub lowest_price: u64,
    pub average_price: u64,
    pub similar_count: u64,
}

/// A name, lowercased and padded for trigram extraction.
pub open spec fn padded(s: Seq<char>) -> Seq<char> {
    seq![' ', ' '] + lower_spec(s) + seq![' ']
}

/// All three-character windows of the padded name, in order.
pub open spec fn trigram_seq(s: Seq<char>) -> Seq<(char, char, char)> {
    let p = padded(s);
    Seq::new((p.len() - 2) as nat, |i: int| (p[i], p[i + 1], p[i + 2]))
}

/// The set of trigrams of a name.
pub open spec fn trigrams(s: Seq<char>) -> Set<(char, char, char)> {
    trigram_seq(s).to_set()
}

/// How many trigrams two names share.
pub open spec fn shared_trigrams(a: Seq<char>, b: Seq<char>) -> nat {
    trigrams(a).intersect(trigrams(b)).len()
}

/// Two names are similar when their trigram-overlap score exceeds 0.3:
/// shared over combined-distinct (inclusion-exclusion), cleared of the
/// division.
pub open spec fn similar_names(a: Seq<char>, b: Seq<char>) -> bool {
    10 * shared_trigrams(a, b) > 3 * (trigrams(a).len() + trigrams(b).len() - shared_trigrams(
        a,
        b,
    ))
}

/// Every name has at least one trigram, so every name is similar to itself.
pub proof fn lemma_similar_refl(s: Seq<char>)
    ensures
        similar_names(s, s),
{
    let a = trigrams(s);
    assert(a.intersect(a) =~= a);
    assert(trigram_seq(s).len() == s.len() + 1);
    trigram_seq(s).lemma_cardinality_of_empty_set_is_0();
    assert(a.len() >= 1);
}

/// Find one trigram triple in a list.
fn contains_tri(v: &Vec<(char, char, char)>, t: (char, char, char)) -> (r: bool)
    ensures
        r == v@.contains(t),
{
    let n = v.len();
    let mut i: usize = 0;
    while i < n
        invariant
            n == v@.len(),
            0 <= i <= n,
            forall|k: int| 0 <= k < i ==> v@[k] != t,
        decreases n - i,
    {
        let c = v[i];
        if c.0 == t.0 && c.1 == t.1 && c.2 == t.2 {
            proof {
                assert(v@[i as int] == t);
            }
            return true;
        }
        i = i + 1;
    }
    false
}

/// The trigram windows of a name, in order, duplicates included.
fn trigram_vec(s: &str) -> (tv: Vec<(char, char, char)>)
    ensures
        tv@ == trigram_seq(s@),
{
    let low = lower_chars(s);
    let mut p: Vec<char> = Vec::new();
    p.push(' ');
    p.push(' ');
    let mut i: usize = 0;
    while i < low.len()
        invariant
            low@ == lower_spec(s@),
            0 <= i <= low@.len(),
            p@ == seq![' ', ' '] + low@.take(i as int),
        decreases low@.len() - i,
    {
        let c = low[i];
        proof {
            assert(p@.push(c) =~= seq![' ', ' '] + low@.take(i + 1));
        }
        p.push(c);
        i = i + 1;
    }
    proof {
        assert(low@.take(low@.len() as int) =~= low@);
    }
    p.push(' ');
    proof {
        assert(p@ =~= padded(s@));
    }
    let m = p.len();
    let mut tv: Vec<(char, char, char)> = Vec::new();
    let mut j: usize = 0;
    while j < m - 2
        invariant
            p@ == padded(s@),
            m == p@.len(),
            m >= 3,
            0 <= j <= m - 2,
            tv@ == trigram_seq(s@).take(j as int),
        decreases m - j,
    {
        let t = (p[j], p[j + 1], p[j + 2]);
        proof {
            assert(trigram_seq(s@)[j as int] == t);
            assert(trigram_seq(s@).take(j + 1) =~= trigram_seq(s@).take(j as int).push(t));
        }
        tv.push(t);
        j = j + 1;
    }
    proof {
        assert(trigram_seq(s@).take((m - 2) as int) =~= trigram_seq(s@));
    }
    tv
}

/// The distinct trigrams of a list, each once, in first-occurrence order.
fn dedup_tris(v: &Vec<(char, char, char)>) -> (d: Vec<(char, char, char)>)
    ensures
        d@.no_duplicates(),
        d@.to_set() == v@.to_set(),
{
    let n = v.len();
    let mut d: Vec<(char, char, char)> = Vec::new();
    proof {
        assert(v@.take(0) =~= Seq::<(char, char, char)>::empty());
        assert(d@.to_set() =~= v@.take(0).to_set());
    }
    let mut i: usize = 0;
    while i < n
        invariant
            n == v@.len(),
            0 <= i <= n,
            d@.no_duplicates(),
            d@.to_set() == v@.take(i as int).to_set(),
        decreases n - i,
    {
        let t = v[i];
        let seen = contains_tri(&d, t);
        proof {
            assert(v@.take(i + 1) =~= v@.take(i as int).push(t));
            v@.take(i as int).lemma_push_to_set_commute(t);
            assert(v@.take(i + 1).to_set() =~= v@.take(i as int).to_set().insert(t));
        }
        if !seen {
            proof {
                d@.lemma_push_to_set_commute(t);
                assert(d@.push(t).to_set() =~= d@.to_set().insert(t));
                assert(forall|k: int| 0 <= k < d@.len() ==> d@[k] != t);
            }
            d.push(t);
        } else {
            proof {
                assert(d@.to_set().contains(t));
                assert(d@.to_set().insert(t) =~= d@.to_set());
            }
        }
        i = i + 1;
    }
    proof {
        assert(v@.take(n as int) =~= v@);
    }
    d
}

/// How many elements of duplicate-free `da` also stand in `db`: the size of
/// the intersection of the two underlying sets.
fn inter_count(da: &Vec<(char, char, char)>, db: &Vec<(char, char, char)>) -> (n: usize)
    requires
        da@.no_duplicates(),
    ensures
        n == da@.to_set().intersect(db@.to_set()).len(),
{
    broadcast use seq_to_set_is_finite;

    let m = da.len();
    let mut cnt: usize = 0;
    proof {
        assert(da@.take(0) =~= Seq::<(char, char, char)>::empty());
        assert(da@.take(0).to_set() =~= Set::<(char, char, char)>::empty());
        assert(da@.take(0).to_set().intersect(db@.to_set()) =~= Set::<(char, char, char)>::empty());
    }
    let mut i: usize = 0;
    while i < m
        invariant
            da@.no_duplicates(),
            m == da@.len(),
            0 <= i <= m,
            cnt <= i,
            cnt == da@.take(i as int).to_set().intersect(db@.to_set()).len(),
        decreases m - i,
    {
        let t = da[i];
        let ghost pre = da@.take(i as int).to_set().intersect(db@.to_set());
        proof {
            assert(da@.take(i + 1) =~= da@.take(i as int).push(t));
            da@.take(i as int).lemma_push_to_set_commute(t);
            assert(da@.take(i + 1).to_set() =~= da@.take(i as int).to_set().insert(t));
            assert(forall|k: int| 0 <= k < i ==> da@[k] != t);
            assert(!da@.take(i as int).contains(t));
            assert(!da@.take(i as int).to_set().contains(t));
        }
        if contains_tri(db, t) {
            proof {
                assert(db@.to_set().contains(t));
                assert(da@.take(i + 1).to_set().intersect(db@.to_set()) =~= pre.insert(t));
                assert(!pre.contains(t));
            }
            cnt = cnt + 1;
        } else {
            proof {
                assert(!db@.to_set().contains(t));
                assert(da@.take(i + 1).to_set().intersect(db@.to_set()) =~= pre);
            }
        }
        i = i + 1;
    }
    proof {
        assert(da@.take(m as int) =~= da@);
    }
    cnt
}

/// Decide similarity of two names.
pub fn similar(a: &str, b: &str) -> (r: bool)
    ensures
        r == similar_names(a@, b@),
{
    broadcast use seq_to_set_is_finite;

    let ta = trigram_vec(a);
    let tb = trigram_vec(b);
    let da = dedup_tris(&ta);
    let db = dedup_tris(&tb);
    proof {
        da@.unique_seq_to_set();
        db@.unique_seq_to_set();
        lemma_len_intersect(trigrams(a@), trigrams(b@));
        assert(trigrams(a@).intersect(trigrams(b@)) =~= trigrams(b@).intersect(trigrams(a@)));
        lemma_len_intersect(trigrams(b@), trigrams(a@));
    }
    let la = da.len();
    let lb = db.len();
    let shared = inter_count(&da, &db);
    let shared_w = shared as u128;
    let combined = la as u128 + lb as u128 - shared_w;
    10 * shared_w > 3 * combined
}

/// The stored products whose names are similar to the target name.
pub open spec fn retained(rows: Seq<Product>, target: Seq<char>) -> Seq<Product>
    decreases rows.len(),
{
    if rows.len() == 0 {
        Seq::empty()
    } else {
        retained(rows.drop_last(), target) + (if similar_names(rows.last().name@, target) {
            seq![rows.last()]
        } else {
            Seq::empty()
        })
    }
}

/// Sum of the current prices of a row sequence.
pub open spec fn sum_prices(s: Seq<Product>) -> nat
    decreases s.len(),
{
    if s.len() == 0 {
        0
    } else {
        sum_prices(s.drop_last()) + s.last().avg_price as nat
    }
}

/// Maximum current price of a row sequence; zero for no rows.
pub open spec fn max_price_of(s: Seq<Product>) -> nat
    decreases s.len(),
{
    if s.len() == 0 {
        0
    } else {
        let m = max_price_of(s.drop_last());
        if s.last().avg_price > m {
            s.last().avg_price as nat
        } else {
            m
        }
    }
}

/// Minimum current price of a row sequence; zero for no rows.
pub open spec fn min_price_of(s: Seq<Product>) -> nat
    decreases s.len(),
{
    if s.len() == 0 {
        0
    } else if s.len() == 1 {
        s[0].avg_price as nat
    } else {
        let m = min_price_of(s.drop_last());
        if (s.last().avg_price as nat) < m {
            s.last().avg_price as nat
        } else {
            m
        }
    }
}

/// The statistics for a target name over the stored rows: aggregates over
/// the retained (similar) rows, zero where nothing is retained.
pub open spec fn stats_spec(rows: Seq<Product>, target: Seq<char>) -> MarketStats {
    let r = retained(rows, target);
    MarketStats {
        highest_price: max_price_of(r) as u64,
        lowest_price: min_price_of(r) as u64,
        average_price: (if r.len() == 0 {
            0nat
        } else {
            sum_prices(r) / r.len()
        }) as u64,
        similar_count: r.len() as u64,
    }
}

/// The aggregates stay within the price type, and the sum within the count
/// times the largest price.
proof fn lemma_aggregate_bounds(s: Seq<Product>)
    ensures
        max_price_of(s) <= u64::MAX,
        min_price_of(s) <= u64::MAX,
        sum_prices(s) <= s.len() * u64::MAX,
    decreases s.len(),
{
    if s.len() > 0 {
        lemma_aggregate_bounds(s.drop_last());
        assert(s.len() * u64::MAX == (s.len() - 1) * u64::MAX + u64::MAX) by (nonlinear_arith);
    }
}

/// Retention keeps no more rows than there are.
proof fn lemma_retained_len(rows: Seq<Product>, target: Seq<char>)
    ensures
        retained(rows, target).len() <= rows.len(),
    decreases rows.len(),
{
    if rows.len() > 0 {
        lemma_retained_len(rows.drop_last(), target);
    }
}

impl Store {
    /// The market statistics for the product with the given identifier:
    /// aggregates over every stored product whose name is similar to its
    /// name. An unknown identifier is reported as not found.
    pub fn market_stats(&self, id: u64) -> (r: Option<MarketStats>)
        requires
            self.wf(),
            self.rows().len() < u64::MAX,
        ensures
            match r {
                Some(st) => id < self.rows().len() && st == stats_spec(
                    self.rows(),
                    self.rows()[id as int].name@,
                ),
                None => id >= self.rows().len(),
            },
    {
        let target = match self.get_product(id) {
            None => {
                return None;
            },
            Some(p) => p,
        };
        let ghost tname = target.name@;
        let n = self.len();
        let mut count: u64 = 0;
        let mut sum: u128 = 0;
        let mut hi: u64 = 0;
        let mut lo: u64 = 0;
        let mut k: usize = 0;
        while k < n
            invariant
                self.wf(),
                n == self.rows().len(),
                n < u64::MAX,
                id < n,
                tname == target.name@,
                0 <= k <= n,
                count <= k,
                count == retained(self.rows().take(k as int), tname).len(),
                sum == sum_prices(retained(self.rows().take(k as int), tname)),
                sum <= count * (u64::MAX as u128),
                hi == max_price_of(retained(self.rows().take(k as int), tname)),
                lo == min_price_of(retained(self.rows().take(k as int), tname)),
            decreases n - k,
        {
            let p = self.row_at(k);
            let ghost pre = retained(self.rows().take(k as int), tname);
            proof {
                assert(self.rows().take(k + 1).drop_last() =~= self.rows().take(k as int));
                assert(self.rows().take(k + 1).last() == self.rows()[k as int]);
            }
            let is_sim = similar(p.name.as_str(), target.name.as_str());
            if is_sim {
                proof {
                    let post = retained(self.rows().take(k + 1), tname);
                    assert(post =~= pre.push(self.rows()[k as int]));
                    assert(post.drop_last() =~= pre);
                    assert(post.last() == self.rows()[k as int]);
                    assert((count + 1) * (u64::MAX as u128) == count * (u64::MAX as u128) + (
                    u64::MAX as u128)) by (nonlinear_arith);
                    assert(count * (u64::MAX as u128) <= (u64::MAX as u128) * (u64::MAX as u128))
                        by (nonlinear_arith)
                        requires
                            count <= u64::MAX,
                    ;
                }
                if count == 0 {
                    lo = p.avg_price;
                } else if p.avg_price < lo {
                    lo = p.avg_price;
                }
                if p.avg_price > hi {
                    hi = p.avg_price;
                }
                count = count + 1;
                sum = sum + (p.avg_price as u128);
            } else {
                proof {
                    assert(retained(self.rows().take(k + 1), tname) =~= pre);
                }
            }
            k = k + 1;
        }
        proof {
            assert(self.rows().take(n as int) =~= self.rows());
            lemma_aggregate_bounds(retained(self.rows(), tname));
            lemma_retained_len(self.rows(), tname);
        }
        let average: u64 = if count == 0 {
            0
        } else {
            proof {
                let r = retained(self.rows(), tname);
                assert(sum <= count * (u64::MAX as u128));
                lemma_div_is_ordered(sum as int, count as int * u64::MAX as int, count as int);
                lemma_div_by_multiple(u64::MAX as int, count as int);
                assert((count as int * u64::MAX as int) / (count as int) == u64::MAX as int);
            }
            (sum / (count as u128)) as u64
        };
        Some(
            MarketStats {
                highest_price: hi,
                lowest_price: lo,
                average_price: average,
                similar_count: count,
            },
        )
    }
}

/// No retained rows among rows that are all dissimilar to the target.
proof fn lemma_retained_none(rows: Seq<Product>, target: Seq<char>)
    requires
        forall|k: int| 0 <= k < rows.len() ==> !similar_names(rows[k].name@, target),
    ensures
        retained(rows, target) == Seq::<Product>::empty(),
    decreases rows.len(),
{
    if rows.len() > 0 {
        lemma_retained_none(rows.drop_last(), target);
        assert(retained(rows, target) =~= Seq::<Product>::empty());
    }
}

/// Exactly one row similar to the target: it alone is retained.
proof fn lemma_retained_singleton(rows: Seq<Product>, target: Seq<char>, i: int)
    requires
        0 <= i < rows.len(),
        similar_names(rows[i].name@, target),
        forall|k: int| 0 <= k < rows.len() && k != i ==> !similar_names(rows[k].name@, target),
    ensures
        retained(rows, target) == seq![rows[i]],
    decreases rows.len(),
{
    if i == rows.len() - 1 {
        lemma_retained_none(rows.drop_last(), target);
        assert(retained(rows, target) =~= seq![rows[i]]);
    } else {
        lemma_retained_singleton(rows.drop_last(), target, i);
        assert(retained(rows, target) =~= seq![rows[i]]);
    }
}

/// A product with no textual neighbors other than itself: its statistics
/// count exactly one product, and highest, lowest and average all equal its
/// own current price.
pub proof fn lemma_stats_lone_product(rows: Seq<Product>, i: int)
    requires
        0 <= i < rows.len(),
        forall|k: int|
            0 <= k < rows.len() && k != i ==> !similar_names(rows[k].name@, rows[i].name@),
    ensures
        stats_spec(rows, rows[i].name@).similar_count == 1,
        stats_spec(rows, rows[i].name@).highest_price == rows[i].avg_price,
        stats_spec(rows, rows[i].name@).lowest_price == rows[i].avg_price,
        stats_spec(rows, rows[i].name@).average_price == rows[i].avg_price,
{
    lemma_similar_refl(rows[i].name@);
    lemma_retained_singleton(rows, rows[i].name@, i);
    let r = retained(rows, rows[i].name@);
    assert(r.drop_last() =~= Seq::<Product>::empty());
    assert(r.last() == rows[i]);
    assert(sum_prices(Seq::<Product>::empty()) == 0);
    assert(max_price_of(Seq::<Product>::empty()) == 0);
    assert(sum_prices(r) == sum_prices(r.drop_last()) + r.last().avg_price as nat);
    assert(sum_prices(r) == rows[i].avg_price);
    assert(max_price_of(r) == rows[i].avg_price);
    assert(min_price_of(r) == rows[i].avg_price);
    assert(sum_prices(r) / r.len() == rows[i].avg_price as nat / 1);
    assert(rows[i].avg_price as nat / 1 == rows[i].avg_price);
}

} // verus!
