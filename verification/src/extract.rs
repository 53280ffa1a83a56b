//! The listing extractor: one fetched page of a fixed, known layout is
//! parsed into structured candidate records.
//!
//! The page is a repetition of product cards, each opened by the card
//! marker. Within a card, the name fragment is the text between the name
//! markers, the price fragment the text between the price markers, and the
//! image reference comes from the first image tag, where a lazy-load
//! attribute takes precedence over the standard source attribute. A card
//! missing its name or price fragment (or holding an empty one) is silently
//! dropped: such a record is not actionable.

use crate::markup::{between, between_spec, find_from, find_sub, lemma_find_from};
use vstd::prelude::*;

verus! {

/// A not-yet-persisted record extracted from one listing card.
pub struct RawCandidate {
    pub name: String,
    pub raw_price: String,
    pub image_ref: Option<String>,
}

/// The mathematical content of a `RawCandidate`.
pub struct RawCandidateView {
    pub name: Seq<char>,
    pub raw_price: Seq<char>,
    pub image_ref: Option<Seq<char>>,
}

impl View for RawCandidate {
    type V = RawCandidateView;

    open spec fn view(&self) -> RawCandidateView {
        RawCandidateView {
            name: self.name@,
            raw_price: self.raw_price@,
            image_ref: match self.image_ref {
                Some(s) => Some(s@),
                None => None,
            },
        }
    }
}

/// Opens each product card container.
pub open spec fn card_marker() -> Seq<char> {
    "<article class=\"prd\""@
}

pub open spec fn name_open() -> Seq<char> {
    "<h3 class=\"name\">"@
}

pub open spec fn name_close() -> Seq<char> {
    "</h3>"@
}

pub open spec fn price_open() -> Seq<char> {
    "<div class=\"prc\">"@
}

pub open spec fn price_close() -> Seq<char> {
    "</div>"@
}

/// Opens the image tag of a card.
pub open spec fn img_marker() -> Seq<char> {
    "<img class=\"img\""@
}

pub open spec fn tag_end() -> Seq<char> {
    ">"@
}

/// The lazy-load image attribute, preferred.
pub open spec fn lazy_attr() -> Seq<char> {
    " data-src=\""@
}

/// The standard image attribute, the fallback.
pub open spec fn src_attr() -> Seq<char> {
    " src=\""@
}

pub open spec fn quote_mark() -> Seq<char> {
    "\""@
}

/// The image tag of a card: from the first image marker to the next tag
/// close, or to the end of the card where the tag is unclosed.
pub open spec fn image_tag(card: Seq<char>) -> Option<Seq<char>> {
    match find_from(card, img_marker(), 0) {
        None => None,
        Some(i) => {
            let limit = match find_from(card, tag_end(), i) {
                Some(e) => e,
                None => card.len() as int,
            };
            Some(card.subrange(i, limit))
        },
    }
}

/// The image reference of a card: the lazy-load attribute's value where
/// present, else the standard attribute's value, else absent.
pub open spec fn image_of(card: Seq<char>) -> Option<Seq<char>> {
    match image_tag(card) {
        None => None,
        Some(tag) => match between_spec(tag, lazy_attr(), quote_mark()) {
            Some(v) => Some(v),
            None => between_spec(tag, src_attr(), quote_mark()),
        },
    }
}

/// The candidate of one card, if the card carries both a non-empty name
/// fragment and a non-empty price fragment.
pub open spec fn parse_card_spec(card: Seq<char>) -> Option<RawCandidateView> {
    match between_spec(card, name_open(), name_close()) {
        None => None,
        Some(n) => match between_spec(card, price_open(), price_close()) {
            None => None,
            Some(p) => if n.len() > 0 && p.len() > 0 {
                Some(RawCandidateView { name: n, raw_price: p, image_ref: image_of(card) })
            } else {
                None
            },
        },
    }
}

/// Zero or one candidates, as a sequence.
pub open spec fn opt_seq(o: Option<RawCandidateView>) -> Seq<RawCandidateView> {
    match o {
        Some(c) => seq![c],
        None => Seq::empty(),
    }
}

/// The candidates of the cards from the card-marker position `start` on.
/// Each card runs to the next card marker, or to the end of the page.
pub open spec fn extract_cards(page: Seq<char>, start: int) -> Seq<RawCandidateView>
    decreases page.len() - start,
{
    match find_from(page, card_marker(), start + card_marker().len()) {
        None => opt_seq(parse_card_spec(page.subrange(start, page.len() as int))),
        Some(j) => if start < j <= page.len() {
            opt_seq(parse_card_spec(page.subrange(start, j))) + extract_cards(page, j)
        } else {
            Seq::empty()
        },
    }
}

/// The candidates of a whole page: everything before the first card marker
/// is ignored; a page without a card marker has no candidates.
pub open spec fn extract_spec(page: Seq<char>) -> Seq<RawCandidateView> {
    match find_from(page, card_marker(), 0) {
        None => Seq::empty(),
        Some(i) => extract_cards(page, i),
    }
}

/// The views of a sequence of extracted candidates.
pub open spec fn views_of(s: Seq<RawCandidate>) -> Seq<RawCandidateView> {
    s.map_values(|c: RawCandidate| c@)
}

pub open spec fn opt_candidate_view(r: Option<RawCandidate>) -> Option<RawCandidateView> {
    match r {
        Some(c) => Some(c@),
        None => None,
    }
}

pub open spec fn opt_str_view(r: Option<String>) -> Option<Seq<char>> {
    match r {
        Some(s) => Some(s@),
        None => None,
    }
}

/// A card whose price fragment is missing yields no candidate.
pub proof fn lemma_missing_price_no_candidate(card: Seq<char>)
    requires
        between_spec(card, price_open(), price_close()) is None,
    ensures
        parse_card_spec(card) is None,
{
}

/// Where a card's image tag carries the lazy-load attribute, that value is
/// the image reference, whatever the standard attribute holds.
pub proof fn lemma_lazy_load_preferred(card: Seq<char>, tag: Seq<char>, v: Seq<char>)
    requires
        image_tag(card) == Some(tag),
        between_spec(tag, lazy_attr(), quote_mark()) == Some(v),
    ensures
        image_of(card) == Some(v),
{
}

/// Each card covers at least the card marker, so the candidates from a
/// marker position on are fewer than the characters that remain.
proof fn lemma_extract_cards_len(page: Seq<char>, start: int)
    requires
        0 <= start,
        start + card_marker().len() <= page.len(),
        card_marker().len() >= 1,
    ensures
        extract_cards(page, start).len() <= page.len() - start,
    decreases page.len() - start,
{
    match find_from(page, card_marker(), start + card_marker().len()) {
        None => {},
        Some(j) => {
            lemma_find_from(page, card_marker(), start + card_marker().len());
            lemma_extract_cards_len(page, j);
        },
    }
}

/// A page never yields more candidates than it has characters.
pub proof fn lemma_extract_spec_len(page: Seq<char>)
    ensures
        extract_spec(page).len() <= page.len(),
{
    reveal_strlit("<article class=\"prd\"");
    match find_from(page, card_marker(), 0) {
        None => {},
        Some(i) => {
            lemma_find_from(page, card_marker(), 0);
            lemma_extract_cards_len(page, i);
        },
    }
}

/// The image reference of one card.
fn extract_image(card: &str) -> (r: Option<String>)
    ensures
        opt_str_view(r) == image_of(card@),
{
    let n = card.unicode_len();
    match find_sub(card, "<img class=\"img\"", 0) {
        None => None,
        Some(i) => {
            let next_close = find_sub(card, ">", i);
            proof {
                lemma_find_from(card@, ">"@, i as int);
            }
            let limit = match next_close {
                Some(e) => e,
                None => n,
            };
            let tag = card.substring_char(i, limit);
            match between(tag, " data-src=\"", "\"") {
                Some(v) => Some(String::from_str(v)),
                None => match between(tag, " src=\"", "\"") {
                    Some(v) => Some(String::from_str(v)),
                    None => None,
                },
            }
        },
    }
}

/// The candidate of one card, if any.
fn parse_card(card: &str) -> (r: Option<RawCandidate>)
    ensures
        opt_candidate_view(r) == parse_card_spec(card@),
{
    let name = between(card, "<h3 class=\"name\">", "</h3>");
    let price = between(card, "<div class=\"prc\">", "</div>");
    match name {
        None => None,
        Some(n) => match price {
            None => None,
            Some(p) => {
                if n.unicode_len() > 0 && p.unicode_len() > 0 {
                    let image_ref = extract_image(card);
                    Some(
                        RawCandidate {
                            name: String::from_str(n),
                            raw_price: String::from_str(p),
                            image_ref,
                        },
                    )
                } else {
                    None
                }
            },
        },
    }
}

/// Parse one fetched page into candidate records, one pass, in page order.
pub fn extract(page: &str) -> (out: Vec<RawCandidate>)
    ensures
        views_of(out@) == extract_spec(page@),
{
    let mut out: Vec<RawCandidate> = Vec::new();
    let n = page.unicode_len();
    let mlen = "<article class=\"prd\"".unicode_len();
    let first = find_sub(page, "<article class=\"prd\"", 0);
    proof {
        lemma_find_from(page@, card_marker(), 0);
    }
    if first.is_none() {
        proof {
            assert(views_of(out@) =~= extract_spec(page@));
        }
        return out;
    }
    let mut start: usize = first.unwrap();
    let mut running = true;
    while running
        invariant
            n == page@.len(),
            mlen == card_marker().len(),
            running ==> start + mlen <= n,
            running ==> views_of(out@) + extract_cards(page@, start as int) == extract_spec(
                page@,
            ),
            !running ==> views_of(out@) == extract_spec(page@),
        decreases n - start, (if running {
            1int
        } else {
            0int
        }),
    {
        let next = find_sub(page, "<article class=\"prd\"", start + mlen);
        proof {
            lemma_find_from(page@, card_marker(), start + mlen);
        }
        let end = match next {
            Some(j) => j,
            None => n,
        };
        let card = page.substring_char(start, end);
        let parsed = parse_card(card);
        let ghost prev_views = views_of(out@);
        match parsed {
            Some(c) => {
                proof {
                    assert(views_of(out@.push(c)) =~= views_of(out@) + opt_seq(Some(c@)));
                }
                out.push(c);
            },
            None => {
                proof {
                    assert(views_of(out@) =~= prev_views + opt_seq(parse_card_spec(card@)));
                }
            },
        }
        proof {
            assert(views_of(out@) == prev_views + opt_seq(parse_card_spec(card@)));
            match next {
                Some(j) => {
                    assert(extract_cards(page@, start as int) == opt_seq(
                        parse_card_spec(page@.subrange(start as int, j as int)),
                    ) + extract_cards(page@, j as int));
                    assert(views_of(out@) + extract_cards(page@, j as int) =~= prev_views
                        + extract_cards(page@, start as int));
                },
                None => {
                    assert(extract_cards(page@, start as int) == opt_seq(
                        parse_card_spec(page@.subrange(start as int, n as int)),
                    ));
                    assert(views_of(out@) =~= prev_views + extract_cards(page@, start as int));
                },
            }
        }
        match next {
            Some(j) => {
                start = j;
            },
            None => {
                running = false;
            },
        }
    }
    out
}

} // verus!
