//! The potential hands of a set of cards, and the best of them.
use vstd::prelude::*;
use crate::cards::{Card, CardSuit, CardValue};
use crate::showdown::{unique_cards, card_sets, copy_cards, lemma_push_contains, straight_sets, Hand, HandModel, PotentialHand, PotentialModel, ShowdownEngine, StraightDrawType, scan_suit};
use core::cmp::Ordering;

verus! {

/// Whether every card of `small` is in `big`.
pub open spec fn covers(big: Seq<Card>, small: Seq<Card>) -> bool
    decreases small.len(),
{
    small.len() == 0 || (covers(big, small.drop_last()) && big.contains(small.last()))
}

/// Whether `a` and `b` hold the same cards.
pub open spec fn same_cards(a: Seq<Card>, b: Seq<Card>) -> bool {
    covers(a, b) && covers(b, a)
}

/// The cards of `a` and then those of `b` not already there.
pub open spec fn card_union(a: Seq<Card>, b: Seq<Card>) -> Seq<Card> {
    unique_cards(a + b)
}

/// Whether some straight flush of `sf` holds every card of `x`.
pub open spec fn under_straight_flush(sf: Seq<(Seq<Card>, StraightDrawType)>, x: Seq<Card>) -> bool
    decreases sf.len(),
{
    sf.len() > 0 && (under_straight_flush(sf.drop_last(), x) || covers(sf.last().0, x))
}

/// Whether every card of `x` has suit `u`.
pub open spec fn all_of_suit(x: Seq<Card>, u: crate::cards::CardSuit) -> bool
    decreases x.len(),
{
    x.len() == 0 || (all_of_suit(x.drop_last(), u) && x.last().suit == u)
}

/// Whether the cards of `x` share one suit.
pub open spec fn one_suit(x: Seq<Card>) -> bool {
    x.len() > 0 && all_of_suit(x, x[0].suit)
}

/// The straights and straight draws whose cards are all of one suit.
pub open spec fn straight_flush_sets(st: Seq<(Seq<Card>, StraightDrawType)>) -> Seq<
    (Seq<Card>, StraightDrawType),
>
    decreases st.len(),
{
    if st.len() == 0 {
        st
    } else {
        let r = straight_flush_sets(st.drop_last());
        if one_suit(st.last().0) {
            r.push(st.last())
        } else {
            r
        }
    }
}

/// The straights not inside a straight flush.
pub open spec fn straights_left(
    st: Seq<(Seq<Card>, StraightDrawType)>,
    sf: Seq<(Seq<Card>, StraightDrawType)>,
) -> Seq<(Seq<Card>, StraightDrawType)>
    decreases st.len(),
{
    if st.len() == 0 {
        st
    } else {
        let r = straights_left(st.drop_last(), sf);
        if under_straight_flush(sf, st.last().0) {
            r
        } else {
            r.push(st.last())
        }
    }
}

/// The flushes not inside a straight flush.
pub open spec fn flushes_left(fl: Seq<Seq<Card>>, sf: Seq<(Seq<Card>, StraightDrawType)>) -> Seq<
    Seq<Card>,
>
    decreases fl.len(),
{
    if fl.len() == 0 {
        fl
    } else {
        let r = flushes_left(fl.drop_last(), sf);
        if under_straight_flush(sf, fl.last()) {
            r
        } else {
            r.push(fl.last())
        }
    }
}

/// The straights of `n` cards.
pub open spec fn of_size(st: Seq<(Seq<Card>, StraightDrawType)>, n: int) -> Seq<
    (Seq<Card>, StraightDrawType),
>
    decreases st.len(),
{
    if st.len() == 0 {
        st
    } else {
        let r = of_size(st.drop_last(), n);
        if st.last().0.len() == n {
            r.push(st.last())
        } else {
            r
        }
    }
}

/// Straights ordered by size, the largest first (they hold five, four or three cards).
pub open spec fn by_size(st: Seq<(Seq<Card>, StraightDrawType)>) -> Seq<(Seq<Card>, StraightDrawType)> {
    of_size(st, 5) + of_size(st, 4) + of_size(st, 3)
}

/// Whether a card of `p` has value `v`.
pub open spec fn has_value(p: Seq<Card>, v: CardValue) -> bool {
    exists|i: int| 0 <= i < p.len() && p[i].value == v
}

/// What each three of a kind makes with the pairs `p0` and `p1`: a full house
/// with each pair of another value, or else the three of a kind alone.
pub open spec fn triple_hands(tk: Seq<Seq<Card>>, p0: Seq<Card>, p1: Seq<Card>) -> Seq<HandModel>
    decreases tk.len(),
{
    if tk.len() == 0 {
        Seq::empty()
    } else {
        let t = tk.last();
        let v = t[0].value;
        let fh0 = if has_value(p0, v) {
            Seq::empty()
        } else {
            seq![HandModel::FullHouse(card_union(t, p0))]
        };
        let fh1 = if has_value(p1, v) {
            Seq::empty()
        } else {
            seq![HandModel::FullHouse(card_union(t, p1))]
        };
        triple_hands(tk.drop_last(), p0, p1) + if fh0.len() + fh1.len() > 0 {
            fh0 + fh1
        } else {
            seq![HandModel::ThreeOfAKind(t)]
        }
    }
}

/// The hands that the pairs `p0` and `p1`, taken together, take part in.
pub open spec fn pair_hands(
    p0: Seq<Card>,
    p1: Seq<Card>,
    tk: Seq<Seq<Card>>,
    fk: Seq<Seq<Card>>,
) -> Seq<HandModel> {
    fk.map_values(|k: Seq<Card>| HandModel::FourOfAKind(k)) + triple_hands(tk, p0, p1) + seq![
        HandModel::TwoPair(card_union(p0, p1)),
        HandModel::Pair(p0),
        HandModel::Pair(p1),
    ]
}

/// The hands of each two neighbouring pairs among the first `n` pairs.
pub open spec fn pair_hands_upto(
    pairs: Seq<Seq<Card>>,
    tk: Seq<Seq<Card>>,
    fk: Seq<Seq<Card>>,
    n: int,
) -> Seq<HandModel>
    decreases n,
{
    if n <= 1 {
        Seq::empty()
    } else {
        pair_hands_upto(pairs, tk, fk, n - 1) + pair_hands(pairs[n - 2], pairs[n - 1], tk, fk)
    }
}

/// The made hands other than straights and flushes.
pub open spec fn grouped_hands(pairs: Seq<Seq<Card>>, tk: Seq<Seq<Card>>, fk: Seq<Seq<Card>>) -> Seq<
    HandModel,
> {
    if pairs.len() == 0 {
        Seq::empty()
    } else if pairs.len() == 1 {
        seq![HandModel::Pair(pairs[0])]
    } else {
        pair_hands_upto(pairs, tk, fk, pairs.len() as int)
    }
}

/// The four of a kind and full houses of `hs`, as potential hands.
pub open spec fn strong_hands(hs: Seq<HandModel>) -> Seq<PotentialModel>
    decreases hs.len(),
{
    if hs.len() == 0 {
        Seq::empty()
    } else {
        let r = strong_hands(hs.drop_last());
        match hs.last() {
            HandModel::FourOfAKind(_) | HandModel::FullHouse(_) => r.push(
                PotentialModel::Hand(hs.last()),
            ),
            _ => r,
        }
    }
}

pub open spec fn all_as_potential(hs: Seq<HandModel>) -> Seq<PotentialModel> {
    hs.map_values(|h: HandModel| PotentialModel::Hand(h))
}

/// Flushes of five cards.
pub open spec fn flush_hands(fl: Seq<Seq<Card>>) -> Seq<PotentialModel>
    decreases fl.len(),
{
    if fl.len() == 0 {
        Seq::empty()
    } else {
        let r = flush_hands(fl.drop_last());
        if fl.last().len() == 5 {
            r.push(PotentialModel::Hand(HandModel::Flush(fl.last())))
        } else {
            r
        }
    }
}

/// Flush candidates of four cards, as draws.
pub open spec fn flush_draws(fl: Seq<Seq<Card>>) -> Seq<PotentialModel>
    decreases fl.len(),
{
    if fl.len() == 0 {
        Seq::empty()
    } else {
        let r = flush_draws(fl.drop_last());
        if fl.last().len() == 4 {
            r.push(PotentialModel::FlushDraw(fl.last()))
        } else {
            r
        }
    }
}

/// Complete straights.
pub open spec fn straight_hands(st: Seq<(Seq<Card>, StraightDrawType)>) -> Seq<PotentialModel>
    decreases st.len(),
{
    if st.len() == 0 {
        Seq::empty()
    } else {
        let r = straight_hands(st.drop_last());
        if st.last().1 == StraightDrawType::Complete {
            r.push(PotentialModel::Hand(HandModel::Straight(st.last().0)))
        } else {
            r
        }
    }
}

/// Straight draws.
pub open spec fn straight_draws(st: Seq<(Seq<Card>, StraightDrawType)>) -> Seq<PotentialModel>
    decreases st.len(),
{
    if st.len() == 0 {
        Seq::empty()
    } else {
        let r = straight_draws(st.drop_last());
        if st.last().1 != StraightDrawType::Complete {
            r.push(PotentialModel::StraightDraw(st.last().0, st.last().1))
        } else {
            r
        }
    }
}

/// All cards of the potential hands of `l`, in order.
pub open spec fn all_cards(l: Seq<PotentialModel>) -> Seq<Card>
    decreases l.len(),
{
    if l.len() == 0 {
        Seq::empty()
    } else {
        all_cards(l.drop_last()) + l.last().cards()
    }
}

/// The potential hands of `l` that bring a card not seen in an earlier one.
pub open spec fn kept(l: Seq<PotentialModel>) -> Seq<PotentialModel>
    decreases l.len(),
{
    if l.len() == 0 {
        l
    } else {
        let r = kept(l.drop_last());
        if covers(all_cards(l.drop_last()), l.last().cards()) {
            r
        } else {
            r.push(l.last())
        }
    }
}

pub open spec fn models(v: Seq<PotentialHand>) -> Seq<PotentialModel> {
    v.map_values(|p: PotentialHand| p@)
}

pub open spec fn hand_models(v: Seq<Hand>) -> Seq<HandModel> {
    v.map_values(|h: Hand| h@)
}

/// The card sets of straight candidates.
pub open spec fn shapes_of(st: Seq<(Seq<Card>, StraightDrawType)>) -> Seq<Seq<Card>> {
    st.map_values(|e: (Seq<Card>, StraightDrawType)| e.0)
}

/// Each three of a kind joined with each pair.
pub open spec fn full_house_combos(tk: Seq<Seq<Card>>, pairs: Seq<Seq<Card>>) -> Seq<Seq<Card>>
    decreases tk.len(),
{
    if tk.len() == 0 {
        Seq::empty()
    } else {
        full_house_combos(tk.drop_last(), pairs) + pairs.map_values(
            |p: Seq<Card>| card_union(tk.last(), p),
        )
    }
}

/// Each pair of `others` with other cards than `pair`, joined with `pair`.
pub open spec fn joined_with(others: Seq<Seq<Card>>, pair: Seq<Card>) -> Seq<Seq<Card>>
    decreases others.len(),
{
    if others.len() == 0 {
        Seq::empty()
    } else {
        let r = joined_with(others.drop_last(), pair);
        if same_cards(others.last(), pair) {
            r
        } else {
            r.push(card_union(others.last(), pair))
        }
    }
}

/// Every two distinct pairs joined, for each pair of `outer` in turn.
pub open spec fn two_pair_combos(outer: Seq<Seq<Card>>, pairs: Seq<Seq<Card>>) -> Seq<Seq<Card>>
    decreases outer.len(),
{
    if outer.len() == 0 {
        Seq::empty()
    } else {
        two_pair_combos(outer.drop_last(), pairs) + joined_with(pairs, outer.last())
    }
}

/// The first pair not inside `h`.
pub open spec fn first_outside(pairs: Seq<Seq<Card>>, h: Seq<Card>) -> Option<Seq<Card>>
    decreases pairs.len(),
{
    if pairs.len() == 0 {
        None
    } else {
        match first_outside(pairs.drop_last(), h) {
            Some(y) => Some(y),
            None => if !covers(h, pairs.last()) {
                Some(pairs.last())
            } else {
                None
            },
        }
    }
}

/// The first pair inside `h` with other cards than `x`.
pub open spec fn first_partner(pairs: Seq<Seq<Card>>, h: Seq<Card>, x: Seq<Card>) -> Option<
    Seq<Card>,
>
    decreases pairs.len(),
{
    if pairs.len() == 0 {
        None
    } else {
        match first_partner(pairs.drop_last(), h, x) {
            Some(y) => Some(y),
            None => if covers(h, pairs.last()) && !same_cards(x, pairs.last()) {
                Some(pairs.last())
            } else {
                None
            },
        }
    }
}

/// Four of a kind inside `h`.
pub open spec fn fours_in(fk: Seq<Seq<Card>>, h: Seq<Card>) -> Seq<PotentialModel>
    decreases fk.len(),
{
    if fk.len() == 0 {
        Seq::empty()
    } else {
        let r = fours_in(fk.drop_last(), h);
        if covers(h, fk.last()) {
            r.push(PotentialModel::Hand(HandModel::FourOfAKind(fk.last())))
        } else {
            r
        }
    }
}

/// Three of a kind inside `h`: a full house with the first pair outside `h`, if
/// there is one, else the three of a kind alone.
pub open spec fn threes_in(tk: Seq<Seq<Card>>, pairs: Seq<Seq<Card>>, h: Seq<Card>) -> Seq<
    PotentialModel,
>
    decreases tk.len(),
{
    if tk.len() == 0 {
        Seq::empty()
    } else {
        let r = threes_in(tk.drop_last(), pairs, h);
        let x = tk.last();
        if covers(h, x) {
            match first_outside(pairs, h) {
                Some(y) => r.push(PotentialModel::Hand(HandModel::FullHouse(card_union(x, y)))),
                None => r.push(PotentialModel::Hand(HandModel::ThreeOfAKind(x))),
            }
        } else {
            r
        }
    }
}

/// Pairs inside `h`: two pair with the first other pair inside `h`, if there is
/// one, else the pair alone.
pub open spec fn pairs_in(xs: Seq<Seq<Card>>, pairs: Seq<Seq<Card>>, h: Seq<Card>) -> Seq<
    PotentialModel,
>
    decreases xs.len(),
{
    if xs.len() == 0 {
        Seq::empty()
    } else {
        let r = pairs_in(xs.drop_last(), pairs, h);
        let x = xs.last();
        if covers(h, x) {
            match first_partner(pairs, h, x) {
                Some(y) => r.push(PotentialModel::Hand(HandModel::TwoPair(card_union(x, y)))),
                None => r.push(PotentialModel::Hand(HandModel::Pair(x))),
            }
        } else {
            r
        }
    }
}

/// Straights and straight draws inside `h`.
pub open spec fn straights_in(st: Seq<(Seq<Card>, StraightDrawType)>, h: Seq<Card>) -> Seq<
    PotentialModel,
>
    decreases st.len(),
{
    if st.len() == 0 {
        Seq::empty()
    } else {
        let r = straights_in(st.drop_last(), h);
        let (x, t) = st.last();
        if covers(h, x) {
            if t == StraightDrawType::Complete {
                r.push(PotentialModel::Hand(HandModel::Straight(x)))
            } else {
                r.push(PotentialModel::StraightDraw(x, t))
            }
        } else {
            r
        }
    }
}

/// Flushes and flush draws inside `h`.
pub open spec fn flushes_in(fl: Seq<Seq<Card>>, h: Seq<Card>) -> Seq<PotentialModel>
    decreases fl.len(),
{
    if fl.len() == 0 {
        Seq::empty()
    } else {
        let r = flushes_in(fl.drop_last(), h);
        let x = fl.last();
        if covers(h, x) {
            if x.len() == 5 {
                r.push(PotentialModel::Hand(HandModel::Flush(x)))
            } else {
                r.push(PotentialModel::FlushDraw(x))
            }
        } else {
            r
        }
    }
}

/// Whether two potential hands are of one kind, with one draw type, over the
/// same cards.
pub open spec fn same_potential(a: PotentialModel, b: PotentialModel) -> bool {
    &&& a.tier() == b.tier()
    &&& same_cards(a.cards(), b.cards())
    &&& match (a, b) {
        (PotentialModel::Hand(x), PotentialModel::Hand(y)) => x.category() == y.category(),
        (PotentialModel::StraightDraw(_, s), PotentialModel::StraightDraw(_, t)) => s == t,
        (PotentialModel::StraightFlushDraw(_, s), PotentialModel::StraightFlushDraw(_, t)) => s
            == t,
        (PotentialModel::RoyalFlushDraw(_, s), PotentialModel::RoyalFlushDraw(_, t)) => s == t,
        _ => true,
    }
}

pub open spec fn holds_same(l: Seq<PotentialModel>, p: PotentialModel) -> bool
    decreases l.len(),
{
    l.len() > 0 && (holds_same(l.drop_last(), p) || same_potential(l.last(), p))
}

/// `l` with later repeats of a potential hand left out.
pub open spec fn distinct_potentials(l: Seq<PotentialModel>) -> Seq<PotentialModel>
    decreases l.len(),
{
    if l.len() == 0 {
        l
    } else {
        let r = distinct_potentials(l.drop_last());
        if holds_same(r, l.last()) {
            r
        } else {
            r.push(l.last())
        }
    }
}

impl ShowdownEngine {
    /// A straight topped by the highest rank that also holds the second highest:
    /// ace-high, not the wheel that plays the ace low.
    pub open spec fn is_royal(self, x: Seq<Card>) -> bool {
        x.len() > 0 && self.best_card(x).value == self.ordering[12] && has_value(x, self.ordering[11])
    }

    /// Made straight flushes: royal when ace-high.
    pub open spec fn made_straight_flushes(self, sf: Seq<(Seq<Card>, StraightDrawType)>) -> Seq<
        PotentialModel,
    >
        decreases sf.len(),
    {
        if sf.len() == 0 {
            Seq::empty()
        } else {
            let r = self.made_straight_flushes(sf.drop_last());
            let x = sf.last().0;
            if x.len() == 5 {
                if self.is_royal(x) {
                    r.push(PotentialModel::Hand(HandModel::RoyalFlush(x)))
                } else {
                    r.push(PotentialModel::Hand(HandModel::StraightFlush(x)))
                }
            } else {
                r
            }
        }
    }

    /// Straight-flush draws: royal when topped by one of the two highest ranks.
    pub open spec fn straight_flush_draws(self, sf: Seq<(Seq<Card>, StraightDrawType)>) -> Seq<
        PotentialModel,
    >
        decreases sf.len(),
    {
        if sf.len() == 0 {
            Seq::empty()
        } else {
            let r = self.straight_flush_draws(sf.drop_last());
            let (x, t) = sf.last();
            if t != StraightDrawType::Complete {
                if x.len() > 0 && (self.best_card(x).value == self.ordering[12]
                    || self.best_card(x).value == self.ordering[11]) {
                    r.push(PotentialModel::RoyalFlushDraw(x, t))
                } else {
                    r.push(PotentialModel::StraightFlushDraw(x, t))
                }
            } else {
                r
            }
        }
    }

    /// The straight candidates that are scanned: none when straights are off.
    pub open spec fn scanned_straights(self, s: Seq<Card>, straights: bool) -> Seq<
        (Seq<Card>, StraightDrawType),
    > {
        if straights {
            self.straight_candidates(s)
        } else {
            Seq::empty()
        }
    }

    /// Candidate potential hands, strongest kinds first, before those that add no
    /// new card are left out.
    pub open spec fn ranked_candidates(self, s: Seq<Card>, straights: bool) -> Seq<PotentialModel> {
        let st = self.scanned_straights(s, straights);
        let fl = self.flush_sets(s);
        let sf = straight_flush_sets(st);
        let st_left = by_size(straights_left(st, sf));
        let fl_left = flushes_left(fl, sf);
        let grouped = grouped_hands(
            self.of_a_kind(s, 2),
            self.of_a_kind(s, 3),
            self.of_a_kind(s, 4),
        );
        self.made_straight_flushes(sf) + strong_hands(grouped) + flush_hands(fl_left)
            + straight_hands(st_left) + all_as_potential(grouped) + self.straight_flush_draws(sf)
            + flush_draws(fl_left) + straight_draws(st_left)
    }

    /// The potential hands of `s`: nothing when no pair, straight or flush shape is
    /// found, else the candidates that each bring a card not in an earlier one.
    pub open spec fn potential_spec(self, s: Seq<Card>, straights: bool) -> Seq<PotentialModel> {
        if self.of_a_kind(s, 2).len() == 0 && self.scanned_straights(s, straights).len() == 0
            && self.flush_sets(s).len() == 0 {
            Seq::empty()
        } else {
            kept(self.ranked_candidates(s, straights))
        }
    }

    /// Straight flushes and their draws inside `h`.
    pub open spec fn straight_flushes_in(self, sf: Seq<(Seq<Card>, StraightDrawType)>, h: Seq<Card>) -> Seq<
        PotentialModel,
    >
        decreases sf.len(),
    {
        if sf.len() == 0 {
            Seq::empty()
        } else {
            let r = self.straight_flushes_in(sf.drop_last(), h);
            let (x, t) = sf.last();
            if covers(h, x) {
                r.push(self.straight_flush_model(x, t))
            } else {
                r
            }
        }
    }

    /// A straight flush, royal when topped by the highest rank; or a draw to one,
    /// royal when topped by one of the two highest ranks.
    pub open spec fn straight_flush_model(self, x: Seq<Card>, t: StraightDrawType) -> PotentialModel {
        let top = self.best_card(x).value;
        if t == StraightDrawType::Complete {
            if self.is_royal(x) {
                PotentialModel::Hand(HandModel::RoyalFlush(x))
            } else {
                PotentialModel::Hand(HandModel::StraightFlush(x))
            }
        } else if x.len() > 0 && (top == self.ordering[12] || top == self.ordering[11]) {
            PotentialModel::RoyalFlushDraw(x, t)
        } else {
            PotentialModel::StraightFlushDraw(x, t)
        }
    }

    /// Every combination that the brute-force scan inspects.
    pub open spec fn combos(self, s: Seq<Card>, straights: bool) -> Seq<Seq<Card>> {
        let pairs = self.of_a_kind(s, 2);
        let tk = self.of_a_kind(s, 3);
        shapes_of(self.scanned_straights(s, straights)) + self.flush_sets(s) + self.of_a_kind(s, 4)
            + full_house_combos(tk, pairs) + tk + two_pair_combos(pairs, pairs) + pairs
    }

    /// Everything found inside the combination `h`.
    pub open spec fn found_in(self, s: Seq<Card>, straights: bool, h: Seq<Card>) -> Seq<PotentialModel> {
        let st = self.scanned_straights(s, straights);
        let fl = self.flush_sets(s);
        let pairs = self.of_a_kind(s, 2);
        fours_in(self.of_a_kind(s, 4), h) + threes_in(self.of_a_kind(s, 3), pairs, h) + pairs_in(
            pairs,
            pairs,
            h,
        ) + straights_in(st, h) + flushes_in(fl, h) + self.straight_flushes_in(
            straight_flush_sets(st),
            h,
        )
    }

    pub open spec fn found_upto(self, s: Seq<Card>, straights: bool, hs: Seq<Seq<Card>>) -> Seq<
        PotentialModel,
    >
        decreases hs.len(),
    {
        if hs.len() == 0 {
            Seq::empty()
        } else {
            self.found_upto(s, straights, hs.drop_last()) + self.found_in(s, straights, hs.last())
        }
    }

    /// Every potential hand found inside any combination, each once.
    pub open spec fn all_possible_spec(self, s: Seq<Card>, straights: bool) -> Seq<PotentialModel> {
        distinct_potentials(self.found_upto(s, straights, self.combos(s, straights)))
    }

    /// The last greatest entry of `l`.
    pub open spec fn best_of(self, l: Seq<PotentialModel>) -> Option<PotentialModel>
        decreases l.len(),
    {
        if l.len() == 0 {
            None
        } else {
            match self.best_of(l.drop_last()) {
                None => Some(l.last()),
                Some(b) => if self.compare_spec(b, l.last()) == Ordering::Greater {
                    Some(b)
                } else {
                    Some(l.last())
                },
            }
        }
    }

    /// The best of the candidates, or the highest card when there is none.
    pub open spec fn pick(self, l: Seq<PotentialModel>, s: Seq<Card>) -> PotentialModel {
        match self.best_of(l) {
            Some(b) => b,
            None => PotentialModel::HighCard(self.best_card(s)),
        }
    }
}

fn contains_card(s: &[Card], c: Card) -> (r: bool)
    ensures
        r == s@.contains(c),
{
    let mut found = false;
    let n = s.len();
    for j in 0..n
        invariant
            n == s@.len(),
            found == s@.subrange(0, j as int).contains(c),
    {
        if s[j] == c {
            found = true;
        }
        assert(s@.subrange(0, j + 1) == s@.subrange(0, j as int).push(s@[j as int]));
        proof {
            lemma_push_contains(s@.subrange(0, j as int), s@[j as int], c);
        }
    }
    assert(s@.subrange(0, n as int) == s@);
    found
}

fn covers_cards(big: &[Card], small: &[Card]) -> (r: bool)
    ensures
        r == covers(big@, small@),
{
    let mut ok = true;
    let n = small.len();
    for j in 0..n
        invariant
            n == small@.len(),
            ok == covers(big@, small@.subrange(0, j as int)),
    {
        assert(small@.subrange(0, j + 1).drop_last() == small@.subrange(0, j as int));
        if !contains_card(big, small[j]) {
            ok = false;
        }
    }
    assert(small@.subrange(0, n as int) == small@);
    ok
}

fn union_cards(a: &[Card], b: &[Card]) -> (r: Vec<Card>)
    ensures
        r@ == card_union(a@, b@),
{
    let mut v: Vec<Card> = Vec::new();
    let n = a.len();
    for i in 0..n
        invariant
            n == a@.len(),
            v@ == a@.subrange(0, i as int),
    {
        v.push(a[i]);
        assert(a@.subrange(0, i + 1) == a@.subrange(0, i as int).push(a@[i as int]));
    }
    let m = b.len();
    for i in 0..m
        invariant
            n == a@.len(),
            m == b@.len(),
            v@ == a@ + b@.subrange(0, i as int),
    {
        v.push(b[i]);
        assert(b@.subrange(0, i + 1) == b@.subrange(0, i as int).push(b@[i as int]));
    }
    assert(a@.subrange(0, n as int) == a@);
    assert(b@.subrange(0, m as int) == b@);
    ShowdownEngine::make_hand_unique(v.as_slice())
}

fn under_sf(sf: &Vec<(Vec<Card>, StraightDrawType)>, x: &[Card]) -> (r: bool)
    ensures
        r == under_straight_flush(straight_sets(sf@), x@),
{
    let ghost ss = straight_sets(sf@);
    let mut found = false;
    let n = sf.len();
    for j in 0..n
        invariant
            n == sf@.len(),
            ss == straight_sets(sf@),
            found == under_straight_flush(ss.subrange(0, j as int), x@),
    {
        assert(ss.subrange(0, j + 1).drop_last() == ss.subrange(0, j as int));
        assert(ss.subrange(0, j + 1).last().0 == sf@[j as int].0@);
        if covers_cards(sf[j].0.as_slice(), x) {
            found = true;
        }
    }
    assert(ss.subrange(0, n as int) == ss);
    found
}

fn one_suit_cards(x: &[Card]) -> (r: bool)
    ensures
        r == one_suit(x@),
{
    if x.len() == 0 {
        return false;
    }
    let u = x[0].suit;
    let mut ok = true;
    let n = x.len();
    for k in 0..n
        invariant
            n == x@.len(),
            n > 0,
            u == x@[0].suit,
            ok == all_of_suit(x@.subrange(0, k as int), u),
    {
        assert(x@.subrange(0, k + 1).drop_last() == x@.subrange(0, k as int));
        if x[k].suit != u {
            ok = false;
        }
    }
    assert(x@.subrange(0, n as int) == x@);
    ok
}

fn select_straight_flushes(st: &Vec<(Vec<Card>, StraightDrawType)>) -> (r: Vec<
    (Vec<Card>, StraightDrawType),
>)
    ensures
        straight_sets(r@) == straight_flush_sets(straight_sets(st@)),
{
    let ghost ss = straight_sets(st@);
    let mut out: Vec<(Vec<Card>, StraightDrawType)> = Vec::new();
    let n = st.len();
    for j in 0..n
        invariant
            n == st@.len(),
            ss == straight_sets(st@),
            straight_sets(out@) == straight_flush_sets(ss.subrange(0, j as int)),
    {
        assert(ss.subrange(0, j + 1).drop_last() == ss.subrange(0, j as int));
        assert(ss.subrange(0, j + 1).last() == (st@[j as int].0@, st@[j as int].1));
        if one_suit_cards(st[j].0.as_slice()) {
            let ghost before = out@;
            out.push((copy_cards(st[j].0.as_slice()), st[j].1));
            assert(straight_sets(out@) == straight_sets(before).push(
                (st@[j as int].0@, st@[j as int].1),
            ));
        }
    }
    assert(ss.subrange(0, n as int) == ss);
    out
}

fn select_straights_left(
    st: &Vec<(Vec<Card>, StraightDrawType)>,
    sf: &Vec<(Vec<Card>, StraightDrawType)>,
) -> (r: Vec<(Vec<Card>, StraightDrawType)>)
    ensures
        straight_sets(r@) == straights_left(straight_sets(st@), straight_sets(sf@)),
{
    let ghost ss = straight_sets(st@);
    let mut out: Vec<(Vec<Card>, StraightDrawType)> = Vec::new();
    let n = st.len();
    for j in 0..n
        invariant
            n == st@.len(),
            ss == straight_sets(st@),
            straight_sets(out@) == straights_left(ss.subrange(0, j as int), straight_sets(sf@)),
    {
        assert(ss.subrange(0, j + 1).drop_last() == ss.subrange(0, j as int));
        assert(ss.subrange(0, j + 1).last() == (st@[j as int].0@, st@[j as int].1));
        if !under_sf(sf, st[j].0.as_slice()) {
            let ghost before = out@;
            out.push((copy_cards(st[j].0.as_slice()), st[j].1));
            assert(straight_sets(out@) == straight_sets(before).push(
                (st@[j as int].0@, st@[j as int].1),
            ));
        }
    }
    assert(ss.subrange(0, n as int) == ss);
    out
}

fn select_flushes_left(fl: &Vec<Vec<Card>>, sf: &Vec<(Vec<Card>, StraightDrawType)>) -> (r: Vec<
    Vec<Card>,
>)
    ensures
        card_sets(r@) == flushes_left(card_sets(fl@), straight_sets(sf@)),
{
    let ghost cs = card_sets(fl@);
    let mut out: Vec<Vec<Card>> = Vec::new();
    let n = fl.len();
    for j in 0..n
        invariant
            n == fl@.len(),
            cs == card_sets(fl@),
            card_sets(out@) == flushes_left(cs.subrange(0, j as int), straight_sets(sf@)),
    {
        assert(cs.subrange(0, j + 1).drop_last() == cs.subrange(0, j as int));
        assert(cs.subrange(0, j + 1).last() == fl@[j as int]@);
        if !under_sf(sf, fl[j].as_slice()) {
            let ghost before = out@;
            out.push(copy_cards(fl[j].as_slice()));
            assert(card_sets(out@) == card_sets(before).push(fl@[j as int]@));
        }
    }
    assert(cs.subrange(0, n as int) == cs);
    out
}

fn push_of_size(
    out: &mut Vec<(Vec<Card>, StraightDrawType)>,
    st: &Vec<(Vec<Card>, StraightDrawType)>,
    size: usize,
)
    ensures
        straight_sets(final(out)@) == straight_sets(old(out)@) + of_size(
            straight_sets(st@),
            size as int,
        ),
{
    let ghost ss = straight_sets(st@);
    let ghost start = straight_sets(out@);
    let n = st.len();
    for j in 0..n
        invariant
            n == st@.len(),
            ss == straight_sets(st@),
            straight_sets(out@) == start + of_size(ss.subrange(0, j as int), size as int),
    {
        assert(ss.subrange(0, j + 1).drop_last() == ss.subrange(0, j as int));
        assert(ss.subrange(0, j + 1).last() == (st@[j as int].0@, st@[j as int].1));
        if st[j].0.len() == size {
            let ghost before = out@;
            out.push((copy_cards(st[j].0.as_slice()), st[j].1));
            assert(straight_sets(out@) == straight_sets(before).push(
                (st@[j as int].0@, st@[j as int].1),
            ));
        }
    }
    assert(ss.subrange(0, n as int) == ss);
}

fn has_value_in(p: &[Card], v: CardValue) -> (r: bool)
    ensures
        r == has_value(p@, v),
{
    let n = p.len();
    for j in 0..n
        invariant
            n == p@.len(),
            forall|k: int| 0 <= k < j ==> p@[k].value != v,
    {
        if p[j].value == v {
            return true;
        }
    }
    false
}

fn push_triple_hands(out: &mut Vec<Hand>, tk: &Vec<Vec<Card>>, p0: &[Card], p1: &[Card])
    requires
        forall|i: int| 0 <= i < tk@.len() ==> #[trigger] tk@[i]@.len() > 0,
    ensures
        hand_models(final(out)@) == hand_models(old(out)@) + triple_hands(
            card_sets(tk@),
            p0@,
            p1@,
        ),
{
    let ghost cs = card_sets(tk@);
    let ghost start = hand_models(out@);
    let n = tk.len();
    for j in 0..n
        invariant
            n == tk@.len(),
            cs == card_sets(tk@),
            forall|i: int| 0 <= i < tk@.len() ==> #[trigger] tk@[i]@.len() > 0,
            hand_models(out@) == start + triple_hands(cs.subrange(0, j as int), p0@, p1@),
    {
        assert(cs.subrange(0, j + 1).drop_last() == cs.subrange(0, j as int));
        assert(cs.subrange(0, j + 1).last() == tk@[j as int]@);
        let t = &tk[j];
        assert(tk@[j as int]@.len() > 0);
        let v = t[0].value;
        let ghost before = hand_models(out@);
        let h0 = has_value_in(p0, v);
        let h1 = has_value_in(p1, v);
        let ghost tv = tk@[j as int]@;
        let ghost fh0: Seq<HandModel> = if h0 {
            Seq::empty()
        } else {
            seq![HandModel::FullHouse(card_union(tv, p0@))]
        };
        let ghost fh1: Seq<HandModel> = if h1 {
            Seq::empty()
        } else {
            seq![HandModel::FullHouse(card_union(tv, p1@))]
        };
        let ghost tail = if fh0.len() + fh1.len() > 0 {
            fh0 + fh1
        } else {
            seq![HandModel::ThreeOfAKind(tv)]
        };
        assert(triple_hands(cs.subrange(0, j + 1), p0@, p1@) == triple_hands(
            cs.subrange(0, j as int),
            p0@,
            p1@,
        ) + tail);
        if !h0 {
            let ghost b = out@;
            out.push(Hand::FullHouse(union_cards(t.as_slice(), p0)));
            assert(hand_models(out@) == hand_models(b).push(HandModel::FullHouse(card_union(t@, p0@))));
        }
        if !h1 {
            let ghost b = out@;
            out.push(Hand::FullHouse(union_cards(t.as_slice(), p1)));
            assert(hand_models(out@) == hand_models(b).push(HandModel::FullHouse(card_union(t@, p1@))));
        }
        if h0 && h1 {
            let ghost b = out@;
            out.push(Hand::ThreeOfAKind(copy_cards(t.as_slice())));
            assert(hand_models(out@) == hand_models(b).push(HandModel::ThreeOfAKind(t@)));
        }
        assert(hand_models(out@) == before + tail);
    }
    assert(cs.subrange(0, n as int) == cs);
}

fn push_pair_hands(
    out: &mut Vec<Hand>,
    p0: &[Card],
    p1: &[Card],
    tk: &Vec<Vec<Card>>,
    fk: &Vec<Vec<Card>>,
)
    requires
        forall|i: int| 0 <= i < tk@.len() ==> #[trigger] tk@[i]@.len() > 0,
    ensures
        hand_models(final(out)@) == hand_models(old(out)@) + pair_hands(
            p0@,
            p1@,
            card_sets(tk@),
            card_sets(fk@),
        ),
{
    let ghost start = hand_models(out@);
    let ghost fs = card_sets(fk@);
    let n = fk.len();
    for j in 0..n
        invariant
            n == fk@.len(),
            fs == card_sets(fk@),
            hand_models(out@) == start + fs.subrange(0, j as int).map_values(
                |k: Seq<Card>| HandModel::FourOfAKind(k),
            ),
    {
        let ghost before = out@;
        out.push(Hand::FourOfAKind(copy_cards(fk[j].as_slice())));
        assert(hand_models(out@) == hand_models(before).push(HandModel::FourOfAKind(fk@[j as int]@)));
        assert(fs.subrange(0, j + 1).map_values(|k: Seq<Card>| HandModel::FourOfAKind(k))
            == fs.subrange(0, j as int).map_values(|k: Seq<Card>| HandModel::FourOfAKind(k)).push(
            HandModel::FourOfAKind(fs[j as int]),
        ));
    }
    assert(fs.subrange(0, n as int) == fs);
    push_triple_hands(out, tk, p0, p1);
    let ghost before = out@;
    out.push(Hand::TwoPair(union_cards(p0, p1)));
    out.push(Hand::Pair(copy_cards(p0)));
    out.push(Hand::Pair(copy_cards(p1)));
    assert(hand_models(out@) == hand_models(before) + seq![
        HandModel::TwoPair(card_union(p0@, p1@)),
        HandModel::Pair(p0@),
        HandModel::Pair(p1@),
    ]);
}

fn grouped(pairs: &Vec<Vec<Card>>, tk: &Vec<Vec<Card>>, fk: &Vec<Vec<Card>>) -> (r: Vec<Hand>)
    requires
        forall|i: int| 0 <= i < tk@.len() ==> #[trigger] tk@[i]@.len() > 0,
    ensures
        hand_models(r@) == grouped_hands(card_sets(pairs@), card_sets(tk@), card_sets(fk@)),
{
    let ghost ps = card_sets(pairs@);
    let mut out: Vec<Hand> = Vec::new();
    if pairs.len() == 0 {
        assert(hand_models(out@) == Seq::<HandModel>::empty());
        return out;
    }
    if pairs.len() == 1 {
        out.push(Hand::Pair(copy_cards(pairs[0].as_slice())));
        assert(hand_models(out@) == seq![HandModel::Pair(ps[0])]);
        return out;
    }
    assert(hand_models(out@) == Seq::<HandModel>::empty());
    let n = pairs.len();
    for j in 1..n
        invariant
            n == pairs@.len(),
            ps == card_sets(pairs@),
            forall|i: int| 0 <= i < tk@.len() ==> #[trigger] tk@[i]@.len() > 0,
            hand_models(out@) == pair_hands_upto(
                ps,
                card_sets(tk@),
                card_sets(fk@),
                j as int,
            ),
    {
        push_pair_hands(&mut out, pairs[j - 1].as_slice(), pairs[j].as_slice(), tk, fk);
    }
    out
}

fn push_strong(out: &mut Vec<PotentialHand>, hs: &Vec<Hand>)
    ensures
        models(final(out)@) == models(old(out)@) + strong_hands(hand_models(hs@)),
{
    let ghost hm = hand_models(hs@);
    let ghost start = models(out@);
    let n = hs.len();
    for j in 0..n
        invariant
            n == hs@.len(),
            hm == hand_models(hs@),
            models(out@) == start + strong_hands(hm.subrange(0, j as int)),
    {
        assert(hm.subrange(0, j + 1).drop_last() == hm.subrange(0, j as int));
        assert(hm.subrange(0, j + 1).last() == hs@[j as int]@);
        match &hs[j] {
            Hand::FourOfAKind(_) | Hand::FullHouse(_) => {
                let ghost before = out@;
                out.push(PotentialHand::Hand(hs[j].duplicate()));
                assert(models(out@) == models(before).push(PotentialModel::Hand(hs@[j as int]@)));
            },
            _ => {},
        }
    }
    assert(hm.subrange(0, n as int) == hm);
}

fn push_all_hands(out: &mut Vec<PotentialHand>, hs: &Vec<Hand>)
    ensures
        models(final(out)@) == models(old(out)@) + all_as_potential(hand_models(hs@)),
{
    let ghost hm = hand_models(hs@);
    let ghost start = models(out@);
    let n = hs.len();
    for j in 0..n
        invariant
            n == hs@.len(),
            hm == hand_models(hs@),
            models(out@) == start + all_as_potential(hm.subrange(0, j as int)),
    {
        let ghost before = out@;
        out.push(PotentialHand::Hand(hs[j].duplicate()));
        assert(models(out@) == models(before).push(PotentialModel::Hand(hs@[j as int]@)));
        assert(all_as_potential(hm.subrange(0, j + 1)) == all_as_potential(
            hm.subrange(0, j as int),
        ).push(PotentialModel::Hand(hm[j as int])));
    }
    assert(hm.subrange(0, n as int) == hm);
}

fn push_flushes(out: &mut Vec<PotentialHand>, fl: &Vec<Vec<Card>>, made: bool)
    ensures
        models(final(out)@) == models(old(out)@) + if made {
            flush_hands(card_sets(fl@))
        } else {
            flush_draws(card_sets(fl@))
        },
{
    let ghost cs = card_sets(fl@);
    let ghost start = models(out@);
    let n = fl.len();
    for j in 0..n
        invariant
            n == fl@.len(),
            cs == card_sets(fl@),
            models(out@) == start + if made {
                flush_hands(cs.subrange(0, j as int))
            } else {
                flush_draws(cs.subrange(0, j as int))
            },
    {
        assert(cs.subrange(0, j + 1).drop_last() == cs.subrange(0, j as int));
        assert(cs.subrange(0, j + 1).last() == fl@[j as int]@);
        let ghost before = out@;
        if made && fl[j].len() == 5 {
            out.push(PotentialHand::Hand(Hand::Flush(copy_cards(fl[j].as_slice()))));
            assert(models(out@) == models(before).push(
                PotentialModel::Hand(HandModel::Flush(fl@[j as int]@)),
            ));
        } else if !made && fl[j].len() == 4 {
            out.push(PotentialHand::FlushDraw(copy_cards(fl[j].as_slice())));
            assert(models(out@) == models(before).push(PotentialModel::FlushDraw(fl@[j as int]@)));
        }
    }
    assert(cs.subrange(0, n as int) == cs);
}

fn push_straights(out: &mut Vec<PotentialHand>, st: &Vec<(Vec<Card>, StraightDrawType)>, made: bool)
    ensures
        models(final(out)@) == models(old(out)@) + if made {
            straight_hands(straight_sets(st@))
        } else {
            straight_draws(straight_sets(st@))
        },
{
    let ghost ss = straight_sets(st@);
    let ghost start = models(out@);
    let n = st.len();
    for j in 0..n
        invariant
            n == st@.len(),
            ss == straight_sets(st@),
            models(out@) == start + if made {
                straight_hands(ss.subrange(0, j as int))
            } else {
                straight_draws(ss.subrange(0, j as int))
            },
    {
        assert(ss.subrange(0, j + 1).drop_last() == ss.subrange(0, j as int));
        assert(ss.subrange(0, j + 1).last() == (st@[j as int].0@, st@[j as int].1));
        let ghost before = out@;
        let complete = st[j].1 == StraightDrawType::Complete;
        if made && complete {
            out.push(PotentialHand::Hand(Hand::Straight(copy_cards(st[j].0.as_slice()))));
            assert(models(out@) == models(before).push(
                PotentialModel::Hand(HandModel::Straight(st@[j as int].0@)),
            ));
        } else if !made && !complete {
            out.push(PotentialHand::StraightDraw(copy_cards(st[j].0.as_slice()), st[j].1));
            assert(models(out@) == models(before).push(
                PotentialModel::StraightDraw(st@[j as int].0@, st@[j as int].1),
            ));
        }
    }
    assert(ss.subrange(0, n as int) == ss);
}

/// Keeps each potential hand that brings a card not in an earlier one.
fn keep_new(l: &Vec<PotentialHand>) -> (r: Vec<PotentialHand>)
    ensures
        models(r@) == kept(models(l@)),
{
    let ghost ms = models(l@);
    let mut out: Vec<PotentialHand> = Vec::new();
    let mut seen: Vec<Card> = Vec::new();
    let n = l.len();
    assert(ms.subrange(0, 0) == Seq::<PotentialModel>::empty());
    for j in 0..n
        invariant
            n == l@.len(),
            ms == models(l@),
            models(out@) == kept(ms.subrange(0, j as int)),
            seen@ == all_cards(ms.subrange(0, j as int)),
    {
        assert(ms.subrange(0, j + 1).drop_last() == ms.subrange(0, j as int));
        assert(ms.subrange(0, j + 1).last() == l@[j as int]@);
        let cards = l[j].cards();
        if !covers_cards(seen.as_slice(), cards.as_slice()) {
            let ghost before = out@;
            out.push(l[j].duplicate());
            assert(models(out@) == models(before).push(l@[j as int]@));
        }
        let mut k: usize = 0;
        let ghost seen0 = seen@;
        while k < cards.len()
            invariant
                0 <= k <= cards@.len(),
                seen@ == seen0 + cards@.subrange(0, k as int),
            decreases cards@.len() - k,
        {
            seen.push(cards[k]);
            assert(cards@.subrange(0, k + 1) == cards@.subrange(0, k as int).push(cards@[k as int]));
            k = k + 1;
        }
        assert(cards@.subrange(0, cards@.len() as int) == cards@);
    }
    assert(ms.subrange(0, n as int) == ms);
    out
}

fn push_sets(out: &mut Vec<Vec<Card>>, sets: &Vec<Vec<Card>>)
    ensures
        card_sets(final(out)@) == card_sets(old(out)@) + card_sets(sets@),
{
    let ghost start = card_sets(out@);
    let ghost cs = card_sets(sets@);
    let n = sets.len();
    for j in 0..n
        invariant
            n == sets@.len(),
            cs == card_sets(sets@),
            card_sets(out@) == start + cs.subrange(0, j as int),
    {
        let ghost before = out@;
        out.push(copy_cards(sets[j].as_slice()));
        assert(card_sets(out@) == card_sets(before).push(sets@[j as int]@));
        assert(cs.subrange(0, j + 1) == cs.subrange(0, j as int).push(cs[j as int]));
    }
    assert(cs.subrange(0, n as int) == cs);
}

fn push_shapes(out: &mut Vec<Vec<Card>>, st: &Vec<(Vec<Card>, StraightDrawType)>)
    ensures
        card_sets(final(out)@) == card_sets(old(out)@) + shapes_of(straight_sets(st@)),
{
    let ghost start = card_sets(out@);
    let ghost sh = shapes_of(straight_sets(st@));
    let n = st.len();
    for j in 0..n
        invariant
            n == st@.len(),
            sh == shapes_of(straight_sets(st@)),
            card_sets(out@) == start + sh.subrange(0, j as int),
    {
        let ghost before = out@;
        out.push(copy_cards(st[j].0.as_slice()));
        assert(card_sets(out@) == card_sets(before).push(st@[j as int].0@));
        assert(sh.subrange(0, j + 1) == sh.subrange(0, j as int).push(sh[j as int]));
    }
    assert(sh.subrange(0, n as int) == sh);
}

fn push_full_house_combos(out: &mut Vec<Vec<Card>>, tk: &Vec<Vec<Card>>, pairs: &Vec<Vec<Card>>)
    ensures
        card_sets(final(out)@) == card_sets(old(out)@) + full_house_combos(
            card_sets(tk@),
            card_sets(pairs@),
        ),
{
    let ghost start = card_sets(out@);
    let ghost ts = card_sets(tk@);
    let ghost ps = card_sets(pairs@);
    let n = tk.len();
    for j in 0..n
        invariant
            n == tk@.len(),
            ts == card_sets(tk@),
            ps == card_sets(pairs@),
            card_sets(out@) == start + full_house_combos(ts.subrange(0, j as int), ps),
    {
        assert(ts.subrange(0, j + 1).drop_last() == ts.subrange(0, j as int));
        assert(ts.subrange(0, j + 1).last() == tk@[j as int]@);
        let ghost row_start = card_sets(out@);
        let ghost t = tk@[j as int]@;
        let m = pairs.len();
        for k in 0..m
            invariant
                m == pairs@.len(),
                ps == card_sets(pairs@),
                t == tk@[j as int]@,
                j < tk@.len(),
                card_sets(out@) == row_start + ps.subrange(0, k as int).map_values(
                    |p: Seq<Card>| card_union(t, p),
                ),
        {
            let ghost before = out@;
            out.push(union_cards(tk[j].as_slice(), pairs[k].as_slice()));
            assert(card_sets(out@) == card_sets(before).push(card_union(t, ps[k as int])));
            assert(ps.subrange(0, k + 1).map_values(|p: Seq<Card>| card_union(t, p)) == ps.subrange(
                0,
                k as int,
            ).map_values(|p: Seq<Card>| card_union(t, p)).push(card_union(t, ps[k as int])));
        }
        assert(ps.subrange(0, m as int) == ps);
    }
    assert(ts.subrange(0, n as int) == ts);
}

fn push_two_pair_combos(out: &mut Vec<Vec<Card>>, pairs: &Vec<Vec<Card>>)
    ensures
        card_sets(final(out)@) == card_sets(old(out)@) + two_pair_combos(
            card_sets(pairs@),
            card_sets(pairs@),
        ),
{
    let ghost start = card_sets(out@);
    let ghost ps = card_sets(pairs@);
    let n = pairs.len();
    for j in 0..n
        invariant
            n == pairs@.len(),
            ps == card_sets(pairs@),
            card_sets(out@) == start + two_pair_combos(ps.subrange(0, j as int), ps),
    {
        assert(ps.subrange(0, j + 1).drop_last() == ps.subrange(0, j as int));
        assert(ps.subrange(0, j + 1).last() == pairs@[j as int]@);
        let ghost row_start = card_sets(out@);
        let ghost pair = pairs@[j as int]@;
        for k in 0..n
            invariant
                n == pairs@.len(),
                ps == card_sets(pairs@),
                pair == pairs@[j as int]@,
                j < n,
                card_sets(out@) == row_start + joined_with(ps.subrange(0, k as int), pair),
        {
            assert(ps.subrange(0, k + 1).drop_last() == ps.subrange(0, k as int));
            assert(ps.subrange(0, k + 1).last() == pairs@[k as int]@);
            let a = covers_cards(pairs[k].as_slice(), pairs[j].as_slice());
            let b = covers_cards(pairs[j].as_slice(), pairs[k].as_slice());
            if !(a && b) {
                let ghost before = out@;
                out.push(union_cards(pairs[k].as_slice(), pairs[j].as_slice()));
                assert(card_sets(out@) == card_sets(before).push(card_union(ps[k as int], pair)));
            }
        }
        assert(ps.subrange(0, n as int) == ps);
    }
    assert(ps.subrange(0, n as int) == ps);
}

fn first_outside_of(pairs: &Vec<Vec<Card>>, h: &[Card]) -> (r: Option<usize>)
    ensures
        match r {
            None => first_outside(card_sets(pairs@), h@) is None,
            Some(j) => j < pairs@.len() && first_outside(card_sets(pairs@), h@) == Some(
                pairs@[j as int]@,
            ),
        },
{
    let ghost ps = card_sets(pairs@);
    let mut found: Option<usize> = None;
    let n = pairs.len();
    for k in 0..n
        invariant
            n == pairs@.len(),
            ps == card_sets(pairs@),
            match found {
                None => first_outside(ps.subrange(0, k as int), h@) is None,
                Some(j) => j < n && first_outside(ps.subrange(0, k as int), h@) == Some(
                    pairs@[j as int]@,
                ),
            },
    {
        assert(ps.subrange(0, k + 1).drop_last() == ps.subrange(0, k as int));
        assert(ps.subrange(0, k + 1).last() == pairs@[k as int]@);
        if found.is_none() && !covers_cards(h, pairs[k].as_slice()) {
            found = Some(k);
        }
    }
    assert(ps.subrange(0, n as int) == ps);
    found
}

fn first_partner_of(pairs: &Vec<Vec<Card>>, h: &[Card], x: &[Card]) -> (r: Option<usize>)
    ensures
        match r {
            None => first_partner(card_sets(pairs@), h@, x@) is None,
            Some(j) => j < pairs@.len() && first_partner(card_sets(pairs@), h@, x@) == Some(
                pairs@[j as int]@,
            ),
        },
{
    let ghost ps = card_sets(pairs@);
    let mut found: Option<usize> = None;
    let n = pairs.len();
    for k in 0..n
        invariant
            n == pairs@.len(),
            ps == card_sets(pairs@),
            match found {
                None => first_partner(ps.subrange(0, k as int), h@, x@) is None,
                Some(j) => j < n && first_partner(ps.subrange(0, k as int), h@, x@) == Some(
                    pairs@[j as int]@,
                ),
            },
    {
        assert(ps.subrange(0, k + 1).drop_last() == ps.subrange(0, k as int));
        assert(ps.subrange(0, k + 1).last() == pairs@[k as int]@);
        if found.is_none() {
            let inside = covers_cards(h, pairs[k].as_slice());
            let a = covers_cards(x, pairs[k].as_slice());
            let b = covers_cards(pairs[k].as_slice(), x);
            if inside && !(a && b) {
                found = Some(k);
            }
        }
    }
    assert(ps.subrange(0, n as int) == ps);
    found
}

fn push_fours_in(out: &mut Vec<PotentialHand>, fk: &Vec<Vec<Card>>, h: &[Card])
    ensures
        models(final(out)@) == models(old(out)@) + fours_in(card_sets(fk@), h@),
{
    let ghost start = models(out@);
    let ghost cs = card_sets(fk@);
    let n = fk.len();
    for j in 0..n
        invariant
            n == fk@.len(),
            cs == card_sets(fk@),
            models(out@) == start + fours_in(cs.subrange(0, j as int), h@),
    {
        assert(cs.subrange(0, j + 1).drop_last() == cs.subrange(0, j as int));
        assert(cs.subrange(0, j + 1).last() == fk@[j as int]@);
        if covers_cards(h, fk[j].as_slice()) {
            let ghost before = out@;
            out.push(PotentialHand::Hand(Hand::FourOfAKind(copy_cards(fk[j].as_slice()))));
            assert(models(out@) == models(before).push(
                PotentialModel::Hand(HandModel::FourOfAKind(fk@[j as int]@)),
            ));
        }
    }
    assert(cs.subrange(0, n as int) == cs);
}

fn push_threes_in(
    out: &mut Vec<PotentialHand>,
    tk: &Vec<Vec<Card>>,
    pairs: &Vec<Vec<Card>>,
    h: &[Card],
)
    ensures
        models(final(out)@) == models(old(out)@) + threes_in(card_sets(tk@), card_sets(pairs@), h@),
{
    let ghost start = models(out@);
    let ghost cs = card_sets(tk@);
    let n = tk.len();
    for j in 0..n
        invariant
            n == tk@.len(),
            cs == card_sets(tk@),
            models(out@) == start + threes_in(cs.subrange(0, j as int), card_sets(pairs@), h@),
    {
        assert(cs.subrange(0, j + 1).drop_last() == cs.subrange(0, j as int));
        assert(cs.subrange(0, j + 1).last() == tk@[j as int]@);
        if covers_cards(h, tk[j].as_slice()) {
            let ghost before = out@;
            match first_outside_of(pairs, h) {
                Some(y) => {
                    out.push(
                        PotentialHand::Hand(
                            Hand::FullHouse(union_cards(tk[j].as_slice(), pairs[y].as_slice())),
                        ),
                    );
                    assert(models(out@) == models(before).push(
                        PotentialModel::Hand(
                            HandModel::FullHouse(card_union(tk@[j as int]@, pairs@[y as int]@)),
                        ),
                    ));
                },
                None => {
                    out.push(PotentialHand::Hand(Hand::ThreeOfAKind(copy_cards(tk[j].as_slice()))));
                    assert(models(out@) == models(before).push(
                        PotentialModel::Hand(HandModel::ThreeOfAKind(tk@[j as int]@)),
                    ));
                },
            }
        }
    }
    assert(cs.subrange(0, n as int) == cs);
}

fn push_pairs_in(out: &mut Vec<PotentialHand>, pairs: &Vec<Vec<Card>>, h: &[Card])
    ensures
        models(final(out)@) == models(old(out)@) + pairs_in(
            card_sets(pairs@),
            card_sets(pairs@),
            h@,
        ),
{
    let ghost start = models(out@);
    let ghost cs = card_sets(pairs@);
    let n = pairs.len();
    for j in 0..n
        invariant
            n == pairs@.len(),
            cs == card_sets(pairs@),
            models(out@) == start + pairs_in(cs.subrange(0, j as int), cs, h@),
    {
        assert(cs.subrange(0, j + 1).drop_last() == cs.subrange(0, j as int));
        assert(cs.subrange(0, j + 1).last() == pairs@[j as int]@);
        if covers_cards(h, pairs[j].as_slice()) {
            let ghost before = out@;
            match first_partner_of(pairs, h, pairs[j].as_slice()) {
                Some(y) => {
                    out.push(
                        PotentialHand::Hand(
                            Hand::TwoPair(union_cards(pairs[j].as_slice(), pairs[y].as_slice())),
                        ),
                    );
                    assert(models(out@) == models(before).push(
                        PotentialModel::Hand(
                            HandModel::TwoPair(card_union(pairs@[j as int]@, pairs@[y as int]@)),
                        ),
                    ));
                },
                None => {
                    out.push(PotentialHand::Hand(Hand::Pair(copy_cards(pairs[j].as_slice()))));
                    assert(models(out@) == models(before).push(
                        PotentialModel::Hand(HandModel::Pair(pairs@[j as int]@)),
                    ));
                },
            }
        }
    }
    assert(cs.subrange(0, n as int) == cs);
}

fn push_straights_in(out: &mut Vec<PotentialHand>, st: &Vec<(Vec<Card>, StraightDrawType)>, h: &[Card])
    ensures
        models(final(out)@) == models(old(out)@) + straights_in(straight_sets(st@), h@),
{
    let ghost start = models(out@);
    let ghost ss = straight_sets(st@);
    let n = st.len();
    for j in 0..n
        invariant
            n == st@.len(),
            ss == straight_sets(st@),
            models(out@) == start + straights_in(ss.subrange(0, j as int), h@),
    {
        assert(ss.subrange(0, j + 1).drop_last() == ss.subrange(0, j as int));
        assert(ss.subrange(0, j + 1).last() == (st@[j as int].0@, st@[j as int].1));
        if covers_cards(h, st[j].0.as_slice()) {
            let ghost before = out@;
            if st[j].1 == StraightDrawType::Complete {
                out.push(PotentialHand::Hand(Hand::Straight(copy_cards(st[j].0.as_slice()))));
                assert(models(out@) == models(before).push(
                    PotentialModel::Hand(HandModel::Straight(st@[j as int].0@)),
                ));
            } else {
                out.push(PotentialHand::StraightDraw(copy_cards(st[j].0.as_slice()), st[j].1));
                assert(models(out@) == models(before).push(
                    PotentialModel::StraightDraw(st@[j as int].0@, st@[j as int].1),
                ));
            }
        }
    }
    assert(ss.subrange(0, n as int) == ss);
}

fn push_flushes_in(out: &mut Vec<PotentialHand>, fl: &Vec<Vec<Card>>, h: &[Card])
    ensures
        models(final(out)@) == models(old(out)@) + flushes_in(card_sets(fl@), h@),
{
    let ghost start = models(out@);
    let ghost cs = card_sets(fl@);
    let n = fl.len();
    for j in 0..n
        invariant
            n == fl@.len(),
            cs == card_sets(fl@),
            models(out@) == start + flushes_in(cs.subrange(0, j as int), h@),
    {
        assert(cs.subrange(0, j + 1).drop_last() == cs.subrange(0, j as int));
        assert(cs.subrange(0, j + 1).last() == fl@[j as int]@);
        if covers_cards(h, fl[j].as_slice()) {
            let ghost before = out@;
            if fl[j].len() == 5 {
                out.push(PotentialHand::Hand(Hand::Flush(copy_cards(fl[j].as_slice()))));
                assert(models(out@) == models(before).push(
                    PotentialModel::Hand(HandModel::Flush(fl@[j as int]@)),
                ));
            } else {
                out.push(PotentialHand::FlushDraw(copy_cards(fl[j].as_slice())));
                assert(models(out@) == models(before).push(PotentialModel::FlushDraw(fl@[j as int]@)));
            }
        }
    }
    assert(cs.subrange(0, n as int) == cs);
}

fn same_potential_as(a: &PotentialHand, b: &PotentialHand) -> (r: bool)
    ensures
        r == same_potential(a@, b@),
{
    let ca = a.cards();
    let cb = b.cards();
    let same = covers_cards(ca.as_slice(), cb.as_slice()) && covers_cards(cb.as_slice(), ca.as_slice());
    let kind = match (a, b) {
        (PotentialHand::Hand(x), PotentialHand::Hand(y)) => x.category() == y.category(),
        (PotentialHand::StraightDraw(_, s), PotentialHand::StraightDraw(_, t)) => *s == *t,
        (PotentialHand::StraightFlushDraw(_, s), PotentialHand::StraightFlushDraw(_, t)) => *s == *t,
        (PotentialHand::RoyalFlushDraw(_, s), PotentialHand::RoyalFlushDraw(_, t)) => *s == *t,
        (PotentialHand::FlushDraw(_), PotentialHand::FlushDraw(_)) => true,
        (PotentialHand::HighCard(_), PotentialHand::HighCard(_)) => true,
        _ => false,
    };
    same && kind
}

/// Keeps the first of each group of potential hands of one kind over the same cards.
fn distinct_of(l: &Vec<PotentialHand>) -> (r: Vec<PotentialHand>)
    ensures
        models(r@) == distinct_potentials(models(l@)),
{
    let ghost ms = models(l@);
    let mut out: Vec<PotentialHand> = Vec::new();
    let n = l.len();
    assert(ms.subrange(0, 0) == Seq::<PotentialModel>::empty());
    for j in 0..n
        invariant
            n == l@.len(),
            ms == models(l@),
            models(out@) == distinct_potentials(ms.subrange(0, j as int)),
    {
        assert(ms.subrange(0, j + 1).drop_last() == ms.subrange(0, j as int));
        assert(ms.subrange(0, j + 1).last() == l@[j as int]@);
        let ghost mo = models(out@);
        let mut found = false;
        let m = out.len();
        for k in 0..m
            invariant
                m == out@.len(),
                j < n == l@.len(),
                mo == models(out@),
                found == holds_same(mo.subrange(0, k as int), l@[j as int]@),
        {
            assert(mo.subrange(0, k + 1).drop_last() == mo.subrange(0, k as int));
            assert(mo.subrange(0, k + 1).last() == out@[k as int]@);
            if same_potential_as(&out[k], &l[j]) {
                found = true;
            }
        }
        assert(mo.subrange(0, m as int) == mo);
        if !found {
            let ghost before = out@;
            out.push(l[j].duplicate());
            assert(models(out@) == models(before).push(l@[j as int]@));
        }
    }
    assert(ms.subrange(0, n as int) == ms);
    out
}

impl ShowdownEngine {
    fn push_straight_flushes(
        &self,
        out: &mut Vec<PotentialHand>,
        sf: &Vec<(Vec<Card>, StraightDrawType)>,
        made: bool,
    )
        requires
            self.wf(),
        ensures
            models(final(out)@) == models(old(out)@) + if made {
                self.made_straight_flushes(straight_sets(sf@))
            } else {
                self.straight_flush_draws(straight_sets(sf@))
            },
    {
        let ghost ss = straight_sets(sf@);
        let ghost start = models(out@);
        let n = sf.len();
        for j in 0..n
            invariant
                self.wf(),
                n == sf@.len(),
                ss == straight_sets(sf@),
                models(out@) == start + if made {
                    self.made_straight_flushes(ss.subrange(0, j as int))
                } else {
                    self.straight_flush_draws(ss.subrange(0, j as int))
                },
        {
            assert(ss.subrange(0, j + 1).drop_last() == ss.subrange(0, j as int));
            assert(ss.subrange(0, j + 1).last() == (sf@[j as int].0@, sf@[j as int].1));
            let x = sf[j].0.as_slice();
            let t = sf[j].1;
            let ghost before = out@;
            if made && x.len() == 5 {
                if self.royal(x) {
                    out.push(PotentialHand::Hand(Hand::RoyalFlush(copy_cards(x))));
                    assert(models(out@) == models(before).push(
                        PotentialModel::Hand(HandModel::RoyalFlush(x@)),
                    ));
                } else {
                    out.push(PotentialHand::Hand(Hand::StraightFlush(copy_cards(x))));
                    assert(models(out@) == models(before).push(
                        PotentialModel::Hand(HandModel::StraightFlush(x@)),
                    ));
                }
            } else if !made && t != StraightDrawType::Complete {
                let royal = x.len() > 0 && {
                    let top = self.highest_card_value(x);
                    top == self.ordering[12] || top == self.ordering[11]
                };
                if royal {
                    out.push(PotentialHand::RoyalFlushDraw(copy_cards(x), t));
                    assert(models(out@) == models(before).push(
                        PotentialModel::RoyalFlushDraw(x@, t),
                    ));
                } else {
                    out.push(PotentialHand::StraightFlushDraw(copy_cards(x), t));
                    assert(models(out@) == models(before).push(
                        PotentialModel::StraightFlushDraw(x@, t),
                    ));
                }
            }
        }
        assert(ss.subrange(0, n as int) == ss);
    }
}

impl ShowdownEngine {
    /// The potential hands of `hand`, strongest kinds first, each bringing a card
    /// not in an earlier one. Straight shapes are scanned only when `straights`.
    pub fn potential_hands(&self, hand: &[Card], straights: bool) -> (r: Vec<PotentialHand>)
        requires
            self.wf(),
        ensures
            models(r@) == self.potential_spec(hand@, straights),
    {
        let st = if straights {
            self.detect_straights(hand)
        } else {
            Vec::new()
        };
        assert(straight_sets(st@) == self.scanned_straights(hand@, straights));
        let fl = self.detect_flushes(hand);
        let pairs = self.detect_of_a_kind(hand, 2);
        let tk = self.detect_of_a_kind(hand, 3);
        let fk = self.detect_of_a_kind(hand, 4);
        if pairs.len() == 0 && st.len() == 0 && fl.len() == 0 {
            let none: Vec<PotentialHand> = Vec::new();
            assert(models(none@) == Seq::<PotentialModel>::empty());
            return none;
        }
        proof {
            self.lemma_of_a_kind_size(hand@, 3, 13);
            assert forall|i: int| 0 <= i < tk@.len() implies #[trigger] tk@[i]@.len() > 0 by {
                assert(card_sets(tk@)[i] == tk@[i]@);
            }
        }
        let sf = select_straight_flushes(&st);
        let left = select_straights_left(&st, &sf);
        let mut st_left: Vec<(Vec<Card>, StraightDrawType)> = Vec::new();
        assert(straight_sets(st_left@) == Seq::<(Seq<Card>, StraightDrawType)>::empty());
        push_of_size(&mut st_left, &left, 5);
        push_of_size(&mut st_left, &left, 4);
        push_of_size(&mut st_left, &left, 3);
        let fl_left = select_flushes_left(&fl, &sf);
        let g = grouped(&pairs, &tk, &fk);
        let mut l: Vec<PotentialHand> = Vec::new();
        assert(models(l@) == Seq::<PotentialModel>::empty());
        self.push_straight_flushes(&mut l, &sf, true);
        push_strong(&mut l, &g);
        push_flushes(&mut l, &fl_left, true);
        push_straights(&mut l, &st_left, true);
        push_all_hands(&mut l, &g);
        self.push_straight_flushes(&mut l, &sf, false);
        push_flushes(&mut l, &fl_left, false);
        push_straights(&mut l, &st_left, false);
        keep_new(&l)
    }

    fn royal(&self, x: &[Card]) -> (r: bool)
        requires
            self.wf(),
        ensures
            r == self.is_royal(x@),
    {
        x.len() > 0 && self.highest_card_value(x) == self.ordering[12] && has_value_in(
            x,
            self.ordering[11],
        )
    }

    fn straight_flush_hand(&self, x: &[Card], t: StraightDrawType) -> (r: PotentialHand)
        requires
            self.wf(),
        ensures
            r@ == self.straight_flush_model(x@, t),
    {
        let top_ok = x.len() > 0 && self.highest_card_value(x) == self.ordering[12];
        let near_ok = x.len() > 0 && self.highest_card_value(x) == self.ordering[11];
        if t == StraightDrawType::Complete {
            if self.royal(x) {
                PotentialHand::Hand(Hand::RoyalFlush(copy_cards(x)))
            } else {
                PotentialHand::Hand(Hand::StraightFlush(copy_cards(x)))
            }
        } else if top_ok || near_ok {
            PotentialHand::RoyalFlushDraw(copy_cards(x), t)
        } else {
            PotentialHand::StraightFlushDraw(copy_cards(x), t)
        }
    }

    fn push_straight_flushes_in(
        &self,
        out: &mut Vec<PotentialHand>,
        sf: &Vec<(Vec<Card>, StraightDrawType)>,
        h: &[Card],
    )
        requires
            self.wf(),
        ensures
            models(final(out)@) == models(old(out)@) + self.straight_flushes_in(
                straight_sets(sf@),
                h@,
            ),
    {
        let ghost start = models(out@);
        let ghost ss = straight_sets(sf@);
        let n = sf.len();
        for j in 0..n
            invariant
                self.wf(),
                n == sf@.len(),
                ss == straight_sets(sf@),
                models(out@) == start + self.straight_flushes_in(ss.subrange(0, j as int), h@),
        {
            assert(ss.subrange(0, j + 1).drop_last() == ss.subrange(0, j as int));
            assert(ss.subrange(0, j + 1).last() == (sf@[j as int].0@, sf@[j as int].1));
            if covers_cards(h, sf[j].0.as_slice()) {
                let ghost before = out@;
                out.push(self.straight_flush_hand(sf[j].0.as_slice(), sf[j].1));
                assert(models(out@) == models(before).push(
                    self.straight_flush_model(sf@[j as int].0@, sf@[j as int].1),
                ));
            }
        }
        assert(ss.subrange(0, n as int) == ss);
    }

    /// Every potential hand found by a brute-force scan of each combination of
    /// detected shapes, each once. Meant for checking `potential_hands`.
    pub fn all_possible_hands(&self, hand: &[Card], straights: bool) -> (r: Vec<PotentialHand>)
        requires
            self.wf(),
        ensures
            models(r@) == self.all_possible_spec(hand@, straights),
    {
        let st = if straights {
            self.detect_straights(hand)
        } else {
            Vec::new()
        };
        assert(straight_sets(st@) == self.scanned_straights(hand@, straights));
        let fl = self.detect_flushes(hand);
        let pairs = self.detect_of_a_kind(hand, 2);
        let tk = self.detect_of_a_kind(hand, 3);
        let fk = self.detect_of_a_kind(hand, 4);
        let sf = select_straight_flushes(&st);
        let mut combos: Vec<Vec<Card>> = Vec::new();
        assert(card_sets(combos@) == Seq::<Seq<Card>>::empty());
        push_shapes(&mut combos, &st);
        push_sets(&mut combos, &fl);
        push_sets(&mut combos, &fk);
        push_full_house_combos(&mut combos, &tk, &pairs);
        push_sets(&mut combos, &tk);
        push_two_pair_combos(&mut combos, &pairs);
        push_sets(&mut combos, &pairs);
        let ghost cs = card_sets(combos@);
        assert(cs == self.combos(hand@, straights));
        let mut found: Vec<PotentialHand> = Vec::new();
        assert(models(found@) == Seq::<PotentialModel>::empty());
        let n = combos.len();
        for j in 0..n
            invariant
                self.wf(),
                n == combos@.len(),
                cs == card_sets(combos@),
                straight_sets(st@) == self.scanned_straights(hand@, straights),
                card_sets(fl@) == self.flush_sets(hand@),
                card_sets(pairs@) == self.of_a_kind(hand@, 2),
                card_sets(tk@) == self.of_a_kind(hand@, 3),
                card_sets(fk@) == self.of_a_kind(hand@, 4),
                straight_sets(sf@) == straight_flush_sets(straight_sets(st@)),
                models(found@) == self.found_upto(hand@, straights, cs.subrange(0, j as int)),
        {
            assert(cs.subrange(0, j + 1).drop_last() == cs.subrange(0, j as int));
            assert(cs.subrange(0, j + 1).last() == combos@[j as int]@);
            let h = combos[j].as_slice();
            let ghost before = models(found@);
            push_fours_in(&mut found, &fk, h);
            push_threes_in(&mut found, &tk, &pairs, h);
            push_pairs_in(&mut found, &pairs, h);
            push_straights_in(&mut found, &st, h);
            push_flushes_in(&mut found, &fl, h);
            self.push_straight_flushes_in(&mut found, &sf, h);
            assert(models(found@) == before + self.found_in(hand@, straights, combos@[j as int]@));
        }
        assert(cs.subrange(0, n as int) == cs);
        distinct_of(&found)
    }

    /// As `process_hand`, choosing among all potential hands of the brute-force scan.
    pub fn process_hand_all(&self, hand: &[Card]) -> (r: PotentialHand)
        requires
            self.wf(),
            hand@.len() > 0,
        ensures
            r@ == self.pick(
                self.all_possible_spec(self.canonical(hand@), true),
                self.canonical(hand@),
            ),
    {
        proof {
            self.lemma_canonical_non_empty(hand@);
        }
        let hand = self.canonical_hand(hand);
        let hands = self.all_possible_hands(hand.as_slice(), true);
        self.pick_best(&hands, &hand)
    }

    /// As `process_hand_all`, without scanning for straights.
    pub fn process_hand_no_straight_all(&self, hand: &[Card]) -> (r: PotentialHand)
        requires
            self.wf(),
            hand@.len() > 0,
        ensures
            r@ == self.pick(
                self.all_possible_spec(self.canonical(hand@), false),
                self.canonical(hand@),
            ),
    {
        proof {
            self.lemma_canonical_non_empty(hand@);
        }
        let hand = self.canonical_hand(hand);
        let hands = self.all_possible_hands(hand.as_slice(), false);
        self.pick_best(&hands, &hand)
    }

    /// The last greatest potential hand of `l`, if any.
    fn best_potential(&self, l: &Vec<PotentialHand>) -> (r: Option<PotentialHand>)
        requires
            self.wf(),
        ensures
            match r {
                None => self.best_of(models(l@)) is None,
                Some(x) => self.best_of(models(l@)) == Some(x@),
            },
    {
        let ghost ms = models(l@);
        let mut best: Option<PotentialHand> = None;
        let n = l.len();
        for j in 0..n
            invariant
                self.wf(),
                n == l@.len(),
                ms == models(l@),
                match best {
                    None => self.best_of(ms.subrange(0, j as int)) is None,
                    Some(x) => self.best_of(ms.subrange(0, j as int)) == Some(x@),
                },
        {
            assert(ms.subrange(0, j + 1).drop_last() == ms.subrange(0, j as int));
            assert(ms.subrange(0, j + 1).last() == l@[j as int]@);
            best = match best {
                None => Some(l[j].duplicate()),
                Some(b) => if matches!(self.compare_potential_hands(&b, &l[j]), Ordering::Greater) {
                    Some(b)
                } else {
                    Some(l[j].duplicate())
                },
            };
        }
        assert(ms.subrange(0, n as int) == ms);
        best
    }

    fn pick_best(&self, l: &Vec<PotentialHand>, hand: &Vec<Card>) -> (r: PotentialHand)
        requires
            self.wf(),
            hand@.len() > 0,
        ensures
            r@ == self.pick(models(l@), hand@),
    {
        match self.best_potential(l) {
            Some(b) => b,
            None => PotentialHand::HighCard(self.highest_card(hand.as_slice())),
        }
    }

    /// The best potential hand of the cards of `hand`, whatever their order and
    /// repeats, with straights scanned; the highest card when nothing else is found.
    pub fn process_hand(&self, hand: &[Card]) -> (r: PotentialHand)
        requires
            self.wf(),
            hand@.len() > 0,
        ensures
            r@ == self.process_spec(hand@, true),
    {
        proof {
            self.lemma_canonical_non_empty(hand@);
        }
        let hand = self.canonical_hand(hand);
        let hands = self.potential_hands(hand.as_slice(), true);
        self.pick_best(&hands, &hand)
    }

    /// As `process_hand`, without scanning for straights.
    pub fn process_hand_no_straight(&self, hand: &[Card]) -> (r: PotentialHand)
        requires
            self.wf(),
            hand@.len() > 0,
        ensures
            r@ == self.process_spec(hand@, false),
    {
        proof {
            self.lemma_canonical_non_empty(hand@);
        }
        let hand = self.canonical_hand(hand);
        let hands = self.potential_hands(hand.as_slice(), false);
        self.pick_best(&hands, &hand)
    }
}

impl ShowdownEngine {
    /// The card of rank `r` and scan suit `q`.
    pub open spec fn card_at(self, r: int, q: int) -> Card {
        Card { value: self.ordering[r], suit: scan_suit(q) }
    }

    /// The cards of rank `r` in `s`, over the first `q` suits in scan order.
    pub open spec fn suits_upto(self, s: Seq<Card>, r: int, q: int) -> Seq<Card>
        decreases q,
    {
        if q <= 0 {
            Seq::empty()
        } else {
            self.suits_upto(s, r, q - 1) + if s.contains(self.card_at(r, q - 1)) {
                seq![self.card_at(r, q - 1)]
            } else {
                Seq::empty()
            }
        }
    }

    pub open spec fn canonical_upto(self, s: Seq<Card>, r: int) -> Seq<Card>
        decreases r,
    {
        if r <= 0 {
            Seq::empty()
        } else {
            self.canonical_upto(s, r - 1) + self.suits_upto(s, r - 1, 4)
        }
    }

    /// The distinct cards of `s`, by rank from the lowest and then by suit.
    pub open spec fn canonical(self, s: Seq<Card>) -> Seq<Card> {
        self.canonical_upto(s, 13)
    }

    /// What `process_hand` (or, with `straights` off, `process_hand_no_straight`)
    /// returns for `s`.
    pub open spec fn process_spec(self, s: Seq<Card>, straights: bool) -> PotentialModel {
        self.pick(self.potential_spec(self.canonical(s), straights), self.canonical(s))
    }

    proof fn lemma_canonical_same(self, s: Seq<Card>, p: Seq<Card>, r: int)
        requires
            forall|c: Card| s.contains(c) <==> p.contains(c),
        ensures
            self.canonical_upto(s, r) == self.canonical_upto(p, r),
        decreases r,
    {
        if r > 0 {
            self.lemma_canonical_same(s, p, r - 1);
            self.lemma_suits_same(s, p, r - 1, 4);
        }
    }

    proof fn lemma_suits_same(self, s: Seq<Card>, p: Seq<Card>, r: int, q: int)
        requires
            forall|c: Card| s.contains(c) <==> p.contains(c),
        ensures
            self.suits_upto(s, r, q) == self.suits_upto(p, r, q),
        decreases q,
    {
        if q > 0 {
            self.lemma_suits_same(s, p, r, q - 1);
        }
    }

    proof fn lemma_suits_non_empty(self, s: Seq<Card>, r: int, q: int, q0: int)
        requires
            0 <= q0 < q,
            s.contains(self.card_at(r, q0)),
        ensures
            self.suits_upto(s, r, q).len() > 0,
        decreases q,
    {
        if q0 < q - 1 {
            self.lemma_suits_non_empty(s, r, q - 1, q0);
        }
    }

    proof fn lemma_canonical_upto_non_empty(self, s: Seq<Card>, r: int, r0: int, q0: int)
        requires
            0 <= r0 < r,
            0 <= q0 < 4,
            s.contains(self.card_at(r0, q0)),
        ensures
            self.canonical_upto(s, r).len() > 0,
        decreases r,
    {
        if r0 < r - 1 {
            self.lemma_canonical_upto_non_empty(s, r - 1, r0, q0);
        } else {
            self.lemma_suits_non_empty(s, r0, 4, q0);
        }
    }

    /// A non-empty hand has a non-empty canonical form.
    pub proof fn lemma_canonical_non_empty(self, s: Seq<Card>)
        requires
            self.wf(),
            s.len() > 0,
        ensures
            self.canonical(s).len() > 0,
    {
        let c = s[0];
        self.lemma_rank_range(c.value);
        let q0: int = if c.suit == CardSuit::Spades {
            0
        } else if c.suit == CardSuit::Hearts {
            1
        } else if c.suit == CardSuit::Clubs {
            2
        } else {
            3
        };
        assert(self.card_at(self.rank(c.value), q0) == c);
        assert(s.contains(c));
        self.lemma_canonical_upto_non_empty(s, 13, self.rank(c.value), q0);
    }

    /// The cards of `hand`, each once, by rank and then by suit.
    fn canonical_hand(&self, hand: &[Card]) -> (r: Vec<Card>)
        requires
            self.wf(),
        ensures
            r@ == self.canonical(hand@),
    {
        let suits = [CardSuit::Spades, CardSuit::Hearts, CardSuit::Clubs, CardSuit::Diamonds];
        let mut out: Vec<Card> = Vec::new();
        for r in 0..13
            invariant
                suits@ == seq![CardSuit::Spades, CardSuit::Hearts, CardSuit::Clubs, CardSuit::Diamonds],
                out@ == self.canonical_upto(hand@, r as int),
        {
            let ghost start = out@;
            for q in 0..4
                invariant
                    r < 13,
                    suits@ == seq![CardSuit::Spades, CardSuit::Hearts, CardSuit::Clubs, CardSuit::Diamonds],
                    out@ == start + self.suits_upto(hand@, r as int, q as int),
            {
                let c = Card { value: self.ordering[r], suit: suits[q] };
                assert(c == self.card_at(r as int, q as int));
                if contains_card(hand, c) {
                    out.push(c);
                }
            }
        }
        out
    }
}

/// The best potential hand does not depend on the order of the cards: any
/// rearrangement of the input gives the same result.
pub proof fn lemma_process_hand_permutation(
    e: ShowdownEngine,
    s: Seq<Card>,
    p: Seq<Card>,
    straights: bool,
)
    requires
        s.to_multiset() == p.to_multiset(),
    ensures
        e.process_spec(s, straights) == e.process_spec(p, straights),
        e.canonical(s) == e.canonical(p),
{
    s.to_multiset_ensures();
    p.to_multiset_ensures();
    assert forall|c: Card| s.contains(c) <==> p.contains(c) by {
        assert(s.contains(c) <==> s.to_multiset().count(c) > 0);
        assert(p.contains(c) <==> p.to_multiset().count(c) > 0);
        assert(s.to_multiset().count(c) == p.to_multiset().count(c));
    }
    e.lemma_canonical_same(s, p, 13);
}

/// Whether a potential hand is a straight of some kind or a draw to one.
pub open spec fn is_straight_kind(p: PotentialModel) -> bool {
    match p {
        PotentialModel::Hand(h) => h is Straight || h is StraightFlush || h is RoyalFlush,
        PotentialModel::StraightDraw(..) => true,
        PotentialModel::StraightFlushDraw(..) => true,
        PotentialModel::RoyalFlushDraw(..) => true,
        _ => false,
    }
}

/// Whether a potential hand is a straight flush, a royal flush or a draw to one.
pub open spec fn is_straight_flush_kind(p: PotentialModel) -> bool {
    match p {
        PotentialModel::Hand(h) => h is StraightFlush || h is RoyalFlush,
        PotentialModel::StraightFlushDraw(..) => true,
        PotentialModel::RoyalFlushDraw(..) => true,
        _ => false,
    }
}

/// Whether a made hand is one of the groups of equal values.
pub open spec fn is_group(h: HandModel) -> bool {
    h is FourOfAKind || h is FullHouse || h is ThreeOfAKind || h is TwoPair || h is Pair
}

proof fn lemma_kept_keeps(l: Seq<PotentialModel>, pred: spec_fn(PotentialModel) -> bool)
    requires
        forall|i: int| 0 <= i < l.len() ==> pred(#[trigger] l[i]),
    ensures
        forall|i: int| 0 <= i < kept(l).len() ==> pred(#[trigger] kept(l)[i]),
    decreases l.len(),
{
    if l.len() > 0 {
        let d = l.drop_last();
        assert forall|i: int| 0 <= i < d.len() implies pred(#[trigger] d[i]) by {
            assert(d[i] == l[i]);
        }
        lemma_kept_keeps(d, pred);
        let kd = kept(d);
        assert forall|i: int| 0 <= i < kept(l).len() implies pred(#[trigger] kept(l)[i]) by {
            if i < kd.len() {
                assert(kept(l)[i] == kd[i]);
            } else {
                assert(kept(l)[i] == l[l.len() - 1]);
            }
        }
    }
}

proof fn lemma_triples_grouped(tk: Seq<Seq<Card>>, p0: Seq<Card>, p1: Seq<Card>)
    ensures
        forall|i: int| 0 <= i < triple_hands(tk, p0, p1).len() ==> is_group(
            #[trigger] triple_hands(tk, p0, p1)[i],
        ),
    decreases tk.len(),
{
    if tk.len() > 0 {
        lemma_triples_grouped(tk.drop_last(), p0, p1);
        let prev = triple_hands(tk.drop_last(), p0, p1);
        let all = triple_hands(tk, p0, p1);
        assert forall|i: int| 0 <= i < all.len() implies is_group(#[trigger] all[i]) by {
            if i < prev.len() {
                assert(all[i] == prev[i]);
            }
        }
    }
}

proof fn lemma_pairs_grouped(pairs: Seq<Seq<Card>>, tk: Seq<Seq<Card>>, fk: Seq<Seq<Card>>, n: int)
    requires
        n <= pairs.len(),
    ensures
        forall|i: int| 0 <= i < pair_hands_upto(pairs, tk, fk, n).len() ==> is_group(
            #[trigger] pair_hands_upto(pairs, tk, fk, n)[i],
        ),
    decreases n,
{
    if n > 1 {
        lemma_pairs_grouped(pairs, tk, fk, n - 1);
        let p0 = pairs[n - 2];
        let p1 = pairs[n - 1];
        lemma_triples_grouped(tk, p0, p1);
        let prev = pair_hands_upto(pairs, tk, fk, n - 1);
        let fours = fk.map_values(|k: Seq<Card>| HandModel::FourOfAKind(k));
        let threes = triple_hands(tk, p0, p1);
        let last = seq![
            HandModel::TwoPair(card_union(p0, p1)),
            HandModel::Pair(p0),
            HandModel::Pair(p1),
        ];
        let all = pair_hands_upto(pairs, tk, fk, n);
        assert(all == prev + (fours + threes + last));
        assert forall|i: int| 0 <= i < all.len() implies is_group(#[trigger] all[i]) by {
            if i < prev.len() {
                assert(all[i] == prev[i]);
            } else if i < prev.len() + fours.len() {
                assert(all[i] == fours[i - prev.len()]);
            } else if i < prev.len() + fours.len() + threes.len() {
                assert(all[i] == threes[i - prev.len() - fours.len()]);
            } else {
                assert(all[i] == last[i - prev.len() - fours.len() - threes.len()]);
            }
        }
    }
}

proof fn lemma_grouped(pairs: Seq<Seq<Card>>, tk: Seq<Seq<Card>>, fk: Seq<Seq<Card>>)
    ensures
        forall|i: int| 0 <= i < grouped_hands(pairs, tk, fk).len() ==> is_group(
            #[trigger] grouped_hands(pairs, tk, fk)[i],
        ),
{
    if pairs.len() > 1 {
        lemma_pairs_grouped(pairs, tk, fk, pairs.len() as int);
    }
}

proof fn lemma_strong_made(hs: Seq<HandModel>)
    ensures
        forall|i: int| 0 <= i < strong_hands(hs).len() ==> ((#[trigger] strong_hands(hs)[i]) matches PotentialModel::Hand(h) && is_group(h)),
    decreases hs.len(),
{
    if hs.len() > 0 {
        lemma_strong_made(hs.drop_last());
    }
}

proof fn lemma_flush_parts(fl: Seq<Seq<Card>>)
    ensures
        forall|i: int| 0 <= i < flush_hands(fl).len() ==> (#[trigger] flush_hands(fl)[i]) matches PotentialModel::Hand(HandModel::Flush(_)),
        forall|i: int| 0 <= i < flush_draws(fl).len() ==> (#[trigger] flush_draws(fl)[i]) is FlushDraw,
    decreases fl.len(),
{
    if fl.len() > 0 {
        lemma_flush_parts(fl.drop_last());
    }
}

proof fn lemma_straight_parts(e: ShowdownEngine, st: Seq<(Seq<Card>, StraightDrawType)>)
    ensures
        forall|i: int| 0 <= i < straight_hands(st).len() ==> (#[trigger] straight_hands(st)[i]) matches PotentialModel::Hand(HandModel::Straight(_)),
        forall|i: int| 0 <= i < straight_draws(st).len() ==> (#[trigger] straight_draws(st)[i]) is StraightDraw,
        forall|i: int| 0 <= i < e.made_straight_flushes(st).len() ==> is_straight_flush_kind(#[trigger] e.made_straight_flushes(st)[i]),
        forall|i: int| 0 <= i < e.straight_flush_draws(st).len() ==> is_straight_flush_kind(#[trigger] e.straight_flush_draws(st)[i]),
    decreases st.len(),
{
    if st.len() > 0 {
        lemma_straight_parts(e, st.drop_last());
        let pa = e.made_straight_flushes(st.drop_last());
        let a = e.made_straight_flushes(st);
        assert forall|i: int| 0 <= i < a.len() implies is_straight_flush_kind(#[trigger] a[i]) by {
            if i < pa.len() {
                assert(a[i] == pa[i]);
            }
        }
        let pb = e.straight_flush_draws(st.drop_last());
        let b = e.straight_flush_draws(st);
        assert forall|i: int| 0 <= i < b.len() implies is_straight_flush_kind(#[trigger] b[i]) by {
            if i < pb.len() {
                assert(b[i] == pb[i]);
            }
        }
    }
}

/// The potential hands are never a bare high card; and with straights off none
/// of them is a straight, a straight flush or a draw to one.
pub proof fn lemma_potential_kinds(e: ShowdownEngine, s: Seq<Card>, straights: bool)
    ensures
        forall|i: int| 0 <= i < e.potential_spec(s, straights).len() ==> !(#[trigger] e.potential_spec(s, straights)[i] is HighCard),
        !straights ==> forall|i: int| 0 <= i < e.potential_spec(s, false).len() ==> !is_straight_kind(#[trigger] e.potential_spec(s, false)[i]),
{
    let st = e.scanned_straights(s, straights);
    let fl = e.flush_sets(s);
    let sf = straight_flush_sets(st);
    let st_left = by_size(straights_left(st, sf));
    let fl_left = flushes_left(fl, sf);
    let grouped = grouped_hands(e.of_a_kind(s, 2), e.of_a_kind(s, 3), e.of_a_kind(s, 4));
    lemma_grouped(e.of_a_kind(s, 2), e.of_a_kind(s, 3), e.of_a_kind(s, 4));
    lemma_strong_made(grouped);
    lemma_flush_parts(fl_left);
    lemma_straight_parts(e, st_left);
    lemma_straight_parts(e, sf);
    let l = e.ranked_candidates(s, straights);
    let a = e.made_straight_flushes(sf);
    let b = strong_hands(grouped);
    let c = flush_hands(fl_left);
    let d = straight_hands(st_left);
    let g = all_as_potential(grouped);
    let h = e.straight_flush_draws(sf);
    let f = flush_draws(fl_left);
    let k = straight_draws(st_left);
    assert(l == a + b + c + d + g + h + f + k);
    let parts_ok = |p: PotentialModel| !(p is HighCard) && (!straights ==> !is_straight_kind(p));
    if !straights {
        assert(st.len() == 0);
        assert(sf =~= Seq::<(Seq<Card>, StraightDrawType)>::empty());
        assert(straights_left(st, sf).len() == 0);
        assert(of_size(straights_left(st, sf), 5).len() == 0);
        assert(of_size(straights_left(st, sf), 4).len() == 0);
        assert(of_size(straights_left(st, sf), 3).len() == 0);
        assert(st_left.len() == 0);
        assert(a.len() == 0 && d.len() == 0 && h.len() == 0 && k.len() == 0);
    }
    assert forall|i: int| 0 <= i < l.len() implies parts_ok(#[trigger] l[i]) by {
        if i < a.len() {
            assert(l[i] == a[i]);
            assert(is_straight_flush_kind(a[i]));
        } else if i < a.len() + b.len() {
            assert(l[i] == b[i - a.len()]);
        } else if i < a.len() + b.len() + c.len() {
            assert(l[i] == c[i - a.len() - b.len()]);
        } else if i < a.len() + b.len() + c.len() + d.len() {
            assert(l[i] == d[i - a.len() - b.len() - c.len()]);
        } else if i < a.len() + b.len() + c.len() + d.len() + g.len() {
            let j = i - a.len() - b.len() - c.len() - d.len();
            assert(l[i] == g[j]);
            assert(g[j] == PotentialModel::Hand(grouped[j]));
        } else if i < a.len() + b.len() + c.len() + d.len() + g.len() + h.len() {
            let j = i - a.len() - b.len() - c.len() - d.len() - g.len();
            assert(l[i] == h[j]);
            assert(is_straight_flush_kind(h[j]));
        } else if i < a.len() + b.len() + c.len() + d.len() + g.len() + h.len() + f.len() {
            assert(l[i] == f[i - a.len() - b.len() - c.len() - d.len() - g.len() - h.len()]);
        } else {
            assert(l[i] == k[i - a.len() - b.len() - c.len() - d.len() - g.len() - h.len()
                - f.len()]);
        }
    }
    lemma_kept_keeps(l, parts_ok);
}

/// The cards of a straight, a flush or a draw to one; empty for other kinds.
pub open spec fn shape_cards(p: PotentialModel) -> Option<Seq<Card>> {
    match p {
        PotentialModel::Hand(HandModel::Straight(x)) => Some(x),
        PotentialModel::Hand(HandModel::Flush(x)) => Some(x),
        PotentialModel::StraightDraw(x, _) => Some(x),
        PotentialModel::FlushDraw(x) => Some(x),
        _ => None,
    }
}

/// Whether `p`, if a straight, a flush or a draw to one, lies outside every
/// straight flush of `sf`.
pub open spec fn not_under(sf: Seq<(Seq<Card>, StraightDrawType)>, p: PotentialModel) -> bool {
    shape_cards(p) matches Some(x) ==> !under_straight_flush(sf, x)
}

proof fn lemma_straights_left_outside(
    st: Seq<(Seq<Card>, StraightDrawType)>,
    sf: Seq<(Seq<Card>, StraightDrawType)>,
)
    ensures
        forall|i: int| 0 <= i < straights_left(st, sf).len() ==> !under_straight_flush(sf, (#[trigger] straights_left(st, sf)[i]).0),
    decreases st.len(),
{
    if st.len() > 0 {
        lemma_straights_left_outside(st.drop_last(), sf);
        let p = straights_left(st.drop_last(), sf);
        let a = straights_left(st, sf);
        assert forall|i: int| 0 <= i < a.len() implies !under_straight_flush(sf, (#[trigger] a[i]).0) by {
            if i < p.len() {
                assert(a[i] == p[i]);
            }
        }
    }
}

proof fn lemma_of_size_outside(
    st: Seq<(Seq<Card>, StraightDrawType)>,
    sf: Seq<(Seq<Card>, StraightDrawType)>,
    n: int,
)
    requires
        forall|i: int| 0 <= i < st.len() ==> !under_straight_flush(sf, (#[trigger] st[i]).0),
    ensures
        forall|i: int| 0 <= i < of_size(st, n).len() ==> !under_straight_flush(sf, (#[trigger] of_size(st, n)[i]).0),
    decreases st.len(),
{
    if st.len() > 0 {
        let d = st.drop_last();
        assert forall|i: int| 0 <= i < d.len() implies !under_straight_flush(sf, (#[trigger] d[i]).0) by {
            assert(d[i] == st[i]);
        }
        lemma_of_size_outside(d, sf, n);
        let p = of_size(d, n);
        let a = of_size(st, n);
        assert forall|i: int| 0 <= i < a.len() implies !under_straight_flush(sf, (#[trigger] a[i]).0) by {
            if i < p.len() {
                assert(a[i] == p[i]);
            } else {
                assert(a[i] == st[st.len() - 1]);
            }
        }
    }
}

proof fn lemma_flushes_left_outside(fl: Seq<Seq<Card>>, sf: Seq<(Seq<Card>, StraightDrawType)>)
    ensures
        forall|i: int| 0 <= i < flushes_left(fl, sf).len() ==> !under_straight_flush(sf, #[trigger] flushes_left(fl, sf)[i]),
    decreases fl.len(),
{
    if fl.len() > 0 {
        lemma_flushes_left_outside(fl.drop_last(), sf);
        let p = flushes_left(fl.drop_last(), sf);
        let a = flushes_left(fl, sf);
        assert forall|i: int| 0 <= i < a.len() implies !under_straight_flush(sf, #[trigger] a[i]) by {
            if i < p.len() {
                assert(a[i] == p[i]);
            }
        }
    }
}

proof fn lemma_straight_results_outside(
    st: Seq<(Seq<Card>, StraightDrawType)>,
    sf: Seq<(Seq<Card>, StraightDrawType)>,
)
    requires
        forall|i: int| 0 <= i < st.len() ==> !under_straight_flush(sf, (#[trigger] st[i]).0),
    ensures
        forall|i: int| 0 <= i < straight_hands(st).len() ==> not_under(sf, #[trigger] straight_hands(st)[i]),
        forall|i: int| 0 <= i < straight_draws(st).len() ==> not_under(sf, #[trigger] straight_draws(st)[i]),
    decreases st.len(),
{
    if st.len() > 0 {
        let d = st.drop_last();
        assert forall|i: int| 0 <= i < d.len() implies !under_straight_flush(sf, (#[trigger] d[i]).0) by {
            assert(d[i] == st[i]);
        }
        lemma_straight_results_outside(d, sf);
        let (p, a) = (straight_hands(d), straight_hands(st));
        assert forall|i: int| 0 <= i < a.len() implies not_under(sf, #[trigger] a[i]) by {
            if i < p.len() {
                assert(a[i] == p[i]);
            }
        }
        let (q, b) = (straight_draws(d), straight_draws(st));
        assert forall|i: int| 0 <= i < b.len() implies not_under(sf, #[trigger] b[i]) by {
            if i < q.len() {
                assert(b[i] == q[i]);
            }
        }
    }
}

proof fn lemma_flush_results_outside(fl: Seq<Seq<Card>>, sf: Seq<(Seq<Card>, StraightDrawType)>)
    requires
        forall|i: int| 0 <= i < fl.len() ==> !under_straight_flush(sf, #[trigger] fl[i]),
    ensures
        forall|i: int| 0 <= i < flush_hands(fl).len() ==> not_under(sf, #[trigger] flush_hands(fl)[i]),
        forall|i: int| 0 <= i < flush_draws(fl).len() ==> not_under(sf, #[trigger] flush_draws(fl)[i]),
    decreases fl.len(),
{
    if fl.len() > 0 {
        let d = fl.drop_last();
        assert forall|i: int| 0 <= i < d.len() implies !under_straight_flush(sf, #[trigger] d[i]) by {
            assert(d[i] == fl[i]);
        }
        lemma_flush_results_outside(d, sf);
        let (p, a) = (flush_hands(d), flush_hands(fl));
        assert forall|i: int| 0 <= i < a.len() implies not_under(sf, #[trigger] a[i]) by {
            if i < p.len() {
                assert(a[i] == p[i]);
            }
        }
        let (q, b) = (flush_draws(d), flush_draws(fl));
        assert forall|i: int| 0 <= i < b.len() implies not_under(sf, #[trigger] b[i]) by {
            if i < q.len() {
                assert(b[i] == q[i]);
            }
        }
    }
}

/// A straight flush suppresses what it covers: no straight, flush or draw to one
/// among the potential hands has all its cards inside a straight flush.
pub proof fn lemma_straight_flush_suppresses(e: ShowdownEngine, s: Seq<Card>, straights: bool)
    ensures
        forall|i: int| 0 <= i < e.potential_spec(s, straights).len() ==> not_under(
            straight_flush_sets(e.scanned_straights(s, straights)),
            #[trigger] e.potential_spec(s, straights)[i],
        ),
{
    let st = e.scanned_straights(s, straights);
    let fl = e.flush_sets(s);
    let sf = straight_flush_sets(st);
    let left = straights_left(st, sf);
    let st_left = by_size(left);
    let fl_left = flushes_left(fl, sf);
    let grouped = grouped_hands(e.of_a_kind(s, 2), e.of_a_kind(s, 3), e.of_a_kind(s, 4));
    lemma_straights_left_outside(st, sf);
    lemma_of_size_outside(left, sf, 5);
    lemma_of_size_outside(left, sf, 4);
    lemma_of_size_outside(left, sf, 3);
    let (s5, s4, s3) = (of_size(left, 5), of_size(left, 4), of_size(left, 3));
    assert forall|i: int| 0 <= i < st_left.len() implies !under_straight_flush(sf, (#[trigger] st_left[i]).0) by {
        if i < s5.len() {
            assert(st_left[i] == s5[i]);
        } else if i < s5.len() + s4.len() {
            assert(st_left[i] == s4[i - s5.len()]);
        } else {
            assert(st_left[i] == s3[i - s5.len() - s4.len()]);
        }
    }
    lemma_flushes_left_outside(fl, sf);
    lemma_straight_results_outside(st_left, sf);
    lemma_flush_results_outside(fl_left, sf);
    lemma_grouped(e.of_a_kind(s, 2), e.of_a_kind(s, 3), e.of_a_kind(s, 4));
    lemma_strong_made(grouped);
    lemma_straight_parts(e, sf);
    let l = e.ranked_candidates(s, straights);
    let a = e.made_straight_flushes(sf);
    let b = strong_hands(grouped);
    let c = flush_hands(fl_left);
    let d = straight_hands(st_left);
    let g = all_as_potential(grouped);
    let h = e.straight_flush_draws(sf);
    let f = flush_draws(fl_left);
    let k = straight_draws(st_left);
    assert(l == a + b + c + d + g + h + f + k);
    let ok = |p: PotentialModel| not_under(sf, p);
    assert forall|i: int| 0 <= i < l.len() implies ok(#[trigger] l[i]) by {
        if i < a.len() {
            assert(l[i] == a[i]);
            assert(is_straight_flush_kind(a[i]));
        } else if i < a.len() + b.len() {
            assert(l[i] == b[i - a.len()]);
        } else if i < a.len() + b.len() + c.len() {
            assert(l[i] == c[i - a.len() - b.len()]);
        } else if i < a.len() + b.len() + c.len() + d.len() {
            assert(l[i] == d[i - a.len() - b.len() - c.len()]);
        } else if i < a.len() + b.len() + c.len() + d.len() + g.len() {
            let j = i - a.len() - b.len() - c.len() - d.len();
            assert(l[i] == g[j]);
            assert(g[j] == PotentialModel::Hand(grouped[j]));
        } else if i < a.len() + b.len() + c.len() + d.len() + g.len() + h.len() {
            let j = i - a.len() - b.len() - c.len() - d.len() - g.len();
            assert(l[i] == h[j]);
            assert(is_straight_flush_kind(h[j]));
        } else if i < a.len() + b.len() + c.len() + d.len() + g.len() + h.len() + f.len() {
            assert(l[i] == f[i - a.len() - b.len() - c.len() - d.len() - g.len() - h.len()]);
        } else {
            assert(l[i] == k[i - a.len() - b.len() - c.len() - d.len() - g.len() - h.len()
                - f.len()]);
        }
    }
    lemma_kept_keeps(l, ok);
}

/// Whether every card of `x` is in `s`.
pub open spec fn within(x: Seq<Card>, s: Seq<Card>) -> bool {
    forall|i: int| 0 <= i < x.len() ==> s.contains(#[trigger] x[i])
}

/// Whether every set of `xs` lies within `s`.
pub open spec fn all_within(xs: Seq<Seq<Card>>, s: Seq<Card>) -> bool {
    forall|i: int| 0 <= i < xs.len() ==> within(#[trigger] xs[i], s)
}

/// Whether every straight candidate of `st` lies within `s`.
pub open spec fn shapes_within(st: Seq<(Seq<Card>, StraightDrawType)>, s: Seq<Card>) -> bool {
    forall|i: int| 0 <= i < st.len() ==> within((#[trigger] st[i]).0, s)
}

proof fn lemma_within_prefix(x: Seq<Card>, s: Seq<Card>)
    requires
        s.len() > 0,
        within(x, s.drop_last()),
    ensures
        within(x, s),
{
    assert forall|i: int| 0 <= i < x.len() implies s.contains(#[trigger] x[i]) by {
        let j = choose|j: int| 0 <= j < s.drop_last().len() && s.drop_last()[j] == x[i];
        assert(s[j] == x[i]);
    }
}

proof fn lemma_within_push(x: Seq<Card>, s: Seq<Card>)
    requires
        s.len() > 0,
        within(x, s.drop_last()),
    ensures
        within(x.push(s.last()), s),
{
    lemma_within_prefix(x, s);
    assert(s[s.len() - 1] == s.last());
    assert forall|i: int| 0 <= i < x.push(s.last()).len() implies s.contains(#[trigger] x.push(s.last())[i]) by {
        if i < x.len() {
            assert(x.push(s.last())[i] == x[i]);
        }
    }
}

proof fn lemma_within_trans(x: Seq<Card>, t: Seq<Card>, s: Seq<Card>)
    requires
        within(x, t),
        within(t, s),
    ensures
        within(x, s),
{
    assert forall|i: int| 0 <= i < x.len() implies s.contains(#[trigger] x[i]) by {
        let j = choose|j: int| 0 <= j < t.len() && t[j] == x[i];
        assert(s.contains(t[j]));
    }
}

proof fn lemma_rank_bin_within(e: ShowdownEngine, s: Seq<Card>, r: int)
    ensures
        within(e.rank_bin(s, r), s),
    decreases s.len(),
{
    if s.len() > 0 {
        lemma_rank_bin_within(e, s.drop_last(), r);
        if e.rank(s.last().value) == r {
            lemma_within_push(e.rank_bin(s.drop_last(), r), s);
        } else {
            lemma_within_prefix(e.rank_bin(s.drop_last(), r), s);
        }
    }
}

proof fn lemma_suit_bin_within(s: Seq<Card>, u: CardSuit)
    ensures
        within(crate::showdown::suit_bin(s, u), s),
    decreases s.len(),
{
    if s.len() > 0 {
        lemma_suit_bin_within(s.drop_last(), u);
        if s.last().suit == u {
            lemma_within_push(crate::showdown::suit_bin(s.drop_last(), u), s);
        } else {
            lemma_within_prefix(crate::showdown::suit_bin(s.drop_last(), u), s);
        }
    }
}

proof fn lemma_windows_within(b: Seq<Card>, k: int, s: Seq<Card>)
    requires
        within(b, s),
        k >= 0,
    ensures
        all_within(crate::showdown::windows(b, k), s),
{
    let w = crate::showdown::windows(b, k);
    assert forall|i: int| 0 <= i < w.len() implies within(#[trigger] w[i], s) by {
        assert(w[i] == b.subrange(i, i + k));
        assert forall|j: int| 0 <= j < w[i].len() implies s.contains(#[trigger] w[i][j]) by {
            assert(w[i][j] == b[i + j]);
        }
    }
}

proof fn lemma_all_within_concat(a: Seq<Seq<Card>>, b: Seq<Seq<Card>>, s: Seq<Card>)
    requires
        all_within(a, s),
        all_within(b, s),
    ensures
        all_within(a + b, s),
{
    assert forall|i: int| 0 <= i < (a + b).len() implies within(#[trigger] (a + b)[i], s) by {
        if i < a.len() {
            assert((a + b)[i] == a[i]);
        } else {
            assert((a + b)[i] == b[i - a.len()]);
        }
    }
}

proof fn lemma_kinds_within(e: ShowdownEngine, s: Seq<Card>, k: int, n: int)
    requires
        k >= 0,
    ensures
        all_within(e.kinds_upto(s, k, n), s),
    decreases n,
{
    if n > 0 {
        lemma_kinds_within(e, s, k, n - 1);
        lemma_rank_bin_within(e, s, n - 1);
        lemma_windows_within(e.rank_bin(s, n - 1), k, s);
        lemma_all_within_concat(e.kinds_upto(s, k, n - 1), crate::showdown::windows(e.rank_bin(s, n - 1), k), s);
    }
}

proof fn lemma_ranks_within(e: ShowdownEngine, t: Seq<Card>, n: int)
    ensures
        within(e.ranks_upto(t, n), t),
    decreases n,
{
    if n > 0 {
        lemma_ranks_within(e, t, n - 1);
        lemma_rank_bin_within(e, t, n - 1);
        let a = e.ranks_upto(t, n - 1);
        let b = e.rank_bin(t, n - 1);
        assert forall|i: int| 0 <= i < (a + b).len() implies t.contains(#[trigger] (a + b)[i]) by {
            if i < a.len() {
                assert((a + b)[i] == a[i]);
            } else {
                assert((a + b)[i] == b[i - a.len()]);
            }
        }
    }
}

proof fn lemma_flushes_within(e: ShowdownEngine, s: Seq<Card>, n: int)
    ensures
        all_within(e.flushes_upto(s, n), s),
    decreases n,
{
    if n > 0 {
        lemma_flushes_within(e, s, n - 1);
        let sb = crate::showdown::suit_bin(s, crate::showdown::scan_suit(n - 1));
        let b = e.by_rank(sb);
        lemma_suit_bin_within(s, crate::showdown::scan_suit(n - 1));
        lemma_ranks_within(e, sb, 13);
        lemma_within_trans(b, sb, s);
        let f = crate::showdown::suit_flushes(b);
        if b.len() == 4 {
            assert(all_within(f, s));
        } else {
            lemma_windows_within(b, 5, s);
        }
        lemma_all_within_concat(e.flushes_upto(s, n - 1), f, s);
    }
}

proof fn lemma_extend_within(acc: Seq<Seq<Card>>, bin: Seq<Card>, s: Seq<Card>)
    requires
        all_within(acc, s),
        within(bin, s),
    ensures
        all_within(crate::showdown::extend(acc, bin), s),
    decreases acc.len(),
{
    if acc.len() > 0 {
        let d = acc.drop_last();
        assert forall|i: int| 0 <= i < d.len() implies within(#[trigger] d[i], s) by {
            assert(d[i] == acc[i]);
        }
        lemma_extend_within(d, bin, s);
        let last = acc.last();
        assert(within(last, s)) by {
            assert(acc[acc.len() - 1] == last);
        }
        let m = bin.map_values(|c: Card| last.push(c));
        assert forall|i: int| 0 <= i < m.len() implies within(#[trigger] m[i], s) by {
            assert(m[i] == last.push(bin[i]));
            assert forall|j: int| 0 <= j < m[i].len() implies s.contains(#[trigger] m[i][j]) by {
                if j < last.len() {
                    assert(m[i][j] == last[j]);
                } else {
                    assert(m[i][j] == bin[i]);
                }
            }
        }
        lemma_all_within_concat(crate::showdown::extend(d, bin), m, s);
    }
}

proof fn lemma_product_within(bins: Seq<Seq<Card>>, s: Seq<Card>)
    requires
        all_within(bins, s),
    ensures
        all_within(crate::showdown::product(bins), s),
    decreases bins.len(),
{
    if bins.len() == 0 {
        let p = crate::showdown::product(bins);
        assert(p == seq![Seq::<Card>::empty()]);
        assert forall|i: int| 0 <= i < p.len() implies within(#[trigger] p[i], s) by {
            assert(p[i].len() == 0);
        }
    } else {
        let d = bins.drop_last();
        assert forall|i: int| 0 <= i < d.len() implies within(#[trigger] d[i], s) by {
            assert(d[i] == bins[i]);
        }
        lemma_product_within(d, s);
        assert(within(bins.last(), s)) by {
            assert(bins[bins.len() - 1] == bins.last());
        }
        lemma_extend_within(crate::showdown::product(d), bins.last(), s);
    }
}

proof fn lemma_filled_within(bins: Seq<Seq<Card>>, s: Seq<Card>)
    requires
        all_within(bins, s),
    ensures
        all_within(crate::showdown::filled(bins), s),
    decreases bins.len(),
{
    if bins.len() > 0 {
        let d = bins.drop_last();
        assert forall|i: int| 0 <= i < d.len() implies within(#[trigger] d[i], s) by {
            assert(d[i] == bins[i]);
        }
        lemma_filled_within(d, s);
        let f = crate::showdown::filled(d);
        assert(within(bins.last(), s)) by {
            assert(bins[bins.len() - 1] == bins.last());
        }
        assert forall|i: int| 0 <= i < f.push(bins.last()).len() implies within(#[trigger] f.push(bins.last())[i], s) by {
            if i < f.len() {
                assert(f.push(bins.last())[i] == f[i]);
            }
        }
    }
}

proof fn lemma_tagged_within(sets: Seq<Seq<Card>>, t: StraightDrawType, s: Seq<Card>)
    requires
        all_within(sets, s),
    ensures
        shapes_within(crate::showdown::tagged(sets, t), s),
{
    let g = crate::showdown::tagged(sets, t);
    assert forall|i: int| 0 <= i < g.len() implies within((#[trigger] g[i]).0, s) by {
        assert(g[i].0 == sets[i]);
    }
}

proof fn lemma_shapes_concat(a: Seq<(Seq<Card>, StraightDrawType)>, b: Seq<(Seq<Card>, StraightDrawType)>, s: Seq<Card>)
    requires
        shapes_within(a, s),
        shapes_within(b, s),
    ensures
        shapes_within(a + b, s),
{
    assert forall|i: int| 0 <= i < (a + b).len() implies within(((#[trigger] (a + b)[i])).0, s) by {
        if i < a.len() {
            assert((a + b)[i] == a[i]);
        } else {
            assert((a + b)[i] == b[i - a.len()]);
        }
    }
}

proof fn lemma_straights_within(e: ShowdownEngine, s: Seq<Card>, n: int)
    ensures
        shapes_within(e.straights_upto(s, n), s),
    decreases n,
{
    if n > 0 {
        lemma_straights_within(e, s, n - 1);
        let w = n - 1;
        let bins = e.scan_window(s, w);
        assert forall|i: int| 0 <= i < bins.len() implies within(#[trigger] bins[i], s) by {
            if w + i == 0 {
                lemma_rank_bin_within(e, s, 12);
            } else {
                lemma_rank_bin_within(e, s, w + i - 1);
            }
        }
        lemma_filled_within(bins, s);
        lemma_product_within(bins, s);
        lemma_product_within(crate::showdown::filled(bins), s);
        let f = crate::showdown::filled(bins);
        let ws = e.window_straights(s, w);
        if f.len() == 5 {
            lemma_tagged_within(crate::showdown::product(bins), StraightDrawType::Complete, s);
        } else if f.len() == 4 {
            lemma_tagged_within(crate::showdown::product(f), StraightDrawType::OpenEnded, s);
            lemma_tagged_within(crate::showdown::product(f), StraightDrawType::Inside, s);
        } else if f.len() == 3 && bins[0].len() == 0 && bins[1].len() == 0 {
            lemma_tagged_within(crate::showdown::product(f), StraightDrawType::OpenEnded, s);
        }
        assert(shapes_within(ws, s));
        lemma_shapes_concat(e.straights_upto(s, n - 1), ws, s);
    }
}

proof fn lemma_sf_sets_within(st: Seq<(Seq<Card>, StraightDrawType)>, s: Seq<Card>)
    requires
        shapes_within(st, s),
    ensures
        shapes_within(straight_flush_sets(st), s),
    decreases st.len(),
{
    if st.len() > 0 {
        let d = st.drop_last();
        assert forall|i: int| 0 <= i < d.len() implies within((#[trigger] d[i]).0, s) by {
            assert(d[i] == st[i]);
        }
        lemma_sf_sets_within(d, s);
        let p = straight_flush_sets(d);
        let a = straight_flush_sets(st);
        assert forall|i: int| 0 <= i < a.len() implies within((#[trigger] a[i]).0, s) by {
            if i < p.len() {
                assert(a[i] == p[i]);
            } else {
                assert(a[i] == st[st.len() - 1]);
            }
        }
    }
}

proof fn lemma_left_within(st: Seq<(Seq<Card>, StraightDrawType)>, sf: Seq<(Seq<Card>, StraightDrawType)>, s: Seq<Card>)
    requires
        shapes_within(st, s),
    ensures
        shapes_within(straights_left(st, sf), s),
    decreases st.len(),
{
    if st.len() > 0 {
        let d = st.drop_last();
        assert forall|i: int| 0 <= i < d.len() implies within((#[trigger] d[i]).0, s) by {
            assert(d[i] == st[i]);
        }
        lemma_left_within(d, sf, s);
        let p = straights_left(d, sf);
        let a = straights_left(st, sf);
        assert forall|i: int| 0 <= i < a.len() implies within((#[trigger] a[i]).0, s) by {
            if i < p.len() {
                assert(a[i] == p[i]);
            } else {
                assert(a[i] == st[st.len() - 1]);
            }
        }
    }
}

proof fn lemma_sized_within(st: Seq<(Seq<Card>, StraightDrawType)>, n: int, s: Seq<Card>)
    requires
        shapes_within(st, s),
    ensures
        shapes_within(of_size(st, n), s),
    decreases st.len(),
{
    if st.len() > 0 {
        let d = st.drop_last();
        assert forall|i: int| 0 <= i < d.len() implies within((#[trigger] d[i]).0, s) by {
            assert(d[i] == st[i]);
        }
        lemma_sized_within(d, n, s);
        let p = of_size(d, n);
        let a = of_size(st, n);
        assert forall|i: int| 0 <= i < a.len() implies within((#[trigger] a[i]).0, s) by {
            if i < p.len() {
                assert(a[i] == p[i]);
            } else {
                assert(a[i] == st[st.len() - 1]);
            }
        }
    }
}

proof fn lemma_fl_left_within(fl: Seq<Seq<Card>>, sf: Seq<(Seq<Card>, StraightDrawType)>, s: Seq<Card>)
    requires
        all_within(fl, s),
    ensures
        all_within(flushes_left(fl, sf), s),
    decreases fl.len(),
{
    if fl.len() > 0 {
        let d = fl.drop_last();
        assert forall|i: int| 0 <= i < d.len() implies within(#[trigger] d[i], s) by {
            assert(d[i] == fl[i]);
        }
        lemma_fl_left_within(d, sf, s);
        let p = flushes_left(d, sf);
        let a = flushes_left(fl, sf);
        assert forall|i: int| 0 <= i < a.len() implies within(#[trigger] a[i], s) by {
            if i < p.len() {
                assert(a[i] == p[i]);
            } else {
                assert(a[i] == fl[fl.len() - 1]);
            }
        }
    }
}

proof fn lemma_unique_within(x: Seq<Card>)
    ensures
        within(unique_cards(x), x),
    decreases x.len(),
{
    if x.len() > 0 {
        lemma_unique_within(x.drop_last());
        let u = unique_cards(x.drop_last());
        if u.contains(x.last()) {
            lemma_within_prefix(u, x);
        } else {
            lemma_within_push(u, x);
        }
    }
}

proof fn lemma_union_within(a: Seq<Card>, b: Seq<Card>, s: Seq<Card>)
    requires
        within(a, s),
        within(b, s),
    ensures
        within(card_union(a, b), s),
{
    lemma_unique_within(a + b);
    assert(within(a + b, s)) by {
        assert forall|i: int| 0 <= i < (a + b).len() implies s.contains(#[trigger] (a + b)[i]) by {
            if i < a.len() {
                assert((a + b)[i] == a[i]);
            } else {
                assert((a + b)[i] == b[i - a.len()]);
            }
        }
    }
    lemma_within_trans(card_union(a, b), a + b, s);
}

/// Whether every hand of `hs` lies within `s`.
pub open spec fn hands_within(hs: Seq<HandModel>, s: Seq<Card>) -> bool {
    forall|i: int| 0 <= i < hs.len() ==> within((#[trigger] hs[i]).cards(), s)
}

/// Whether every potential hand of `l` lies within `s`.
pub open spec fn potentials_within(l: Seq<PotentialModel>, s: Seq<Card>) -> bool {
    forall|i: int| 0 <= i < l.len() ==> within((#[trigger] l[i]).cards(), s)
}

proof fn lemma_triples_within(tk: Seq<Seq<Card>>, p0: Seq<Card>, p1: Seq<Card>, s: Seq<Card>)
    requires
        all_within(tk, s),
        within(p0, s),
        within(p1, s),
    ensures
        hands_within(triple_hands(tk, p0, p1), s),
    decreases tk.len(),
{
    if tk.len() > 0 {
        let d = tk.drop_last();
        assert forall|i: int| 0 <= i < d.len() implies within(#[trigger] d[i], s) by {
            assert(d[i] == tk[i]);
        }
        lemma_triples_within(d, p0, p1, s);
        let t = tk.last();
        assert(within(t, s)) by {
            assert(tk[tk.len() - 1] == t);
        }
        lemma_union_within(t, p0, s);
        lemma_union_within(t, p1, s);
        let prev = triple_hands(d, p0, p1);
        let all = triple_hands(tk, p0, p1);
        assert forall|i: int| 0 <= i < all.len() implies within((#[trigger] all[i]).cards(), s) by {
            if i < prev.len() {
                assert(all[i] == prev[i]);
            }
        }
    }
}

proof fn lemma_pair_hands_within(
    pairs: Seq<Seq<Card>>,
    tk: Seq<Seq<Card>>,
    fk: Seq<Seq<Card>>,
    n: int,
    s: Seq<Card>,
)
    requires
        n <= pairs.len(),
        all_within(pairs, s),
        all_within(tk, s),
        all_within(fk, s),
    ensures
        hands_within(pair_hands_upto(pairs, tk, fk, n), s),
    decreases n,
{
    if n > 1 {
        lemma_pair_hands_within(pairs, tk, fk, n - 1, s);
        let p0 = pairs[n - 2];
        let p1 = pairs[n - 1];
        lemma_triples_within(tk, p0, p1, s);
        lemma_union_within(p0, p1, s);
        let prev = pair_hands_upto(pairs, tk, fk, n - 1);
        let fours = fk.map_values(|k: Seq<Card>| HandModel::FourOfAKind(k));
        let threes = triple_hands(tk, p0, p1);
        let last = seq![
            HandModel::TwoPair(card_union(p0, p1)),
            HandModel::Pair(p0),
            HandModel::Pair(p1),
        ];
        let all = pair_hands_upto(pairs, tk, fk, n);
        assert(all == prev + (fours + threes + last));
        assert forall|i: int| 0 <= i < all.len() implies within((#[trigger] all[i]).cards(), s) by {
            if i < prev.len() {
                assert(all[i] == prev[i]);
            } else if i < prev.len() + fours.len() {
                assert(all[i] == fours[i - prev.len()]);
                assert(fours[i - prev.len()].cards() == fk[i - prev.len()]);
            } else if i < prev.len() + fours.len() + threes.len() {
                assert(all[i] == threes[i - prev.len() - fours.len()]);
            } else {
                assert(all[i] == last[i - prev.len() - fours.len() - threes.len()]);
            }
        }
    }
}

proof fn lemma_shape_results_within(e: ShowdownEngine, st: Seq<(Seq<Card>, StraightDrawType)>, s: Seq<Card>)
    requires
        shapes_within(st, s),
    ensures
        potentials_within(e.made_straight_flushes(st), s),
        potentials_within(e.straight_flush_draws(st), s),
        potentials_within(straight_hands(st), s),
        potentials_within(straight_draws(st), s),
    decreases st.len(),
{
    if st.len() > 0 {
        let d = st.drop_last();
        assert forall|i: int| 0 <= i < d.len() implies within((#[trigger] d[i]).0, s) by {
            assert(d[i] == st[i]);
        }
        assert(within(st.last().0, s)) by {
            assert(st[st.len() - 1] == st.last());
        }
        lemma_shape_results_within(e, d, s);
        let p = e.made_straight_flushes(d);
        let a = e.made_straight_flushes(st);
        assert forall|i: int| 0 <= i < a.len() implies within((#[trigger] a[i]).cards(), s) by {
            if i < p.len() {
                assert(a[i] == p[i]);
            }
        }
        let p = e.straight_flush_draws(d);
        let a = e.straight_flush_draws(st);
        assert forall|i: int| 0 <= i < a.len() implies within((#[trigger] a[i]).cards(), s) by {
            if i < p.len() {
                assert(a[i] == p[i]);
            }
        }
        let p = straight_hands(d);
        let a = straight_hands(st);
        assert forall|i: int| 0 <= i < a.len() implies within((#[trigger] a[i]).cards(), s) by {
            if i < p.len() {
                assert(a[i] == p[i]);
            }
        }
        let p = straight_draws(d);
        let a = straight_draws(st);
        assert forall|i: int| 0 <= i < a.len() implies within((#[trigger] a[i]).cards(), s) by {
            if i < p.len() {
                assert(a[i] == p[i]);
            }
        }
    }
}

proof fn lemma_flush_results_within(fl: Seq<Seq<Card>>, s: Seq<Card>)
    requires
        all_within(fl, s),
    ensures
        potentials_within(flush_hands(fl), s),
        potentials_within(flush_draws(fl), s),
    decreases fl.len(),
{
    if fl.len() > 0 {
        let d = fl.drop_last();
        assert forall|i: int| 0 <= i < d.len() implies within(#[trigger] d[i], s) by {
            assert(d[i] == fl[i]);
        }
        assert(within(fl.last(), s)) by {
            assert(fl[fl.len() - 1] == fl.last());
        }
        lemma_flush_results_within(d, s);
        let p = flush_hands(d);
        let a = flush_hands(fl);
        assert forall|i: int| 0 <= i < a.len() implies within((#[trigger] a[i]).cards(), s) by {
            if i < p.len() {
                assert(a[i] == p[i]);
            }
        }
        let p = flush_draws(d);
        let a = flush_draws(fl);
        assert forall|i: int| 0 <= i < a.len() implies within((#[trigger] a[i]).cards(), s) by {
            if i < p.len() {
                assert(a[i] == p[i]);
            }
        }
    }
}

proof fn lemma_strong_results_within(hs: Seq<HandModel>, s: Seq<Card>)
    requires
        hands_within(hs, s),
    ensures
        potentials_within(strong_hands(hs), s),
    decreases hs.len(),
{
    if hs.len() > 0 {
        let d = hs.drop_last();
        assert forall|i: int| 0 <= i < d.len() implies within((#[trigger] d[i]).cards(), s) by {
            assert(d[i] == hs[i]);
        }
        assert(within(hs.last().cards(), s)) by {
            assert(hs[hs.len() - 1] == hs.last());
        }
        lemma_strong_results_within(d, s);
        let p = strong_hands(d);
        let a = strong_hands(hs);
        assert forall|i: int| 0 <= i < a.len() implies within((#[trigger] a[i]).cards(), s) by {
            if i < p.len() {
                assert(a[i] == p[i]);
            }
        }
    }
}

proof fn lemma_kept_within(l: Seq<PotentialModel>, s: Seq<Card>)
    requires
        potentials_within(l, s),
    ensures
        potentials_within(kept(l), s),
{
    let ok = |p: PotentialModel| within(p.cards(), s);
    assert forall|i: int| 0 <= i < l.len() implies ok(#[trigger] l[i]) by {}
    lemma_kept_keeps(l, ok);
    assert forall|i: int| 0 <= i < kept(l).len() implies within((#[trigger] kept(l)[i]).cards(), s) by {
        assert(ok(kept(l)[i]));
    }
}

/// Every potential hand is made of cards of the input.
pub proof fn lemma_potential_from_input(e: ShowdownEngine, s: Seq<Card>, straights: bool)
    ensures
        forall|i: int| 0 <= i < e.potential_spec(s, straights).len() ==> within(
            (#[trigger] e.potential_spec(s, straights)[i]).cards(),
            s,
        ),
{
    let st = e.scanned_straights(s, straights);
    let fl = e.flush_sets(s);
    let sf = straight_flush_sets(st);
    let left = straights_left(st, sf);
    let st_left = by_size(left);
    let fl_left = flushes_left(fl, sf);
    let (pairs, tk, fk) = (e.of_a_kind(s, 2), e.of_a_kind(s, 3), e.of_a_kind(s, 4));
    let grouped = grouped_hands(pairs, tk, fk);
    if straights {
        lemma_straights_within(e, s, 10);
    }
    lemma_flushes_within(e, s, 4);
    lemma_sf_sets_within(st, s);
    lemma_left_within(st, sf, s);
    lemma_sized_within(left, 5, s);
    lemma_sized_within(left, 4, s);
    lemma_sized_within(left, 3, s);
    lemma_shapes_concat(of_size(left, 5), of_size(left, 4), s);
    lemma_shapes_concat(of_size(left, 5) + of_size(left, 4), of_size(left, 3), s);
    lemma_fl_left_within(fl, sf, s);
    lemma_kinds_within(e, s, 2, 13);
    lemma_kinds_within(e, s, 3, 13);
    lemma_kinds_within(e, s, 4, 13);
    if pairs.len() > 1 {
        lemma_pair_hands_within(pairs, tk, fk, pairs.len() as int, s);
    } else if pairs.len() == 1 {
        assert(within(pairs[0], s));
    }
    assert(hands_within(grouped, s));
    lemma_shape_results_within(e, sf, s);
    lemma_shape_results_within(e, st_left, s);
    lemma_flush_results_within(fl_left, s);
    lemma_strong_results_within(grouped, s);
    let l = e.ranked_candidates(s, straights);
    let a = e.made_straight_flushes(sf);
    let b = strong_hands(grouped);
    let c = flush_hands(fl_left);
    let d = straight_hands(st_left);
    let g = all_as_potential(grouped);
    let h = e.straight_flush_draws(sf);
    let f = flush_draws(fl_left);
    let k = straight_draws(st_left);
    assert(l == a + b + c + d + g + h + f + k);
    assert forall|i: int| 0 <= i < l.len() implies within((#[trigger] l[i]).cards(), s) by {
        if i < a.len() {
            assert(l[i] == a[i]);
        } else if i < a.len() + b.len() {
            assert(l[i] == b[i - a.len()]);
        } else if i < a.len() + b.len() + c.len() {
            assert(l[i] == c[i - a.len() - b.len()]);
        } else if i < a.len() + b.len() + c.len() + d.len() {
            assert(l[i] == d[i - a.len() - b.len() - c.len()]);
        } else if i < a.len() + b.len() + c.len() + d.len() + g.len() {
            let j = i - a.len() - b.len() - c.len() - d.len();
            assert(l[i] == g[j]);
            assert(g[j] == PotentialModel::Hand(grouped[j]));
        } else if i < a.len() + b.len() + c.len() + d.len() + g.len() + h.len() {
            assert(l[i] == h[i - a.len() - b.len() - c.len() - d.len() - g.len()]);
        } else if i < a.len() + b.len() + c.len() + d.len() + g.len() + h.len() + f.len() {
            assert(l[i] == f[i - a.len() - b.len() - c.len() - d.len() - g.len() - h.len()]);
        } else {
            assert(l[i] == k[i - a.len() - b.len() - c.len() - d.len() - g.len() - h.len()
                - f.len()]);
        }
    }
    if !(pairs.len() == 0 && st.len() == 0 && fl.len() == 0) {
        lemma_kept_within(l, s);
    }
}

proof fn lemma_best_within(e: ShowdownEngine, l: Seq<PotentialModel>, s: Seq<Card>)
    requires
        potentials_within(l, s),
    ensures
        e.best_of(l) matches Some(b) ==> within(b.cards(), s),
    decreases l.len(),
{
    if l.len() > 0 {
        let d = l.drop_last();
        assert forall|i: int| 0 <= i < d.len() implies within((#[trigger] d[i]).cards(), s) by {
            assert(d[i] == l[i]);
        }
        assert(within(l.last().cards(), s)) by {
            assert(l[l.len() - 1] == l.last());
        }
        lemma_best_within(e, d, s);
    }
}

proof fn lemma_best_card_in(e: ShowdownEngine, t: Seq<Card>)
    requires
        t.len() > 0,
    ensures
        t.contains(e.best_card(t)),
    decreases t.len(),
{
    if t.len() > 1 {
        lemma_best_card_in(e, t.drop_last());
        let b = e.best_card(t.drop_last());
        let j = choose|j: int| 0 <= j < t.drop_last().len() && t.drop_last()[j] == b;
        assert(t[j] == b);
        assert(t[t.len() - 1] == t.last());
    } else {
        assert(t[0] == e.best_card(t));
    }
}

proof fn lemma_suits_within(e: ShowdownEngine, s: Seq<Card>, r: int, q: int)
    ensures
        within(e.suits_upto(s, r, q), s),
    decreases q,
{
    if q > 0 {
        lemma_suits_within(e, s, r, q - 1);
        let a = e.suits_upto(s, r, q - 1);
        let all = e.suits_upto(s, r, q);
        assert forall|i: int| 0 <= i < all.len() implies s.contains(#[trigger] all[i]) by {
            if i < a.len() {
                assert(all[i] == a[i]);
            }
        }
    }
}

proof fn lemma_canonical_within(e: ShowdownEngine, s: Seq<Card>, r: int)
    ensures
        within(e.canonical_upto(s, r), s),
    decreases r,
{
    if r > 0 {
        lemma_canonical_within(e, s, r - 1);
        lemma_suits_within(e, s, r - 1, 4);
        let a = e.canonical_upto(s, r - 1);
        let b = e.suits_upto(s, r - 1, 4);
        assert forall|i: int| 0 <= i < (a + b).len() implies s.contains(#[trigger] (a + b)[i]) by {
            if i < a.len() {
                assert((a + b)[i] == a[i]);
            } else {
                assert((a + b)[i] == b[i - a.len()]);
            }
        }
    }
}

/// The best potential hand of a non-empty hand is made of cards of that hand.
pub proof fn lemma_process_from_input(e: ShowdownEngine, s: Seq<Card>, straights: bool)
    requires
        e.wf(),
        s.len() > 0,
    ensures
        within(e.process_spec(s, straights).cards(), s),
{
    let c = e.canonical(s);
    lemma_canonical_within(e, s, 13);
    e.lemma_canonical_non_empty(s);
    lemma_potential_from_input(e, c, straights);
    let l = e.potential_spec(c, straights);
    assert(potentials_within(l, c));
    lemma_best_within(e, l, c);
    lemma_best_card_in(e, c);
    match e.best_of(l) {
        Some(b) => lemma_within_trans(b.cards(), c, s),
        None => {
            assert(within(seq![e.best_card(c)], c));
            lemma_within_trans(seq![e.best_card(c)], c, s);
        },
    }
}

} // verus!
