//! Hand evaluation: made hands and draws found in a set of cards, and their order.
use vstd::prelude::*;
use crate::cards::{Card, CardSuit, CardValue};
use core::cmp::Ordering;

verus! {

/// Valid hands that win a showdown, each with the cards that form it.
#[derive(Debug, Clone)]
pub enum Hand {
    RoyalFlush(Vec<Card>),
    StraightFlush(Vec<Card>),
    FourOfAKind(Vec<Card>),
    FullHouse(Vec<Card>),
    Flush(Vec<Card>),
    Straight(Vec<Card>),
    ThreeOfAKind(Vec<Card>),
    TwoPair(Vec<Card>),
    Pair(Vec<Card>),
}

/// How a straight-shaped set of cards stands, from worst to best draw quality.
#[derive(Debug, Clone, Copy, PartialEq, Eq, Structural, PartialOrd, Ord)]
pub enum StraightDrawType {
    Complete,
    Inside,
    OpenEnded,
}

/// Either a made hand or a draw one card short of one.
#[derive(Debug, Clone)]
pub enum PotentialHand {
    Hand(Hand),
    StraightDraw(Vec<Card>, StraightDrawType),
    FlushDraw(Vec<Card>),
    StraightFlushDraw(Vec<Card>, StraightDrawType),
    RoyalFlushDraw(Vec<Card>, StraightDrawType),
    HighCard(Card),
}

/// The value of a `Hand`.
pub ghost enum HandModel {
    RoyalFlush(Seq<Card>),
    StraightFlush(Seq<Card>),
    FourOfAKind(Seq<Card>),
    FullHouse(Seq<Card>),
    Flush(Seq<Card>),
    Straight(Seq<Card>),
    ThreeOfAKind(Seq<Card>),
    TwoPair(Seq<Card>),
    Pair(Seq<Card>),
}

/// The value of a `PotentialHand`.
pub ghost enum PotentialModel {
    Hand(HandModel),
    StraightDraw(Seq<Card>, StraightDrawType),
    FlushDraw(Seq<Card>),
    StraightFlushDraw(Seq<Card>, StraightDrawType),
    RoyalFlushDraw(Seq<Card>, StraightDrawType),
    HighCard(Card),
}

impl View for Hand {
    type V = HandModel;

    open spec fn view(&self) -> HandModel {
        match self {
            Hand::RoyalFlush(a) => HandModel::RoyalFlush(a@),
            Hand::StraightFlush(a) => HandModel::StraightFlush(a@),
            Hand::FourOfAKind(a) => HandModel::FourOfAKind(a@),
            Hand::FullHouse(a) => HandModel::FullHouse(a@),
            Hand::Flush(a) => HandModel::Flush(a@),
            Hand::Straight(a) => HandModel::Straight(a@),
            Hand::ThreeOfAKind(a) => HandModel::ThreeOfAKind(a@),
            Hand::TwoPair(a) => HandModel::TwoPair(a@),
            Hand::Pair(a) => HandModel::Pair(a@),
        }
    }
}

impl View for PotentialHand {
    type V = PotentialModel;

    open spec fn view(&self) -> PotentialModel {
        match self {
            PotentialHand::Hand(h) => PotentialModel::Hand(h@),
            PotentialHand::StraightDraw(a, t) => PotentialModel::StraightDraw(a@, *t),
            PotentialHand::FlushDraw(a) => PotentialModel::FlushDraw(a@),
            PotentialHand::StraightFlushDraw(a, t) => PotentialModel::StraightFlushDraw(a@, *t),
            PotentialHand::RoyalFlushDraw(a, t) => PotentialModel::RoyalFlushDraw(a@, *t),
            PotentialHand::HighCard(c) => PotentialModel::HighCard(*c),
        }
    }
}

impl HandModel {
    pub open spec fn cards(self) -> Seq<Card> {
        match self {
            HandModel::RoyalFlush(a) => a,
            HandModel::StraightFlush(a) => a,
            HandModel::FourOfAKind(a) => a,
            HandModel::FullHouse(a) => a,
            HandModel::Flush(a) => a,
            HandModel::Straight(a) => a,
            HandModel::ThreeOfAKind(a) => a,
            HandModel::TwoPair(a) => a,
            HandModel::Pair(a) => a,
        }
    }

    /// Category, from Pair = 0 up to RoyalFlush = 8.
    pub open spec fn category(self) -> int {
        match self {
            HandModel::RoyalFlush(_) => 8,
            HandModel::StraightFlush(_) => 7,
            HandModel::FourOfAKind(_) => 6,
            HandModel::FullHouse(_) => 5,
            HandModel::Flush(_) => 4,
            HandModel::Straight(_) => 3,
            HandModel::ThreeOfAKind(_) => 2,
            HandModel::TwoPair(_) => 1,
            HandModel::Pair(_) => 0,
        }
    }
}

impl PotentialModel {
    pub open spec fn cards(self) -> Seq<Card> {
        match self {
            PotentialModel::Hand(h) => h.cards(),
            PotentialModel::StraightDraw(a, _) => a,
            PotentialModel::FlushDraw(a) => a,
            PotentialModel::StraightFlushDraw(a, _) => a,
            PotentialModel::RoyalFlushDraw(a, _) => a,
            PotentialModel::HighCard(c) => seq![c],
        }
    }

    /// Family, from HighCard = 0 up to a made hand = 5.
    pub open spec fn tier(self) -> int {
        match self {
            PotentialModel::Hand(_) => 5,
            PotentialModel::RoyalFlushDraw(..) => 4,
            PotentialModel::StraightFlushDraw(..) => 3,
            PotentialModel::FlushDraw(_) => 2,
            PotentialModel::StraightDraw(..) => 1,
            PotentialModel::HighCard(_) => 0,
        }
    }
}

impl StraightDrawType {
    /// Draw quality: Complete < Inside < OpenEnded.
    pub open spec fn spec_quality(self) -> int {
        match self {
            StraightDrawType::Complete => 0,
            StraightDrawType::Inside => 1,
            StraightDrawType::OpenEnded => 2,
        }
    }
}

/// The order of two integers.
pub open spec fn cmp_int(a: int, b: int) -> Ordering {
    if a < b {
        Ordering::Less
    } else if a == b {
        Ordering::Equal
    } else {
        Ordering::Greater
    }
}

/// Lexicographic order of two triples.
pub open spec fn cmp_key(a: (int, int, int), b: (int, int, int)) -> Ordering {
    if a.0 != b.0 {
        cmp_int(a.0, b.0)
    } else if a.1 != b.1 {
        cmp_int(a.1, b.1)
    } else {
        cmp_int(a.2, b.2)
    }
}

pub open spec fn reversed(o: Ordering) -> Ordering {
    match o {
        Ordering::Less => Ordering::Greater,
        Ordering::Equal => Ordering::Equal,
        Ordering::Greater => Ordering::Less,
    }
}

fn order_of(a: usize, b: usize) -> (r: Ordering)
    ensures
        r == cmp_int(a as int, b as int),
{
    if a < b {
        Ordering::Less
    } else if a == b {
        Ordering::Equal
    } else {
        Ordering::Greater
    }
}

pub open spec fn holds_value(ord: [CardValue; 13], v: CardValue) -> bool {
    exists|i: int| 0 <= i < 13 && ord[i] == v
}

/// All thirteen values, each once.
pub open spec fn is_ordering(ord: [CardValue; 13]) -> bool {
    &&& forall|i: int, j: int| 0 <= i < j < 13 ==> ord[i] != ord[j]
    &&& forall|v: CardValue| #[trigger] holds_value(ord, v)
}

/// `s` with later repeats of a card left out.
pub open spec fn unique_cards(s: Seq<Card>) -> Seq<Card>
    decreases s.len(),
{
    if s.len() == 0 {
        s
    } else {
        let u = unique_cards(s.drop_last());
        if u.contains(s.last()) {
            u
        } else {
            u.push(s.last())
        }
    }
}

/// The values present in `s`, each once, in order of first appearance.
pub open spec fn distinct_values(s: Seq<Card>) -> Seq<CardValue>
    decreases s.len(),
{
    if s.len() == 0 {
        Seq::empty()
    } else {
        let u = distinct_values(s.drop_last());
        if u.contains(s.last().value) {
            u
        } else {
            u.push(s.last().value)
        }
    }
}

/// How many cards of `s` have value `v`.
pub open spec fn value_count(s: Seq<Card>, v: CardValue) -> nat
    decreases s.len(),
{
    if s.len() == 0 {
        0
    } else {
        value_count(s.drop_last(), v) + if s.last().value == v {
            1nat
        } else {
            0nat
        }
    }
}

/// The views of a sequence of card vectors.
pub open spec fn card_sets(v: Seq<Vec<Card>>) -> Seq<Seq<Card>> {
    v.map_values(|x: Vec<Card>| x@)
}

/// Every run of `k` consecutive entries of `s`, from the left.
pub open spec fn windows(s: Seq<Card>, k: int) -> Seq<Seq<Card>> {
    if s.len() < k {
        Seq::empty()
    } else {
        Seq::new((s.len() - k + 1) as nat, |i: int| s.subrange(i, i + k))
    }
}

/// The cards of `s` of suit `u`, in order.
pub open spec fn suit_bin(s: Seq<Card>, u: CardSuit) -> Seq<Card>
    decreases s.len(),
{
    if s.len() == 0 {
        s
    } else {
        let b = suit_bin(s.drop_last(), u);
        if s.last().suit == u {
            b.push(s.last())
        } else {
            b
        }
    }
}

/// The suits in the order in which flushes are scanned.
pub open spec fn scan_suit(i: int) -> CardSuit {
    if i == 0 {
        CardSuit::Spades
    } else if i == 1 {
        CardSuit::Hearts
    } else if i == 2 {
        CardSuit::Clubs
    } else {
        CardSuit::Diamonds
    }
}

/// The flush candidates of one suit's cards: the four cards themselves when
/// there are exactly four, else every run of five.
pub open spec fn suit_flushes(b: Seq<Card>) -> Seq<Seq<Card>> {
    if b.len() == 4 {
        seq![b]
    } else {
        windows(b, 5)
    }
}

/// Each set of `acc` extended by each card of `bin` in turn.
pub open spec fn extend(acc: Seq<Seq<Card>>, bin: Seq<Card>) -> Seq<Seq<Card>>
    decreases acc.len(),
{
    if acc.len() == 0 {
        Seq::empty()
    } else {
        extend(acc.drop_last(), bin) + bin.map_values(|c: Card| acc.last().push(c))
    }
}

/// Every way of taking one card from each bin.
pub open spec fn product(bins: Seq<Seq<Card>>) -> Seq<Seq<Card>>
    decreases bins.len(),
{
    if bins.len() == 0 {
        seq![Seq::<Card>::empty()]
    } else {
        extend(product(bins.drop_last()), bins.last())
    }
}

/// The non-empty bins, in order.
pub open spec fn filled(bins: Seq<Seq<Card>>) -> Seq<Seq<Card>>
    decreases bins.len(),
{
    if bins.len() == 0 {
        bins
    } else if bins.last().len() == 0 {
        filled(bins.drop_last())
    } else {
        filled(bins.drop_last()).push(bins.last())
    }
}

/// Each set paired with the draw type `t`.
pub open spec fn tagged(sets: Seq<Seq<Card>>, t: StraightDrawType) -> Seq<(Seq<Card>, StraightDrawType)> {
    sets.map_values(|x: Seq<Card>| (x, t))
}

/// The views of a sequence of straight candidates.
pub open spec fn straight_sets(v: Seq<(Vec<Card>, StraightDrawType)>) -> Seq<(Seq<Card>, StraightDrawType)> {
    v.map_values(|x: (Vec<Card>, StraightDrawType)| (x.0@, x.1))
}

/// Detects made hands and draws under an order of card values.
#[derive(Debug, Clone, Copy, PartialEq, Eq)]
pub struct ShowdownEngine {
    pub ordering: [CardValue; 13],
}

impl ShowdownEngine {
    pub open spec fn wf(self) -> bool {
        is_ordering(self.ordering)
    }

    /// Position of `v` in the ordering, 0 for the lowest.
    pub open spec fn rank(self, v: CardValue) -> int {
        choose|i: int| 0 <= i < 13 && self.ordering[i] == v
    }

    pub proof fn lemma_rank(self, v: CardValue, i: int)
        requires
            self.wf(),
            0 <= i < 13,
            self.ordering[i] == v,
        ensures
            self.rank(v) == i,
    {
        let j = self.rank(v);
        assert(holds_value(self.ordering, v));
        if i < j {
        } else if j < i {
        }
    }

    pub proof fn lemma_rank_range(self, v: CardValue)
        requires
            self.wf(),
        ensures
            0 <= self.rank(v) < 13,
            self.ordering[self.rank(v)] == v,
    {
        assert(holds_value(self.ordering, v));
    }

    /// The last card of highest rank in a non-empty `s`.
    pub open spec fn best_card(self, s: Seq<Card>) -> Card
        decreases s.len(),
    {
        if s.len() <= 1 {
            s[0]
        } else {
            let b = self.best_card(s.drop_last());
            if self.rank(s.last().value) >= self.rank(b.value) {
                s.last()
            } else {
                b
            }
        }
    }

    /// Rank of the highest card of `s`; -1 when `s` is empty.
    pub open spec fn top_rank(self, s: Seq<Card>) -> int {
        if s.len() == 0 {
            -1
        } else {
            self.rank(self.best_card(s).value)
        }
    }

    /// Sort key: family, then category, draw quality or size, then top rank.
    pub open spec fn key(self, p: PotentialModel) -> (int, int, int) {
        match p {
            PotentialModel::Hand(h) => (5, h.category(), self.top_rank(h.cards())),
            PotentialModel::RoyalFlushDraw(a, t) => (4, t.spec_quality(), self.top_rank(a)),
            PotentialModel::StraightFlushDraw(a, t) => (3, t.spec_quality(), self.top_rank(a)),
            PotentialModel::FlushDraw(a) => (2, a.len() as int, self.top_rank(a)),
            PotentialModel::StraightDraw(a, t) => (1, t.spec_quality(), self.top_rank(a)),
            PotentialModel::HighCard(c) => (0, 0, self.rank(c.value)),
        }
    }

    pub open spec fn compare_spec(self, a: PotentialModel, b: PotentialModel) -> Ordering {
        cmp_key(self.key(a), self.key(b))
    }

    pub open spec fn compare_hands_spec(self, a: HandModel, b: HandModel) -> Ordering {
        cmp_key(
            (0, a.category(), self.top_rank(a.cards())),
            (0, b.category(), self.top_rank(b.cards())),
        )
    }

    /// The cards of `s` of rank `r`, in order.
    pub open spec fn rank_bin(self, s: Seq<Card>, r: int) -> Seq<Card>
        decreases s.len(),
    {
        if s.len() == 0 {
            s
        } else {
            let b = self.rank_bin(s.drop_last(), r);
            if self.rank(s.last().value) == r {
                b.push(s.last())
            } else {
                b
            }
        }
    }

    /// The cards of `t` of the ranks below `n`, rank by rank from the lowest.
    pub open spec fn ranks_upto(self, t: Seq<Card>, n: int) -> Seq<Card>
        decreases n,
    {
        if n <= 0 {
            Seq::empty()
        } else {
            self.ranks_upto(t, n - 1) + self.rank_bin(t, n - 1)
        }
    }

    /// The cards of `t` ordered by rank, from the lowest.
    pub open spec fn by_rank(self, t: Seq<Card>) -> Seq<Card> {
        self.ranks_upto(t, 13)
    }

    /// Flush candidates of the suits scanned before the `n`-th.
    pub open spec fn flushes_upto(self, s: Seq<Card>, n: int) -> Seq<Seq<Card>>
        decreases n,
    {
        if n <= 0 {
            Seq::empty()
        } else {
            self.flushes_upto(s, n - 1) + suit_flushes(self.by_rank(suit_bin(s, scan_suit(n - 1))))
        }
    }

    /// Flush candidates: for each suit, its cards ordered by rank; the four of them
    /// when there are exactly four, else every run of five.
    pub open spec fn flush_sets(self, s: Seq<Card>) -> Seq<Seq<Card>> {
        self.flushes_upto(s, 4)
    }

    /// Runs of `k` cards of one rank, over the ranks below `n`.
    pub open spec fn kinds_upto(self, s: Seq<Card>, k: int, n: int) -> Seq<Seq<Card>>
        decreases n,
    {
        if n <= 0 {
            Seq::empty()
        } else {
            self.kinds_upto(s, k, n - 1) + windows(self.rank_bin(s, n - 1), k)
        }
    }

    /// Of-a-kind candidates: for each rank from the lowest, every run of `k`
    /// cards of that rank.
    pub open spec fn of_a_kind(self, s: Seq<Card>, k: int) -> Seq<Seq<Card>> {
        self.kinds_upto(s, k, 13)
    }

    /// Bin `i` of the straight scan: bin 0 holds the top rank again, so that it
    /// can also end a straight from below; bin `i` > 0 holds rank `i - 1`.
    pub open spec fn straight_bin(self, s: Seq<Card>, i: int) -> Seq<Card> {
        if i == 0 {
            self.rank_bin(s, 12)
        } else {
            self.rank_bin(s, i - 1)
        }
    }

    /// The five bins that the scan looks at from bin `w`.
    pub open spec fn scan_window(self, s: Seq<Card>, w: int) -> Seq<Seq<Card>> {
        Seq::new(5, |j: int| self.straight_bin(s, w + j))
    }

    /// Straights and straight draws in the five bins from `w`: all five filled
    /// is complete; one empty is open-ended at an end and inside in the middle;
    /// the two lowest empty is an open-ended draw of three cards.
    pub open spec fn window_straights(self, s: Seq<Card>, w: int) -> Seq<(Seq<Card>, StraightDrawType)> {
        let bins = self.scan_window(s, w);
        let f = filled(bins);
        if f.len() == 5 {
            tagged(product(bins), StraightDrawType::Complete)
        } else if f.len() == 4 {
            tagged(
                product(f),
                if bins[0].len() == 0 || bins[4].len() == 0 {
                    StraightDrawType::OpenEnded
                } else {
                    StraightDrawType::Inside
                },
            )
        } else if f.len() == 3 && bins[0].len() == 0 && bins[1].len() == 0 {
            tagged(product(f), StraightDrawType::OpenEnded)
        } else {
            Seq::empty()
        }
    }

    pub open spec fn straights_upto(self, s: Seq<Card>, n: int) -> Seq<(Seq<Card>, StraightDrawType)>
        decreases n,
    {
        if n <= 0 {
            Seq::empty()
        } else {
            self.straights_upto(s, n - 1) + self.window_straights(s, n - 1)
        }
    }

    /// Straight candidates of all ten windows, from the lowest.
    pub open spec fn straight_candidates(self, s: Seq<Card>) -> Seq<(Seq<Card>, StraightDrawType)> {
        self.straights_upto(s, 10)
    }

    pub fn new(ordering: [CardValue; 13]) -> (r: ShowdownEngine)
        ensures
            r.ordering == ordering,
    {
        ShowdownEngine { ordering }
    }

    /// The engine with the standard order, Two lowest and Ace highest.
    pub fn standard() -> (r: ShowdownEngine)
        ensures
            r.wf(),
            forall|v: CardValue| r.rank(v) == v.index(),
    {
        let r = ShowdownEngine {
            ordering: [
                CardValue::Two,
                CardValue::Three,
                CardValue::Four,
                CardValue::Five,
                CardValue::Six,
                CardValue::Seven,
                CardValue::Eight,
                CardValue::Nine,
                CardValue::Ten,
                CardValue::Jack,
                CardValue::Queen,
                CardValue::King,
                CardValue::Ace,
            ],
        };
        assert forall|v: CardValue| #[trigger] holds_value(r.ordering, v) by {
            assert(r.ordering[v.index()] == v);
        }
        assert forall|v: CardValue| r.rank(v) == v.index() by {
            r.lemma_rank(v, v.index());
        }
        r
    }

    /// Position of `v` in the ordering.
    fn rank_of(&self, v: CardValue) -> (r: usize)
        requires
            self.wf(),
        ensures
            r == self.rank(v),
            r < 13,
    {
        proof {
            self.lemma_rank_range(v);
        }
        let mut i: usize = 0;
        while i < 13
            invariant
                0 <= i <= 13,
                i <= self.rank(v),
                self.wf(),
                0 <= self.rank(v) < 13,
                self.ordering[self.rank(v)] == v,
            decreases 13 - i,
        {
            if self.ordering[i] == v {
                proof {
                    self.lemma_rank(v, i as int);
                }
                return i;
            }
            i = i + 1;
        }
        i
    }

    /// Copies `hand`, leaving out later repeats of a card.
    pub fn make_hand_unique(hand: &[Card]) -> (r: Vec<Card>)
        ensures
            r@ == unique_cards(hand@),
    {
        let mut acc: Vec<Card> = Vec::new();
        let n = hand.len();
        for i in 0..n
            invariant
                n == hand@.len(),
                acc@ == unique_cards(hand@.subrange(0, i as int)),
        {
            let c = hand[i];
            let ghost pre = hand@.subrange(0, i as int);
            assert(hand@.subrange(0, i + 1).drop_last() == pre);
            let mut found = false;
            let mut j: usize = 0;
            while j < acc.len()
                invariant
                    0 <= j <= acc@.len(),
                    found == acc@.subrange(0, j as int).contains(c),
                decreases acc@.len() - j,
            {
                if acc[j] == c {
                    found = true;
                }
                assert(acc@.subrange(0, j + 1) == acc@.subrange(0, j as int).push(acc@[j as int]));
                proof {
                    lemma_push_contains(acc@.subrange(0, j as int), acc@[j as int], c);
                }
                j = j + 1;
            }
            assert(acc@.subrange(0, acc@.len() as int) == acc@);
            if !found {
                acc.push(c);
            }
        }
        assert(hand@.subrange(0, n as int) == hand@);
        acc
    }

    /// The values present in `hand`, each once, in order of first appearance.
    pub fn values(hand: &[Card]) -> (r: Vec<CardValue>)
        ensures
            r@ == distinct_values(hand@),
    {
        let mut acc: Vec<CardValue> = Vec::new();
        let n = hand.len();
        for i in 0..n
            invariant
                n == hand@.len(),
                acc@ == distinct_values(hand@.subrange(0, i as int)),
        {
            let v = hand[i].value;
            assert(hand@.subrange(0, i + 1).drop_last() == hand@.subrange(0, i as int));
            let mut found = false;
            let mut j: usize = 0;
            while j < acc.len()
                invariant
                    0 <= j <= acc@.len(),
                    found == acc@.subrange(0, j as int).contains(v),
                decreases acc@.len() - j,
            {
                if acc[j] == v {
                    found = true;
                }
                assert(acc@.subrange(0, j + 1) == acc@.subrange(0, j as int).push(acc@[j as int]));
                proof {
                    lemma_push_contains(acc@.subrange(0, j as int), acc@[j as int], v);
                }
                j = j + 1;
            }
            assert(acc@.subrange(0, acc@.len() as int) == acc@);
            if !found {
                acc.push(v);
            }
        }
        assert(hand@.subrange(0, n as int) == hand@);
        acc
    }

    /// How many cards of `hand` have value `value`.
    pub fn count(hand: &[Card], value: &CardValue) -> (r: usize)
        ensures
            r == value_count(hand@, *value),
    {
        let mut acc: usize = 0;
        let n = hand.len();
        for i in 0..n
            invariant
                n == hand@.len(),
                acc == value_count(hand@.subrange(0, i as int), *value),
                acc <= i,
        {
            assert(hand@.subrange(0, i + 1).drop_last() == hand@.subrange(0, i as int));
            if hand[i].value == *value {
                acc = acc + 1;
            }
        }
        assert(hand@.subrange(0, n as int) == hand@);
        acc
    }

    /// The cards of `hand` of rank `r`, in order.
    fn rank_bin_of(&self, hand: &[Card], r: usize) -> (b: Vec<Card>)
        requires
            self.wf(),
        ensures
            b@ == self.rank_bin(hand@, r as int),
    {
        let mut v: Vec<Card> = Vec::new();
        let n = hand.len();
        for i in 0..n
            invariant
                n == hand@.len(),
                self.wf(),
                v@ == self.rank_bin(hand@.subrange(0, i as int), r as int),
        {
            assert(hand@.subrange(0, i + 1).drop_last() == hand@.subrange(0, i as int));
            if self.rank_of(hand[i].value) == r {
                v.push(hand[i]);
            }
        }
        assert(hand@.subrange(0, n as int) == hand@);
        v
    }

    /// Every run of `number` cards of one rank, rank by rank from the lowest.
    pub(crate) fn detect_of_a_kind(&self, hand: &[Card], number: usize) -> (r: Vec<Vec<Card>>)
        requires
            self.wf(),
            number > 0,
        ensures
            card_sets(r@) == self.of_a_kind(hand@, number as int),
    {
        let mut sets: Vec<Vec<Card>> = Vec::new();
        assert(card_sets(sets@) == Seq::<Seq<Card>>::empty());
        for i in 0..13
            invariant
                self.wf(),
                number > 0,
                card_sets(sets@) == self.kinds_upto(hand@, number as int, i as int),
        {
            let bin = self.rank_bin_of(hand, i);
            push_windows(&mut sets, &bin, number);
        }
        sets
    }

    /// The cards of `t` ordered by rank, from the lowest.
    fn sort_by_rank(&self, t: &[Card]) -> (r: Vec<Card>)
        requires
            self.wf(),
        ensures
            r@ == self.by_rank(t@),
    {
        let mut out: Vec<Card> = Vec::new();
        for i in 0..13
            invariant
                self.wf(),
                out@ == self.ranks_upto(t@, i as int),
        {
            let bin = self.rank_bin_of(t, i);
            let n = bin.len();
            let ghost start = out@;
            for j in 0..n
                invariant
                    n == bin@.len(),
                    out@ == start + bin@.subrange(0, j as int),
            {
                out.push(bin[j]);
                assert(bin@.subrange(0, j + 1) == bin@.subrange(0, j as int).push(bin@[j as int]));
            }
            assert(bin@.subrange(0, n as int) == bin@);
        }
        out
    }

    /// The flush candidates of each suit, suit by suit.
    pub(crate) fn detect_flushes(&self, hand: &[Card]) -> (r: Vec<Vec<Card>>)
        requires
            self.wf(),
        ensures
            card_sets(r@) == self.flush_sets(hand@),
    {
        let mut sets: Vec<Vec<Card>> = Vec::new();
        assert(card_sets(sets@) == Seq::<Seq<Card>>::empty());
        let order = [CardSuit::Spades, CardSuit::Hearts, CardSuit::Clubs, CardSuit::Diamonds];
        for i in 0..4
            invariant
                self.wf(),
                card_sets(sets@) == self.flushes_upto(hand@, i as int),
                order@ == seq![CardSuit::Spades, CardSuit::Hearts, CardSuit::Clubs, CardSuit::Diamonds],
        {
            assert(order@[i as int] == scan_suit(i as int));
            let bin = suit_bin_of(hand, order[i]);
            let sorted = self.sort_by_rank(bin.as_slice());
            if sorted.len() == 4 {
                let ghost before = sets@;
                sets.push(copy_cards(sorted.as_slice()));
                assert(card_sets(sets@) == card_sets(before).push(sorted@));
            } else {
                push_windows(&mut sets, &sorted, 5);
            }
        }
        sets
    }

    /// Straights and straight draws of every window of five bins.
    pub(crate) fn detect_straights(&self, hand: &[Card]) -> (r: Vec<(Vec<Card>, StraightDrawType)>)
        requires
            self.wf(),
        ensures
            straight_sets(r@) == self.straight_candidates(hand@),
    {
        let mut bins: Vec<Vec<Card>> = Vec::new();
        bins.push(self.rank_bin_of(hand, 12));
        for i in 0..13
            invariant
                self.wf(),
                bins@.len() == i + 1,
                forall|j: int| 0 <= j <= i ==> #[trigger] bins@[j]@ == self.straight_bin(hand@, j),
        {
            bins.push(self.rank_bin_of(hand, i));
        }
        let mut out: Vec<(Vec<Card>, StraightDrawType)> = Vec::new();
        assert(straight_sets(out@) == Seq::<(Seq<Card>, StraightDrawType)>::empty());
        for w in 0..10
            invariant
                self.wf(),
                bins@.len() == 14,
                forall|j: int| 0 <= j < 14 ==> #[trigger] bins@[j]@ == self.straight_bin(hand@, j),
                straight_sets(out@) == self.straights_upto(hand@, w as int),
        {
            let mut window: Vec<Vec<Card>> = Vec::new();
            for j in 0..5
                invariant
                    w < 10,
                    bins@.len() == 14,
                    window@.len() == j,
                    forall|k: int| 0 <= k < j ==> #[trigger] window@[k]@ == bins@[w + k]@,
            {
                window.push(copy_cards(bins[w + j].as_slice()));
            }
            let ghost sw = self.scan_window(hand@, w as int);
            assert(card_sets(window@) == sw);
            let f = filled_bins(&window);
            let ghost before = straight_sets(out@);
            if f.len() == 5 {
                let sets = product_of(&window);
                push_tagged(&mut out, sets, StraightDrawType::Complete);
            } else if f.len() == 4 {
                let open = window[0].len() == 0 || window[4].len() == 0;
                let sets = product_of(&f);
                if open {
                    push_tagged(&mut out, sets, StraightDrawType::OpenEnded);
                } else {
                    push_tagged(&mut out, sets, StraightDrawType::Inside);
                }
            } else if f.len() == 3 && window[0].len() == 0 && window[1].len() == 0 {
                let sets = product_of(&f);
                push_tagged(&mut out, sets, StraightDrawType::OpenEnded);
            } else {
                assert(self.window_straights(hand@, w as int) == Seq::<(Seq<Card>, StraightDrawType)>::empty());
            }
            assert(straight_sets(out@) == before + self.window_straights(hand@, w as int));
        }
        out
    }

    /// Compares two values by their position in the ordering.
    pub fn value_order(&self, a: &CardValue, b: &CardValue) -> (r: Ordering)
        requires
            self.wf(),
        ensures
            r == cmp_int(self.rank(*a), self.rank(*b)),
    {
        let oa = self.rank_of(*a);
        let ob = self.rank_of(*b);
        order_of(oa, ob)
    }

    /// The last card of highest rank in a non-empty hand.
    pub fn highest_card(&self, hand: &[Card]) -> (r: Card)
        requires
            self.wf(),
            hand@.len() > 0,
        ensures
            r == self.best_card(hand@),
    {
        let mut best = hand[0];
        let mut best_rank = self.rank_of(best.value);
        let n = hand.len();
        assert(hand@.subrange(0, 1).drop_last().len() == 0);
        for i in 1..n
            invariant
                n == hand@.len(),
                self.wf(),
                best == self.best_card(hand@.subrange(0, i as int)),
                best_rank == self.rank(best.value),
        {
            assert(hand@.subrange(0, i + 1).drop_last() == hand@.subrange(0, i as int));
            let r = self.rank_of(hand[i].value);
            if r >= best_rank {
                best = hand[i];
                best_rank = r;
            }
        }
        assert(hand@.subrange(0, n as int) == hand@);
        best
    }

    /// One more than the rank of the highest card, or 0 for no cards.
    fn top_level(&self, s: &[Card]) -> (r: usize)
        requires
            self.wf(),
        ensures
            r == self.top_rank(s@) + 1,
    {
        if s.len() == 0 {
            0
        } else {
            self.rank_of(self.highest_card_value(s)) + 1
        }
    }

    /// The value of the last card of highest rank in a non-empty hand.
    pub fn highest_card_value(&self, hand: &[Card]) -> (r: CardValue)
        requires
            self.wf(),
            hand@.len() > 0,
        ensures
            r == self.best_card(hand@).value,
    {
        self.highest_card(hand).value
    }

    /// Orders two made hands: by category, then by the rank of their highest card.
    pub fn compare_hands(&self, a: &Hand, b: &Hand) -> (r: Ordering)
        requires
            self.wf(),
        ensures
            r == self.compare_hands_spec(a@, b@),
    {
        let ca = a.category();
        let cb = b.category();
        if ca != cb {
            return order_of(ca, cb);
        }
        let ra = self.top_level(a.card_slice());
        let rb = self.top_level(b.card_slice());
        order_of(ra, rb)
    }

    /// Orders two potential hands: made hands above royal-flush draws, above
    /// straight-flush draws, above flush draws, above straight draws, above a high
    /// card. Draws of one family go by draw quality (flush draws by size), then by
    /// the rank of their highest card.
    pub fn compare_potential_hands(&self, a: &PotentialHand, b: &PotentialHand) -> (r: Ordering)
        requires
            self.wf(),
        ensures
            r == self.compare_spec(a@, b@),
    {
        let ta = a.tier();
        let tb = b.tier();
        if ta != tb {
            return order_of(ta, tb);
        }
        match (a, b) {
            (PotentialHand::Hand(x), PotentialHand::Hand(y)) => self.compare_hands(x, y),
            (PotentialHand::HighCard(x), PotentialHand::HighCard(y)) => self.value_order(
                &x.value,
                &y.value,
            ),
            _ => {
                let ma = a.middle();
                let mb = b.middle();
                if ma != mb {
                    return order_of(ma, mb);
                }
                let ra = self.top_level(a.draw_cards());
                let rb = self.top_level(b.draw_cards());
                order_of(ra, rb)
            },
        }
    }
}

/// The cards of `s[lo..hi]`.
fn copy_range(s: &[Card], lo: usize, hi: usize) -> (r: Vec<Card>)
    requires
        lo <= hi <= s@.len(),
    ensures
        r@ == s@.subrange(lo as int, hi as int),
{
    let mut v: Vec<Card> = Vec::new();
    for i in lo..hi
        invariant
            lo <= hi <= s@.len(),
            v@ == s@.subrange(lo as int, i as int),
    {
        v.push(s[i]);
        assert(s@.subrange(lo as int, i + 1) == s@.subrange(lo as int, i as int).push(s@[i as int]));
    }
    v
}

/// Appends every run of `k` consecutive cards of `bin` to `out`.
fn push_windows(out: &mut Vec<Vec<Card>>, bin: &Vec<Card>, k: usize)
    requires
        k > 0,
    ensures
        card_sets(final(out)@) == card_sets(old(out)@) + windows(bin@, k as int),
{
    let ghost start = card_sets(old(out)@);
    if bin.len() < k {
        assert(card_sets(out@) == start + windows(bin@, k as int));
        return;
    }
    let bl = bin.len();
    let n = bl - k + 1;
    for w in 0..n
        invariant
            bl == bin@.len(),
            n == bin@.len() - k + 1,
            k <= bin@.len(),
            card_sets(out@) == start + windows(bin@, k as int).subrange(0, w as int),
    {
        assert(w + k <= bin@.len());
        let x = copy_range(bin.as_slice(), w, w + k);
        let ghost before = out@;
        out.push(x);
        assert(card_sets(out@) == card_sets(before).push(x@));
        assert(windows(bin@, k as int).subrange(0, w + 1) == windows(bin@, k as int).subrange(
            0,
            w as int,
        ).push(bin@.subrange(w as int, w + k)));
    }
    assert(windows(bin@, k as int).subrange(0, n as int) == windows(bin@, k as int));
}

/// The cards of `hand` of suit `u`, in order.
fn suit_bin_of(hand: &[Card], u: CardSuit) -> (r: Vec<Card>)
    ensures
        r@ == suit_bin(hand@, u),
{
    let mut v: Vec<Card> = Vec::new();
    let n = hand.len();
    for i in 0..n
        invariant
            n == hand@.len(),
            v@ == suit_bin(hand@.subrange(0, i as int), u),
    {
        assert(hand@.subrange(0, i + 1).drop_last() == hand@.subrange(0, i as int));
        if hand[i].suit == u {
            v.push(hand[i]);
        }
    }
    assert(hand@.subrange(0, n as int) == hand@);
    v
}

/// The non-empty bins, in order.
fn filled_bins(bins: &Vec<Vec<Card>>) -> (r: Vec<Vec<Card>>)
    ensures
        card_sets(r@) == filled(card_sets(bins@)),
{
    let mut v: Vec<Vec<Card>> = Vec::new();
    let n = bins.len();
    for i in 0..n
        invariant
            n == bins@.len(),
            card_sets(v@) == filled(card_sets(bins@.subrange(0, i as int))),
    {
        assert(card_sets(bins@.subrange(0, i + 1)).drop_last() == card_sets(
            bins@.subrange(0, i as int),
        ));
        assert(card_sets(bins@.subrange(0, i + 1)).last() == bins@[i as int]@);
        if bins[i].len() > 0 {
            let ghost before = v@;
            v.push(copy_cards(bins[i].as_slice()));
            assert(card_sets(v@) == card_sets(before).push(bins@[i as int]@));
        }
    }
    assert(bins@.subrange(0, n as int) == bins@);
    v
}

/// Every way of taking one card from each bin.
fn product_of(bins: &Vec<Vec<Card>>) -> (r: Vec<Vec<Card>>)
    ensures
        card_sets(r@) == product(card_sets(bins@)),
{
    let mut acc: Vec<Vec<Card>> = Vec::new();
    acc.push(Vec::new());
    assert(card_sets(acc@) == seq![Seq::<Card>::empty()]);
    assert(card_sets(bins@).subrange(0, 0) == Seq::<Seq<Card>>::empty());
    let n = bins.len();
    for b in 0..n
        invariant
            n == bins@.len(),
            card_sets(acc@) == product(card_sets(bins@).subrange(0, b as int)),
    {
        let bin = &bins[b];
        let ghost bv = bin@;
        let mut next: Vec<Vec<Card>> = Vec::new();
        let m = acc.len();
        for i in 0..m
            invariant
                m == acc@.len(),
                bv == bin@,
                card_sets(next@) == extend(card_sets(acc@).subrange(0, i as int), bv),
        {
            let ghost row_start = card_sets(next@);
            let ghost base = acc@[i as int]@;
            let k = bin.len();
            for j in 0..k
                invariant
                    k == bv.len(),
                    i < m == acc@.len(),
                    bv == bin@,
                    base == acc@[i as int]@,
                    card_sets(next@) == row_start + bv.subrange(0, j as int).map_values(
                        |c: Card| base.push(c),
                    ),
            {
                let mut p = copy_cards(acc[i].as_slice());
                p.push(bin[j]);
                let ghost before = next@;
                next.push(p);
                assert(card_sets(next@) == card_sets(before).push(base.push(bv[j as int])));
                assert(bv.subrange(0, j + 1).map_values(|c: Card| base.push(c)) == bv.subrange(
                    0,
                    j as int,
                ).map_values(|c: Card| base.push(c)).push(base.push(bv[j as int])));
            }
            assert(bv.subrange(0, k as int) == bv);
            assert(card_sets(acc@).subrange(0, i + 1).drop_last() == card_sets(acc@).subrange(
                0,
                i as int,
            ));
            assert(card_sets(acc@).subrange(0, i + 1).last() == base);
        }
        assert(card_sets(acc@).subrange(0, m as int) == card_sets(acc@));
        assert(card_sets(bins@).subrange(0, b + 1).drop_last() == card_sets(bins@).subrange(
            0,
            b as int,
        ));
        assert(card_sets(bins@).subrange(0, b + 1).last() == bv);
        acc = next;
    }
    assert(card_sets(bins@).subrange(0, n as int) == card_sets(bins@));
    acc
}

/// Appends each set paired with the draw type `t`.
fn push_tagged(
    out: &mut Vec<(Vec<Card>, StraightDrawType)>,
    sets: Vec<Vec<Card>>,
    t: StraightDrawType,
)
    ensures
        straight_sets(final(out)@) == straight_sets(old(out)@) + tagged(card_sets(sets@), t),
{
    let ghost start = straight_sets(old(out)@);
    let n = sets.len();
    for i in 0..n
        invariant
            n == sets@.len(),
            straight_sets(out@) == start + tagged(card_sets(sets@), t).subrange(0, i as int),
    {
        let ghost before = out@;
        out.push((copy_cards(sets[i].as_slice()), t));
        assert(straight_sets(out@) == straight_sets(before).push((sets@[i as int]@, t)));
        assert(tagged(card_sets(sets@), t).subrange(0, i + 1) == tagged(card_sets(sets@), t).subrange(
            0,
            i as int,
        ).push((sets@[i as int]@, t)));
    }
    assert(tagged(card_sets(sets@), t).subrange(0, n as int) == tagged(card_sets(sets@), t));
}

impl Hand {
    pub(crate) fn category(&self) -> (r: usize)
        ensures
            r == self@.category(),
    {
        match self {
            Hand::RoyalFlush(_) => 8,
            Hand::StraightFlush(_) => 7,
            Hand::FourOfAKind(_) => 6,
            Hand::FullHouse(_) => 5,
            Hand::Flush(_) => 4,
            Hand::Straight(_) => 3,
            Hand::ThreeOfAKind(_) => 2,
            Hand::TwoPair(_) => 1,
            Hand::Pair(_) => 0,
        }
    }

    fn card_slice(&self) -> (r: &[Card])
        ensures
            r@ == self@.cards(),
    {
        match self {
            Hand::RoyalFlush(a) => a.as_slice(),
            Hand::StraightFlush(a) => a.as_slice(),
            Hand::FourOfAKind(a) => a.as_slice(),
            Hand::FullHouse(a) => a.as_slice(),
            Hand::Flush(a) => a.as_slice(),
            Hand::Straight(a) => a.as_slice(),
            Hand::ThreeOfAKind(a) => a.as_slice(),
            Hand::TwoPair(a) => a.as_slice(),
            Hand::Pair(a) => a.as_slice(),
        }
    }

    /// A copy of the cards that form the hand.
    pub fn cards(&self) -> (r: Vec<Card>)
        ensures
            r@ == self@.cards(),
    {
        copy_cards(self.card_slice())
    }
}

/// A copy of a slice of cards.
pub(crate) fn copy_cards(s: &[Card]) -> (r: Vec<Card>)
    ensures
        r@ == s@,
{
    let mut v: Vec<Card> = Vec::new();
    let n = s.len();
    for i in 0..n
        invariant
            n == s@.len(),
            v@ == s@.subrange(0, i as int),
    {
        v.push(s[i]);
        assert(s@.subrange(0, i + 1) == s@.subrange(0, i as int).push(s@[i as int]));
    }
    assert(s@.subrange(0, n as int) == s@);
    v
}

impl PotentialHand {
    fn tier(&self) -> (r: usize)
        ensures
            r == self@.tier(),
    {
        match self {
            PotentialHand::Hand(_) => 5,
            PotentialHand::RoyalFlushDraw(..) => 4,
            PotentialHand::StraightFlushDraw(..) => 3,
            PotentialHand::FlushDraw(_) => 2,
            PotentialHand::StraightDraw(..) => 1,
            PotentialHand::HighCard(_) => 0,
        }
    }

    /// The middle entry of the sort key of a draw.
    fn middle(&self) -> (r: usize)
        requires
            !(self is Hand),
            !(self is HighCard),
        ensures
            forall|e: ShowdownEngine| r == (#[trigger] e.key(self@)).1,
    {
        match self {
            PotentialHand::FlushDraw(a) => a.len(),
            PotentialHand::StraightDraw(_, t) => t.quality(),
            PotentialHand::StraightFlushDraw(_, t) => t.quality(),
            PotentialHand::RoyalFlushDraw(_, t) => t.quality(),
            _ => 0,
        }
    }

    fn draw_cards(&self) -> (r: &[Card])
        requires
            !(self is Hand),
            !(self is HighCard),
        ensures
            r@ == self@.cards(),
    {
        match self {
            PotentialHand::FlushDraw(a) => a.as_slice(),
            PotentialHand::StraightDraw(a, _) => a.as_slice(),
            PotentialHand::StraightFlushDraw(a, _) => a.as_slice(),
            PotentialHand::RoyalFlushDraw(a, _) => a.as_slice(),
            PotentialHand::Hand(h) => h.card_slice(),
            PotentialHand::HighCard(_) => &[],
        }
    }

    /// A copy of the cards it is made of; a high card is a single card.
    pub fn cards(&self) -> (r: Vec<Card>)
        ensures
            r@ == self@.cards(),
    {
        match self {
            PotentialHand::Hand(h) => h.cards(),
            PotentialHand::HighCard(c) => {
                let mut v: Vec<Card> = Vec::new();
                v.push(*c);
                v
            },
            _ => copy_cards(self.draw_cards()),
        }
    }

    /// A copy of the potential hand.
    pub fn duplicate(&self) -> (r: PotentialHand)
        ensures
            r@ == self@,
    {
        match self {
            PotentialHand::Hand(h) => PotentialHand::Hand(h.duplicate()),
            PotentialHand::StraightDraw(a, t) => PotentialHand::StraightDraw(copy_cards(a.as_slice()), *t),
            PotentialHand::FlushDraw(a) => PotentialHand::FlushDraw(copy_cards(a.as_slice())),
            PotentialHand::StraightFlushDraw(a, t) => PotentialHand::StraightFlushDraw(copy_cards(a.as_slice()), *t),
            PotentialHand::RoyalFlushDraw(a, t) => PotentialHand::RoyalFlushDraw(copy_cards(a.as_slice()), *t),
            PotentialHand::HighCard(c) => PotentialHand::HighCard(*c),
        }
    }

    /// The made hand, if this is one.
    pub fn showdown(&self) -> (r: Option<Hand>)
        ensures
            match self@ {
                PotentialModel::Hand(h) => r matches Some(x) && x@ == h,
                _ => r is None,
            },
    {
        match self {
            PotentialHand::Hand(hand) => Some(hand.duplicate()),
            _ => None,
        }
    }
}

impl StraightDrawType {
    fn quality(&self) -> (r: usize)
        ensures
            r == self.spec_quality(),
    {
        match self {
            StraightDrawType::Complete => 0,
            StraightDrawType::Inside => 1,
            StraightDrawType::OpenEnded => 2,
        }
    }
}

impl Hand {
    /// A copy of the hand.
    pub fn duplicate(&self) -> (r: Hand)
        ensures
            r@ == self@,
    {
        let c = copy_cards(self.card_slice());
        match self {
            Hand::RoyalFlush(_) => Hand::RoyalFlush(c),
            Hand::StraightFlush(_) => Hand::StraightFlush(c),
            Hand::FourOfAKind(_) => Hand::FourOfAKind(c),
            Hand::FullHouse(_) => Hand::FullHouse(c),
            Hand::Flush(_) => Hand::Flush(c),
            Hand::Straight(_) => Hand::Straight(c),
            Hand::ThreeOfAKind(_) => Hand::ThreeOfAKind(c),
            Hand::TwoPair(_) => Hand::TwoPair(c),
            Hand::Pair(_) => Hand::Pair(c),
        }
    }
}

/// The order of potential hands is reflexive, antisymmetric and transitive.
pub proof fn lemma_compare_total_order(
    e: ShowdownEngine,
    a: PotentialModel,
    b: PotentialModel,
    c: PotentialModel,
)
    ensures
        e.compare_spec(a, a) == Ordering::Equal,
        e.compare_spec(a, b) == reversed(e.compare_spec(b, a)),
        e.compare_spec(a, b) != Ordering::Greater && e.compare_spec(b, c) != Ordering::Greater
            ==> e.compare_spec(a, c) != Ordering::Greater,
        e.compare_spec(a, b) == Ordering::Less && e.compare_spec(b, c) != Ordering::Greater
            ==> e.compare_spec(a, c) == Ordering::Less,
        e.compare_spec(a, b) == Ordering::Equal && e.compare_spec(b, c) == Ordering::Equal
            ==> e.compare_spec(a, c) == Ordering::Equal,
{
}

impl ShowdownEngine {
    /// Every of-a-kind candidate holds `k` cards.
    pub proof fn lemma_of_a_kind_size(self, s: Seq<Card>, k: int, n: int)
        requires
            k >= 0,
        ensures
            forall|i: int| 0 <= i < self.kinds_upto(s, k, n).len() ==> #[trigger] self.kinds_upto(s, k, n)[i].len() == k,
        decreases n,
    {
        if n > 0 {
            self.lemma_of_a_kind_size(s, k, n - 1);
            let a = self.kinds_upto(s, k, n - 1);
            let w = windows(self.rank_bin(s, n - 1), k);
            assert forall|i: int| 0 <= i < self.kinds_upto(s, k, n).len() implies #[trigger] self.kinds_upto(s, k, n)[i].len() == k by {
                if i >= a.len() {
                    assert(self.kinds_upto(s, k, n)[i] == w[i - a.len()]);
                } else {
                    assert(self.kinds_upto(s, k, n)[i] == a[i]);
                }
            }
        }
    }
}

/// Leaving out repeats keeps exactly the cards of `s`, each once.
pub proof fn lemma_unique_cards(s: Seq<Card>)
    ensures
        unique_cards(s).no_duplicates(),
        forall|c: Card| #[trigger] unique_cards(s).contains(c) <==> s.contains(c),
    decreases s.len(),
{
    if s.len() > 0 {
        let d = s.drop_last();
        lemma_unique_cards(d);
        let u = unique_cards(d);
        assert forall|c: Card| d.contains(c) implies s.contains(c) by {
            let j = choose|j: int| 0 <= j < d.len() && d[j] == c;
            assert(s[j] == c);
        }
        assert forall|c: Card| s.contains(c) implies d.contains(c) || c == s.last() by {
            let j = choose|j: int| 0 <= j < s.len() && s[j] == c;
            if j < d.len() {
                assert(d[j] == c);
            }
        }
        assert(s[s.len() - 1] == s.last());
        assert forall|c: Card| #[trigger] u.push(s.last()).contains(c) <==> (u.contains(c) || c
            == s.last()) by {
            lemma_push_contains(u, s.last(), c);
        }
    }
}

pub proof fn lemma_push_contains<T>(s: Seq<T>, x: T, y: T)
    ensures
        s.push(x).contains(y) <==> (s.contains(y) || x == y),
{
    if s.contains(y) {
        let i = choose|i: int| 0 <= i < s.len() && s[i] == y;
        assert(s.push(x)[i] == y);
    }
    if x == y {
        assert(s.push(x)[s.len() as int] == y);
    }
    if s.push(x).contains(y) {
        let i = choose|i: int| 0 <= i < s.push(x).len() && s.push(x)[i] == y;
        if i < s.len() {
            assert(s[i] == y);
        }
    }
}

} // verus!
