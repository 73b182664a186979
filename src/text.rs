//! Human-readable text of cards, boards, hands and errors.
use vstd::prelude::*;
use crate::cards::{card_text, chars_of, text_of, Card, CardConversionError, CardDeck, CardHand};
use crate::showdown::{Hand, HandModel, PotentialHand, PotentialModel, StraightDrawType};
use crate::thread_pool::PoolCreationError;

verus! {

/// The texts of `cs`, with `sep` between each two.
pub open spec fn joined_cards(cs: Seq<Card>, sep: Seq<char>) -> Seq<char>
    decreases cs.len(),
{
    if cs.len() == 0 {
        Seq::empty()
    } else if cs.len() == 1 {
        card_text(cs[0])
    } else {
        joined_cards(cs.drop_last(), sep) + sep + card_text(cs.last())
    }
}

fn push_str(out: &mut Vec<char>, s: &str)
    ensures
        final(out)@ == old(out)@ + s@,
{
    let cs = chars_of(s);
    let ghost start = out@;
    let n = cs.len();
    for i in 0..n
        invariant
            n == cs@.len(),
            cs@ == s@,
            out@ == start + cs@.subrange(0, i as int),
    {
        out.push(cs[i]);
        assert(cs@.subrange(0, i + 1) == cs@.subrange(0, i as int).push(cs@[i as int]));
    }
    assert(cs@.subrange(0, n as int) == cs@);
}

fn push_chars(out: &mut Vec<char>, cs: &Vec<char>)
    ensures
        final(out)@ == old(out)@ + cs@,
{
    let ghost start = out@;
    let n = cs.len();
    for i in 0..n
        invariant
            n == cs@.len(),
            out@ == start + cs@.subrange(0, i as int),
    {
        out.push(cs[i]);
        assert(cs@.subrange(0, i + 1) == cs@.subrange(0, i as int).push(cs@[i as int]));
    }
    assert(cs@.subrange(0, n as int) == cs@);
}

fn push_joined(out: &mut Vec<char>, cs: &[Card], sep: &str)
    ensures
        final(out)@ == old(out)@ + joined_cards(cs@, sep@),
{
    let ghost start = out@;
    let n = cs.len();
    assert(cs@.subrange(0, 0).len() == 0);
    for i in 0..n
        invariant
            n == cs@.len(),
            out@ == start + joined_cards(cs@.subrange(0, i as int), sep@),
    {
        assert(cs@.subrange(0, i + 1).drop_last() == cs@.subrange(0, i as int));
        if i > 0 {
            push_str(out, sep);
        }
        cs[i].push_text(out);
        assert(i == 0 ==> cs@.subrange(0, i + 1)[0] == cs@[i as int]);
    }
    assert(cs@.subrange(0, n as int) == cs@);
}

pub open spec fn deck_text(d: Seq<Card>) -> Seq<char> {
    if d.len() == 0 {
        "<empty>"@
    } else {
        "["@ + joined_cards(d, ", "@) + "]"@
    }
}

pub open spec fn hand_text(h: CardHand) -> Seq<char> {
    "["@ + card_text(h.0[0]) + ", "@ + card_text(h.0[1]) + "]"@
}

pub open spec fn hand_name(h: HandModel) -> Seq<char> {
    match h {
        HandModel::RoyalFlush(_) => "RoyalFlush"@,
        HandModel::StraightFlush(_) => "StraightFlush"@,
        HandModel::FourOfAKind(_) => "FourKind"@,
        HandModel::FullHouse(_) => "FullHouse"@,
        HandModel::Flush(_) => "Flush"@,
        HandModel::Straight(_) => "Straight"@,
        HandModel::ThreeOfAKind(_) => "ThreeKind"@,
        HandModel::TwoPair(_) => "TwoPair"@,
        HandModel::Pair(_) => "Pair"@,
    }
}

pub open spec fn made_text(h: HandModel) -> Seq<char> {
    "["@ + hand_name(h) + " "@ + joined_cards(h.cards(), " "@) + "]"@
}

pub open spec fn draw_type_text(t: StraightDrawType) -> Seq<char> {
    match t {
        StraightDrawType::Complete => "Complete"@,
        StraightDrawType::Inside => "Inside"@,
        StraightDrawType::OpenEnded => "OpenEnded"@,
    }
}

pub open spec fn draw_text(name: Seq<char>, cs: Seq<Card>, t: StraightDrawType) -> Seq<char> {
    "["@ + name + " "@ + joined_cards(cs, " "@) + " ("@ + draw_type_text(t) + ")]"@
}

pub open spec fn potential_text(p: PotentialModel) -> Seq<char> {
    match p {
        PotentialModel::Hand(h) => "[Winning Hand "@ + made_text(h) + "]"@,
        PotentialModel::StraightDraw(a, t) => draw_text("StraightDraw"@, a, t),
        PotentialModel::StraightFlushDraw(a, t) => draw_text("StraightFlushDraw"@, a, t),
        PotentialModel::RoyalFlushDraw(a, t) => draw_text("RoyalFlushDraw"@, a, t),
        PotentialModel::FlushDraw(a) => "[FlushDraw "@ + joined_cards(a, " "@) + "]"@,
        PotentialModel::HighCard(c) => "[HighCard "@ + card_text(c) + "]"@,
    }
}

impl CardDeck {
    /// `<empty>`, or the cards in brackets, separated by commas.
    pub fn to_text(&self) -> (r: String)
        ensures
            r@ == deck_text(self.0@),
    {
        let mut v: Vec<char> = Vec::new();
        if self.0.len() == 0 {
            push_str(&mut v, "<empty>");
        } else {
            push_str(&mut v, "[");
            push_joined(&mut v, self.0.as_slice(), ", ");
            push_str(&mut v, "]");
        }
        text_of(&v)
    }
}

impl CardHand {
    /// The two cards in brackets, separated by a comma.
    pub fn to_text(&self) -> (r: String)
        ensures
            r@ == hand_text(*self),
    {
        let mut v: Vec<char> = Vec::new();
        push_str(&mut v, "[");
        self.0[0].push_text(&mut v);
        push_str(&mut v, ", ");
        self.0[1].push_text(&mut v);
        push_str(&mut v, "]");
        text_of(&v)
    }
}

/// Text of a hand that may be unknown.
pub trait CardHandExt {
    spec fn printed(&self) -> Seq<char>;

    fn print(&self) -> (r: String)
        ensures
            r@ == self.printed(),
    ;
}

impl CardHandExt for Option<CardHand> {
    open spec fn printed(&self) -> Seq<char> {
        match self {
            Some(h) => hand_text(*h),
            None => "<empty>"@,
        }
    }

    fn print(&self) -> (r: String) {
        match self {
            Some(h) => h.to_text(),
            None => {
                let mut v: Vec<char> = Vec::new();
                push_str(&mut v, "<empty>");
                text_of(&v)
            },
        }
    }
}

impl Hand {
    fn push_name(&self, out: &mut Vec<char>)
        ensures
            final(out)@ == old(out)@ + hand_name(self@),
    {
        match self {
            Hand::RoyalFlush(_) => push_str(out, "RoyalFlush"),
            Hand::StraightFlush(_) => push_str(out, "StraightFlush"),
            Hand::FourOfAKind(_) => push_str(out, "FourKind"),
            Hand::FullHouse(_) => push_str(out, "FullHouse"),
            Hand::Flush(_) => push_str(out, "Flush"),
            Hand::Straight(_) => push_str(out, "Straight"),
            Hand::ThreeOfAKind(_) => push_str(out, "ThreeKind"),
            Hand::TwoPair(_) => push_str(out, "TwoPair"),
            Hand::Pair(_) => push_str(out, "Pair"),
        }
    }

    fn push_made(&self, out: &mut Vec<char>)
        ensures
            final(out)@ == old(out)@ + made_text(self@),
    {
        push_str(out, "[");
        self.push_name(out);
        push_str(out, " ");
        let cs = self.cards();
        push_joined(out, cs.as_slice(), " ");
        push_str(out, "]");
    }

    /// The category and the cards, in brackets.
    pub fn to_text(&self) -> (r: String)
        ensures
            r@ == made_text(self@),
    {
        let mut v: Vec<char> = Vec::new();
        self.push_made(&mut v);
        text_of(&v)
    }
}

fn push_draw(out: &mut Vec<char>, name: &str, cs: &Vec<Card>, t: StraightDrawType)
    ensures
        final(out)@ == old(out)@ + draw_text(name@, cs@, t),
{
    push_str(out, "[");
    push_str(out, name);
    push_str(out, " ");
    push_joined(out, cs.as_slice(), " ");
    push_str(out, " (");
    match t {
        StraightDrawType::Complete => push_str(out, "Complete"),
        StraightDrawType::Inside => push_str(out, "Inside"),
        StraightDrawType::OpenEnded => push_str(out, "OpenEnded"),
    }
    push_str(out, ")]");
}

impl PotentialHand {
    /// The kind and the cards, in brackets.
    pub fn to_text(&self) -> (r: String)
        ensures
            r@ == potential_text(self@),
    {
        let mut v: Vec<char> = Vec::new();
        match self {
            PotentialHand::Hand(h) => {
                push_str(&mut v, "[Winning Hand ");
                h.push_made(&mut v);
                push_str(&mut v, "]");
            },
            PotentialHand::StraightDraw(a, t) => push_draw(&mut v, "StraightDraw", a, *t),
            PotentialHand::StraightFlushDraw(a, t) => push_draw(&mut v, "StraightFlushDraw", a, *t),
            PotentialHand::RoyalFlushDraw(a, t) => push_draw(&mut v, "RoyalFlushDraw", a, *t),
            PotentialHand::FlushDraw(a) => {
                push_str(&mut v, "[FlushDraw ");
                push_joined(&mut v, a.as_slice(), " ");
                push_str(&mut v, "]");
            },
            PotentialHand::HighCard(c) => {
                push_str(&mut v, "[HighCard ");
                c.push_text(&mut v);
                push_str(&mut v, "]");
            },
        }
        text_of(&v)
    }
}

impl CardConversionError {
    /// A sentence that names the problem and the text at fault.
    pub fn to_text(&self) -> (r: String)
        ensures
            r@ == match self {
                CardConversionError::InvalidSuit(c) => "Invalid suit: "@.push(*c),
                CardConversionError::InvalidValue(c) => "Invalid value: "@.push(*c),
                CardConversionError::Empty => "Unexpected empty string"@,
                CardConversionError::TooLong(s) => "String too long: "@ + s@,
                CardConversionError::NotACard(s) => "String too short for card: "@ + s@,
            },
    {
        let mut v: Vec<char> = Vec::new();
        match self {
            CardConversionError::InvalidSuit(c) => {
                push_str(&mut v, "Invalid suit: ");
                v.push(*c);
            },
            CardConversionError::InvalidValue(c) => {
                push_str(&mut v, "Invalid value: ");
                v.push(*c);
            },
            CardConversionError::Empty => push_str(&mut v, "Unexpected empty string"),
            CardConversionError::TooLong(s) => {
                push_str(&mut v, "String too long: ");
                push_str(&mut v, s.as_str());
            },
            CardConversionError::NotACard(s) => {
                push_str(&mut v, "String too short for card: ");
                push_str(&mut v, s.as_str());
            },
        }
        text_of(&v)
    }
}

impl PoolCreationError {
    /// A sentence that names the problem.
    pub fn to_text(&self) -> (r: String)
        ensures
            r@ == match self {
                PoolCreationError::EmptyPool => "attempted to create a pool of size 0"@,
                PoolCreationError::TooManyThreads(_) => "attempted to create too many threads"@,
            },
    {
        let mut v: Vec<char> = Vec::new();
        match self {
            PoolCreationError::EmptyPool => push_str(&mut v, "attempted to create a pool of size 0"),
            PoolCreationError::TooManyThreads(_) => push_str(
                &mut v,
                "attempted to create too many threads",
            ),
        }
        text_of(&v)
    }
}

} // verus!
