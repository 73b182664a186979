//! Cards, their two-character text form, and conversions from text.
use vstd::prelude::*;
use vstd::string::*;

verus! {

/// Card suit.
#[derive(Debug, Copy, Clone, Hash, PartialEq, Eq, Structural, PartialOrd, Ord)]
pub enum CardSuit {
    Spades,
    Hearts,
    Diamonds,
    Clubs,
}

/// Card value, from lowest to highest in the standard ordering.
#[derive(Debug, Copy, Clone, Hash, PartialEq, Eq, Structural, PartialOrd, Ord)]
pub enum CardValue {
    Two,
    Three,
    Four,
    Five,
    Six,
    Seven,
    Eight,
    Nine,
    Ten,
    Jack,
    Queen,
    King,
    Ace,
}

/// A playing card.
#[derive(Debug, Copy, Clone, Hash, PartialEq, Eq, Structural, PartialOrd, Ord)]
pub struct Card {
    pub value: CardValue,
    pub suit: CardSuit,
}

/// A board: the community cards dealt so far.
#[derive(Debug, Clone)]
pub struct CardDeck(pub Vec<Card>);

/// The two hole cards of one seat.
#[derive(Debug, Clone, Copy)]
pub struct CardHand(pub [Card; 2]);

/// Why a text could not be read as a suit, a value or a card.
#[derive(Debug)]
pub enum CardConversionError {
    InvalidSuit(char),
    InvalidValue(char),
    Empty,
    TooLong(String),
    NotACard(String),
}

/// The characters that carry the Unicode White_Space property.
pub open spec fn is_white_space(c: char) -> bool {
    ('\u{9}' <= c && c <= '\u{d}') || c == ' ' || c == '\u{85}' || c == '\u{a0}' || c
        == '\u{1680}' || ('\u{2000}' <= c && c <= '\u{200a}') || c == '\u{2028}' || c
        == '\u{2029}' || c == '\u{202f}' || c == '\u{205f}' || c == '\u{3000}'
}

pub open spec fn trim_start(s: Seq<char>) -> Seq<char>
    decreases s.len(),
{
    if s.len() > 0 && is_white_space(s[0]) {
        trim_start(s.drop_first())
    } else {
        s
    }
}

pub open spec fn trim_end(s: Seq<char>) -> Seq<char>
    decreases s.len(),
{
    if s.len() > 0 && is_white_space(s.last()) {
        trim_end(s.drop_last())
    } else {
        s
    }
}

/// `s` without leading and trailing white space.
pub open spec fn trimmed(s: Seq<char>) -> Seq<char> {
    trim_end(trim_start(s))
}

/// Relies on char::is_whitespace: true exactly for the White_Space characters.
#[verifier::external_body]
pub(crate) fn white_space(c: char) -> (r: bool)
    ensures
        r == is_white_space(c),
{
    c.is_whitespace()
}

/// `s` without leading and trailing white space.
fn trim_text(s: &str) -> (r: &str)
    ensures
        r@ == trimmed(s@),
{
    let n = s.unicode_len();
    let mut lo: usize = 0;
    assert(s@.subrange(0, n as int) == s@);
    loop
        invariant
            n == s@.len(),
            lo <= n,
            trim_start(s@) == trim_start(s@.subrange(lo as int, n as int)),
        ensures
            lo <= n,
            trim_start(s@) == s@.subrange(lo as int, n as int),
        decreases n - lo,
    {
        if lo == n {
            break;
        }
        let c = s.get_char(lo);
        assert(s@.subrange(lo as int, n as int)[0] == c);
        if !white_space(c) {
            break;
        }
        assert(s@.subrange(lo as int, n as int).drop_first() == s@.subrange(lo + 1, n as int));
        lo = lo + 1;
    }
    let mut hi: usize = n;
    loop
        invariant
            n == s@.len(),
            lo <= hi <= n,
            trimmed(s@) == trim_end(s@.subrange(lo as int, hi as int)),
        ensures
            lo <= hi <= n,
            trimmed(s@) == s@.subrange(lo as int, hi as int),
        decreases hi - lo,
    {
        if hi == lo {
            break;
        }
        let c = s.get_char(hi - 1);
        assert(s@.subrange(lo as int, hi as int).last() == c);
        if !white_space(c) {
            break;
        }
        assert(s@.subrange(lo as int, hi as int).drop_last() == s@.subrange(lo as int, hi - 1));
        hi = hi - 1;
    }
    s.substring_char(lo, hi)
}

/// Relies on String's FromIterator<char>: the string holds the characters in order.
#[verifier::external_body]
pub(crate) fn text_of(chars: &Vec<char>) -> (r: String)
    ensures
        r@ == chars@,
{
    chars.iter().collect()
}

/// The characters of the text, in order.
pub(crate) fn chars_of(s: &str) -> (r: Vec<char>)
    ensures
        r@ == s@,
{
    let n = s.unicode_len();
    let mut v: Vec<char> = Vec::new();
    for i in 0..n
        invariant
            n == s@.len(),
            v@ == s@.subrange(0, i as int),
    {
        v.push(s.get_char(i));
        assert(s@.subrange(0, i + 1) == s@.subrange(0, i as int).push(s@[i as int]));
    }
    assert(s@.subrange(0, n as int) == s@);
    v
}

/// Bytes that a character takes in UTF-8.
pub open spec fn utf8_width(c: char) -> int {
    if (c as u32) < 0x80 {
        1
    } else if (c as u32) < 0x800 {
        2
    } else if (c as u32) < 0x10000 {
        3
    } else {
        4
    }
}

/// Bytes that a text takes in UTF-8.
pub open spec fn utf8_len(s: Seq<char>) -> int
    decreases s.len(),
{
    if s.len() == 0 {
        0
    } else {
        utf8_len(s.drop_last()) + utf8_width(s.last())
    }
}

/// A text takes at least one byte per character.
pub proof fn lemma_utf8_len_at_least(s: Seq<char>)
    ensures
        utf8_len(s) >= s.len(),
    decreases s.len(),
{
    if s.len() > 0 {
        lemma_utf8_len_at_least(s.drop_last());
    }
}

/// The UTF-8 length of `t`, or 3 if it is longer.
fn utf8_len_upto3(t: &str) -> (r: usize)
    ensures
        r == (if utf8_len(t@) > 3 {
            3
        } else {
            utf8_len(t@)
        }),
{
    let n = t.unicode_len();
    let mut acc: usize = 0;
    for i in 0..n
        invariant
            n == t@.len(),
            acc == (if utf8_len(t@.subrange(0, i as int)) > 3 {
                3
            } else {
                utf8_len(t@.subrange(0, i as int))
            }),
    {
        let c = t.get_char(i);
        assert(t@.subrange(0, i + 1).drop_last() == t@.subrange(0, i as int));
        proof {
            lemma_utf8_len_at_least(t@.subrange(0, i as int));
        }
        let w: usize = if (c as u32) < 0x80 {
            1
        } else if (c as u32) < 0x800 {
            2
        } else if (c as u32) < 0x10000 {
            3
        } else {
            4
        };
        acc = if acc + w > 3 {
            3
        } else {
            acc + w
        };
    }
    assert(t@.subrange(0, n as int) == t@);
    acc
}

impl CardSuit {
    pub open spec fn spec_symbol(self) -> char {
        match self {
            CardSuit::Spades => 's',
            CardSuit::Hearts => 'h',
            CardSuit::Diamonds => 'd',
            CardSuit::Clubs => 'c',
        }
    }

    /// The suit's wire character.
    pub fn symbol(&self) -> (r: char)
        ensures
            r == self.spec_symbol(),
    {
        match self {
            CardSuit::Spades => 's',
            CardSuit::Hearts => 'h',
            CardSuit::Diamonds => 'd',
            CardSuit::Clubs => 'c',
        }
    }

    pub open spec fn spec_from_symbol(c: char) -> Option<CardSuit> {
        if c == 's' {
            Some(CardSuit::Spades)
        } else if c == 'h' {
            Some(CardSuit::Hearts)
        } else if c == 'd' {
            Some(CardSuit::Diamonds)
        } else if c == 'c' {
            Some(CardSuit::Clubs)
        } else {
            None
        }
    }

    /// The suit whose wire character is `c`, if any.
    pub fn from_symbol(c: char) -> (r: Option<CardSuit>)
        ensures
            r == CardSuit::spec_from_symbol(c),
    {
        if c == 's' {
            Some(CardSuit::Spades)
        } else if c == 'h' {
            Some(CardSuit::Hearts)
        } else if c == 'd' {
            Some(CardSuit::Diamonds)
        } else if c == 'c' {
            Some(CardSuit::Clubs)
        } else {
            None
        }
    }

    /// Reads a suit from text; surrounding white space is ignored.
    pub fn parse(s: &str) -> (r: Result<CardSuit, CardConversionError>)
        ensures
            trimmed(s@).len() == 0 <==> r matches Err(CardConversionError::Empty),
            utf8_len(trimmed(s@)) > 1 <==> (r matches Err(CardConversionError::TooLong(t)) && t@
                == trimmed(s@)),
            utf8_len(trimmed(s@)) == 1 ==> match CardSuit::spec_from_symbol(trimmed(s@)[0]) {
                Some(v) => r == Ok::<CardSuit, CardConversionError>(v),
                None => r matches Err(CardConversionError::InvalidSuit(c)) && c == trimmed(
                    s@,
                )[0],
            },
    {
        let t = trim_text(s);
        let b = utf8_len_upto3(t);
        proof {
            lemma_utf8_len_at_least(t@);
        }
        if b > 1 {
            return Err(CardConversionError::TooLong(t.to_owned()));
        }
        let n = t.unicode_len();
        if n == 0 {
            return Err(CardConversionError::Empty);
        }
        let c = t.get_char(0);
        match CardSuit::from_symbol(c) {
            Some(v) => Ok(v),
            None => Err(CardConversionError::InvalidSuit(c)),
        }
    }
}

impl CardValue {
    /// Position in the standard ordering, Two = 0 up to Ace = 12.
    pub open spec fn index(self) -> int {
        match self {
            CardValue::Two => 0,
            CardValue::Three => 1,
            CardValue::Four => 2,
            CardValue::Five => 3,
            CardValue::Six => 4,
            CardValue::Seven => 5,
            CardValue::Eight => 6,
            CardValue::Nine => 7,
            CardValue::Ten => 8,
            CardValue::Jack => 9,
            CardValue::Queen => 10,
            CardValue::King => 11,
            CardValue::Ace => 12,
        }
    }

    pub open spec fn spec_symbol(self) -> char {
        match self {
            CardValue::Two => '2',
            CardValue::Three => '3',
            CardValue::Four => '4',
            CardValue::Five => '5',
            CardValue::Six => '6',
            CardValue::Seven => '7',
            CardValue::Eight => '8',
            CardValue::Nine => '9',
            CardValue::Ten => 'T',
            CardValue::Jack => 'J',
            CardValue::Queen => 'Q',
            CardValue::King => 'K',
            CardValue::Ace => 'A',
        }
    }

    /// The value's wire character.
    pub fn symbol(&self) -> (r: char)
        ensures
            r == self.spec_symbol(),
    {
        match self {
            CardValue::Two => '2',
            CardValue::Three => '3',
            CardValue::Four => '4',
            CardValue::Five => '5',
            CardValue::Six => '6',
            CardValue::Seven => '7',
            CardValue::Eight => '8',
            CardValue::Nine => '9',
            CardValue::Ten => 'T',
            CardValue::Jack => 'J',
            CardValue::Queen => 'Q',
            CardValue::King => 'K',
            CardValue::Ace => 'A',
        }
    }

    pub open spec fn spec_from_symbol(c: char) -> Option<CardValue> {
        if c == '2' {
            Some(CardValue::Two)
        } else if c == '3' {
            Some(CardValue::Three)
        } else if c == '4' {
            Some(CardValue::Four)
        } else if c == '5' {
            Some(CardValue::Five)
        } else if c == '6' {
            Some(CardValue::Six)
        } else if c == '7' {
            Some(CardValue::Seven)
        } else if c == '8' {
            Some(CardValue::Eight)
        } else if c == '9' {
            Some(CardValue::Nine)
        } else if c == 'T' {
            Some(CardValue::Ten)
        } else if c == 'J' {
            Some(CardValue::Jack)
        } else if c == 'Q' {
            Some(CardValue::Queen)
        } else if c == 'K' {
            Some(CardValue::King)
        } else if c == 'A' {
            Some(CardValue::Ace)
        } else {
            None
        }
    }

    /// The value whose wire character is `c`, if any.
    pub fn from_symbol(c: char) -> (r: Option<CardValue>)
        ensures
            r == CardValue::spec_from_symbol(c),
    {
        if c == '2' {
            Some(CardValue::Two)
        } else if c == '3' {
            Some(CardValue::Three)
        } else if c == '4' {
            Some(CardValue::Four)
        } else if c == '5' {
            Some(CardValue::Five)
        } else if c == '6' {
            Some(CardValue::Six)
        } else if c == '7' {
            Some(CardValue::Seven)
        } else if c == '8' {
            Some(CardValue::Eight)
        } else if c == '9' {
            Some(CardValue::Nine)
        } else if c == 'T' {
            Some(CardValue::Ten)
        } else if c == 'J' {
            Some(CardValue::Jack)
        } else if c == 'Q' {
            Some(CardValue::Queen)
        } else if c == 'K' {
            Some(CardValue::King)
        } else if c == 'A' {
            Some(CardValue::Ace)
        } else {
            None
        }
    }

    /// Reads a value from text; surrounding white space is ignored.
    pub fn parse(s: &str) -> (r: Result<CardValue, CardConversionError>)
        ensures
            trimmed(s@).len() == 0 <==> r matches Err(CardConversionError::Empty),
            utf8_len(trimmed(s@)) > 1 <==> (r matches Err(CardConversionError::TooLong(t)) && t@
                == trimmed(s@)),
            utf8_len(trimmed(s@)) == 1 ==> match CardValue::spec_from_symbol(trimmed(s@)[0]) {
                Some(v) => r == Ok::<CardValue, CardConversionError>(v),
                None => r matches Err(CardConversionError::InvalidValue(c)) && c == trimmed(
                    s@,
                )[0],
            },
    {
        let t = trim_text(s);
        let b = utf8_len_upto3(t);
        proof {
            lemma_utf8_len_at_least(t@);
        }
        if b > 1 {
            return Err(CardConversionError::TooLong(t.to_owned()));
        }
        let n = t.unicode_len();
        if n == 0 {
            return Err(CardConversionError::Empty);
        }
        let c = t.get_char(0);
        match CardValue::from_symbol(c) {
            Some(v) => Ok(v),
            None => Err(CardConversionError::InvalidValue(c)),
        }
    }
}

/// The two-character wire form of a card: value, then suit.
pub open spec fn card_text(c: Card) -> Seq<char> {
    seq![c.value.spec_symbol(), c.suit.spec_symbol()]
}

/// The card that a text denotes, if it denotes one.
pub open spec fn parse_card_spec(s: Seq<char>) -> Option<Card> {
    let t = trimmed(s);
    if t.len() != 2 {
        None
    } else {
        match (CardValue::spec_from_symbol(t[0]), CardSuit::spec_from_symbol(t[1])) {
            (Some(v), Some(u)) => Some(Card { value: v, suit: u }),
            _ => None,
        }
    }
}

impl Card {
    pub fn new(suit: CardSuit, value: CardValue) -> (r: Card)
        ensures
            r.suit == suit,
            r.value == value,
    {
        Card { suit, value }
    }

    pub fn suit(&self) -> (r: CardSuit)
        ensures
            r == self.suit,
    {
        self.suit
    }

    pub fn value(&self) -> (r: CardValue)
        ensures
            r == self.value,
    {
        self.value
    }

    /// Appends the card's wire form to `out`.
    pub fn push_text(&self, out: &mut Vec<char>)
        ensures
            final(out)@ == old(out)@ + card_text(*self),
    {
        out.push(self.value.symbol());
        out.push(self.suit.symbol());
    }

    /// The card's wire form, such as `As` or `Td`.
    pub fn to_text(&self) -> (r: String)
        ensures
            r@ == card_text(*self),
    {
        let mut v: Vec<char> = Vec::new();
        self.push_text(&mut v);
        text_of(&v)
    }

    /// Reads a card from its wire form; surrounding white space is ignored.
    pub fn parse(s: &str) -> (r: Result<Card, CardConversionError>)
        ensures
            r is Ok <==> parse_card_spec(s@) is Some,
            r is Ok ==> r == Ok::<Card, CardConversionError>(parse_card_spec(s@)->0),
            utf8_len(trimmed(s@)) > 2 || (utf8_len(trimmed(s@)) == 2 && trimmed(s@).len() == 1)
                <==> (r matches Err(CardConversionError::TooLong(t)) && t@ == trimmed(s@)),
            utf8_len(trimmed(s@)) < 2 <==> (r matches Err(CardConversionError::NotACard(t)) && t@
                == trimmed(s@)),
            trimmed(s@).len() == 2 && utf8_len(trimmed(s@)) == 2 && CardValue::spec_from_symbol(trimmed(s@)[0]) is None
                <==> (r matches Err(CardConversionError::InvalidValue(c)) && c == trimmed(
                s@,
            )[0]),
            trimmed(s@).len() == 2 && utf8_len(trimmed(s@)) == 2 && CardValue::spec_from_symbol(
                trimmed(s@)[0],
            ) is Some && CardSuit::spec_from_symbol(trimmed(s@)[1]) is None <==> (r matches Err(
                CardConversionError::InvalidSuit(c),
            ) && c == trimmed(s@)[1]),
    {
        let t = trim_text(s);
        let b = utf8_len_upto3(t);
        let n = t.unicode_len();
        proof {
            lemma_utf8_len_at_least(t@);
            if n == 2 {
                let u = t@.drop_last();
                assert(u.drop_last().len() == 0);
                assert(utf8_len(u.drop_last()) == 0);
                assert(u.last() == t@[0]);
                assert(utf8_len(u) == utf8_width(t@[0]));
                assert(utf8_len(t@) == utf8_width(t@[0]) + utf8_width(t@[1]));
            }
        }
        if b > 2 || (b == 2 && n == 1) {
            return Err(CardConversionError::TooLong(t.to_owned()));
        } else if b < 2 {
            return Err(CardConversionError::NotACard(t.to_owned()));
        }
        let vc = t.get_char(0);
        let sc = t.get_char(1);
        let value = match CardValue::from_symbol(vc) {
            Some(v) => v,
            None => {
                return Err(CardConversionError::InvalidValue(vc));
            },
        };
        let suit = match CardSuit::from_symbol(sc) {
            Some(u) => u,
            None => {
                return Err(CardConversionError::InvalidSuit(sc));
            },
        };
        Ok(Card { suit, value })
    }
}

/// Every card reads back from its own wire form.
pub proof fn lemma_card_text_round_trip(c: Card)
    ensures
        parse_card_spec(card_text(c)) == Some(c),
{
    let s = card_text(c);
    assert(!is_white_space(s[0]) && !is_white_space(s[1]));
    assert(trim_start(s) == s);
    assert(trim_end(s) == s);
}

} // verus!
