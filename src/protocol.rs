//! The engine's line protocol: tokens in, one action line out.
use vstd::prelude::*;
use crate::actions::Action;
use crate::cards::{chars_of, is_white_space, white_space, parse_card_spec, text_of, Card, CardConversionError, CardDeck, CardHand};

verus! {

/// One event sent by the engine.
#[derive(Debug)]
pub enum Event {
    /// The game clock, as the text of a decimal number of seconds.
    SetGameClock(String),
    SetPlayerIndex(usize),
    SetPlayerHand(CardHand),
    PlayFold,
    PlayCall,
    PlayCheck,
    PlayRaise(u32),
    UpdateDeck(CardDeck),
    RevealOpponentHand(CardHand),
    Delta(i32),
    Quit,
}

/// Why an incoming line could not be read.
#[derive(Debug)]
pub enum WireError {
    UnknownTag(char),
    BadNumber(String),
    BadCard(CardConversionError),
    WrongCardCount(usize),
}

/// The maximal runs of characters other than white space.
pub open spec fn words(s: Seq<char>) -> Seq<Seq<char>>
    decreases s.len(),
{
    if s.len() == 0 {
        Seq::empty()
    } else {
        let w = words(s.drop_last());
        if is_white_space(s.last()) {
            w
        } else if s.len() > 1 && !is_white_space(s[s.len() - 2]) {
            w.update(w.len() - 1, w.last().push(s.last()))
        } else {
            w.push(seq![s.last()])
        }
    }
}

/// The pieces of `s` between occurrences of `sep`, empty ones included.
pub open spec fn pieces(s: Seq<char>, sep: char) -> Seq<Seq<char>>
    decreases s.len(),
{
    if s.len() == 0 {
        seq![Seq::empty()]
    } else {
        let p = pieces(s.drop_last(), sep);
        if s.last() == sep {
            p.push(Seq::empty())
        } else {
            p.update(p.len() - 1, p.last().push(s.last()))
        }
    }
}

pub open spec fn is_digit(c: char) -> bool {
    '0' <= c && c <= '9'
}

pub open spec fn digits_value(s: Seq<char>) -> int
    decreases s.len(),
{
    if s.len() == 0 {
        0
    } else {
        digits_value(s.drop_last()) * 10 + (s.last() as int - '0' as int)
    }
}

pub open spec fn all_digits(s: Seq<char>) -> bool {
    forall|i: int| 0 <= i < s.len() ==> is_digit(#[trigger] s[i])
}

/// The value of a non-empty run of decimal digits.
pub open spec fn digits_number(s: Seq<char>) -> Option<int> {
    if s.len() > 0 && all_digits(s) {
        Some(digits_value(s))
    } else {
        None
    }
}

/// The value of an unsigned decimal text, with an optional `+` in front.
pub open spec fn unsigned_text(s: Seq<char>) -> Option<int> {
    if s.len() > 0 && s[0] == '+' {
        digits_number(s.drop_first())
    } else {
        digits_number(s)
    }
}

/// The value of a signed decimal text, with an optional `+` or `-` in front.
pub open spec fn signed_text(s: Seq<char>) -> Option<int> {
    if s.len() > 0 && s[0] == '-' {
        match digits_number(s.drop_first()) {
            Some(v) => Some(-v),
            None => None,
        }
    } else {
        unsigned_text(s)
    }
}

/// The cards of a comma-joined list, if every piece is a card.
pub open spec fn card_list_of(ps: Seq<Seq<char>>) -> Option<Seq<Card>>
    decreases ps.len(),
{
    if ps.len() == 0 {
        Some(Seq::empty())
    } else {
        match (card_list_of(ps.drop_last()), parse_card_spec(ps.last())) {
            (Some(cs), Some(c)) => Some(cs.push(c)),
            _ => None,
        }
    }
}

pub open spec fn card_list(s: Seq<char>) -> Option<Seq<Card>> {
    card_list_of(pieces(s, ','))
}

/// Whether `h` holds the two cards of the list `s`.
pub open spec fn hand_of(h: CardHand, s: Seq<char>) -> bool {
    card_list(s) matches Some(cs) && cs.len() == 2 && h.0[0] == cs[0] && h.0[1] == cs[1]
}

/// Whether the token `t` reads as an event.
pub open spec fn token_ok(t: Seq<char>) -> bool {
    let arg = t.drop_first();
    t.len() > 0 && {
        let tag = t[0];
        if tag == 'T' || tag == 'F' || tag == 'C' || tag == 'K' || tag == 'Q' {
            true
        } else if tag == 'P' {
            unsigned_text(arg) matches Some(v) && v <= usize::MAX
        } else if tag == 'R' {
            unsigned_text(arg) matches Some(v) && v <= u32::MAX
        } else if tag == 'D' {
            signed_text(arg) matches Some(v) && i32::MIN <= v <= i32::MAX
        } else if tag == 'H' || tag == 'O' {
            card_list(arg) matches Some(cs) && cs.len() == 2
        } else if tag == 'B' {
            card_list(arg) is Some
        } else {
            false
        }
    }
}

/// Whether `e` is the event that the token `t` denotes.
pub open spec fn event_of(e: Event, t: Seq<char>) -> bool {
    let arg = t.drop_first();
    match e {
        Event::SetGameClock(x) => t[0] == 'T' && x@ == arg,
        Event::SetPlayerIndex(v) => t[0] == 'P' && unsigned_text(arg) == Some(v as int),
        Event::SetPlayerHand(h) => t[0] == 'H' && hand_of(h, arg),
        Event::PlayFold => t[0] == 'F',
        Event::PlayCall => t[0] == 'C',
        Event::PlayCheck => t[0] == 'K',
        Event::PlayRaise(v) => t[0] == 'R' && unsigned_text(arg) == Some(v as int),
        Event::UpdateDeck(d) => t[0] == 'B' && card_list(arg) == Some(d.0@),
        Event::RevealOpponentHand(h) => t[0] == 'O' && hand_of(h, arg),
        Event::Delta(v) => t[0] == 'D' && signed_text(arg) == Some(v as int),
        Event::Quit => t[0] == 'Q',
    }
}

/// The characters of `s` from `lo` on.
fn chars_from(s: &Vec<char>, lo: usize) -> (r: Vec<char>)
    requires
        lo <= s@.len(),
    ensures
        r@ == s@.subrange(lo as int, s@.len() as int),
{
    let mut v: Vec<char> = Vec::new();
    let n = s.len();
    for i in lo..n
        invariant
            n == s@.len(),
            lo <= n,
            v@ == s@.subrange(lo as int, i as int),
    {
        v.push(s[i]);
        assert(s@.subrange(lo as int, i + 1) == s@.subrange(lo as int, i as int).push(s@[i as int]));
    }
    v
}

/// Reads a run of decimal digits, if its value is at most `bound`.
fn parse_digits(s: &Vec<char>, bound: u64) -> (r: Option<u64>)
    ensures
        match r {
            Some(v) => digits_number(s@) == Some(v as int) && v <= bound,
            None => !(digits_number(s@) matches Some(v) && v <= bound),
        },
{
    if s.len() == 0 {
        return None;
    }
    let mut acc: u64 = 0;
    let mut over = false;
    let n = s.len();
    for i in 0..n
        invariant
            n == s@.len(),
            all_digits(s@.subrange(0, i as int)),
            over ==> digits_value(s@.subrange(0, i as int)) > bound,
            !over ==> acc == digits_value(s@.subrange(0, i as int)) && acc <= bound,
            digits_value(s@.subrange(0, i as int)) >= 0,
    {
        let c = s[i];
        if !('0' <= c && c <= '9') {
            assert(!is_digit(s@[i as int]));
            return None;
        }
        assert(s@.subrange(0, i + 1).drop_last() == s@.subrange(0, i as int));
        assert forall|k: int| 0 <= k < i + 1 implies is_digit(#[trigger] s@.subrange(0, i + 1)[k]) by {
            if k < i {
                assert(s@.subrange(0, i + 1)[k] == s@.subrange(0, i as int)[k]);
            }
        }
        let d = (c as u32 - '0' as u32) as u64;
        if !over {
            let next: u128 = acc as u128 * 10 + d as u128;
            if next > bound as u128 {
                over = true;
            } else {
                acc = next as u64;
            }
        }
    }
    assert(s@.subrange(0, n as int) == s@);
    if over {
        None
    } else {
        Some(acc)
    }
}

/// Reads an unsigned decimal number, if its value is at most `bound`.
fn parse_unsigned(s: &Vec<char>, bound: u64) -> (r: Option<u64>)
    ensures
        match r {
            Some(v) => unsigned_text(s@) == Some(v as int) && v <= bound,
            None => !(unsigned_text(s@) matches Some(v) && v <= bound),
        },
{
    if s.len() > 0 && s[0] == '+' {
        let rest = chars_from(s, 1);
        assert(rest@ == s@.drop_first());
        parse_digits(&rest, bound)
    } else {
        parse_digits(s, bound)
    }
}

/// Reads a signed decimal number that fits an `i32`.
fn parse_signed(s: &Vec<char>) -> (r: Option<i32>)
    ensures
        match r {
            Some(v) => signed_text(s@) == Some(v as int),
            None => !(signed_text(s@) matches Some(v) && i32::MIN <= v <= i32::MAX),
        },
{
    if s.len() > 0 && s[0] == '-' {
        let rest = chars_from(s, 1);
        assert(rest@ == s@.drop_first());
        match parse_digits(&rest, 2147483648) {
            Some(v) => Some((0 - v as i64) as i32),
            None => None,
        }
    } else {
        match parse_unsigned(s, 2147483647) {
            Some(v) => Some(v as i32),
            None => None,
        }
    }
}

/// Splits a text at each `sep`, keeping empty pieces.
fn split_pieces(s: &Vec<char>, sep: char) -> (r: Vec<Vec<char>>)
    ensures
        r@.map_values(|p: Vec<char>| p@) == pieces(s@, sep),
{
    let mut out: Vec<Vec<char>> = Vec::new();
    let mut cur: Vec<char> = Vec::new();
    let n = s.len();
    assert(s@.subrange(0, 0) == Seq::<char>::empty());
    for i in 0..n
        invariant
            n == s@.len(),
            out@.map_values(|p: Vec<char>| p@).push(cur@) == pieces(s@.subrange(0, i as int), sep),
    {
        assert(s@.subrange(0, i + 1).drop_last() == s@.subrange(0, i as int));
        let c = s[i];
        if c == sep {
            let ghost before = out@;
            let ghost cv = cur@;
            out.push(cur);
            cur = Vec::new();
            assert(out@.map_values(|p: Vec<char>| p@) == before.map_values(|p: Vec<char>| p@).push(
                cv,
            ));
        } else {
            cur.push(c);
        }
    }
    assert(s@.subrange(0, n as int) == s@);
    out.push(cur);
    out
}

/// Reads a comma-joined list of cards.
fn parse_card_list(s: &Vec<char>) -> (r: Result<Vec<Card>, CardConversionError>)
    ensures
        match r {
            Ok(v) => card_list(s@) == Some(v@),
            Err(_) => card_list(s@) is None,
        },
{
    let ps = split_pieces(s, ',');
    let ghost pv = ps@.map_values(|p: Vec<char>| p@);
    let mut cards: Vec<Card> = Vec::new();
    let n = ps.len();
    assert(pv.subrange(0, 0) == Seq::<Seq<char>>::empty());
    for i in 0..n
        invariant
            n == ps@.len(),
            pv == ps@.map_values(|p: Vec<char>| p@),
            pv == pieces(s@, ','),
            card_list_of(pv.subrange(0, i as int)) == Some(cards@),
    {
        assert(pv.subrange(0, i + 1).drop_last() == pv.subrange(0, i as int));
        assert(pv.subrange(0, i + 1).last() == ps@[i as int]@);
        let text = text_of(&ps[i]);
        match Card::parse(text.as_str()) {
            Ok(c) => {
                cards.push(c);
            },
            Err(e) => {
                proof {
                    lemma_card_list_fails(pv, i as int);
                }
                return Err(e);
            },
        }
    }
    assert(pv.subrange(0, n as int) == pv);
    Ok(cards)
}

/// A list fails to read once one of its pieces fails.
proof fn lemma_card_list_fails(ps: Seq<Seq<char>>, i: int)
    requires
        0 <= i < ps.len(),
        parse_card_spec(ps[i]) is None,
    ensures
        card_list_of(ps) is None,
    decreases ps.len(),
{
    if i < ps.len() - 1 {
        lemma_card_list_fails(ps.drop_last(), i);
    }
}

/// Reads a comma-joined list of cards, such as `As,Kd,7c`.
pub fn parse_cards(s: &str) -> (r: Result<Vec<Card>, CardConversionError>)
    ensures
        match r {
            Ok(v) => card_list(s@) == Some(v@),
            Err(_) => card_list(s@) is None,
        },
{
    let cs = chars_of(s);
    parse_card_list(&cs)
}

/// Reads one token as an event.
pub fn parse_token(t: &Vec<char>) -> (r: Result<Event, WireError>)
    requires
        t@.len() > 0,
    ensures
        r is Ok <==> token_ok(t@),
        r matches Ok(e) ==> event_of(e, t@),
        r matches Err(WireError::UnknownTag(c)) ==> c == t@[0],
        r matches Err(WireError::BadNumber(x)) ==> x@ == t@.drop_first() && (t@[0] == 'P'
            || t@[0] == 'R' || t@[0] == 'D'),
        r matches Err(WireError::BadCard(_)) ==> card_list(t@.drop_first()) is None,
        r matches Err(WireError::WrongCardCount(n)) ==> card_list(t@.drop_first()) matches Some(
            cs,
        ) && cs.len() == n && n != 2,
        !token_ok(t@) && (t@[0] == 'P' || t@[0] == 'R' || t@[0] == 'D') ==> r matches Err(
            WireError::BadNumber(_),
        ),
        !token_ok(t@) && (t@[0] == 'H' || t@[0] == 'O' || t@[0] == 'B') ==> (r matches Err(
            WireError::BadCard(_),
        ) || r matches Err(WireError::WrongCardCount(_))),
{
    let tag = t[0];
    let arg = chars_from(t, 1);
    assert(arg@ == t@.drop_first());
    if tag == 'T' {
        Ok(Event::SetGameClock(text_of(&arg)))
    } else if tag == 'F' {
        Ok(Event::PlayFold)
    } else if tag == 'C' {
        Ok(Event::PlayCall)
    } else if tag == 'K' {
        Ok(Event::PlayCheck)
    } else if tag == 'Q' {
        Ok(Event::Quit)
    } else if tag == 'P' {
        match parse_unsigned(&arg, usize::MAX as u64) {
            Some(v) => Ok(Event::SetPlayerIndex(v as usize)),
            None => Err(WireError::BadNumber(text_of(&arg))),
        }
    } else if tag == 'R' {
        match parse_unsigned(&arg, u32::MAX as u64) {
            Some(v) => Ok(Event::PlayRaise(v as u32)),
            None => Err(WireError::BadNumber(text_of(&arg))),
        }
    } else if tag == 'D' {
        match parse_signed(&arg) {
            Some(v) => Ok(Event::Delta(v)),
            None => Err(WireError::BadNumber(text_of(&arg))),
        }
    } else if tag == 'H' || tag == 'O' {
        match parse_card_list(&arg) {
            Ok(cs) => {
                if cs.len() != 2 {
                    return Err(WireError::WrongCardCount(cs.len()));
                }
                let h = CardHand([cs[0], cs[1]]);
                if tag == 'H' {
                    Ok(Event::SetPlayerHand(h))
                } else {
                    Ok(Event::RevealOpponentHand(h))
                }
            },
            Err(e) => Err(WireError::BadCard(e)),
        }
    } else if tag == 'B' {
        match parse_card_list(&arg) {
            Ok(cs) => Ok(Event::UpdateDeck(CardDeck(cs))),
            Err(e) => Err(WireError::BadCard(e)),
        }
    } else {
        Err(WireError::UnknownTag(tag))
    }
}

/// Splits a line into its white-space separated tokens.
pub fn split_words(s: &str) -> (r: Vec<Vec<char>>)
    ensures
        r@.map_values(|p: Vec<char>| p@) == words(s@),
{
    let cs = chars_of(s);
    let mut out: Vec<Vec<char>> = Vec::new();
    let mut cur: Vec<char> = Vec::new();
    let n = cs.len();
    assert(cs@.subrange(0, 0) == Seq::<char>::empty());
    for i in 0..n
        invariant
            n == cs@.len(),
            cur@.len() > 0 ==> out@.map_values(|p: Vec<char>| p@).push(cur@) == words(
                cs@.subrange(0, i as int),
            ),
            cur@.len() == 0 ==> out@.map_values(|p: Vec<char>| p@) == words(
                cs@.subrange(0, i as int),
            ),
            cur@.len() > 0 <==> (i > 0 && !is_white_space(cs@[i - 1])),
    {
        let ghost pre = cs@.subrange(0, i as int);
        let ghost next = cs@.subrange(0, i + 1);
        assert(next.drop_last() == pre);
        assert(next.last() == cs@[i as int]);
        assert(i > 0 ==> next[next.len() - 2] == cs@[i - 1]);
        let c = cs[i];
        if white_space(c) {
            if cur.len() > 0 {
                let ghost before = out@;
                let ghost cv = cur@;
                out.push(cur);
                cur = Vec::new();
                assert(out@.map_values(|p: Vec<char>| p@) == before.map_values(|p: Vec<char>| p@).push(
                    cv,
                ));
            }
        } else {
            let ghost c0 = cur@;
            cur.push(c);
            proof {
                if c0.len() == 0 {
                    assert(cur@ == seq![c]);
                } else {
                    let w = out@.map_values(|p: Vec<char>| p@).push(c0);
                    assert(w.update(w.len() - 1, w.last().push(c)) == out@.map_values(
                        |p: Vec<char>| p@,
                    ).push(cur@));
                }
            }
        }
    }
    assert(cs@.subrange(0, n as int) == cs@);
    if cur.len() > 0 {
        out.push(cur);
    }
    out
}

/// Reads one line from the engine: its events, in order.
pub fn parse_line(line: &str) -> (r: Result<Vec<Event>, WireError>)
    ensures
        r is Ok <==> forall|i: int| 0 <= i < words(line@).len() ==> token_ok(#[trigger] words(line@)[i]),
        r matches Ok(v) ==> v@.len() == words(line@).len() && forall|i: int| 0 <= i < v@.len() ==> event_of(#[trigger] v@[i], words(line@)[i]),
{
    let ws = split_words(line);
    let ghost wv = ws@.map_values(|p: Vec<char>| p@);
    let mut events: Vec<Event> = Vec::new();
    let n = ws.len();
    for i in 0..n
        invariant
            n == ws@.len(),
            wv == ws@.map_values(|p: Vec<char>| p@),
            wv == words(line@),
            events@.len() == i,
            forall|k: int| 0 <= k < i ==> token_ok(#[trigger] wv[k]),
            forall|k: int| 0 <= k < i ==> event_of(#[trigger] events@[k], wv[k]),
    {
        proof {
            lemma_words_non_empty(line@, i as int);
        }
        match parse_token(&ws[i]) {
            Ok(e) => {
                events.push(e);
            },
            Err(e) => {
                return Err(e);
            },
        }
    }
    Ok(events)
}

/// A text that ends in a character other than white space has a word.
proof fn lemma_words_end(s: Seq<char>)
    requires
        s.len() > 0,
        !is_white_space(s.last()),
    ensures
        words(s).len() > 0,
    decreases s.len(),
{
    if s.len() > 1 && !is_white_space(s[s.len() - 2]) {
        lemma_words_end(s.drop_last());
    }
}

/// Every word holds at least one character.
proof fn lemma_words_non_empty(s: Seq<char>, i: int)
    requires
        0 <= i < words(s).len(),
    ensures
        words(s)[i].len() > 0,
    decreases s.len(),
{
    if s.len() > 0 {
        let w = words(s.drop_last());
        if is_white_space(s.last()) {
            lemma_words_non_empty(s.drop_last(), i);
        } else if s.len() > 1 && !is_white_space(s[s.len() - 2]) {
            lemma_words_end(s.drop_last());
            if i < w.len() - 1 {
                lemma_words_non_empty(s.drop_last(), i);
            }
        } else if i < w.len() {
            lemma_words_non_empty(s.drop_last(), i);
        }
    }
}

pub open spec fn digit_char(d: int) -> char {
    ((d + '0' as int) as u32) as char
}

/// The decimal digits of `n`, most significant first.
pub open spec fn decimal(n: nat) -> Seq<char>
    decreases n,
{
    if n < 10 {
        seq![digit_char(n as int)]
    } else {
        decimal(n / 10).push(digit_char((n % 10) as int))
    }
}

/// The line that carries an action: a letter, and for a raise its amount.
pub open spec fn action_text(a: Action) -> Seq<char> {
    match a {
        Action::Fold => seq!['F'],
        Action::Call => seq!['C'],
        Action::Check => seq!['K'],
        Action::Raise(n) => seq!['R'] + decimal(n as nat),
    }
}

/// Appends the decimal digits of `n`.
fn push_decimal(out: &mut Vec<char>, n: u32)
    ensures
        final(out)@ == old(out)@ + decimal(n as nat),
    decreases n,
{
    if n < 10 {
        out.push(char_of_digit(n));
    } else {
        push_decimal(out, n / 10);
        out.push(char_of_digit(n % 10));
    }
}

fn char_of_digit(d: u32) -> (r: char)
    requires
        d < 10,
    ensures
        r == digit_char(d as int),
{
    if d == 0 {
        '0'
    } else if d == 1 {
        '1'
    } else if d == 2 {
        '2'
    } else if d == 3 {
        '3'
    } else if d == 4 {
        '4'
    } else if d == 5 {
        '5'
    } else if d == 6 {
        '6'
    } else if d == 7 {
        '7'
    } else if d == 8 {
        '8'
    } else {
        '9'
    }
}

/// The text sent for an action, without the line end.
pub fn encode_action(a: Action) -> (r: String)
    ensures
        r@ == action_text(a),
{
    let mut v: Vec<char> = Vec::new();
    match a {
        Action::Fold => v.push('F'),
        Action::Call => v.push('C'),
        Action::Check => v.push('K'),
        Action::Raise(n) => {
            v.push('R');
            push_decimal(&mut v, n);
        },
    }
    text_of(&v)
}

} // verus!
