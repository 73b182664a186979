use pokerbot::cards::{Card, CardConversionError, CardDeck, CardHand, CardSuit, CardValue};
use pokerbot::text::CardHandExt;

fn all_cards() -> Vec<Card> {
    let suits = [CardSuit::Spades, CardSuit::Hearts, CardSuit::Diamonds, CardSuit::Clubs];
    let values = [
        CardValue::Two,
        CardValue::Three,
        CardValue::Four,
        CardValue::Five,
        CardValue::Six,
        CardValue::Seven,
        CardValue::Eight,
        CardValue::Nine,
        CardValue::Ten,
        CardValue::Jack,
        CardValue::Queen,
        CardValue::King,
        CardValue::Ace,
    ];
    let mut out = vec![];
    for s in suits.iter() {
        for v in values.iter() {
            out.push(Card::new(*s, *v));
        }
    }
    out
}

#[test]
fn every_card_reads_back_from_its_text() {
    let cards = all_cards();
    assert_eq!(cards.len(), 52);
    for c in cards {
        let text = c.to_text();
        assert_eq!(text.len(), 2);
        let back = Card::parse(&text).unwrap();
        assert_eq!(back, c);
    }
}

#[test]
fn card_text_examples() {
    assert_eq!(Card::new(CardSuit::Spades, CardValue::Ace).to_text(), "As");
    assert_eq!(Card::new(CardSuit::Diamonds, CardValue::Ten).to_text(), "Td");
    assert_eq!(Card::new(CardSuit::Clubs, CardValue::Two).to_text(), "2c");
    assert_eq!(Card::new(CardSuit::Hearts, CardValue::King).to_text(), "Kh");
}

#[test]
fn card_parse_ignores_surrounding_space() {
    let c = Card::parse("  Qh\n").unwrap();
    assert_eq!(c.value(), CardValue::Queen);
    assert_eq!(c.suit(), CardSuit::Hearts);
}

#[test]
fn card_parse_errors() {
    assert!(matches!(Card::parse("Asd"), Err(CardConversionError::TooLong(s)) if s == "Asd"));
    assert!(matches!(Card::parse("A"), Err(CardConversionError::NotACard(s)) if s == "A"));
    assert!(matches!(Card::parse(""), Err(CardConversionError::NotACard(s)) if s.is_empty()));
    assert!(matches!(Card::parse("Xs"), Err(CardConversionError::InvalidValue('X'))));
    assert!(matches!(Card::parse("Ax"), Err(CardConversionError::InvalidSuit('x'))));
    assert!(matches!(Card::parse("1s"), Err(CardConversionError::InvalidValue('1'))));
}

#[test]
fn suit_and_value_parse() {
    assert_eq!(CardSuit::parse("h").unwrap(), CardSuit::Hearts);
    assert_eq!(CardSuit::parse(" c ").unwrap(), CardSuit::Clubs);
    assert!(matches!(CardSuit::parse(""), Err(CardConversionError::Empty)));
    assert!(matches!(CardSuit::parse("hh"), Err(CardConversionError::TooLong(s)) if s == "hh"));
    assert!(matches!(CardSuit::parse("x"), Err(CardConversionError::InvalidSuit('x'))));
    assert_eq!(CardValue::parse("T").unwrap(), CardValue::Ten);
    assert_eq!(CardValue::parse("2").unwrap(), CardValue::Two);
    assert!(matches!(CardValue::parse("   "), Err(CardConversionError::Empty)));
    assert!(matches!(CardValue::parse("t"), Err(CardConversionError::InvalidValue('t'))));
}

#[test]
fn symbols() {
    assert_eq!(CardSuit::Diamonds.symbol(), 'd');
    assert_eq!(CardValue::Jack.symbol(), 'J');
    assert_eq!(CardSuit::from_symbol('s'), Some(CardSuit::Spades));
    assert_eq!(CardValue::from_symbol('9'), Some(CardValue::Nine));
    assert_eq!(CardValue::from_symbol('x'), None);
}

#[test]
fn deck_and_hand_text() {
    let a = Card::parse("As").unwrap();
    let k = Card::parse("Kd").unwrap();
    assert_eq!(CardDeck(vec![]).to_text(), "<empty>");
    assert_eq!(CardDeck(vec![a, k]).to_text(), "[As, Kd]");
    assert_eq!(CardDeck(vec![a]).to_text(), "[As]");
    assert_eq!(CardHand([a, k]).to_text(), "[As, Kd]");
    assert_eq!(Some(CardHand([k, a])).print(), "[Kd, As]");
    let none: Option<CardHand> = None;
    assert_eq!(none.print(), "<empty>");
}

#[test]
fn conversion_error_text() {
    assert_eq!(CardConversionError::InvalidSuit('x').to_text(), "Invalid suit: x");
    assert_eq!(CardConversionError::InvalidValue('1').to_text(), "Invalid value: 1");
    assert_eq!(CardConversionError::Empty.to_text(), "Unexpected empty string");
    assert_eq!(CardConversionError::TooLong("abc".to_string()).to_text(), "String too long: abc");
    assert_eq!(
        CardConversionError::NotACard("A".to_string()).to_text(),
        "String too short for card: A"
    );
}

#[test]
fn lengths_count_bytes() {
    assert!(matches!(Card::parse("é"), Err(CardConversionError::TooLong(s)) if s == "é"));
    assert!(matches!(Card::parse("Aé"), Err(CardConversionError::TooLong(s)) if s == "Aé"));
    assert!(matches!(CardSuit::parse("é"), Err(CardConversionError::TooLong(s)) if s == "é"));
    assert!(matches!(CardValue::parse("é"), Err(CardConversionError::TooLong(s)) if s == "é"));
}
