use pokerbot::actions::Action;
use pokerbot::cards::Card;
use pokerbot::protocol::{encode_action, parse_line, parse_token, split_words, Event, WireError};

fn token(s: &str) -> Vec<char> {
    s.chars().collect()
}

#[test]
fn line_with_several_events() {
    let events = parse_line("T12.5 P0 H5c,5d").unwrap();
    assert_eq!(events.len(), 3);
    assert!(matches!(&events[0], Event::SetGameClock(t) if t == "12.5"));
    assert!(matches!(events[1], Event::SetPlayerIndex(0)));
    match &events[2] {
        Event::SetPlayerHand(h) => {
            assert_eq!(h.0[0], Card::parse("5c").unwrap());
            assert_eq!(h.0[1], Card::parse("5d").unwrap());
        }
        _ => panic!("expected a hand"),
    }
}

#[test]
fn action_tokens() {
    assert!(matches!(parse_token(&token("F")), Ok(Event::PlayFold)));
    assert!(matches!(parse_token(&token("C")), Ok(Event::PlayCall)));
    assert!(matches!(parse_token(&token("K")), Ok(Event::PlayCheck)));
    assert!(matches!(parse_token(&token("R4")), Ok(Event::PlayRaise(4))));
    assert!(matches!(parse_token(&token("R+17")), Ok(Event::PlayRaise(17))));
    assert!(matches!(parse_token(&token("Q")), Ok(Event::Quit)));
}

#[test]
fn payoff_tokens() {
    assert!(matches!(parse_token(&token("D-12")), Ok(Event::Delta(-12))));
    assert!(matches!(parse_token(&token("D7")), Ok(Event::Delta(7))));
    assert!(matches!(parse_token(&token("D-2147483648")), Ok(Event::Delta(i32::MIN))));
    assert!(matches!(parse_token(&token("D2147483648")), Err(WireError::BadNumber(_))));
}

#[test]
fn board_and_reveal_tokens() {
    match parse_token(&token("B2c,3d,4h")).unwrap() {
        Event::UpdateDeck(d) => assert_eq!(d.0.len(), 3),
        _ => panic!("expected a board"),
    }
    match parse_token(&token("OAs,Kd")).unwrap() {
        Event::RevealOpponentHand(h) => assert_eq!(h.0[1], Card::parse("Kd").unwrap()),
        _ => panic!("expected a reveal"),
    }
}

#[test]
fn wire_errors() {
    assert!(matches!(parse_token(&token("Z")), Err(WireError::UnknownTag('Z'))));
    assert!(matches!(parse_token(&token("Hxx,5d")), Err(WireError::BadCard(_))));
    assert!(matches!(parse_token(&token("H2c")), Err(WireError::WrongCardCount(1))));
    assert!(matches!(parse_token(&token("R99999999999")), Err(WireError::BadNumber(s)) if s == "99999999999"));
    assert!(matches!(parse_token(&token("R")), Err(WireError::BadNumber(_))));
    assert!(matches!(parse_token(&token("Rx")), Err(WireError::BadNumber(_))));
    assert!(matches!(parse_line("K Z"), Err(WireError::UnknownTag('Z'))));
    assert!(matches!(parse_token(&token("B")), Err(WireError::BadCard(_))));
}

#[test]
fn empty_line_has_no_events() {
    assert!(parse_line("").unwrap().is_empty());
    assert!(parse_line("   \n").unwrap().is_empty());
}

#[test]
fn words_split_on_white_space() {
    let w = split_words("  K  R4\tB2c,3d \n");
    let w: Vec<String> = w.into_iter().map(|x| x.into_iter().collect()).collect();
    assert_eq!(w, vec!["K".to_string(), "R4".to_string(), "B2c,3d".to_string()]);
}

#[test]
fn encoded_actions() {
    assert_eq!(encode_action(Action::Fold), "F");
    assert_eq!(encode_action(Action::Call), "C");
    assert_eq!(encode_action(Action::Check), "K");
    assert_eq!(encode_action(Action::Raise(12)), "R12");
    assert_eq!(encode_action(Action::Raise(0)), "R0");
    assert_eq!(encode_action(Action::Raise(4294967295)), "R4294967295");
}
