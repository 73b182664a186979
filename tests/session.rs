use pokerbot::actions::Action;
use pokerbot::cards::{Card, CardDeck, CardHand};
use pokerbot::protocol::{parse_line, Event};
use pokerbot::session::{Notice, Reply, Session, SessionError};
use pokerbot::thread_pool::{pool_size, PoolCreationError};

fn card(s: &str) -> Card {
    Card::parse(s).unwrap()
}

fn feed(s: &mut Session, line: &str) -> Vec<Notice> {
    parse_line(line).unwrap().into_iter().map(|e| s.apply(e).unwrap()).collect()
}

#[test]
fn seat_hand_then_raise() {
    let mut s = Session::new();
    let notices = feed(&mut s, "P0 H5c,5d");
    assert_eq!(notices, vec![Notice::Nothing, Notice::NewRound]);
    assert_eq!(s.seat, 0);
    let r = s.round.as_ref().unwrap();
    assert_eq!(r.hands[0].unwrap().0[0], card("5c"));
    assert_eq!(s.next_reply(false), Reply::AskAgent);
    assert_eq!(s.next_reply(true), Reply::Wait);
    // The agent's answer is legalised before it is sent.
    assert_eq!(r.legalise(Action::Raise(4)), Action::Call);
    assert_eq!(r.legalise(Action::Raise(8)), Action::Raise(8));
    feed(&mut s, "R4");
    let r = s.round.as_ref().unwrap();
    assert_eq!(r.pips, [4, 2]);
    assert_eq!(s.next_reply(false), Reply::Idle);
}

#[test]
fn keep_alive_without_round() {
    let s = Session::new();
    assert_eq!(s.next_reply(false), Reply::KeepAlive);
}

#[test]
fn fold_after_our_raise_then_payoff() {
    let mut s = Session::new();
    feed(&mut s, "P0 H5c,5d R4 F");
    let t = s.terminal.as_ref().unwrap();
    assert_eq!(t.deltas, [2, -2]);
    let notices = feed(&mut s, "D2");
    assert_eq!(notices, vec![Notice::RoundOver(1)]);
    assert_eq!(s.bankroll, 2);
    assert_eq!(s.round_num, 2);
    assert!(s.round.is_none());
    assert_eq!(s.terminal.as_ref().unwrap().deltas, [2, -2]);
}

#[test]
fn payoff_for_seat_one() {
    let mut s = Session::new();
    feed(&mut s, "P1 HAs,Kd C K");
    assert!(s.round.is_some());
    feed(&mut s, "B2c,7d,Jh");
    assert_eq!(s.round.as_ref().unwrap().street, 3);
    feed(&mut s, "O9s,9d");
    let notices = feed(&mut s, "D-5");
    assert_eq!(notices, vec![Notice::RoundOver(1)]);
    assert_eq!(s.bankroll, -5);
    assert_eq!(s.terminal.as_ref().unwrap().deltas, [5, -5]);
    assert_eq!(s.terminal.as_ref().unwrap().previous.hands[0].unwrap().0[0], card("9s"));
}

#[test]
fn reveal_previews_showdown() {
    let mut s = Session::new();
    feed(&mut s, "P0 H5c,5d OAs,Ad");
    let t = s.terminal.as_ref().unwrap();
    assert_eq!(t.deltas, [0, 0]);
    assert_eq!(t.previous.hands[1].unwrap().0[0], card("As"));
    assert_eq!(t.previous.hands[0].unwrap().0[0], card("5c"));
}

#[test]
fn protocol_violations() {
    let mut s = Session::new();
    assert_eq!(s.apply(Event::PlayCall), Err(SessionError::NoRound));
    assert_eq!(s.apply(Event::Delta(3)), Err(SessionError::NoTerminal));
    assert_eq!(s.apply(Event::SetPlayerIndex(2)), Err(SessionError::BadSeat));
    assert_eq!(s.apply(Event::RevealOpponentHand(CardHand([card("2c"), card("3c")]))), Err(SessionError::NoRound));
    assert_eq!(s.apply(Event::UpdateDeck(CardDeck(vec![]))), Err(SessionError::NoRound));
    feed(&mut s, "H5c,5d");
    // A raise below the own pip, or beyond the stack, cannot be carried out.
    assert_eq!(s.apply(Event::PlayRaise(0)), Err(SessionError::ActionOutOfRange));
    assert_eq!(s.apply(Event::PlayRaise(201)), Err(SessionError::ActionOutOfRange));
    let six = CardDeck(vec![card("2c"), card("3c"), card("4c"), card("5c"), card("6c"), card("7c")]);
    assert_eq!(s.apply(Event::UpdateDeck(six)), Err(SessionError::BadBoard));
    assert_eq!(s.apply(Event::SetGameClock("1.0".to_string())), Ok(Notice::Nothing));
    assert_eq!(s.apply(Event::Quit), Ok(Notice::Quit));
}

#[test]
fn two_checks_pre_flop_then_board() {
    let mut s = Session::new();
    feed(&mut s, "P0 H5c,5d K");
    let r = s.round.as_ref().unwrap();
    assert_eq!(r.button, 1);
    assert_eq!(r.street, 0);
    assert_eq!(r.pips, [1, 2]);
    feed(&mut s, "K");
    let r = s.round.as_ref().unwrap();
    assert_eq!(r.button, 1);
    assert_eq!(r.pips, [0, 0]);
    feed(&mut s, "B2c,7d,Jh");
    assert_eq!(s.round.as_ref().unwrap().street, 3);
}

#[test]
fn an_ending_action_keeps_the_round() {
    let mut s = Session::new();
    feed(&mut s, "P0 H5c,5d R4 F");
    assert!(s.terminal.is_some());
    assert_eq!(s.round.as_ref().unwrap().pips, [4, 2]);
    assert_eq!(s.seat, 0);
}

#[test]
fn end_of_match() {
    let mut s = Session::new();
    assert!(!s.is_over(true, false));
    assert!(s.is_over(false, true));
    s.round_num = 2;
    assert!(s.is_over(true, false));
    assert!(!s.is_over(false, false));
    s.round_num = 1001;
    assert!(s.is_over(false, false));
}

#[test]
fn pool_sizes() {
    assert_eq!(pool_size(0), Err(PoolCreationError::EmptyPool));
    assert_eq!(pool_size(3), Ok(3));
    assert_eq!(pool_size(16), Ok(16));
    assert_eq!(pool_size(17), Err(PoolCreationError::TooManyThreads(17)));
    assert_eq!(PoolCreationError::EmptyPool.to_text(), "attempted to create a pool of size 0");
}
