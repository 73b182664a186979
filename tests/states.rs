use pokerbot::actions::{Action, ActionType};
use pokerbot::cards::{Card, CardDeck, CardHand};
use pokerbot::states::{RoundState, StateResult, STARTING_STACK};

fn card(s: &str) -> Card {
    Card::parse(s).unwrap()
}

fn opening() -> RoundState {
    RoundState::opening(0, CardHand([card("5c"), card("5d")]))
}

fn round(r: StateResult) -> RoundState {
    match r {
        StateResult::Round(r) => r,
        StateResult::Terminal(_) => panic!("expected a round"),
    }
}

#[test]
fn opening_state_values() {
    let r = opening();
    assert_eq!(r.button, 0);
    assert_eq!(r.street, 0);
    assert_eq!(r.pips, [1, 2]);
    assert_eq!(r.stacks, [199, 198]);
    assert!(r.hands[0].is_some());
    assert!(r.hands[1].is_none());
    assert!(r.previous.is_none());
}

#[test]
fn opening_legal_actions_and_bounds() {
    let r = opening();
    let legal = r.legal_actions();
    assert!(legal.contains(ActionType::fold()));
    assert!(legal.contains(ActionType::call()));
    assert!(legal.contains(ActionType::raise()));
    assert!(!legal.contains(ActionType::check()));
    assert_eq!(legal.bits, 11);
    assert_eq!(r.raise_bounds(), [4, 200]);
}

#[test]
fn raise_legal_iff_bounds_and_stacks_allow() {
    let mut r = opening();
    r.button = 1;
    r.pips = [10, 4];
    r.stacks = [190, 6];
    // continue cost 6 equals the active stack: no raise.
    let legal = r.legal_actions();
    assert!(!legal.contains(ActionType::raise()));
    assert_eq!(legal.bits, 3);
    let b = r.raise_bounds();
    assert!(b[0] <= b[1]);
    r.stacks = [0, 196];
    r.pips = [4, 4];
    r.button = 2;
    let legal = r.legal_actions();
    assert_eq!(legal.bits, 4);
    r.stacks = [196, 196];
    let legal = r.legal_actions();
    assert_eq!(legal.bits, 12);
    assert_eq!(r.raise_bounds(), [6, 200]);
}

#[test]
fn small_blind_call_completes_to_big_blind() {
    let r = round(opening().proceed(Action::Call));
    assert_eq!(r.button, 1);
    assert_eq!(r.street, 0);
    assert_eq!(r.pips, [2, 2]);
    assert_eq!(r.stacks, [198, 198]);
    assert!(r.previous.is_some());
}

#[test]
fn raise_moves_chips_and_passes_the_turn() {
    let r = round(opening().proceed(Action::Raise(6)));
    assert_eq!(r.button, 1);
    assert_eq!(r.pips, [6, 2]);
    assert_eq!(r.stacks, [194, 198]);
    assert_eq!(r.raise_bounds(), [10, 200]);
}

#[test]
fn fold_after_raise_pays_the_raiser() {
    let r = round(opening().proceed(Action::Raise(4)));
    match r.proceed(Action::Fold) {
        StateResult::Terminal(t) => {
            assert_eq!(t.deltas, [2, -2]);
            assert_eq!(t.deltas[0] + t.deltas[1], 0);
            assert_eq!(t.previous.pips, [4, 2]);
        }
        StateResult::Round(_) => panic!("expected a terminal state"),
    }
}

#[test]
fn fold_by_seat_zero_saturates_to_zero() {
    match opening().proceed(Action::Fold) {
        StateResult::Terminal(t) => assert_eq!(t.deltas, [0, 0]),
        StateResult::Round(_) => panic!("expected a terminal state"),
    }
}

#[test]
fn two_checks_then_board_moves_to_flop() {
    let mut r = opening();
    r.deck = CardDeck(vec![card("2c"), card("7d"), card("Jh")]);
    let first = round(r.proceed(Action::Check));
    assert_eq!(first.button, 1);
    assert_eq!(first.street, 0);
    assert_eq!(first.pips, [1, 2]);
    assert_eq!(first.stacks, [199, 198]);
    let second = round(first.proceed(Action::Check));
    assert_eq!(second.button, 1);
    assert_eq!(second.street, 3);
    assert_eq!(second.pips, [0, 0]);
}

#[test]
fn fold_and_call_with_nothing_owed() {
    let mut r = opening();
    r.button = 2;
    r.pips = [2, 2];
    r.stacks = [198, 198];
    match r.proceed(Action::Fold) {
        StateResult::Terminal(t) => assert_eq!(t.deltas[0] + t.deltas[1], 0),
        StateResult::Round(_) => panic!("expected a terminal state"),
    }
    r.street = 5;
    match r.proceed(Action::Call) {
        StateResult::Terminal(t) => assert_eq!(t.deltas, [0, 0]),
        StateResult::Round(_) => panic!("expected showdown"),
    }
    assert!(r.can_proceed(Action::Fold));
    assert!(!r.can_proceed(Action::Raise(1)));
    assert!(!r.can_proceed(Action::Raise(201)));
}

#[test]
fn call_on_river_goes_to_showdown() {
    let mut r = opening();
    r.button = 3;
    r.street = 5;
    r.pips = [10, 4];
    r.stacks = [180, 186];
    match r.proceed(Action::Call) {
        StateResult::Terminal(t) => {
            assert_eq!(t.deltas, [0, 0]);
            assert_eq!(t.previous.pips, [10, 10]);
            assert_eq!(t.previous.stacks, [180, 180]);
        }
        StateResult::Round(_) => panic!("expected showdown"),
    }
}

#[test]
fn commitments_stay_within_starting_stack() {
    let actions = [
        Action::Raise(6),
        Action::Raise(14),
        Action::Call,
        Action::Check,
        Action::Raise(20),
        Action::Raise(60),
        Action::Call,
    ];
    let mut r = opening();
    for a in actions.iter() {
        assert!(r.is_legal(*a));
        match r.proceed(*a) {
            StateResult::Round(n) => r = n,
            StateResult::Terminal(_) => break,
        }
        for i in 0..2 {
            assert!(r.stacks[i] + r.pips[i] <= STARTING_STACK);
        }
    }
    assert_eq!(r.street, 0);
}

#[test]
fn legal_check_for_illegal_fold() {
    let mut r = opening();
    r.pips = [2, 2];
    assert_eq!(r.legalise(Action::Fold), Action::Check);
    assert_eq!(r.legalise(Action::Call), Action::Check);
    assert_eq!(r.legalise(Action::Raise(1000)), Action::Check);
}

#[test]
fn legalise_keeps_strictly_inside_raises() {
    let r = opening();
    assert_eq!(r.legalise(Action::Raise(4)), Action::Call);
    assert_eq!(r.legalise(Action::Raise(200)), Action::Call);
    assert_eq!(r.legalise(Action::Raise(5)), Action::Raise(5));
    assert_eq!(r.legalise(Action::Check), Action::Fold);
    assert_eq!(r.legalise(Action::Fold), Action::Fold);
    assert_eq!(r.legalise(Action::Call), Action::Call);
    assert!(r.is_legal(Action::Raise(4)));
    assert!(r.is_legal(Action::Raise(200)));
    assert!(!r.is_legal(Action::Raise(3)));
    assert!(!r.is_legal(Action::Raise(201)));
}

#[test]
fn action_amounts() {
    assert_eq!(Action::Raise(7).amount(), 7);
    assert_eq!(Action::Call.amount(), 0);
    assert!(Action::Raise(7).is_raise());
    assert!(!Action::Fold.is_raise());
    assert_eq!(ActionType::check().union(ActionType::raise()).bits, 12);
    assert_eq!(ActionType::empty().bits, 0);
}

#[test]
fn showdown_keeps_state() {
    let r = opening();
    let t = r.showdown();
    assert_eq!(t.deltas, [0, 0]);
    assert_eq!(t.previous.stacks, [199, 198]);
}

#[test]
fn duplicate_copies_chain() {
    let r = round(round(opening().proceed(Action::Raise(6))).proceed(Action::Raise(12)));
    let d = r.duplicate();
    assert_eq!(d.pips, r.pips);
    assert_eq!(d.previous.as_ref().unwrap().pips, [6, 2]);
    assert_eq!(d.previous.as_ref().unwrap().previous.as_ref().unwrap().pips, [1, 2]);
}
