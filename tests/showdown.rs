use pokerbot::cards::{Card, CardValue};
use pokerbot::showdown::{Hand, PotentialHand, ShowdownEngine, StraightDrawType};
use std::cmp::Ordering;

fn cards(s: &str) -> Vec<Card> {
    s.split(',').map(|x| Card::parse(x).unwrap()).collect()
}

fn same_set(a: &[Card], b: &[Card]) -> bool {
    a.len() == b.len() && a.iter().all(|c| b.contains(c))
}

fn category(p: &PotentialHand) -> &'static str {
    match p {
        PotentialHand::Hand(Hand::RoyalFlush(_)) => "royal",
        PotentialHand::Hand(Hand::StraightFlush(_)) => "straight flush",
        PotentialHand::Hand(Hand::FourOfAKind(_)) => "four",
        PotentialHand::Hand(Hand::FullHouse(_)) => "full house",
        PotentialHand::Hand(Hand::Flush(_)) => "flush",
        PotentialHand::Hand(Hand::Straight(_)) => "straight",
        PotentialHand::Hand(Hand::ThreeOfAKind(_)) => "three",
        PotentialHand::Hand(Hand::TwoPair(_)) => "two pair",
        PotentialHand::Hand(Hand::Pair(_)) => "pair",
        PotentialHand::StraightDraw(..) => "straight draw",
        PotentialHand::FlushDraw(_) => "flush draw",
        PotentialHand::StraightFlushDraw(..) => "straight flush draw",
        PotentialHand::RoyalFlushDraw(..) => "royal draw",
        PotentialHand::HighCard(_) => "high card",
    }
}

fn best(s: &str) -> PotentialHand {
    ShowdownEngine::standard().process_hand(&cards(s))
}

#[test]
fn royal_flush_scenario() {
    let p = best("As,Ks,Qs,Js,Ts");
    assert_eq!(category(&p), "royal");
    assert!(same_set(&p.cards(), &cards("As,Ks,Qs,Js,Ts")));
}

#[test]
fn flush_with_gap_scenario() {
    let p = best("Ah,Kh,Qh,Jh,9h");
    assert_eq!(category(&p), "flush");
    let all = ShowdownEngine::standard().potential_hands(&cards("Ah,Kh,Qh,Jh,9h"), true);
    assert!(!all.iter().any(|h| matches!(h, PotentialHand::StraightDraw(..))));
}

#[test]
fn wheel_straight_flush_scenario() {
    let p = best("5c,4c,3c,2c,Ac");
    assert_eq!(category(&p), "straight flush");
    assert!(same_set(&p.cards(), &cards("5c,4c,3c,2c,Ac")));
}

#[test]
fn textbook_categories_of_five_cards() {
    assert_eq!(category(&best("2h,2d,5s,9c,Kh")), "pair");
    assert_eq!(category(&best("2h,2d,5s,5c,Kh")), "two pair");
    assert_eq!(category(&best("2h,2d,2s,9c,Kh")), "three");
    assert_eq!(category(&best("5h,6d,7s,8c,9h")), "straight");
    assert_eq!(category(&best("2h,7h,9h,Jh,Kh")), "flush");
    assert_eq!(category(&best("2h,2d,2s,9c,9h")), "full house");
    assert_eq!(category(&best("2h,2d,2s,2c,9h")), "four");
    assert_eq!(category(&best("9s,Ts,Js,Qs,Ks")), "straight flush");
    assert_eq!(category(&best("2h,5d,9s,Jc,Kh")), "high card");
}

#[test]
fn high_card_is_the_highest() {
    match best("2h,5d,9s,Jc,Kh") {
        PotentialHand::HighCard(c) => assert_eq!(c, Card::parse("Kh").unwrap()),
        _ => panic!("expected a high card"),
    }
}

#[test]
fn order_of_cards_does_not_change_the_result() {
    let a = best("2h,2d,2s,9c,9h");
    let b = best("9h,2s,9c,2h,2d");
    assert_eq!(category(&a), category(&b));
    assert!(same_set(&a.cards(), &b.cards()));
    let c = best("Ts,As,Js,Ks,Qs");
    assert_eq!(category(&c), "royal");
    let e = ShowdownEngine::standard();
    assert_eq!(e.compare_potential_hands(&a, &b), Ordering::Equal);
}

#[test]
fn repeated_cards_are_ignored() {
    let p = best("As,As,Ks,Qs,Js,Ts,Ts");
    assert_eq!(category(&p), "royal");
    let u = ShowdownEngine::make_hand_unique(&cards("As,Kd,As,Kd,2c"));
    assert_eq!(u, cards("As,Kd,2c"));
}

#[test]
fn seven_card_hands() {
    assert_eq!(category(&best("2h,2d,9s,9c,Kh,Kd,4s")), "two pair");
    assert_eq!(category(&best("Ah,Kh,3h,7h,9h,Ad,As")), "flush");
    assert_eq!(category(&best("Ah,Ad,As,Kh,Kd,2c,3c")), "full house");
}

#[test]
fn open_ended_draw_of_four() {
    let e = ShowdownEngine::standard();
    let hs = e.potential_hands(&cards("5h,6d,7s,8c,Kh"), true);
    assert!(hs.iter().any(|h| matches!(h, PotentialHand::StraightDraw(_, StraightDrawType::OpenEnded))));
    assert_eq!(category(&best("5h,6d,7s,8c,Kh")), "straight draw");
}

#[test]
fn inside_draw() {
    let e = ShowdownEngine::standard();
    let hs = e.potential_hands(&cards("5h,6d,8s,9c,Kh"), true);
    assert!(hs.iter().any(|h| matches!(h, PotentialHand::StraightDraw(_, StraightDrawType::Inside))));
}

#[test]
fn straights_off_finds_no_straight() {
    let e = ShowdownEngine::standard();
    let p = e.process_hand_no_straight(&cards("5h,6d,7s,8c,9h"));
    assert_eq!(category(&p), "high card");
    let q = e.process_hand_no_straight_all(&cards("5h,6d,7s,8c,9h"));
    assert_eq!(category(&q), "high card");
}

#[test]
fn nothing_found_gives_no_potential_hands() {
    let e = ShowdownEngine::standard();
    assert!(e.potential_hands(&cards("2h,5d,9s,Jc,Kh"), true).is_empty());
}

#[test]
fn brute_force_agrees_on_made_hands() {
    let e = ShowdownEngine::standard();
    for h in ["As,Ks,Qs,Js,Ts", "2h,2d,2s,9c,9h", "2h,2d,2s,2c,9h", "5h,6d,7s,8c,9h", "2h,7h,9h,Jh,Kh"].iter() {
        let a = e.process_hand(&cards(h));
        let b = e.process_hand_all(&cards(h));
        assert_eq!(category(&a), category(&b));
        assert_eq!(e.compare_potential_hands(&a, &b), Ordering::Equal);
    }
    let all = e.all_possible_hands(&cards("2h,2d,5s,5c,Kh"), true);
    assert!(all.iter().any(|h| category(h) == "two pair"));
    assert!(all.iter().any(|h| category(h) == "pair"));
}

#[test]
fn compare_is_a_total_order() {
    let e = ShowdownEngine::standard();
    let hs: Vec<PotentialHand> = [
        "As,Ks,Qs,Js,Ts",
        "2h,2d,5s,9c,Kh",
        "2h,2d,5s,5c,Kh",
        "5h,6d,7s,8c,Kh",
        "2h,5d,9s,Jc,Kh",
        "3h,3d,5s,9c,Kh",
    ]
    .iter()
    .map(|s| best(s))
    .collect();
    for a in hs.iter() {
        assert_eq!(e.compare_potential_hands(a, a), Ordering::Equal);
        for b in hs.iter() {
            assert_eq!(e.compare_potential_hands(a, b), e.compare_potential_hands(b, a).reverse());
            for c in hs.iter() {
                if e.compare_potential_hands(a, b) != Ordering::Greater
                    && e.compare_potential_hands(b, c) != Ordering::Greater
                {
                    assert_ne!(e.compare_potential_hands(a, c), Ordering::Greater);
                }
            }
        }
    }
    assert_eq!(e.compare_potential_hands(&hs[0], &hs[1]), Ordering::Greater);
    assert_eq!(e.compare_potential_hands(&hs[1], &hs[5]), Ordering::Less);
    assert_eq!(e.compare_potential_hands(&hs[3], &hs[4]), Ordering::Greater);
}

#[test]
fn compare_draw_quality() {
    let e = ShowdownEngine::standard();
    let open = PotentialHand::StraightDraw(cards("5h,6d,7s"), StraightDrawType::OpenEnded);
    let inside = PotentialHand::StraightDraw(cards("5h,6d,8s,9c"), StraightDrawType::Inside);
    assert_eq!(e.compare_potential_hands(&open, &inside), Ordering::Greater);
    let fd_small = PotentialHand::FlushDraw(cards("2h,3h,4h,9h"));
    let fd_big = PotentialHand::FlushDraw(cards("2h,3h,4h,5h,9h,Th"));
    assert_eq!(e.compare_potential_hands(&fd_small, &fd_big), Ordering::Less);
    assert_eq!(e.compare_potential_hands(&fd_small, &open), Ordering::Greater);
    let rfd = PotentialHand::RoyalFlushDraw(cards("Ah,Kh,Qh,Jh"), StraightDrawType::Inside);
    assert_eq!(e.compare_potential_hands(&rfd, &fd_big), Ordering::Greater);
}

#[test]
fn compare_hands_by_category_then_top_card() {
    let e = ShowdownEngine::standard();
    let p_k = Hand::Pair(cards("Kh,Kd"));
    let p_2 = Hand::Pair(cards("2h,2d"));
    let tp = Hand::TwoPair(cards("2h,2d,3c,3s"));
    assert_eq!(e.compare_hands(&p_k, &p_2), Ordering::Greater);
    assert_eq!(e.compare_hands(&tp, &p_k), Ordering::Greater);
    assert_eq!(e.compare_hands(&p_2, &Hand::Pair(cards("2s,2c"))), Ordering::Equal);
}

#[test]
fn engine_helpers() {
    let e = ShowdownEngine::standard();
    assert_eq!(e.value_order(&CardValue::Ace, &CardValue::King), Ordering::Greater);
    assert_eq!(e.value_order(&CardValue::Two, &CardValue::Two), Ordering::Equal);
    let h = cards("Kh,2c,Kd,7s");
    assert_eq!(e.highest_card(&h), Card::parse("Kd").unwrap());
    assert_eq!(e.highest_card_value(&h), CardValue::King);
    assert_eq!(ShowdownEngine::values(&h), vec![CardValue::King, CardValue::Two, CardValue::Seven]);
    assert_eq!(ShowdownEngine::count(&h, &CardValue::King), 2);
    assert_eq!(ShowdownEngine::count(&h, &CardValue::Ace), 0);
}

#[test]
fn reversed_ordering_changes_the_top_card() {
    let mut order = ShowdownEngine::standard().ordering;
    order.reverse();
    let e = ShowdownEngine::new(order);
    assert_eq!(e.highest_card_value(&cards("Kh,2c,7s")), CardValue::Two);
}

#[test]
fn potential_hand_accessors_and_text() {
    let p = best("2h,2d,5s,9c,Kh");
    assert!(matches!(p.showdown(), Some(Hand::Pair(_))));
    assert!(same_set(&p.cards(), &cards("2h,2d")));
    assert_eq!(p.to_text(), "[Winning Hand [Pair 2h 2d]]");
    let hc = PotentialHand::HighCard(Card::parse("Kh").unwrap());
    assert!(hc.showdown().is_none());
    assert_eq!(hc.cards(), cards("Kh"));
    assert_eq!(hc.to_text(), "[HighCard Kh]");
    let d = PotentialHand::StraightDraw(cards("5h,6d,7s"), StraightDrawType::OpenEnded);
    assert_eq!(d.to_text(), "[StraightDraw 5h 6d 7s (OpenEnded)]");
    assert_eq!(Hand::FourOfAKind(cards("2h,2d,2s,2c")).to_text(), "[FourKind 2h 2d 2s 2c]");
}

#[test]
fn four_of_a_suit_is_a_flush_draw() {
    let p = best("2h,5h,9h,Kh,3c");
    assert_eq!(category(&p), "flush draw");
    assert!(same_set(&p.cards(), &cards("2h,5h,9h,Kh")));
}

#[test]
fn suited_straight_draws() {
    let p = best("5h,6h,7h,8h,Kd");
    assert!(matches!(p, PotentialHand::StraightFlushDraw(_, StraightDrawType::OpenEnded)));
    assert!(same_set(&p.cards(), &cards("5h,6h,7h,8h")));
    let q = best("Jh,Qh,Kh,Ah,2c");
    assert!(matches!(q, PotentialHand::RoyalFlushDraw(_, StraightDrawType::OpenEnded)));
}

#[test]
fn flush_does_not_depend_on_card_order() {
    let a = best("2h,4h,6h,8h,Th,Kh");
    let b = best("Kh,2h,4h,6h,8h,Th");
    assert_eq!(category(&a), "flush");
    assert!(same_set(&a.cards(), &b.cards()));
    assert!(same_set(&a.cards(), &cards("4h,6h,8h,Th,Kh")));
}

#[test]
fn straight_flush_found_in_any_order() {
    let a = best("2h,9h,3h,4h,5h,6h,Kd");
    let b = best("2h,3h,4h,5h,6h,9h,Kd");
    assert_eq!(category(&a), "straight flush");
    assert_eq!(category(&b), "straight flush");
    assert!(same_set(&a.cards(), &b.cards()));
}
