//! Round state, terminal state, legality and the betting state machine.
use vstd::prelude::*;
use crate::actions::{Action, ActionType, FOLD_BITS, CALL_BITS, CHECK_BITS, RAISE_BITS};
use crate::cards::{Card, CardDeck, CardHand};

verus! {

pub const NUM_ROUNDS: u32 = 1000;

pub const STARTING_STACK: u32 = 200;

pub const BIG_BLIND: u32 = 2;

pub const SMALL_BLIND: u32 = 1;

/// Final state of a round: the payoffs and the round state they close.
#[derive(Debug)]
pub struct TerminalState {
    pub deltas: [i32; 2],
    pub previous: RoundState,
}

/// The game tree of one round, with the chain of states that led to it.
#[derive(Debug)]
pub struct RoundState {
    pub button: u32,
    pub street: u32,
    pub pips: [u32; 2],
    pub stacks: [u32; 2],
    pub hands: [Option<CardHand>; 2],
    pub deck: CardDeck,
    pub previous: Option<Box<RoundState>>,
}

/// Either a round still in play or a finished one.
#[derive(Debug)]
pub enum StateResult {
    Round(RoundState),
    Terminal(TerminalState),
}

/// The mathematical value of a round state.
pub ghost struct RoundModel {
    pub button: u32,
    pub street: u32,
    pub pips: [u32; 2],
    pub stacks: [u32; 2],
    pub hands: [Option<CardHand>; 2],
    pub deck: Seq<Card>,
    pub previous: Option<Box<RoundModel>>,
}

pub ghost struct TerminalModel {
    pub deltas: [i32; 2],
    pub previous: RoundModel,
}

pub ghost enum StateModel {
    Round(RoundModel),
    Terminal(TerminalModel),
}

/// `a` with entry `i` replaced by `v`.
pub open spec fn with_entry(a: [u32; 2], i: int, v: u32) -> [u32; 2] {
    if i == 0 {
        [v, a[1]]
    } else {
        [a[0], v]
    }
}

pub open spec fn round_model(s: RoundState) -> RoundModel
    decreases s,
{
    RoundModel {
        button: s.button,
        street: s.street,
        pips: s.pips,
        stacks: s.stacks,
        hands: s.hands,
        deck: s.deck.0@,
        previous: match s.previous {
            Some(p) => Some(Box::new(round_model(*p))),
            None => None,
        },
    }
}

impl View for RoundState {
    type V = RoundModel;

    open spec fn view(&self) -> RoundModel {
        round_model(*self)
    }
}

impl View for TerminalState {
    type V = TerminalModel;

    open spec fn view(&self) -> TerminalModel {
        TerminalModel { deltas: self.deltas, previous: self.previous@ }
    }
}

impl View for StateResult {
    type V = StateModel;

    open spec fn view(&self) -> StateModel {
        match self {
            StateResult::Round(r) => StateModel::Round(r@),
            StateResult::Terminal(t) => StateModel::Terminal(t@),
        }
    }
}

/// The state in which every round opens: small blind posted by seat 0, big blind
/// by seat 1, and only the own hand known.
pub open spec fn opening_model(seat: int, hand: CardHand) -> RoundModel {
    RoundModel {
        button: 0,
        street: 0,
        pips: [SMALL_BLIND, BIG_BLIND],
        stacks: [(STARTING_STACK - SMALL_BLIND) as u32, (STARTING_STACK - BIG_BLIND) as u32],
        hands: if seat == 0 {
            [Some(hand), None]
        } else {
            [None, Some(hand)]
        },
        deck: Seq::empty(),
        previous: None,
    }
}

impl RoundModel {
    /// The seat to act.
    pub open spec fn active(self) -> int {
        self.button as int % 2
    }

    pub open spec fn inactive(self) -> int {
        1 - self.active()
    }

    /// Chips the active seat must add to match the other seat's pip.
    pub open spec fn continue_cost(self) -> int {
        self.pips[self.inactive()] - self.pips[self.active()]
    }

    /// Commitments stay within the starting stack, the active seat can cover the
    /// continue cost, and the board holds at most five cards.
    pub open spec fn well_formed(self) -> bool {
        &&& self.pips[0] + self.stacks[0] <= STARTING_STACK
        &&& self.pips[1] + self.stacks[1] <= STARTING_STACK
        &&& 0 <= self.continue_cost() <= self.stacks[self.active()]
        &&& self.deck.len() <= 5
    }

    /// The bits of the legal action kinds.
    pub open spec fn legal_bits(self) -> u16 {
        let cc = self.continue_cost();
        if cc == 0 {
            if self.stacks[0] == 0 || self.stacks[1] == 0 {
                CHECK_BITS
            } else {
                CHECK_BITS | RAISE_BITS
            }
        } else if cc == self.stacks[self.active()] || self.stacks[self.inactive()] == 0 {
            FOLD_BITS | CALL_BITS
        } else {
            FOLD_BITS | CALL_BITS | RAISE_BITS
        }
    }

    pub open spec fn can(self, kind: u16) -> bool {
        self.legal_bits() & kind == kind
    }

    pub open spec fn max_commit(self) -> int {
        let a = self.active();
        let cc = self.continue_cost();
        if self.stacks[a] <= self.stacks[self.inactive()] + cc {
            self.stacks[a] as int
        } else {
            self.stacks[self.inactive()] + cc
        }
    }

    pub open spec fn min_commit(self) -> int {
        let cc = self.continue_cost();
        let step = if cc >= BIG_BLIND {
            cc
        } else {
            BIG_BLIND as int
        };
        if self.max_commit() <= cc + step {
            self.max_commit()
        } else {
            cc + step
        }
    }

    /// Smallest legal raise target.
    pub open spec fn min_raise(self) -> int {
        self.pips[self.active()] + self.min_commit()
    }

    /// Largest legal raise target.
    pub open spec fn max_raise(self) -> int {
        self.pips[self.active()] + self.max_commit()
    }

    /// Whether `a` is legal for the active seat.
    pub open spec fn is_legal(self, a: Action) -> bool {
        match a {
            Action::Fold => self.can(FOLD_BITS),
            Action::Call => self.can(CALL_BITS),
            Action::Check => self.can(CHECK_BITS),
            Action::Raise(n) => self.can(RAISE_BITS) && self.min_raise() <= n
                <= self.max_raise(),
        }
    }

    /// Whether `action` can be carried out with every stack, pip and the action
    /// counter staying in range; legal or not.
    pub open spec fn can_proceed(self, action: Action) -> bool {
        let a = self.active();
        match action {
            Action::Fold => self.stacks[0] <= STARTING_STACK && self.stacks[1] <= STARTING_STACK,
            Action::Call => self.button == 0 || (0 <= self.continue_cost() <= self.stacks[a]
                && self.button < u32::MAX),
            Action::Check => self.button < u32::MAX,
            Action::Raise(n) => self.pips[a] <= n <= self.pips[a] + self.stacks[a] && self.button
                < u32::MAX,
        }
    }

    pub open spec fn showdown_model(self) -> TerminalModel {
        TerminalModel { deltas: [0, 0], previous: self }
    }

    /// This state with the action counter advanced and new pips and stacks.
    pub open spec fn advanced(self, pips: [u32; 2], stacks: [u32; 2]) -> RoundModel {
        RoundModel {
            button: (self.button + 1) as u32,
            street: self.street,
            pips,
            stacks,
            hands: self.hands,
            deck: self.deck,
            previous: Some(Box::new(self)),
        }
    }

    pub open spec fn proceed_street_model(self) -> StateModel {
        if self.street == 5 {
            StateModel::Terminal(self.showdown_model())
        } else {
            StateModel::Round(
                RoundModel {
                    button: 1,
                    street: self.deck.len() as u32,
                    pips: [0, 0],
                    stacks: self.stacks,
                    hands: self.hands,
                    deck: self.deck,
                    previous: Some(Box::new(self)),
                },
            )
        }
    }

    /// The payoff won by seat 0 when the active seat folds.
    pub open spec fn fold_delta(self) -> int {
        if self.active() == 0 {
            if self.stacks[0] >= STARTING_STACK {
                self.stacks[0] - STARTING_STACK
            } else {
                0
            }
        } else {
            STARTING_STACK - self.stacks[1]
        }
    }

    pub open spec fn proceed_model(self, action: Action) -> StateModel {
        let a = self.active();
        match action {
            Action::Fold => StateModel::Terminal(
                TerminalModel {
                    deltas: [self.fold_delta() as i32, -self.fold_delta() as i32],
                    previous: self,
                },
            ),
            Action::Call => if self.button == 0 {
                StateModel::Round(
                    RoundModel {
                        button: 1,
                        street: 0,
                        pips: [BIG_BLIND, BIG_BLIND],
                        stacks: [
                            (STARTING_STACK - BIG_BLIND) as u32,
                            (STARTING_STACK - BIG_BLIND) as u32,
                        ],
                        hands: self.hands,
                        deck: self.deck,
                        previous: Some(Box::new(self)),
                    },
                )
            } else {
                let cc = self.continue_cost();
                self.advanced(
                    with_entry(self.pips, a, (self.pips[a] + cc) as u32),
                    with_entry(self.stacks, a, (self.stacks[a] - cc) as u32),
                ).proceed_street_model()
            },
            Action::Check => if (self.street == 0 && self.button > 0) || self.button > 1 {
                self.proceed_street_model()
            } else {
                StateModel::Round(self.advanced(self.pips, self.stacks))
            },
            Action::Raise(n) => StateModel::Round(
                self.advanced(
                    with_entry(self.pips, a, n),
                    with_entry(self.stacks, a, (self.stacks[a] - (n - self.pips[a])) as u32),
                ),
            ),
        }
    }
}

impl CardDeck {
    /// A copy of the board.
    pub fn duplicate(&self) -> (r: CardDeck)
        ensures
            r.0@ == self.0@,
    {
        let mut v: Vec<Card> = Vec::new();
        let n = self.0.len();
        for i in 0..n
            invariant
                n == self.0@.len(),
                v@ == self.0@.subrange(0, i as int),
        {
            v.push(self.0[i]);
            assert(self.0@.subrange(0, i + 1) == self.0@.subrange(0, i as int).push(self.0@[i as int]));
        }
        assert(self.0@.subrange(0, n as int) == self.0@);
        CardDeck(v)
    }
}

impl RoundState {
    /// A copy of the state with its whole chain.
    pub fn duplicate(&self) -> (r: RoundState)
        ensures
            r@ == self@,
        decreases self,
    {
        let previous = match &self.previous {
            Some(p) => Some(Box::new(p.duplicate())),
            None => None,
        };
        RoundState {
            button: self.button,
            street: self.street,
            pips: self.pips,
            stacks: self.stacks,
            hands: self.hands,
            deck: self.deck.duplicate(),
            previous,
        }
    }

    /// The state in which a round opens, with the own hand at `seat`.
    pub fn opening(seat: usize, hand: CardHand) -> (r: RoundState)
        requires
            seat < 2,
        ensures
            r@ == opening_model(seat as int, hand),
            r@.well_formed(),
    {
        let hands = if seat == 0 {
            [Some(hand), None]
        } else {
            [None, Some(hand)]
        };
        let r = RoundState {
            button: 0,
            street: 0,
            pips: [SMALL_BLIND, BIG_BLIND],
            stacks: [STARTING_STACK - SMALL_BLIND, STARTING_STACK - BIG_BLIND],
            hands,
            deck: CardDeck(Vec::new()),
            previous: None,
        };
        assert(r@.deck == Seq::<Card>::empty());
        r
    }

    /// Closes the round at showdown; the payoffs arrive separately.
    pub fn showdown(&self) -> (r: TerminalState)
        ensures
            r@ == self@.showdown_model(),
    {
        TerminalState { previous: self.duplicate(), deltas: [0, 0] }
    }

    /// The kinds of action the active seat may take.
    pub fn legal_actions(&self) -> (r: ActionType)
        requires
            self@.continue_cost() >= 0,
        ensures
            r.bits == self@.legal_bits(),
    {
        let active: usize = (self.button % 2) as usize;
        let continue_cost = self.pips[1 - active] - self.pips[active];
        if continue_cost == 0 {
            let bets_forbidden = (self.stacks[0] == 0) || (self.stacks[1] == 0);
            if bets_forbidden {
                return ActionType::check();
            }
            return ActionType::check().union(ActionType::raise());
        }
        let raises_forbidden = (continue_cost == self.stacks[active]) || (self.stacks[1 - active]
            == 0);
        if raises_forbidden {
            return ActionType::fold().union(ActionType::call());
        }
        ActionType::fold().union(ActionType::call()).union(ActionType::raise())
    }

    /// The smallest and largest legal raise targets.
    pub fn raise_bounds(&self) -> (r: [u32; 2])
        requires
            self@.well_formed(),
        ensures
            r[0] == self@.min_raise(),
            r[1] == self@.max_raise(),
    {
        let active: usize = (self.button % 2) as usize;
        let continue_cost: u32 = self.pips[1 - active] - self.pips[active];
        let reachable = self.stacks[1 - active] + continue_cost;
        let max_added = if self.stacks[active] <= reachable {
            self.stacks[active]
        } else {
            reachable
        };
        let step = if continue_cost >= BIG_BLIND {
            continue_cost
        } else {
            BIG_BLIND
        };
        let min_added = if max_added <= continue_cost + step {
            max_added
        } else {
            continue_cost + step
        };
        [self.pips[active] + min_added, self.pips[active] + max_added]
    }

    /// Resets the pips and moves to the next street, or to showdown after the river.
    pub fn proceed_street(&self) -> (r: StateResult)
        ensures
            r@ == self@.proceed_street_model(),
    {
        if self.street == 5 {
            return StateResult::Terminal(self.showdown());
        }
        let new_street = self.deck.0.len() as u32;
        StateResult::Round(
            RoundState {
                button: 1,
                street: new_street,
                pips: [0, 0],
                stacks: self.stacks,
                hands: self.hands,
                deck: self.deck.duplicate(),
                previous: Some(Box::new(self.duplicate())),
            },
        )
    }

    /// Advances the game tree by one legal action of the active seat.
    pub fn proceed(&self, action: Action) -> (r: StateResult)
        requires
            self@.can_proceed(action),
        ensures
            r@ == self@.proceed_model(action),
            self@.well_formed() && self@.is_legal(action) ==> (r@ matches StateModel::Round(m)
                ==> m.well_formed()),
    {
        let active: usize = (self.button % 2) as usize;
        let ghost m = self@;
        proof {
            lemma_legal_bits(m);
        }
        match action {
            Action::Fold => {
                let delta: u32 = if active == 0 {
                    self.stacks[0].saturating_sub(STARTING_STACK)
                } else {
                    STARTING_STACK - self.stacks[1]
                };
                StateResult::Terminal(
                    TerminalState {
                        deltas: [delta as i32, -(delta as i32)],
                        previous: self.duplicate(),
                    },
                )
            },
            Action::Call => {
                if self.button == 0 {
                    return StateResult::Round(
                        RoundState {
                            button: 1,
                            street: 0,
                            pips: [BIG_BLIND, BIG_BLIND],
                            stacks: [STARTING_STACK - BIG_BLIND, STARTING_STACK - BIG_BLIND],
                            hands: self.hands,
                            deck: self.deck.duplicate(),
                            previous: Some(Box::new(self.duplicate())),
                        },
                    );
                }
                let added = self.pips[1 - active] - self.pips[active];
                let new_pip = self.pips[active] + added;
                let new_stack = self.stacks[active] - added;
                let state = RoundState {
                    button: self.button + 1,
                    street: self.street,
                    pips: if active == 0 {
                        [new_pip, self.pips[1]]
                    } else {
                        [self.pips[0], new_pip]
                    },
                    stacks: if active == 0 {
                        [new_stack, self.stacks[1]]
                    } else {
                        [self.stacks[0], new_stack]
                    },
                    hands: self.hands,
                    deck: self.deck.duplicate(),
                    previous: Some(Box::new(self.duplicate())),
                };
                state.proceed_street()
            },
            Action::Check => {
                if (self.street == 0 && self.button > 0) || self.button > 1 {
                    return self.proceed_street();
                }
                StateResult::Round(
                    RoundState {
                        button: self.button + 1,
                        street: self.street,
                        pips: self.pips,
                        stacks: self.stacks,
                        hands: self.hands,
                        deck: self.deck.duplicate(),
                        previous: Some(Box::new(self.duplicate())),
                    },
                )
            },
            Action::Raise(amt) => {
                let added = amt - self.pips[active];
                let new_stack = self.stacks[active] - added;
                StateResult::Round(
                    RoundState {
                        button: self.button + 1,
                        street: self.street,
                        pips: if active == 0 {
                            [amt, self.pips[1]]
                        } else {
                            [self.pips[0], amt]
                        },
                        stacks: if active == 0 {
                            [new_stack, self.stacks[1]]
                        } else {
                            [self.stacks[0], new_stack]
                        },
                        hands: self.hands,
                        deck: self.deck.duplicate(),
                        previous: Some(Box::new(self.duplicate())),
                    },
                )
            },
        }
    }
}

/// Which kinds each of the four legal sets holds.
pub proof fn lemma_legal_bits(m: RoundModel)
    ensures
        m.can(FOLD_BITS) <==> m.continue_cost() != 0,
        m.can(CALL_BITS) <==> m.continue_cost() != 0,
        m.can(CHECK_BITS) <==> m.continue_cost() == 0,
        m.can(RAISE_BITS) <==> if m.continue_cost() == 0 {
            m.stacks[0] != 0 && m.stacks[1] != 0
        } else {
            m.continue_cost() != m.stacks[m.active()] && m.stacks[m.inactive()] != 0
        },
{
    assert((4u16 & 1u16) != 1u16 && (4u16 & 2u16) != 2u16 && (4u16 & 4u16) == 4u16 && (4u16
        & 8u16) != 8u16) by (bit_vector);
    assert(((4u16 | 8u16) & 1u16) != 1u16 && ((4u16 | 8u16) & 2u16) != 2u16 && ((4u16 | 8u16)
        & 4u16) == 4u16 && ((4u16 | 8u16) & 8u16) == 8u16) by (bit_vector);
    assert(((1u16 | 2u16) & 1u16) == 1u16 && ((1u16 | 2u16) & 2u16) == 2u16 && ((1u16 | 2u16)
        & 4u16) != 4u16 && ((1u16 | 2u16) & 8u16) != 8u16) by (bit_vector);
    assert(((1u16 | 2u16 | 8u16) & 1u16) == 1u16 && ((1u16 | 2u16 | 8u16) & 2u16) == 2u16 && ((
    1u16 | 2u16 | 8u16) & 4u16) != 4u16 && ((1u16 | 2u16 | 8u16) & 8u16) == 8u16)
        by (bit_vector);
}

/// Every state reached from a well-formed state by a legal action is well-formed
/// again, so no seat ever has more than the starting stack in its stack and pip.
pub proof fn lemma_proceed_keeps_commitments_bounded(m: RoundModel, a: Action)
    requires
        m.well_formed(),
        m.is_legal(a),
        m.button < u32::MAX,
    ensures
        m.proceed_model(a) matches StateModel::Round(n) ==> n.well_formed()
            && n.stacks[0] + n.pips[0] <= STARTING_STACK && n.stacks[1] + n.pips[1]
            <= STARTING_STACK,
{
    lemma_legal_bits(m);
}

/// The opening state of a round is well-formed.
pub proof fn lemma_opening_well_formed(seat: int, hand: CardHand)
    requires
        0 <= seat < 2,
    ensures
        opening_model(seat, hand).well_formed(),
{
}

/// RAISE is legal exactly when the raise bounds form a range and both stacks can
/// still move chips: the active seat has more than the continue cost and the other
/// seat has chips left.
pub proof fn lemma_raise_legal_iff(m: RoundModel)
    requires
        m.well_formed(),
    ensures
        m.can(RAISE_BITS) <==> (m.min_raise() <= m.max_raise() && m.stacks[m.active()]
            > m.continue_cost() && m.stacks[m.inactive()] > 0),
{
    lemma_legal_bits(m);
}

/// Folding or calling, whenever it can be carried out, ends the round, if it ends
/// it, with payoffs that sum to zero.
pub proof fn lemma_fold_call_zero_sum(m: RoundModel, a: Action)
    requires
        m.can_proceed(a),
        a == Action::Fold || a == Action::Call,
    ensures
        m.proceed_model(a) matches StateModel::Terminal(t) ==> t.deltas[0] + t.deltas[1] == 0,
{
}

/// A legal action in a well-formed state can be carried out.
pub proof fn lemma_legal_can_proceed(m: RoundModel, a: Action)
    requires
        m.well_formed(),
        m.is_legal(a),
        m.button < u32::MAX,
    ensures
        m.can_proceed(a),
{
    lemma_legal_bits(m);
}

} // verus!
