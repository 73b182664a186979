//! The runtime's decisions: applying engine events to the state, choosing when to
//! answer, making the agent's answer legal, and when to stop.
use vstd::prelude::*;
use crate::actions::Action;
use crate::cards::{CardDeck, CardHand};
use crate::protocol::Event;
use crate::states::{
    opening_model, RoundModel, RoundState, StateModel, StateResult, TerminalModel,
    TerminalState, NUM_ROUNDS, STARTING_STACK,
};

verus! {

/// What the runtime must do for the agent after an event.
#[derive(Debug, Clone, Copy, PartialEq, Eq, Structural)]
pub enum Notice {
    Nothing,
    /// Tell the agent that a round began.
    NewRound,
    /// Tell the agent that the round with this number ended.
    RoundOver(u32),
    /// The engine ended the match.
    Quit,
}

/// Events that break the protocol; each is fatal to the session.
#[derive(Debug, Clone, Copy, PartialEq, Eq, Structural)]
pub enum SessionError {
    NoRound,
    NoTerminal,
    /// An action that would take a stack, a pip or the action counter out of range.
    ActionOutOfRange,
    BadSeat,
    BadBoard,
    PayoffOutOfRange,
}

/// What to send on this tick.
#[derive(Debug, Clone, Copy, PartialEq, Eq, Structural)]
pub enum Reply {
    /// Already answered this prompt.
    Wait,
    /// No round in play: send a keep-alive check.
    KeepAlive,
    /// The agent is to act: ask it, then legalise its answer.
    AskAgent,
    /// A round is in play and the other seat is to act.
    Idle,
}

/// The match as the runtime sees it; the game clock is kept by the caller.
#[derive(Debug)]
pub struct Session {
    pub bankroll: i64,
    pub round_num: u32,
    pub seat: usize,
    pub round: Option<RoundState>,
    pub terminal: Option<TerminalState>,
}

/// The action kept from the agent's answer `a`: a raise strictly inside the raise
/// bounds when raising is legal; otherwise a check when checking is legal, and
/// else a call for a raise, a fold for a check, and the action itself otherwise.
pub open spec fn legalised(m: RoundModel, a: Action) -> Action {
    let can_check = m.can(crate::actions::CHECK_BITS);
    match a {
        Action::Raise(n) => if m.can(crate::actions::RAISE_BITS) && m.min_raise() < n
            < m.max_raise() {
            Action::Raise(n)
        } else if can_check {
            Action::Check
        } else {
            Action::Call
        },
        Action::Check => if can_check {
            Action::Check
        } else {
            Action::Fold
        },
        Action::Call => if can_check {
            Action::Check
        } else {
            Action::Call
        },
        Action::Fold => if can_check {
            Action::Check
        } else {
            Action::Fold
        },
    }
}

/// Whether two optional terminal states have the same value.
pub open spec fn same_terminal(a: Option<TerminalState>, b: Option<TerminalState>) -> bool {
    match (a, b) {
        (None, None) => true,
        (Some(x), Some(y)) => x@ == y@,
        _ => false,
    }
}

/// The state with the board replaced and the street set to its length.
pub open spec fn with_board(m: RoundModel, deck: Seq<crate::cards::Card>) -> RoundModel {
    RoundModel { street: deck.len() as u32, deck, ..m }
}

/// The state with the opponent's hand revealed.
pub open spec fn with_opponent(m: RoundModel, seat: int, hand: CardHand) -> RoundModel {
    RoundModel {
        hands: if seat == 0 {
            [m.hands[0], Some(hand)]
        } else {
            [Some(hand), m.hands[1]]
        },
        ..m
    }
}

impl Session {
    /// The seat is 0 or 1.
    pub open spec fn wf(&self) -> bool {
        self.seat < 2
    }

    /// A fresh match: no round yet, round number 1.
    pub fn new() -> (r: Session)
        ensures
            r.wf(),
            r.bankroll == 0,
            r.round_num == 1,
            r.seat == 0,
            r.round is None,
            r.terminal is None,
    {
        Session { bankroll: 0, round_num: 1, seat: 0, round: None, terminal: None }
    }

    /// Applies one engine event. The game clock is not kept here, so a clock event
    /// changes nothing.
    pub fn apply(&mut self, event: Event) -> (r: Result<Notice, SessionError>)
        requires
            old(self).wf(),
        ensures
            final(self).wf(),
            r is Err ==> final(self).bankroll == old(self).bankroll && final(self).round_num
                == old(self).round_num,
            !(event is SetPlayerIndex) ==> final(self).seat == old(self).seat,
            event is SetPlayerHand ==> same_terminal(final(self).terminal, old(self).terminal),
            match event {
                Event::SetGameClock(_) => r == Ok::<Notice, SessionError>(Notice::Nothing),
                Event::Quit => r == Ok::<Notice, SessionError>(Notice::Quit),
                Event::SetPlayerIndex(i) => if i < 2 {
                    r == Ok::<Notice, SessionError>(Notice::Nothing) && final(self).seat == i
                } else {
                    r == Err::<Notice, SessionError>(SessionError::BadSeat)
                },
                Event::SetPlayerHand(h) => r == Ok::<Notice, SessionError>(Notice::NewRound)
                    && final(self).seat == old(self).seat && (final(self).round matches Some(x)
                    && x@ == opening_model(old(self).seat as int, h)),
                Event::PlayFold => Session::action_applied(*old(self), *final(self), Action::Fold, r),
                Event::PlayCall => Session::action_applied(*old(self), *final(self), Action::Call, r),
                Event::PlayCheck => Session::action_applied(
                    *old(self),
                    *final(self),
                    Action::Check,
                    r,
                ),
                Event::PlayRaise(n) => Session::action_applied(
                    *old(self),
                    *final(self),
                    Action::Raise(n),
                    r,
                ),
                Event::UpdateDeck(d) => match old(self).round {
                    None => r == Err::<Notice, SessionError>(SessionError::NoRound),
                    Some(x) => if d.0@.len() <= 5 {
                        r == Ok::<Notice, SessionError>(Notice::Nothing) && (final(self).round matches Some(y)
                            && y@ == with_board(x@, d.0@))
                    } else {
                        r == Err::<Notice, SessionError>(SessionError::BadBoard)
                    },
                },
                Event::RevealOpponentHand(h) => match old(self).round {
                    None => r == Err::<Notice, SessionError>(SessionError::NoRound),
                    Some(x) => r == Ok::<Notice, SessionError>(Notice::Nothing) && (final(self).terminal matches Some(t)
                        && t@ == (TerminalModel {
                        deltas: [0, 0],
                        previous: with_opponent(x@, old(self).seat as int, h),
                    })),
                },
                Event::Delta(d) => Session::delta_applied(*old(self), *final(self), d, r),
            },
    {
        match event {
            Event::SetGameClock(_) => Ok(Notice::Nothing),
            Event::Quit => Ok(Notice::Quit),
            Event::SetPlayerIndex(i) => {
                if i < 2 {
                    self.seat = i;
                    Ok(Notice::Nothing)
                } else {
                    Err(SessionError::BadSeat)
                }
            },
            Event::SetPlayerHand(h) => {
                self.round = Some(RoundState::opening(self.seat, h));
                Ok(Notice::NewRound)
            },
            Event::PlayFold => self.apply_action(Action::Fold),
            Event::PlayCall => self.apply_action(Action::Call),
            Event::PlayCheck => self.apply_action(Action::Check),
            Event::PlayRaise(n) => self.apply_action(Action::Raise(n)),
            Event::UpdateDeck(d) => self.update_board(d),
            Event::RevealOpponentHand(h) => self.show_opponent(h),
            Event::Delta(d) => self.settle(d),
        }
    }

    /// How an action event leaves the session.
    pub open spec fn action_applied(
        pre: Session,
        post: Session,
        a: Action,
        r: Result<Notice, SessionError>,
    ) -> bool {
        match pre.round {
            None => r == Err::<Notice, SessionError>(SessionError::NoRound),
            Some(x) => if x@.can_proceed(a) {
                r == Ok::<Notice, SessionError>(Notice::Nothing) && match x@.proceed_model(a) {
                    StateModel::Round(m) => (post.round matches Some(y) && y@ == m)
                        && same_terminal(post.terminal, pre.terminal),
                    StateModel::Terminal(t) => (post.terminal matches Some(y) && y@ == t)
                        && (post.round matches Some(y) && y@ == x@),
                }
            } else {
                r == Err::<Notice, SessionError>(SessionError::ActionOutOfRange)
            },
        }
    }

    /// How a payoff event leaves the session.
    pub open spec fn delta_applied(
        pre: Session,
        post: Session,
        d: i32,
        r: Result<Notice, SessionError>,
    ) -> bool {
        match pre.terminal {
            None => r == Err::<Notice, SessionError>(SessionError::NoTerminal),
            Some(t) => if d == i32::MIN || pre.bankroll + d > i64::MAX || pre.bankroll + d
                < i64::MIN || pre.round_num == u32::MAX {
                r == Err::<Notice, SessionError>(SessionError::PayoffOutOfRange)
            } else {
                &&& r == Ok::<Notice, SessionError>(Notice::RoundOver(pre.round_num))
                &&& post.bankroll == pre.bankroll + d
                &&& post.round_num == pre.round_num + 1
                &&& post.round is None
                &&& (post.terminal matches Some(u) && u.deltas[pre.seat as int] == d
                    && u.deltas[1 - pre.seat] == -d && u.previous@ == t.previous@)
            },
        }
    }

    fn apply_action(&mut self, a: Action) -> (r: Result<Notice, SessionError>)
        requires
            old(self).wf(),
        ensures
            final(self).wf(),
            final(self).bankroll == old(self).bankroll,
            final(self).round_num == old(self).round_num,
            final(self).seat == old(self).seat,
            Session::action_applied(*old(self), *final(self), a, r),
    {
        let next = match &self.round {
            None => {
                return Err(SessionError::NoRound);
            },
            Some(x) => {
                if !x.can_proceed(a) {
                    return Err(SessionError::ActionOutOfRange);
                }
                x.proceed(a)
            },
        };
        match next {
            StateResult::Round(r) => {
                self.round = Some(r);
            },
            StateResult::Terminal(t) => {
                self.terminal = Some(t);
            },
        }
        Ok(Notice::Nothing)
    }

    fn update_board(&mut self, deck: CardDeck) -> (r: Result<Notice, SessionError>)
        requires
            old(self).wf(),
        ensures
            final(self).wf(),
            final(self).bankroll == old(self).bankroll,
            final(self).round_num == old(self).round_num,
            final(self).seat == old(self).seat,
            match old(self).round {
                None => r == Err::<Notice, SessionError>(SessionError::NoRound),
                Some(x) => if deck.0@.len() <= 5 {
                    r == Ok::<Notice, SessionError>(Notice::Nothing) && (final(self).round matches Some(y)
                        && y@ == with_board(x@, deck.0@))
                } else {
                    r == Err::<Notice, SessionError>(SessionError::BadBoard)
                },
            },
    {
        let next = match &self.round {
            None => {
                return Err(SessionError::NoRound);
            },
            Some(x) => {
                if deck.0.len() > 5 {
                    return Err(SessionError::BadBoard);
                }
                let street = deck.0.len() as u32;
                RoundState {
                    button: x.button,
                    street,
                    pips: x.pips,
                    stacks: x.stacks,
                    hands: x.hands,
                    deck,
                    previous: match &x.previous {
                        Some(p) => Some(Box::new(p.duplicate())),
                        None => None,
                    },
                }
            },
        };
        self.round = Some(next);
        Ok(Notice::Nothing)
    }

    fn show_opponent(&mut self, hand: CardHand) -> (r: Result<Notice, SessionError>)
        requires
            old(self).wf(),
        ensures
            final(self).wf(),
            final(self).bankroll == old(self).bankroll,
            final(self).round_num == old(self).round_num,
            final(self).seat == old(self).seat,
            match old(self).round {
                None => r == Err::<Notice, SessionError>(SessionError::NoRound),
                Some(x) => r == Ok::<Notice, SessionError>(Notice::Nothing) && (final(self).terminal matches Some(t)
                    && t@ == (TerminalModel {
                    deltas: [0, 0],
                    previous: with_opponent(x@, old(self).seat as int, hand),
                })),
            },
    {
        let seat = self.seat;
        let t = match &self.round {
            None => {
                return Err(SessionError::NoRound);
            },
            Some(x) => {
                let hands = if seat == 0 {
                    [x.hands[0], Some(hand)]
                } else {
                    [Some(hand), x.hands[1]]
                };
                let revealed = RoundState {
                    button: x.button,
                    street: x.street,
                    pips: x.pips,
                    stacks: x.stacks,
                    hands,
                    deck: x.deck.duplicate(),
                    previous: match &x.previous {
                        Some(p) => Some(Box::new(p.duplicate())),
                        None => None,
                    },
                };
                TerminalState { deltas: [0, 0], previous: revealed }
            },
        };
        self.terminal = Some(t);
        Ok(Notice::Nothing)
    }

    fn settle(&mut self, d: i32) -> (r: Result<Notice, SessionError>)
        requires
            old(self).wf(),
        ensures
            final(self).wf(),
            final(self).seat == old(self).seat,
            Session::delta_applied(*old(self), *final(self), d, r),
            r is Err ==> final(self).bankroll == old(self).bankroll && final(self).round_num
                == old(self).round_num,
    {
        let seat = self.seat;
        let term = match &self.terminal {
            None => {
                return Err(SessionError::NoTerminal);
            },
            Some(t) => {
                if d == i32::MIN || self.round_num == u32::MAX {
                    return Err(SessionError::PayoffOutOfRange);
                }
                let bankroll = self.bankroll.checked_add(d as i64);
                if bankroll.is_none() {
                    return Err(SessionError::PayoffOutOfRange);
                }
                let deltas = if seat == 0 {
                    [d, -d]
                } else {
                    [-d, d]
                };
                TerminalState { deltas, previous: t.previous.duplicate() }
            },
        };
        let finished = self.round_num;
        self.bankroll = self.bankroll + d as i64;
        self.round_num = self.round_num + 1;
        self.round = None;
        self.terminal = Some(term);
        Ok(Notice::RoundOver(finished))
    }

    /// What to send on this tick, given whether a reply already went out for the
    /// current prompt.
    pub fn next_reply(&self, round_sent: bool) -> (r: Reply)
        ensures
            r == (if round_sent {
                Reply::Wait
            } else {
                match self.round {
                    None => Reply::KeepAlive,
                    Some(x) => if self.seat as int == x.button as int % 2 {
                        Reply::AskAgent
                    } else {
                        Reply::Idle
                    },
                }
            }),
    {
        if round_sent {
            return Reply::Wait;
        }
        match &self.round {
            None => Reply::KeepAlive,
            Some(x) => if self.seat == (x.button % 2) as usize {
                Reply::AskAgent
            } else {
                Reply::Idle
            },
        }
    }

    /// Whether the match is over: the clock ran out after the first round, the
    /// time budget is spent, or every round has been played.
    pub fn is_over(&self, clock_near_zero: bool, out_of_time: bool) -> (r: bool)
        ensures
            r == ((clock_near_zero && self.round_num > 1) || out_of_time || (self.round_num
                == NUM_ROUNDS + 1 && self.round is None)),
    {
        (clock_near_zero && self.round_num > 1) || out_of_time || (self.round_num == NUM_ROUNDS
            + 1 && self.round.is_none())
    }
}

impl RoundState {
    /// Whether `a` can be carried out: every stack, pip and the action counter
    /// stay in range.
    pub fn can_proceed(&self, a: Action) -> (r: bool)
        ensures
            r == self@.can_proceed(a),
    {
        let active: usize = (self.button % 2) as usize;
        match a {
            Action::Fold => self.stacks[0] <= STARTING_STACK && self.stacks[1] <= STARTING_STACK,
            Action::Call => self.button == 0 || (self.pips[active] <= self.pips[1 - active]
                && self.pips[1 - active] - self.pips[active] <= self.stacks[active] && self.button
                < u32::MAX),
            Action::Check => self.button < u32::MAX,
            Action::Raise(n) => self.pips[active] <= n && n - self.pips[active] <= self.stacks[active]
                && self.button < u32::MAX,
        }
    }

    /// Whether the state is well-formed: commitments within the starting stack,
    /// the continue cost covered by the active stack, at most five board cards.
    pub fn is_well_formed(&self) -> (r: bool)
        ensures
            r == self@.well_formed(),
    {
        let active: usize = (self.button % 2) as usize;
        self.pips[0] as u64 + self.stacks[0] as u64 <= STARTING_STACK as u64 && self.pips[1] as u64
            + self.stacks[1] as u64 <= STARTING_STACK as u64 && self.pips[active] <= self.pips[1
            - active] && self.pips[1 - active] - self.pips[active] <= self.stacks[active]
            && self.deck.0.len() <= 5
    }

    /// Whether `a` is legal for the active seat.
    pub fn is_legal(&self, a: Action) -> (r: bool)
        requires
            self@.well_formed(),
        ensures
            r == self@.is_legal(a),
    {
        let legal = self.legal_actions();
        match a {
            Action::Fold => legal.contains(crate::actions::ActionType::fold()),
            Action::Call => legal.contains(crate::actions::ActionType::call()),
            Action::Check => legal.contains(crate::actions::ActionType::check()),
            Action::Raise(n) => {
                if !legal.contains(crate::actions::ActionType::raise()) {
                    return false;
                }
                let b = self.raise_bounds();
                b[0] <= n && n <= b[1]
            },
        }
    }

    /// Replaces the agent's answer with a legal action, as `legalised` says.
    pub fn legalise(&self, a: Action) -> (r: Action)
        requires
            self@.well_formed(),
        ensures
            r == legalised(self@, a),
            self@.is_legal(r),
    {
        proof {
            crate::states::lemma_legal_bits(self@);
        }
        let legal = self.legal_actions();
        let can_check = legal.contains(crate::actions::ActionType::check());
        match a {
            Action::Raise(n) => {
                if legal.contains(crate::actions::ActionType::raise()) {
                    let b = self.raise_bounds();
                    if b[0] < n && n < b[1] {
                        return Action::Raise(n);
                    }
                }
                if can_check {
                    Action::Check
                } else {
                    Action::Call
                }
            },
            Action::Check => if can_check {
                Action::Check
            } else {
                Action::Fold
            },
            Action::Call => if can_check {
                Action::Check
            } else {
                Action::Call
            },
            Action::Fold => if can_check {
                Action::Check
            } else {
                Action::Fold
            },
        }
    }
}

/// A raise is legal exactly when its target lies within the raise bounds and
/// raising is allowed; and whatever the agent answers, the action sent is legal.
pub proof fn lemma_legalised_is_legal(m: RoundModel, a: Action)
    requires
        m.well_formed(),
    ensures
        forall|n: u32| #[trigger] m.is_legal(Action::Raise(n)) <==> (m.can(
            crate::actions::RAISE_BITS,
        ) && m.min_raise() <= n <= m.max_raise()),
        m.is_legal(legalised(m, a)),
{
    crate::states::lemma_legal_bits(m);
}

} // verus!
