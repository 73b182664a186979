//! Betting actions and sets of action kinds.
use vstd::prelude::*;

verus! {

pub const FOLD_BITS: u16 = 1;

pub const CALL_BITS: u16 = 2;

pub const CHECK_BITS: u16 = 4;

pub const RAISE_BITS: u16 = 8;

/// A set of action kinds, one bit each.
#[derive(Debug, Copy, Clone, PartialEq, Eq, Structural, Default)]
pub struct ActionType {
    pub bits: u16,
}

impl ActionType {
    pub fn fold() -> (r: ActionType)
        ensures
            r.bits == FOLD_BITS,
    {
        ActionType { bits: FOLD_BITS }
    }

    pub fn call() -> (r: ActionType)
        ensures
            r.bits == CALL_BITS,
    {
        ActionType { bits: CALL_BITS }
    }

    pub fn check() -> (r: ActionType)
        ensures
            r.bits == CHECK_BITS,
    {
        ActionType { bits: CHECK_BITS }
    }

    pub fn raise() -> (r: ActionType)
        ensures
            r.bits == RAISE_BITS,
    {
        ActionType { bits: RAISE_BITS }
    }

    /// The empty set.
    pub fn empty() -> (r: ActionType)
        ensures
            r.bits == 0,
    {
        ActionType { bits: 0 }
    }

    /// The union of two sets.
    pub fn union(self, other: ActionType) -> (r: ActionType)
        ensures
            r.bits == self.bits | other.bits,
    {
        ActionType { bits: self.bits | other.bits }
    }

    pub open spec fn spec_contains(self, other: ActionType) -> bool {
        self.bits & other.bits == other.bits
    }

    /// Whether every kind in `other` is in this set.
    pub fn contains(&self, other: ActionType) -> (r: bool)
        ensures
            r == self.spec_contains(other),
    {
        self.bits & other.bits == other.bits
    }
}

/// A betting action; a raise carries the total pip it raises to.
#[derive(Debug, Copy, Clone, PartialEq, Eq, Structural)]
pub enum Action {
    Fold,
    Call,
    Check,
    Raise(u32),
}

impl Action {
    /// The raise target, or zero for any other action.
    pub fn amount(&self) -> (r: u32)
        ensures
            r == (match *self {
                Action::Raise(a) => a,
                _ => 0,
            }),
    {
        match self {
            Action::Fold => 0,
            Action::Call => 0,
            Action::Check => 0,
            Action::Raise(amt) => *amt,
        }
    }

    pub fn is_raise(&self) -> (r: bool)
        ensures
            r == (*self is Raise),
    {
        match self {
            Action::Raise(_) => true,
            _ => false,
        }
    }
}

} // verus!
