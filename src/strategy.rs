use vstd::prelude::*;

verus! {

/// The deductions the solver knows, and `NoDeduction` when none applies.
#[derive(Clone, Copy, Debug, PartialEq, Eq, Structural, Hash)]
pub enum Strategy {
    NoDeduction,
    LastDigit,
    ObviousSingle,
    HiddenSingle,
    ObviousPair,
    HiddenPair,
    PointingPair,
    XWing,
}

/// How hard a deduction is for a person; the single table both the rating
/// and any display use.
pub open spec fn weight(s: Strategy) -> int {
    match s {
        Strategy::NoDeduction => 0,
        Strategy::LastDigit => 4,
        Strategy::ObviousSingle => 5,
        Strategy::HiddenSingle => 14,
        Strategy::PointingPair => 50,
        Strategy::ObviousPair => 60,
        Strategy::HiddenPair => 70,
        Strategy::XWing => 140,
    }
}

/// The slot of a strategy in a ledger of eight counters.
pub open spec fn slot(s: Strategy) -> int {
    match s {
        Strategy::NoDeduction => 0,
        Strategy::LastDigit => 1,
        Strategy::ObviousSingle => 2,
        Strategy::HiddenSingle => 3,
        Strategy::ObviousPair => 4,
        Strategy::HiddenPair => 5,
        Strategy::PointingPair => 6,
        Strategy::XWing => 7,
    }
}

/// The strategy kept in a ledger slot.
pub open spec fn strategy_in_slot(i: int) -> Strategy {
    if i == 1 {
        Strategy::LastDigit
    } else if i == 2 {
        Strategy::ObviousSingle
    } else if i == 3 {
        Strategy::HiddenSingle
    } else if i == 4 {
        Strategy::ObviousPair
    } else if i == 5 {
        Strategy::HiddenPair
    } else if i == 6 {
        Strategy::PointingPair
    } else if i == 7 {
        Strategy::XWing
    } else {
        Strategy::NoDeduction
    }
}

pub open spec fn label(s: Strategy) -> Seq<char> {
    match s {
        Strategy::NoDeduction => "None"@,
        Strategy::LastDigit => "Last Digit"@,
        Strategy::ObviousSingle => "Obvious Single"@,
        Strategy::HiddenSingle => "Hidden Single"@,
        Strategy::PointingPair => "Pointing Pair"@,
        Strategy::ObviousPair => "Obvious Pair"@,
        Strategy::HiddenPair => "Hidden Pair"@,
        Strategy::XWing => "X-Wing"@,
    }
}

impl Strategy {
    /// The name shown to a person.
    pub fn to_string(&self) -> (r: &'static str)
        ensures
            r@ == label(*self),
    {
        match self {
            Strategy::NoDeduction => "None",
            Strategy::LastDigit => "Last Digit",
            Strategy::ObviousSingle => "Obvious Single",
            Strategy::HiddenSingle => "Hidden Single",
            Strategy::PointingPair => "Pointing Pair",
            Strategy::ObviousPair => "Obvious Pair",
            Strategy::HiddenPair => "Hidden Pair",
            Strategy::XWing => "X-Wing",
        }
    }

    /// The weight of the strategy in the difficulty score.
    pub fn difficulty(&self) -> (r: i32)
        ensures
            r as int == weight(*self),
    {
        match self {
            Strategy::NoDeduction => 0,
            Strategy::LastDigit => 4,
            Strategy::ObviousSingle => 5,
            Strategy::HiddenSingle => 14,
            Strategy::PointingPair => 50,
            Strategy::ObviousPair => 60,
            Strategy::HiddenPair => 70,
            Strategy::XWing => 140,
        }
    }

    /// The ledger slot of the strategy.
    pub fn slot(&self) -> (r: usize)
        ensures
            r as int == slot(*self),
            r < 8,
            strategy_in_slot(r as int) == *self,
    {
        match self {
            Strategy::NoDeduction => 0,
            Strategy::LastDigit => 1,
            Strategy::ObviousSingle => 2,
            Strategy::HiddenSingle => 3,
            Strategy::ObviousPair => 4,
            Strategy::HiddenPair => 5,
            Strategy::PointingPair => 6,
            Strategy::XWing => 7,
        }
    }

    /// The strategy kept in ledger slot `i`.
    pub fn from_slot(i: usize) -> (r: Strategy)
        requires
            i < 8,
        ensures
            r == strategy_in_slot(i as int),
            slot(r) == i as int,
    {
        if i == 1 {
            Strategy::LastDigit
        } else if i == 2 {
            Strategy::ObviousSingle
        } else if i == 3 {
            Strategy::HiddenSingle
        } else if i == 4 {
            Strategy::ObviousPair
        } else if i == 5 {
            Strategy::HiddenPair
        } else if i == 6 {
            Strategy::PointingPair
        } else if i == 7 {
            Strategy::XWing
        } else {
            Strategy::NoDeduction
        }
    }
}

} // verus!
