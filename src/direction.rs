//! The order in which log entries are asked for and merged.
use vstd::prelude::*;
use vstd::string::*;

verus! {

/// `Forward` lists entries oldest first, `Backward` newest first.
#[derive(Clone, Copy, Debug, PartialEq, Eq, Structural)]
pub enum Direction {
    Forward,
    Backward,
}

impl Direction {
    /// The direction's name as the query API spells it.
    pub fn to_string(&self) -> (r: String)
        ensures
            r@ == (match *self {
                Direction::Forward => "forward"@,
                Direction::Backward => "backward"@,
            }),
    {
        match self {
            Direction::Forward => String::from_str("forward"),
            Direction::Backward => String::from_str("backward"),
        }
    }
}

/// The direction that a request without one gets: newest first.
pub open spec fn effective_direction(d: Option<Direction>) -> Direction {
    match d {
        Some(d) => d,
        None => Direction::Backward,
    }
}

/// The direction to use for `requested`, `Backward` where none was given.
pub fn direction_or_default(requested: Option<Direction>) -> (r: Direction)
    ensures
        r == effective_direction(requested),
{
    match requested {
        Some(d) => d,
        None => Direction::Backward,
    }
}

} // verus!
