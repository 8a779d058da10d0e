use vstd::prelude::*;

verus! {

/// Classification of a cell.
#[derive(PartialEq, Eq, Structural, Clone, Copy, Debug)]
pub enum State {
    Unknown,
    White,
    Black,
    /// A clue cell, holding the size of its island.
    Island(i32),
}

/// The display code of a classification.
pub open spec fn state_code(s: State) -> i32 {
    match s {
        State::Unknown => -3i32,
        State::White => -2i32,
        State::Black => -1i32,
        State::Island(x) => x,
    }
}

impl State {
    /// Reads an input value: positive values are clues, all others unknown.
    pub fn new(val: i32) -> (r: Self)
        ensures
            r == (if val <= 0 { State::Unknown } else { State::Island(val) }),
    {
        if val <= 0 {
            State::Unknown
        } else {
            State::Island(val)
        }
    }

    pub open spec fn is_known(&self) -> bool {
        !(self is Unknown)
    }

    /// White or part of an island: not sea.
    pub open spec fn is_whiteish(&self) -> bool {
        self is White || self is Island
    }
}

impl From<State> for i32 {
    fn from(val: State) -> (r: i32) {
        match val {
            State::Unknown => -3i32,
            State::White => -2i32,
            State::Black => -1i32,
            State::Island(x) => x,
        }
    }
}

impl vstd::std_specs::convert::FromSpecImpl<State> for i32 {
    open spec fn obeys_from_spec() -> bool {
        true
    }

    open spec fn from_spec(v: State) -> i32 {
        state_code(v)
    }
}

} // verus!
