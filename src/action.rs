use vstd::prelude::*;

verus! {

/// One of the four moves of the agent.
#[derive(Clone, Copy, Debug, PartialEq, Eq, Hash, Structural)]
pub enum Action {
    Up,
    Down,
    Left,
    Right,
}

/// The canonical enumeration order of the actions, which decides ties.
pub open spec fn action_at(i: int) -> Action {
    if i == 0 {
        Action::Up
    } else if i == 1 {
        Action::Down
    } else if i == 2 {
        Action::Left
    } else {
        Action::Right
    }
}

/// The code of an action in persisted records: its place in the canonical order.
pub open spec fn action_code(a: Action) -> u8 {
    match a {
        Action::Up => 0,
        Action::Down => 1,
        Action::Left => 2,
        Action::Right => 3,
    }
}

impl Action {
    /// The record code of this action.
    pub fn code(&self) -> (r: u8)
        ensures
            r == action_code(*self),
    {
        match self {
            Action::Up => 0,
            Action::Down => 1,
            Action::Left => 2,
            Action::Right => 3,
        }
    }

    /// The action with the given record code, if there is one.
    pub fn from_code(c: u8) -> (r: Option<Action>)
        ensures
            c < 4 <==> r is Some,
            r matches Some(a) ==> action_code(a) == c,
    {
        if c == 0 {
            Some(Action::Up)
        } else if c == 1 {
            Some(Action::Down)
        } else if c == 2 {
            Some(Action::Left)
        } else if c == 3 {
            Some(Action::Right)
        } else {
            None
        }
    }
}

} // verus!
