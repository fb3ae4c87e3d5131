//! The integer part of the model encodings: how an action is spelled for a
//! learned model. The float tensors themselves are built around the library.

use vstd::prelude::*;

use crate::rules::Action;

verus! {

/// An action as a model reads it: kind 0 places on `to` (with `from` 0),
/// kind 1 relocates from `from` to `to`.
#[derive(Clone, Copy, Debug, PartialEq, Eq, Structural)]
pub struct ActionSpec {
    pub kind: u8,
    pub from: u8,
    pub to: u8,
}

pub open spec fn action_spec(action: Action) -> ActionSpec {
    match action {
        Action::Place { to } => ActionSpec { kind: 0, from: 0, to },
        Action::Relocate { from, to } => ActionSpec { kind: 1, from, to },
    }
}

impl From<Action> for ActionSpec {
    fn from(action: Action) -> (r: Self) {
        match action {
            Action::Place { to } => ActionSpec { kind: 0, from: 0, to },
            Action::Relocate { from, to } => ActionSpec { kind: 1, from, to },
        }
    }
}

impl vstd::std_specs::convert::FromSpecImpl<Action> for ActionSpec {
    open spec fn obeys_from_spec() -> bool {
        true
    }

    open spec fn from_spec(v: Action) -> Self {
        action_spec(v)
    }
}

/// Distinct actions are spelled differently.
pub proof fn law_action_spec_injective(a: Action, b: Action)
    requires
        action_spec(a) == action_spec(b),
    ensures
        a == b,
{
}

} // verus!
