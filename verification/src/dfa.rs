//! An illustrative finite-automaton tracker for the tokenizer: states for
//! the scanner's modes and a record of the transitions taken.  It is purely
//! descriptive; the tokenizer does not run on it.

use vstd::prelude::*;

verus! {

use crate::lexer::is_space;
use crate::lexer::ws_char;
use vstd::string::StringExecFns;

/// A state of the tokenizer's automaton.
#[derive(Clone, Copy, Debug, PartialEq, Eq, Structural)]
pub enum DFAState {
    /// The scanner is between tokens.
    Start,
    /// Reading an identifier or keyword.
    InIdent,
    /// Reading a number.
    InNumber,
    /// Reading a string literal.
    InString,
    /// Reading an operator.
    InOperator,
    /// A token is complete.
    Accept,
}

/// The display name of each state.
pub open spec fn state_name(s: DFAState) -> Seq<char> {
    match s {
        DFAState::Start => "q0:Start"@,
        DFAState::InIdent => "q1:Ident"@,
        DFAState::InNumber => "q2:Number"@,
        DFAState::InString => "q3:String"@,
        DFAState::InOperator => "q4:Operator"@,
        DFAState::Accept => "qf:Accept"@,
    }
}

impl DFAState {
    /// The state's display name.
    pub fn name(&self) -> (r: &'static str)
        ensures
            r@ == state_name(*self),
    {
        match self {
            DFAState::Start => "q0:Start",
            DFAState::InIdent => "q1:Ident",
            DFAState::InNumber => "q2:Number",
            DFAState::InString => "q3:String",
            DFAState::InOperator => "q4:Operator",
            DFAState::Accept => "qf:Accept",
        }
    }
}

/// One recorded transition: the states around it and the input character's
/// display text.
#[derive(Debug)]
pub struct DFATransition {
    pub from: DFAState,
    pub input: String,
    pub to: DFAState,
}

/// The mathematical shape of a transition.
pub struct DFATransitionV {
    pub from: DFAState,
    pub input: Seq<char>,
    pub to: DFAState,
}

impl View for DFATransition {
    type V = DFATransitionV;

    open spec fn view(&self) -> DFATransitionV {
        DFATransitionV { from: self.from, input: self.input@, to: self.to }
    }
}

impl DeepView for DFATransition {
    type V = DFATransitionV;

    open spec fn deep_view(&self) -> DFATransitionV {
        self.view()
    }
}

/// The display text recorded for an input character: `ws` for whitespace,
/// the character itself otherwise.
pub open spec fn input_text(c: char) -> Seq<char> {
    if is_space(c) {
        "ws"@
    } else {
        seq![c]
    }
}

/// The transition recorder.
pub struct DFATracker {
    pub transitions: Vec<DFATransition>,
    pub current_state: DFAState,
}

/// Relies on `char::to_string` (via `ToString`): the one-character string
/// of the given character.
#[verifier::external_body]
fn char_to_string(c: char) -> (r: String)
    ensures
        r@ == seq![c],
{
    c.to_string()
}

impl DFATracker {
    /// A fresh tracker: no transitions, at the start state.
    pub fn new() -> (t: DFATracker)
        ensures
            t.transitions@.len() == 0,
            t.current_state == DFAState::Start,
    {
        DFATracker { transitions: Vec::new(), current_state: DFAState::Start }
    }

    /// Records one transition on `input` and moves to `to`.
    pub fn transition(&mut self, input: char, to: DFAState)
        ensures
            final(self).transitions.deep_view() == old(self).transitions.deep_view().push(
                DFATransitionV {
                    from: old(self).current_state,
                    input: input_text(input),
                    to,
                },
            ),
            final(self).current_state == to,
    {
        let text = if ws_char(input) {
            let w = String::from_str("ws");
            w
        } else {
            char_to_string(input)
        };
        let t = DFATransition { from: self.current_state, input: text, to };
        proof {
            assert(self.transitions.deep_view().push(t@) =~= old(
                self,
            ).transitions.deep_view().push(t@));
        }
        self.transitions.push(t);
        self.current_state = to;
        proof {
            assert(self.transitions.deep_view() =~= old(self).transitions.deep_view().push(
                DFATransitionV {
                    from: old(self).current_state,
                    input: input_text(input),
                    to,
                },
            ));
        }
    }

    /// Returns to the start state, keeping the record.
    pub fn reset(&mut self)
        ensures
            final(self).transitions == old(self).transitions,
            final(self).current_state == DFAState::Start,
    {
        self.current_state = DFAState::Start;
    }
}

} // verus!
