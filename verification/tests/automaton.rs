use csv_ql::dfa::{DFAState, DFATracker};

#[test]
fn state_names() {
    assert_eq!(DFAState::Start.name(), "q0:Start");
    assert_eq!(DFAState::InIdent.name(), "q1:Ident");
    assert_eq!(DFAState::InNumber.name(), "q2:Number");
    assert_eq!(DFAState::InString.name(), "q3:String");
    assert_eq!(DFAState::InOperator.name(), "q4:Operator");
    assert_eq!(DFAState::Accept.name(), "qf:Accept");
}

#[test]
fn tracker_records_transitions() {
    let mut tracker = DFATracker::new();
    assert_eq!(tracker.current_state, DFAState::Start);
    assert!(tracker.transitions.is_empty());

    tracker.transition('s', DFAState::InIdent);
    tracker.transition(' ', DFAState::Accept);
    assert_eq!(tracker.transitions.len(), 2);
    assert_eq!(tracker.transitions[0].from, DFAState::Start);
    assert_eq!(tracker.transitions[0].input, "s");
    assert_eq!(tracker.transitions[0].to, DFAState::InIdent);
    assert_eq!(tracker.transitions[1].from, DFAState::InIdent);
    assert_eq!(tracker.transitions[1].input, "ws");
    assert_eq!(tracker.transitions[1].to, DFAState::Accept);
    assert_eq!(tracker.current_state, DFAState::Accept);
}

#[test]
fn reset_keeps_the_record() {
    let mut tracker = DFATracker::new();
    tracker.transition('1', DFAState::InNumber);
    tracker.reset();
    assert_eq!(tracker.current_state, DFAState::Start);
    assert_eq!(tracker.transitions.len(), 1);
}
