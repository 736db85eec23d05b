//! Tests for the transition engine and the history manager.

use std::collections::VecDeque;
use visusix::state::CCAState;
use visusix::state_controller::CCAStateController;
use visusix::transition::transition;

#[test]
fn scenario_single_one() {
    // "1" is a single tail cell (carry0=false, carry1=false, parity=true).
    // One step fires the tail rule: the cell becomes the seed
    // (true, true, false), still tail; no front growth.
    let st = CCAState::from_str("1").unwrap();
    assert_eq!(st.cells.len(), 1);
    let c = st.cells[0];
    assert_eq!(c.trit_bit, [false, false, true]);
    assert!(c.is_tail);
    let mut ctl = CCAStateController::new(st);
    ctl.next();
    assert_eq!(ctl.state.cells.len(), 1);
    let c = ctl.state.cells[0];
    assert_eq!(c.trit_bit, [true, true, false]);
    assert!(c.is_tail);
    assert_eq!(ctl.state.to_str(), "4");
}

#[test]
fn scenario_single_five() {
    // "5" is a single tail cell (true, true, true).  One step replaces it
    // with the seed and fires the front-growth rule: a new leading cell
    // (true, false, false), not tail because the old front's parity bit
    // was set.
    let st = CCAState::from_str("5").unwrap();
    let c = st.cells[0];
    assert_eq!(c.trit_bit, [true, true, true]);
    assert!(c.is_tail);
    let mut ctl = CCAStateController::new(st);
    ctl.next();
    assert_eq!(ctl.state.cells.len(), 2);
    let front = ctl.state.cells[0];
    assert_eq!(front.trit_bit, [true, false, false]);
    assert!(!front.is_tail);
    let back = ctl.state.cells[1];
    assert_eq!(back.trit_bit, [true, true, false]);
    assert!(back.is_tail);
    assert_eq!(ctl.state.to_str(), "24");
}

#[test]
fn multi_step_traces() {
    let cases: [(&str, [&str; 6]); 3] = [
        ("1", ["4", "24", "124", "424", "2424", "12424"]),
        ("55", ["254", "1254", "4244", "21244", "104244", "324244"]),
        ("12345", ["41524", "205424", "1025124", "3123424", "13415424", "45054424"]),
    ];
    for (input, trace) in cases {
        let mut ctl = CCAStateController::new(CCAState::from_str(input).unwrap());
        for expected in trace {
            ctl.next();
            assert_eq!(ctl.state.to_str(), expected);
        }
    }
}

#[test]
fn transition_is_a_pure_step() {
    let st = CCAState::from_str("12345").unwrap();
    let next = transition(&st);
    assert_eq!(next.to_str(), "41524");
    assert_eq!(next.init_str, "12345");
    // the operand is untouched
    assert_eq!(st.to_str(), "12345");
}

#[test]
fn replay_is_deterministic() {
    // step_forward(); step_back(); step_forward() reaches the very same
    // snapshot as the single step_forward().
    let mut ctl = CCAStateController::new(CCAState::from_str("12345").unwrap());
    ctl.next();
    let digits_once = ctl.state.to_str();
    let cells_once = ctl.state.cells.clone();
    let index_once = ctl.memory_index;
    let remembered_once = ctl.memory_states.len();
    ctl.last();
    ctl.next();
    assert_eq!(ctl.state.to_str(), digits_once);
    assert_eq!(ctl.state.cells, cells_once);
    assert_eq!(ctl.memory_index, index_once);
    assert_eq!(ctl.memory_states.len(), remembered_once);
}

#[test]
fn redo_replays_from_cache() {
    let mut ctl = CCAStateController::new(CCAState::from_str("12345").unwrap());
    ctl.next();
    ctl.next();
    let remembered = ctl.memory_states.len();
    ctl.last();
    ctl.last();
    assert_eq!(ctl.memory_index, 0);
    assert_eq!(ctl.state.to_str(), "12345");
    ctl.next();
    assert_eq!(ctl.state.to_str(), "41524");
    ctl.next();
    assert_eq!(ctl.state.to_str(), "205424");
    // replay appends nothing new
    assert_eq!(ctl.memory_states.len(), remembered);
}

#[test]
fn step_back_at_cursor_zero_is_noop() {
    let mut ctl = CCAStateController::new(CCAState::from_str("305").unwrap());
    ctl.last();
    assert_eq!(ctl.memory_index, 0);
    assert_eq!(ctl.memory_states.len(), 1);
    assert_eq!(ctl.state.to_str(), "305");
}

#[test]
fn step_forward_on_empty_sequence_is_noop() {
    let empty = CCAState { cells: VecDeque::new(), init_str: String::new() };
    let mut ctl = CCAStateController::new(empty);
    ctl.next();
    assert_eq!(ctl.memory_index, 0);
    assert_eq!(ctl.memory_states.len(), 1);
    assert_eq!(ctl.state.cells.len(), 0);
    assert_eq!(ctl.state.to_str(), "");
}

#[test]
fn sequence_length_never_shrinks_without_flush() {
    let mut ctl = CCAStateController::new(CCAState::from_str("4210").unwrap());
    let mut len = ctl.state.cells.len();
    for _ in 0..12 {
        ctl.next();
        let new_len = ctl.state.cells.len();
        assert!(new_len >= len);
        len = new_len;
    }
}

#[test]
fn new_controller_remembers_the_initial_snapshot() {
    let ctl = CCAStateController::new(CCAState::from_str("123").unwrap());
    assert_eq!(ctl.memory_index, 0);
    assert_eq!(ctl.memory_states.len(), 1);
    assert_eq!(ctl.memory_states[0].to_str(), "123");
    assert_eq!(ctl.state.to_str(), "123");
}

#[test]
fn reset_rebuilds_only_the_displayed_state() {
    // The reset command rebuilds the displayed state from the stored
    // string but leaves the remembered snapshots and the cursor alone, so
    // navigation afterwards resumes from the cached history.
    let mut ctl = CCAStateController::new(CCAState::from_str("12345").unwrap());
    ctl.next();
    ctl.next();
    ctl.state.reset();
    assert_eq!(ctl.state.to_str(), "12345");
    assert_eq!(ctl.memory_index, 2);
    assert_eq!(ctl.memory_states.len(), 3);
    ctl.last();
    assert_eq!(ctl.state.to_str(), "41524");
}
