//! Tests for automaton state construction, serialization, reset and
//! tail flushing.

use std::collections::VecDeque;
use visusix::state::{CCAError, CCAState};
use visusix::transition::transition;

#[test]
fn from_str_to_str_round_trip() {
    for s in ["0", "5", "12345", "505", "000", "54321012345"] {
        let st = CCAState::from_str(s).unwrap();
        assert_eq!(st.to_str(), s);
        assert_eq!(st.init_str, s);
    }
}

#[test]
fn from_str_marks_exactly_last_cell_tail() {
    let st = CCAState::from_str("12345").unwrap();
    assert_eq!(st.cells.len(), 5);
    for (i, cell) in st.cells.iter().enumerate() {
        assert_eq!(cell.is_tail, i == 4);
    }
}

#[test]
fn from_str_rejects_invalid_strings() {
    for s in ["12a45", "6789", "12 45", "-1", "123456789"] {
        assert!(matches!(CCAState::from_str(s), Err(CCAError::InvalidInput)));
    }
}

#[test]
fn from_str_rejects_empty_string() {
    assert!(matches!(CCAState::from_str(""), Err(CCAError::InvalidInput)));
}

#[test]
fn to_str_of_empty_state() {
    let st = CCAState { cells: VecDeque::new(), init_str: String::new() };
    assert_eq!(st.to_str(), "");
}

#[test]
fn reset_restores_initial_configuration() {
    let mut st = CCAState::from_str("12345").unwrap();
    st = transition(&st);
    st = transition(&st);
    assert_ne!(st.to_str(), "12345");
    st.reset();
    assert_eq!(st.to_str(), "12345");
    assert_eq!(st.init_str, "12345");
    for (i, cell) in st.cells.iter().enumerate() {
        assert_eq!(cell.is_tail, i == 4);
    }
}

#[test]
fn flush_tail_trims_trailing_even_parity_cells() {
    // After three generations from "12345" the tail suffix decodes to
    // "124": the flush stops at the parity-set cell for '1' and drops the
    // trailing '2' and '4'.
    let mut st = CCAState::from_str("12345").unwrap();
    for _ in 0..3 {
        st = transition(&st);
    }
    assert_eq!(st.to_str(), "1025124");
    let tails: Vec<bool> = st.cells.iter().map(|c| c.is_tail).collect();
    assert_eq!(tails, [false, false, false, false, true, true, true]);
    st.flush_tail();
    assert_eq!(st.to_str(), "10251");
}

#[test]
fn flush_tail_without_parity_set_tail_is_noop() {
    // After four generations from "5" every cell is tail and every parity
    // bit is clear: nothing may be flushed.
    let mut st = CCAState::from_str("5").unwrap();
    for _ in 0..4 {
        st = transition(&st);
    }
    assert_eq!(st.to_str(), "2424");
    assert!(st.cells.iter().all(|c| c.is_tail));
    st.flush_tail();
    assert_eq!(st.to_str(), "2424");
}

#[test]
fn flush_tail_on_fresh_state_with_clear_parity_tail_is_noop() {
    let mut st = CCAState::from_str("120").unwrap();
    st.flush_tail();
    assert_eq!(st.to_str(), "120");
}

#[test]
fn flush_tail_stops_at_parity_set_tail_cell() {
    let mut st = CCAState::from_str("121").unwrap();
    st.flush_tail();
    assert_eq!(st.to_str(), "121");
}

#[test]
fn has_tail_at_back_reports_the_positional_invariant() {
    let st = CCAState::from_str("44").unwrap();
    assert!(st.has_tail_at_back());
    let empty = CCAState { cells: VecDeque::new(), init_str: String::new() };
    assert!(empty.has_tail_at_back());
    let mut broken = CCAState::from_str("44").unwrap();
    broken.cells.back_mut().unwrap().is_tail = false;
    assert!(!broken.has_tail_at_back());
}

#[test]
fn clone_copies_cells_and_initial_string() {
    let st = CCAState::from_str("304").unwrap();
    let copy = st.clone();
    assert_eq!(copy.to_str(), "304");
    assert_eq!(copy.init_str, st.init_str);
    assert_eq!(copy.cells, st.cells);
}
