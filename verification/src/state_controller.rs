//! The history manager: an append-only log of generations with a movable
//! cursor, driving the transition engine on demand.

use crate::state::{tail_at_back, CCAState, StateModel};
use crate::transition::{lemma_step_length_monotone, step_cells, transition};
use vstd::prelude::*;

verus! {

/// The mathematical content of a controller: the remembered generations,
/// the cursor into them, and the currently displayed state.
#[verifier::ext_equal]
pub struct ControllerModel {
    /// The snapshots recorded so far, oldest first.
    pub memory: Seq<StateModel>,
    /// The cursor: which snapshot is currently displayed.
    pub index: int,
    /// The currently displayed state.
    pub state: StateModel,
}

impl ControllerModel {
    /// Well-formedness: the cursor points into the memory, at the snapshot
    /// the displayed state equals.
    pub open spec fn wf(self) -> bool {
        &&& 0 <= self.index < self.memory.len()
        &&& self.state == self.memory[self.index]
    }

    /// Every adjacent pair of remembered snapshots is related by the
    /// transition engine, and all share the same initial string.
    pub open spec fn history_consistent(self) -> bool {
        forall|i: int|
            0 <= i < self.memory.len() - 1 ==> (#[trigger] self.memory[i + 1]).cells == step_cells(
                self.memory[i].cells,
            ) && self.memory[i + 1].init == self.memory[i].init
    }
}

/// One step forward through the history: an already remembered successor
/// is replayed from the cache; otherwise, unless the displayed sequence is
/// empty, the transition engine computes the next generation, which is
/// appended and displayed.
pub open spec fn model_next(m: ControllerModel) -> ControllerModel {
    if m.index + 1 < m.memory.len() {
        ControllerModel { memory: m.memory, index: m.index + 1, state: m.memory[m.index + 1] }
    } else if m.state.cells.len() == 0 {
        m
    } else {
        let stepped = StateModel { cells: step_cells(m.state.cells), init: m.state.init };
        ControllerModel { memory: m.memory.push(stepped), index: m.index + 1, state: stepped }
    }
}

/// One step backward through the history: at cursor 0 nothing happens;
/// otherwise the cursor moves back and the cached snapshot is displayed.
pub open spec fn model_last(m: ControllerModel) -> ControllerModel {
    if m.index == 0 {
        m
    } else {
        ControllerModel { memory: m.memory, index: m.index - 1, state: m.memory[m.index - 1] }
    }
}

/// Handles commands for the automaton: owns the displayed state and the
/// memory of all generations it went through.
pub struct CCAStateController {
    /// Stores the automaton state currently displayed.
    pub state: CCAState,
    /// Memorizes all states the automaton went through.
    pub memory_states: Vec<CCAState>,
    /// Where we are in `memory_states`.
    pub memory_index: usize,
}

impl View for CCAStateController {
    type V = ControllerModel;

    open spec fn view(&self) -> ControllerModel {
        ControllerModel {
            memory: Seq::new(self.memory_states@.len(), |i: int| self.memory_states@[i]@),
            index: self.memory_index as int,
            state: self.state@,
        }
    }
}

impl CCAStateController {
    /// Creates a new state controller displaying `state`, with a history
    /// holding that single snapshot and the cursor on it.
    pub fn new(state: CCAState) -> (r: CCAStateController)
        ensures
            r@.memory =~= seq![state@],
            r@.index == 0,
            r@.state == state@,
            r@.wf(),
            r@.history_consistent(),
    {
        let state_clone = state.clone();
        let mut memory_states: Vec<CCAState> = Vec::new();
        memory_states.push(state_clone);
        CCAStateController { state, memory_states, memory_index: 0 }
    }

    /// Set the state back to the previous remembered state; at cursor 0
    /// this is a no-op.
    pub fn last(&mut self)
        requires
            old(self).memory_index > 0 ==> old(self).memory_index - 1 < old(
                self,
            ).memory_states@.len(),
        ensures
            final(self)@ == model_last(old(self)@),
            old(self).memory_index == 0 ==> *final(self) == *old(self),
    {
        if self.memory_index == 0 {
            return ;
        }
        self.memory_index = self.memory_index - 1;
        self.state = self.memory_states[self.memory_index].clone();
        proof {
            assert(self@.memory =~= old(self)@.memory);
            assert(self@ =~= model_last(old(self)@));
        }
    }

    /// Runs one step of the automaton: replays the cached successor when
    /// one is remembered; otherwise, unless the displayed sequence is
    /// empty, computes the next generation, appends it to the memory and
    /// advances the cursor to it.
    pub fn next(&mut self)
        requires
            old(self).memory_index < old(self).memory_states@.len(),
            old(self).memory_index + 1 == old(self).memory_states@.len() ==> tail_at_back(
                old(self).state.cells@,
            ),
        ensures
            final(self)@ == model_next(old(self)@),
            old(self).memory_index + 1 == old(self).memory_states@.len() && old(
                self,
            ).state.cells@.len() == 0 ==> *final(self) == *old(self),
    {
        let mem_len = self.memory_states.len();
        if self.memory_index + 1 < mem_len {
            self.memory_index = self.memory_index + 1;
            self.state = self.memory_states[self.memory_index].clone();
            proof {
                assert(self@.memory =~= old(self)@.memory);
                assert(self@ =~= model_next(old(self)@));
            }
            return ;
        }
        if self.state.cells.len() == 0 {
            return ;
        }
        self.state = transition(&self.state);
        self.memory_states.push(self.state.clone());
        self.memory_index = self.memory_index + 1;
        proof {
            assert(self@.memory =~= old(self)@.memory.push(self@.state));
            assert(self@ =~= model_next(old(self)@));
        }
    }
}

/// Determinism of replay: from a well-formed controller, stepping forward,
/// then back, then forward again lands on exactly the same model as the
/// single forward step — the replayed snapshot is the remembered one, with
/// no recomputation drift.
pub proof fn lemma_replay_deterministic(m: ControllerModel)
    requires
        m.wf(),
    ensures
        model_next(model_last(model_next(m))) == model_next(m),
{
    let m1 = model_next(m);
    let m2 = model_last(m1);
    if m.index + 1 < m.memory.len() {
        assert(model_next(m2) =~= m1);
    } else if m.state.cells.len() == 0 {
        assert(model_next(m2) =~= m1);
    } else {
        assert(m1.memory[m.index] == m.memory[m.index]);
        assert(model_next(m2) =~= m1);
    }
}

/// Stepping in either direction preserves well-formedness of the model.
pub proof fn lemma_navigation_preserves_wf(m: ControllerModel)
    requires
        m.wf(),
    ensures
        model_next(m).wf(),
        model_last(m).wf(),
{
}

/// Length monotonicity across a forward step: absent an explicit tail
/// flush, the displayed sequence after stepping forward is never shorter
/// than before, whether the step was computed or replayed from the cache.
pub proof fn lemma_next_length_monotone(m: ControllerModel)
    requires
        m.wf(),
        m.history_consistent(),
    ensures
        model_next(m).state.cells.len() >= m.state.cells.len(),
{
    if m.index + 1 < m.memory.len() {
        assert(m.memory[m.index + 1].cells == step_cells(m.memory[m.index].cells));
        lemma_step_length_monotone(m.memory[m.index].cells);
    } else if m.state.cells.len() == 0 {
    } else {
        lemma_step_length_monotone(m.state.cells);
    }
}

/// Stepping forward preserves history consistency: every adjacent pair of
/// remembered snapshots stays related by the transition engine.  Stepping
/// backward leaves the memory untouched.
pub proof fn lemma_navigation_preserves_history(m: ControllerModel)
    requires
        m.wf(),
        m.history_consistent(),
    ensures
        model_next(m).history_consistent(),
        model_last(m).history_consistent(),
{
    let m1 = model_next(m);
    assert forall|i: int| 0 <= i < m1.memory.len() - 1 implies (#[trigger] m1.memory[i + 1]).cells
        == step_cells(m1.memory[i].cells) && m1.memory[i + 1].init == m1.memory[i].init by {
        if i < m.memory.len() - 1 {
            assert(m.memory[i + 1].cells == step_cells(m.memory[i].cells));
        }
    }
}

} // verus!
