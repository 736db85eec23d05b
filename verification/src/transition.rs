//! The transition engine: a pure function computing one generation of the
//! carry-propagation rule.

use crate::state::{b2i, spec_from_digits, tail_at_back, CCAState, TritBitDomino};
use std::collections::VecDeque;
use vstd::prelude::*;

verus! {

/// The fixed seed cell a parity-set tail cell turns into: both carry
/// components set, parity clear, still tail.
pub open spec fn seed_cell() -> TritBitDomino {
    TritBitDomino { trit_bit: [true, true, false], is_tail: true }
}

/// Does the front-growth rule fire?  It does when either carry component
/// of the leftmost cell is set.
pub open spec fn front_grows(t: Seq<TritBitDomino>) -> bool {
    t[0].trit_bit[0] || t[0].trit_bit[1]
}

/// The cell prepended by the front-growth rule: the carry sum of the old
/// front's two carry components, split into a carry (sum at least 2) and a
/// parity (sum odd); tail only if the old front was a tail cell whose
/// parity bit was clear.
pub open spec fn front_cell(t: Seq<TritBitDomino>) -> TritBitDomino {
    let f = t[0];
    let s = b2i(f.trit_bit[0]) + b2i(f.trit_bit[1]);
    TritBitDomino {
        trit_bit: [s >= 2, false, s % 2 == 1],
        is_tail: f.is_tail && !f.trit_bit[2],
    }
}

/// The successor of the cell at position `i`, computed from pre-step
/// values only:
/// - a tail cell with its parity bit set becomes the seed cell;
/// - a tail cell with its parity bit clear is left unchanged;
/// - any other cell takes the 3-way carry-sum of its own parity bit and
///   its right neighbour's two carry components: one carry slot receives
///   (sum at least 2), the other inherits the old parity bit, and the
///   parity becomes (sum odd); it is tail exactly when the right neighbour
///   was a tail cell with a clear parity bit.
pub open spec fn next_cell(t: Seq<TritBitDomino>, i: int) -> TritBitDomino {
    let c = t[i];
    if c.is_tail {
        if c.trit_bit[2] {
            seed_cell()
        } else {
            c
        }
    } else {
        let r = t[i + 1];
        let s = b2i(c.trit_bit[2]) + b2i(r.trit_bit[0]) + b2i(r.trit_bit[1]);
        TritBitDomino {
            trit_bit: [s >= 2, c.trit_bit[2], s % 2 == 1],
            is_tail: r.is_tail && !r.trit_bit[2],
        }
    }
}

/// One generation of the automaton: every position is replaced by its
/// successor, all computed from pre-step values, and a new front cell is
/// prepended when the front-growth rule fires.  An empty sequence is left
/// unchanged.
pub open spec fn step_cells(t: Seq<TritBitDomino>) -> Seq<TritBitDomino> {
    if t.len() == 0 {
        t
    } else {
        let body = Seq::new(t.len(), |i: int| next_cell(t, i));
        if front_grows(t) {
            seq![front_cell(t)] + body
        } else {
            body
        }
    }
}

/// One transition step never shrinks the sequence: absent an explicit tail
/// flush, its length is monotone from one generation to the next.
pub proof fn lemma_step_length_monotone(t: Seq<TritBitDomino>)
    ensures
        step_cells(t).len() >= t.len(),
{
}

/// A step preserves the positional invariant: if the rightmost cell is
/// tail before the step, it is tail after it, and the sequence stays
/// nonempty.
pub proof fn lemma_step_preserves_tail_at_back(t: Seq<TritBitDomino>)
    requires
        tail_at_back(t),
    ensures
        tail_at_back(step_cells(t)),
        t.len() > 0 ==> step_cells(t).len() > 0,
{
    if t.len() > 0 {
        let body = Seq::new(t.len(), |i: int| next_cell(t, i));
        assert(step_cells(t).last() == body.last());
        assert(body.last() == next_cell(t, t.len() - 1));
    }
}

/// A freshly constructed cell sequence satisfies the positional
/// invariant: its last cell is the one marked tail.
pub proof fn lemma_from_digits_tail_at_back(s: Seq<char>)
    ensures
        tail_at_back(spec_from_digits(s)),
{
}

/// Computes one generation of the automaton as a pure function: the
/// result holds the stepped cells and the same initial string.
pub fn transition(state: &CCAState) -> (r: CCAState)
    requires
        tail_at_back(state.cells@),
    ensures
        r@.cells == step_cells(state.cells@),
        r@.init == state@.init,
{
    let ghost t = state.cells@;
    let n = state.cells.len();
    let mut new_cells: VecDeque<TritBitDomino> = VecDeque::new();
    if n == 0 {
        return CCAState { cells: new_cells, init_str: state.init_str.clone() };
    }
    let front = state.cells[0];
    let mut new_front: Option<TritBitDomino> = None;
    if front.trit_bit[0] || front.trit_bit[1] {
        let s: u8 = (if front.trit_bit[0] {
            1u8
        } else {
            0u8
        }) + (if front.trit_bit[1] {
            1u8
        } else {
            0u8
        });
        new_front = Some(
            TritBitDomino {
                trit_bit: [s >= 2, false, s % 2 == 1],
                is_tail: front.is_tail && !front.trit_bit[2],
            },
        );
        proof {
            assert(new_front == Some(front_cell(t)));
        }
    }
    let mut i: usize = 0;
    while i < n
        invariant
            i <= n,
            n == state.cells@.len(),
            t == state.cells@,
            tail_at_back(t),
            new_cells@ =~= Seq::new(i as nat, |j: int| next_cell(t, j)),
        decreases n - i,
    {
        let c = state.cells[i];
        let nc: TritBitDomino;
        if c.is_tail {
            if c.trit_bit[2] {
                nc = TritBitDomino { trit_bit: [true, true, false], is_tail: true };
            } else {
                nc = c;
            }
        } else {
            proof {
                assert(t.last().is_tail);
                assert(i < n - 1);
            }
            let r = state.cells[i + 1];
            let s: u8 = (if c.trit_bit[2] {
                1u8
            } else {
                0u8
            }) + (if r.trit_bit[0] {
                1u8
            } else {
                0u8
            }) + (if r.trit_bit[1] {
                1u8
            } else {
                0u8
            });
            nc = TritBitDomino {
                trit_bit: [s >= 2, c.trit_bit[2], s % 2 == 1],
                is_tail: r.is_tail && !r.trit_bit[2],
            };
        }
        new_cells.push_back(nc);
        i = i + 1;
    }
    if let Some(f) = new_front {
        new_cells.push_front(f);
    }
    proof {
        assert(new_cells@ =~= step_cells(t));
    }
    CCAState { cells: new_cells, init_str: state.init_str.clone() }
}

} // verus!
