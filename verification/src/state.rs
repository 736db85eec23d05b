//! Cells of the automaton, the digit codec, and the automaton state.

use std::collections::VecDeque;
use vstd::prelude::*;
use vstd::string::{StrSliceExecFns, StringExecFns};

verus! {

/// Errors of the digit codec and of state construction.
#[derive(Clone, Copy, Debug, PartialEq, Eq)]
pub enum CCAError {
    /// A raw numeric value outside `0..=5` was presented to the codec.
    InvalidDigit,
    /// A digit string contained a character outside `'0'`–`'5'`, or was empty.
    InvalidInput,
}

/// One cell of the automaton: two carry components and a parity bit
/// (`trit_bit[0]`, `trit_bit[1]`, `trit_bit[2]`), plus a flag marking
/// membership in the still-mutable tail of the sequence.
#[derive(Clone, Copy, Debug, PartialEq, Eq)]
pub struct TritBitDomino {
    /// Two carry components and one parity bit.
    pub trit_bit: [bool; 3],
    /// Is this cell part of the configuration's tail?
    pub is_tail: bool,
}

/// The numeric value of a boolean component.
pub open spec fn b2i(b: bool) -> int {
    if b {
        1
    } else {
        0
    }
}

/// The base-6 digit a cell stands for: twice each carry component plus the
/// parity bit.  Always lies in `0..6`.
pub open spec fn digit_of(c: TritBitDomino) -> int {
    2 * b2i(c.trit_bit[0]) + 2 * b2i(c.trit_bit[1]) + b2i(c.trit_bit[2])
}

/// The cell encoding a base-6 digit `d`: carry component 0 is set for 2, 4
/// and 5; carry component 1 for 3, 4 and 5; the parity bit for odd digits.
pub open spec fn spec_encode(d: int, tail: bool) -> TritBitDomino {
    TritBitDomino { trit_bit: [d >= 2 && d != 3, d >= 3, d % 2 == 1], is_tail: tail }
}

/// Is `c` one of the six base-6 digit characters?
pub open spec fn is_base6_char(c: char) -> bool {
    c == '0' || c == '1' || c == '2' || c == '3' || c == '4' || c == '5'
}

/// The digit value of a base-6 digit character.
pub open spec fn char_to_digit(c: char) -> int {
    if c == '0' {
        0
    } else if c == '1' {
        1
    } else if c == '2' {
        2
    } else if c == '3' {
        3
    } else if c == '4' {
        4
    } else {
        5
    }
}

/// The character for a digit in `0..6`.
pub open spec fn digit_to_char(d: int) -> char {
    if d == 0 {
        '0'
    } else if d == 1 {
        '1'
    } else if d == 2 {
        '2'
    } else if d == 3 {
        '3'
    } else if d == 4 {
        '4'
    } else {
        '5'
    }
}

impl TritBitDomino {
    /// Converts a trit bit domino to a base 6 digit character.
    pub fn to_base_6_digit(&self) -> (r: char)
        ensures
            r == digit_to_char(digit_of(*self)),
    {
        let d: u32 = 2 * (if self.trit_bit[0] {
            1u32
        } else {
            0u32
        }) + 2 * (if self.trit_bit[1] {
            1u32
        } else {
            0u32
        }) + (if self.trit_bit[2] {
            1u32
        } else {
            0u32
        });
        match d {
            0 => '0',
            1 => '1',
            2 => '2',
            3 => '3',
            4 => '4',
            _ => '5',
        }
    }

    /// Converts a base 6 digit to a trit bit domino; digits outside `0..=5`
    /// are rejected with `InvalidDigit`.
    pub fn from_base_6_digit(digit: u8, is_tail: bool) -> (r: Result<TritBitDomino, CCAError>)
        ensures
            digit < 6 <==> r is Ok,
            digit < 6 ==> r == Ok::<TritBitDomino, CCAError>(spec_encode(digit as int, is_tail)),
            digit >= 6 ==> r == Err::<TritBitDomino, CCAError>(CCAError::InvalidDigit),
    {
        if !(digit < 6) {
            return Err(CCAError::InvalidDigit);
        }
        let trit_carry: bool = digit >= 2 && digit != 3;
        let trit_sum: bool = digit >= 3;
        Ok(TritBitDomino { trit_bit: [trit_carry, trit_sum, digit % 2 != 0], is_tail })
    }
}

/// Encoding a base-6 digit and then decoding the resulting cell yields the
/// digit again, whatever the tail flag: the codec is a bijection over `0..6`.
/// The same holds one level up, between digits and their characters.
pub proof fn lemma_codec_round_trip(d: int, tail: bool)
    requires
        0 <= d < 6,
    ensures
        digit_of(spec_encode(d, tail)) == d,
        char_to_digit(digit_to_char(d)) == d,
{
}

/// The mathematical content of an automaton state: its cell sequence and
/// the digit string it was originally built from.
#[verifier::ext_equal]
pub struct StateModel {
    /// The cells, most significant digit first.
    pub cells: Seq<TritBitDomino>,
    /// The digit string the state was constructed from.
    pub init: Seq<char>,
}

/// Stores the automaton state: an ordered sequence of cells plus the
/// original base-6 digit string.
#[derive(Debug)]
pub struct CCAState {
    /// State representation.
    pub cells: VecDeque<TritBitDomino>,
    /// Initial configuration.
    pub init_str: String,
}

impl View for CCAState {
    type V = StateModel;

    open spec fn view(&self) -> StateModel {
        StateModel { cells: self.cells@, init: self.init_str@ }
    }
}

/// Does every character of `s` stand for a base-6 digit?
pub open spec fn valid_base6(s: Seq<char>) -> bool {
    forall|i: int| 0 <= i < s.len() ==> is_base6_char(#[trigger] s[i])
}

/// The cell sequence a digit string encodes to: each character becomes its
/// cell, and exactly the last cell is marked tail.
pub open spec fn spec_from_digits(s: Seq<char>) -> Seq<TritBitDomino> {
    Seq::new(s.len(), |i: int| spec_encode(char_to_digit(s[i]), i == s.len() - 1))
}

/// The digit string a cell sequence decodes to.
pub open spec fn spec_to_digits(t: Seq<TritBitDomino>) -> Seq<char> {
    Seq::new(t.len(), |i: int| digit_to_char(digit_of(t[i])))
}

/// The positional invariant of a state: if the sequence is nonempty, its
/// rightmost cell is tail, so every non-tail cell has a right neighbour.
pub open spec fn tail_at_back(t: Seq<TritBitDomino>) -> bool {
    t.len() > 0 ==> t.last().is_tail
}

/// May the tail be flushed?  Holds when some cell of the maximal tail
/// suffix at the back of the sequence has its parity bit set.
pub open spec fn can_flush(t: Seq<TritBitDomino>) -> bool {
    exists|i: int|
        0 <= i < t.len() && (#[trigger] t[i]).is_tail && t[i].trit_bit[2] && (forall|k: int|
            i < k < t.len() ==> (#[trigger] t[k]).is_tail)
}

/// The length the sequence keeps after a flush: trailing cells are dropped
/// while their parity bit is clear, stopping at the last set parity bit.
pub open spec fn flushed_len(t: Seq<TritBitDomino>) -> int
    decreases t.len(),
{
    if t.len() == 0 {
        0
    } else if t.last().trit_bit[2] {
        t.len() as int
    } else {
        flushed_len(t.drop_last())
    }
}

impl Clone for CCAState {
    /// Clones the state; the copy carries the same cells and the same
    /// initial string.
    fn clone(&self) -> (res: Self)
        ensures
            res@ == self@,
    {
        let cells = self.cells.clone();
        proof {
            assert(cells@ =~= self.cells@);
        }
        CCAState { cells, init_str: self.init_str.clone() }
    }
}

impl CCAState {
    /// Create a new CCAState from a base 6 string.  Succeeds exactly on
    /// nonempty strings of characters `'0'`–`'5'`; anything else is
    /// rejected with `InvalidInput`.
    pub fn from_str(base_6_str: &str) -> (r: Result<CCAState, CCAError>)
        ensures
            r is Ok <==> base_6_str@.len() > 0 && valid_base6(base_6_str@),
            r matches Ok(st) ==> st@.cells == spec_from_digits(base_6_str@) && st@.init
                == base_6_str@,
            r is Err ==> r == Err::<CCAState, CCAError>(CCAError::InvalidInput),
    {
        let n = base_6_str.unicode_len();
        if n == 0 || !CCAState::check_base_6(base_6_str) {
            return Err(CCAError::InvalidInput);
        }
        let mut cells: VecDeque<TritBitDomino> = VecDeque::new();
        let mut i: usize = 0;
        while i < n
            invariant
                i <= n,
                n == base_6_str@.len(),
                valid_base6(base_6_str@),
                cells@ =~= spec_from_digits(base_6_str@).take(i as int),
            decreases n - i,
        {
            let c = base_6_str.get_char(i);
            let tbd = match CCAState::b6_to_tbd(c) {
                Ok(tbd) => tbd,
                Err(_) => {
                    proof {
                        assert(is_base6_char(base_6_str@[i as int]));
                    }
                    vstd::pervasive::unreached()
                },
            };
            cells.push_back(TritBitDomino { trit_bit: tbd.trit_bit, is_tail: i == n - 1 });
            i = i + 1;
        }
        proof {
            assert(cells@ =~= spec_from_digits(base_6_str@));
        }
        Ok(CCAState { cells, init_str: base_6_str.to_owned() })
    }

    /// Reset state to the initial state: the cells are rebuilt from the
    /// stored digit string, with exactly the last cell marked tail.
    pub fn reset(&mut self)
        requires
            old(self).init_str@.len() > 0,
            valid_base6(old(self).init_str@),
        ensures
            final(self)@.cells == spec_from_digits(old(self).init_str@),
            final(self)@.init == old(self).init_str@,
    {
        let rebuilt = match CCAState::from_str(self.init_str.as_str()) {
            Ok(st) => st,
            Err(_) => vstd::pervasive::unreached(),
        };
        self.cells = rebuilt.cells;
    }

    /// Flushes cells on the tail: when some tail cell's parity bit is set,
    /// trailing cells with a clear parity bit are removed; otherwise the
    /// sequence is left unchanged.
    pub fn flush_tail(&mut self)
        ensures
            final(self).init_str == old(self).init_str,
            can_flush(old(self).cells@) ==> final(self).cells@ == old(self).cells@.take(
                flushed_len(old(self).cells@),
            ),
            !can_flush(old(self).cells@) ==> final(self).cells@ == old(self).cells@,
    {
        let ghost t = self.cells@;
        let mut can_flush_found = false;
        let mut scan_done = false;
        let n = self.cells.len();
        let mut j: usize = n;
        while !scan_done && j > 0
            invariant
                j <= n,
                n == self.cells@.len(),
                t == self.cells@,
                !scan_done ==> !can_flush_found && (forall|k: int|
                    j <= k < n ==> (#[trigger] t[k]).is_tail && !t[k].trit_bit[2]),
                scan_done ==> can_flush_found == can_flush(t),
                self.init_str == old(self).init_str,
            decreases j, (if scan_done {
                0int
            } else {
                1int
            }),
        {
            let tbd = &self.cells[j - 1];
            if !tbd.is_tail {
                proof {
                    lemma_no_flush_below(t, j - 1);
                }
                scan_done = true;
            } else if tbd.trit_bit[2] {
                proof {
                    assert((#[trigger] t[j - 1]).is_tail && t[j - 1].trit_bit[2] && (forall|k: int|
                        j - 1 < k < t.len() ==> (#[trigger] t[k]).is_tail));
                }
                can_flush_found = true;
                scan_done = true;
            } else {
                j = j - 1;
            }
        }
        proof {
            if !scan_done {
                lemma_no_flush_below(t, -1);
            }
        }
        if can_flush_found {
            proof {
                lemma_flushed_len_bounds(t);
                assert(self.cells@ =~= t.take(self.cells@.len() as int));
            }
            while self.cells.len() > 0 && !self.cells[self.cells.len() - 1].trit_bit[2]
                invariant
                    can_flush(t),
                    0 < flushed_len(t) <= self.cells@.len() <= t.len(),
                    self.cells@ == t.take(self.cells@.len() as int),
                    self.init_str == old(self).init_str,
                decreases self.cells@.len(),
            {
                proof {
                    lemma_flushed_len_bounds(t);
                    assert(t[self.cells@.len() - 1] == self.cells@[self.cells@.len() - 1]);
                    lemma_flushed_len_take(t, self.cells@.len() as int);
                }
                self.cells.pop_back();
                proof {
                    assert(self.cells@ =~= t.take(self.cells@.len() as int));
                }
            }
            proof {
                lemma_flushed_len_bounds(t);
                assert(t[self.cells@.len() - 1] == self.cells@[self.cells@.len() - 1]);
                lemma_flushed_len_last(t, self.cells@.len() as int);
            }
        }
    }

    /// Translate the current state to a base 6 string by decoding every
    /// cell in position order.
    pub fn to_str(&self) -> (r: String)
        ensures
            r@ == spec_to_digits(self.cells@),
    {
        let mut to_return: String = String::new();
        let n = self.cells.len();
        let mut i: usize = 0;
        while i < n
            invariant
                i <= n,
                n == self.cells@.len(),
                to_return@ =~= spec_to_digits(self.cells@).take(i as int),
            decreases n - i,
        {
            let c = self.cells[i].to_base_6_digit();
            let digit_str: &str = match c {
                '0' => "0",
                '1' => "1",
                '2' => "2",
                '3' => "3",
                '4' => "4",
                _ => "5",
            };
            proof {
                reveal_strlit("0");
                reveal_strlit("1");
                reveal_strlit("2");
                reveal_strlit("3");
                reveal_strlit("4");
                reveal_strlit("5");
            }
            to_return.append(digit_str);
            i = i + 1;
        }
        proof {
            assert(to_return@ =~= spec_to_digits(self.cells@));
        }
        to_return
    }

    /// Does the state satisfy the positional invariant — is the sequence
    /// empty, or its rightmost cell marked tail?  External drivers check
    /// this before asking for a transition step.
    pub fn has_tail_at_back(&self) -> (r: bool)
        ensures
            r == tail_at_back(self.cells@),
    {
        let n = self.cells.len();
        n == 0 || self.cells[n - 1].is_tail
    }

    /// Check if a given string is valid base 6.
    fn check_base_6(base_6_str: &str) -> (r: bool)
        ensures
            r == valid_base6(base_6_str@),
    {
        let n = base_6_str.unicode_len();
        let mut i: usize = 0;
        while i < n
            invariant
                i <= n,
                n == base_6_str@.len(),
                forall|k: int| 0 <= k < i ==> is_base6_char(#[trigger] base_6_str@[k]),
            decreases n - i,
        {
            let c = base_6_str.get_char(i);
            if !(c == '0' || c == '1' || c == '2' || c == '3' || c == '4' || c == '5') {
                return false;
            }
            i = i + 1;
        }
        true
    }

    /// Translate a base 6 digit character to a trit-bit domino (not marked
    /// tail); other characters are rejected with `InvalidDigit`.
    pub fn b6_to_tbd(char_base_6_digit: char) -> (r: Result<TritBitDomino, CCAError>)
        ensures
            r is Ok <==> is_base6_char(char_base_6_digit),
            is_base6_char(char_base_6_digit) ==> r == Ok::<TritBitDomino, CCAError>(
                spec_encode(char_to_digit(char_base_6_digit), false),
            ),
            !is_base6_char(char_base_6_digit) ==> r == Err::<TritBitDomino, CCAError>(
                CCAError::InvalidDigit,
            ),
    {
        let digit: u8 = if char_base_6_digit == '0' {
            0
        } else if char_base_6_digit == '1' {
            1
        } else if char_base_6_digit == '2' {
            2
        } else if char_base_6_digit == '3' {
            3
        } else if char_base_6_digit == '4' {
            4
        } else if char_base_6_digit == '5' {
            5
        } else {
            return Err(CCAError::InvalidDigit);
        };
        TritBitDomino::from_base_6_digit(digit, false)
    }
}

/// Round trip: the cell sequence built from a base-6 digit string decodes
/// back to exactly that string.
pub proof fn lemma_digits_round_trip(s: Seq<char>)
    requires
        valid_base6(s),
    ensures
        spec_to_digits(spec_from_digits(s)) == s,
{
    assert forall|i: int| 0 <= i < s.len() implies spec_to_digits(spec_from_digits(s))[i]
        == s[i] by {
        assert(is_base6_char(s[i]));
        lemma_codec_round_trip(char_to_digit(s[i]), i == s.len() - 1);
    }
    assert(spec_to_digits(spec_from_digits(s)) =~= s);
}

/// If every cell from position `below + 1` rightwards is tail with a clear
/// parity bit, and the cell at `below` (if any) is not tail, then no cell
/// witnesses `can_flush`.
proof fn lemma_no_flush_below(t: Seq<TritBitDomino>, below: int)
    requires
        below < t.len(),
        forall|k: int| below < k < t.len() ==> (#[trigger] t[k]).is_tail && !t[k].trit_bit[2],
        0 <= below ==> !t[below].is_tail,
    ensures
        !can_flush(t),
{
    assert forall|i: int|
        0 <= i < t.len() && (#[trigger] t[i]).is_tail && t[i].trit_bit[2] implies !(forall|k: int|
        i < k < t.len() ==> (#[trigger] t[k]).is_tail) by {
        if i > below {
            assert(!t[i].trit_bit[2]);
        } else {
            assert(below < t.len() && i < below < t.len());
            assert(!t[below].is_tail);
        }
    }
}

/// When the tail may be flushed, the flushed length is positive, at most
/// the full length, and the cell just below it has its parity bit set.
proof fn lemma_flushed_len_bounds(t: Seq<TritBitDomino>)
    requires
        can_flush(t),
    ensures
        0 < flushed_len(t) <= t.len(),
        t[flushed_len(t) - 1].trit_bit[2],
    decreases t.len(),
{
    let i = choose|i: int|
        0 <= i < t.len() && (#[trigger] t[i]).is_tail && t[i].trit_bit[2] && (forall|k: int|
            i < k < t.len() ==> (#[trigger] t[k]).is_tail);
    if t.last().trit_bit[2] {
    } else {
        let t2 = t.drop_last();
        assert(i < t.len() - 1);
        assert(t2[i] == t[i]);
        assert(forall|k: int| i < k < t2.len() ==> #[trigger] t2[k] == t[k]);
        assert(can_flush(t2));
        lemma_flushed_len_bounds(t2);
        assert(t2[flushed_len(t2) - 1] == t[flushed_len(t2) - 1]);
    }
}

/// On a prefix of `t` that still covers the flushed length and whose last
/// cell has a clear parity bit, the flushed length is unchanged.
proof fn lemma_flushed_len_take(t: Seq<TritBitDomino>, len: int)
    requires
        0 < flushed_len(t) <= len <= t.len(),
        !t[len - 1].trit_bit[2],
    ensures
        flushed_len(t.take(len)) == flushed_len(t),
        flushed_len(t) <= len - 1,
    decreases t.len(),
{
    if len == t.len() {
        assert(t.take(len) =~= t);
        assert(!t.last().trit_bit[2]);
        assert(flushed_len(t) == flushed_len(t.drop_last()));
        lemma_flushed_len_le(t.drop_last());
    } else {
        assert(t.take(len) =~= t.drop_last().take(len));
        if t.last().trit_bit[2] {
            assert(flushed_len(t) == t.len());
            assert(false);
        } else {
            lemma_flushed_len_take(t.drop_last(), len);
        }
    }
}

/// The flushed length never exceeds the length.
proof fn lemma_flushed_len_le(t: Seq<TritBitDomino>)
    ensures
        flushed_len(t) <= t.len(),
    decreases t.len(),
{
    if t.len() > 0 && !t.last().trit_bit[2] {
        lemma_flushed_len_le(t.drop_last());
    }
}

/// A prefix of `t` of exactly the flushed length, whose last cell has its
/// parity bit set, is the flush result: the flushed length of `t` equals
/// that prefix's length.
proof fn lemma_flushed_len_last(t: Seq<TritBitDomino>, len: int)
    requires
        0 < flushed_len(t) <= len <= t.len(),
        t[len - 1].trit_bit[2],
    ensures
        flushed_len(t) == len,
    decreases t.len(),
{
    if len == t.len() {
    } else {
        if t.last().trit_bit[2] {
        } else {
            lemma_flushed_len_last(t.drop_last(), len);
        }
    }
}

} // verus!
