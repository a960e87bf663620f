use vstd::prelude::*;
use crate::board_fast::{after_move, lib_count, valid_move, FastBoard};
use crate::geometry::{Color, CELLS, EMPTY, PASS};

verus! {

/// Whether `color` playing at `idx` recreates a position that the game has already had.
pub open spec fn repeats_position(b: Board, color: Color, idx: int) -> bool {
    exists|k: int|
        0 <= k < b.positions@.len() && (#[trigger] b.positions@[k])@ == after_move(b.inner.cells@, color, idx)
}

/// Simulating a legal move gives the liberties that playing it gives: the count that
/// `FastBoard::get_num_liberties_if` reports for `color` at `index` on `before` equals
/// the count that `FastBoard::get_num_liberties` reports at `index` on `after`, the
/// board that `Board::play` leaves, where `index` then holds a stone.
pub proof fn lemma_simulation_matches_play(before: Board, color: Color, index: int, after: Board)
    requires
        before.wf(),
        0 <= index < CELLS,
        before.inner.cells@[index] == EMPTY,
        valid_move(before.inner.cells@, color, index),
        after.inner.cells@ == after_move(before.inner.cells@, color, index),
    ensures
        after.inner.cells@[index] == color.stone(),
        after.inner.cells@[index] != EMPTY,
        lib_count(after.inner.cells@, index) == lib_count(after_move(before.inner.cells@, color, index), index),
{
}

/// A game in progress: the stones, the moves played, the komi and every position
/// that the game has had.
pub struct Board {
    pub inner: FastBoard,
    /// The cells played, oldest first, with `PASS` for a pass.
    pub history: Vec<usize>,
    /// The komi, in half points.
    pub komi: i32,
    /// Every position of the game, oldest first, the current one last.
    pub positions: Vec<Vec<u8>>,
}

/// Whether two positions hold the same value in every cell.
fn same_position(a: &Vec<u8>, b: &Vec<u8>) -> (r: bool)
    ensures
        r == (a@ == b@),
{
    if a.len() != b.len() {
        return false;
    }
    let mut j: usize = 0;
    while j < a.len()
        invariant
            j <= a@.len(),
            a@.len() == b@.len(),
            forall|i: int| 0 <= i < j ==> a@[i] == b@[i],
        decreases a@.len() - j,
    {
        if a[j] != b[j] {
            return false;
        }
        j = j + 1;
    }
    assert(a@ =~= b@);
    true
}

impl Board {
    pub open spec fn wf(&self) -> bool {
        self.inner.wf()
    }

    /// Returns an empty board with the given komi, in half points.
    pub fn new(komi: i32) -> (r: Board)
        ensures
            r.wf(),
            forall|j: int| 0 <= j < CELLS ==> #[trigger] r.inner.cells@[j] == EMPTY,
            r.history@.len() == 0,
            r.komi == komi,
            r.positions@.len() == 1,
            r.positions@[0]@ == r.inner.cells@,
    {
        let inner = FastBoard::new();
        let mut positions: Vec<Vec<u8>> = Vec::new();
        positions.push(inner.cells.clone());
        Board { inner, history: Vec::new(), komi, positions }
    }

    /// Plays a stone of `color` at the empty cell `index`, removing what it captures.
    pub fn play(&mut self, color: Color, index: usize)
        requires
            old(self).wf(),
            index < CELLS,
            old(self).inner.cells@[index as int] == EMPTY,
        ensures
            final(self).wf(),
            final(self).inner.cells@ == after_move(old(self).inner.cells@, color, index as int),
            final(self).history@ == old(self).history@.push(index),
            final(self).positions@.len() == old(self).positions@.len() + 1,
            forall|k: int| 0 <= k < old(self).positions@.len() ==> #[trigger] final(self).positions@[k] == old(self).positions@[k],
            final(self).positions@.last()@ == final(self).inner.cells@,
            final(self).komi == old(self).komi,
    {
        let mut memo = self.inner.new_memo();
        let next = self.inner.play_on(color, index, &mut memo);
        self.positions.push(next.cells.clone());
        self.inner = next;
        self.history.push(index);
    }

    /// Records a pass.
    pub fn pass(&mut self)
        ensures
            final(self).inner == old(self).inner,
            final(self).history@ == old(self).history@.push(PASS),
            final(self).positions == old(self).positions,
            final(self).komi == old(self).komi,
    {
        self.history.push(PASS);
    }

    /// Whether `color` playing at the empty cell `index` is forbidden by positional
    /// superko: the position after the move is one that the game has already had.
    pub fn is_ko(&self, color: Color, index: usize) -> (r: bool)
        requires
            self.wf(),
            index < CELLS,
            self.inner.cells@[index as int] == EMPTY,
        ensures
            r == repeats_position(*self, color, index as int),
    {
        let mut memo = self.inner.new_memo();
        let next = self.inner.play_on(color, index, &mut memo);
        let mut k: usize = 0;
        while k < self.positions.len()
            invariant
                k <= self.positions@.len(),
                next.cells@ == after_move(self.inner.cells@, color, index as int),
                forall|i: int| 0 <= i < k ==> (#[trigger] self.positions@[i])@ != next.cells@,
            decreases self.positions@.len() - k,
        {
            if same_position(&self.positions[k], &next.cells) {
                return true;
            }
            k = k + 1;
        }
        false
    }
}

} // verus!
