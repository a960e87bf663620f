use vstd::prelude::*;
use vstd::set_lib::{set_int_range, lemma_int_range, lemma_len_subset};
use crate::geometry::{adjacent, adjacent_to, Color, CELLS, EMPTY, WHITE};

verus! {

/// A sequence of orthogonally connected cells that all hold the value of its first cell.
pub open spec fn is_path(cells: Seq<u8>, p: Seq<int>) -> bool {
    &&& p.len() >= 1
    &&& forall|k: int| 0 <= k < p.len() ==> 0 <= #[trigger] p[k] < CELLS && cells[p[k]] == cells[p[0]]
    &&& forall|k: int| 0 <= k < p.len() - 1 ==> adjacent(#[trigger] p[k], p[k + 1])
}

/// Whether `j` belongs to the block of `s`: the cells reachable from `s` through
/// orthogonal steps over cells of the same value.
pub open spec fn in_block(cells: Seq<u8>, s: int, j: int) -> bool {
    exists|p: Seq<int>| #[trigger] is_path(cells, p) && p[0] == s && p.last() == j
}

/// Whether `j` is a liberty of the block of `s`: an empty cell next to one of its cells.
pub open spec fn is_liberty(cells: Seq<u8>, s: int, j: int) -> bool {
    &&& 0 <= j < CELLS
    &&& cells[j] == EMPTY
    &&& exists|n: int| adjacent(j, n) && #[trigger] in_block(cells, s, n)
}

/// The number of liberties of the block of `s` among the cells below `k`.
pub open spec fn liberties_below(cells: Seq<u8>, s: int, k: int) -> nat
    decreases k,
{
    if k <= 0 {
        0
    } else {
        liberties_below(cells, s, k - 1) + if is_liberty(cells, s, k - 1) { 1nat } else { 0nat }
    }
}

/// The number of distinct liberties of the block of `s`.
pub open spec fn lib_count(cells: Seq<u8>, s: int) -> nat {
    liberties_below(cells, s, CELLS as int)
}

/// Whether every cell value is empty, black or white.
pub open spec fn cells_wf(cells: Seq<u8>) -> bool {
    &&& cells.len() == CELLS
    &&& forall|j: int| 0 <= j < CELLS ==> #[trigger] cells[j] <= WHITE
}

proof fn lemma_adjacent_symmetric(i: int, j: int)
    ensures
        adjacent(i, j) == adjacent(j, i),
{
}

proof fn lemma_path_extend(cells: Seq<u8>, p: Seq<int>, j: int)
    requires
        is_path(cells, p),
        adjacent(p.last(), j),
        cells[j] == cells[p[0]],
    ensures
        is_path(cells, p.push(j)),
        p.push(j)[0] == p[0],
        p.push(j).last() == j,
{
    let q = p.push(j);
    assert forall|k: int| 0 <= k < q.len() - 1 implies adjacent(#[trigger] q[k], q[k + 1]) by {
        if k < p.len() - 1 {
            assert(q[k] == p[k] && q[k + 1] == p[k + 1]);
        }
    }
    assert forall|k: int| 0 <= k < q.len() implies 0 <= #[trigger] q[k] < CELLS && cells[q[k]] == cells[q[0]] by {
        if k < p.len() {
            assert(q[k] == p[k]);
        }
    }
}

proof fn lemma_path_reverse(cells: Seq<u8>, p: Seq<int>)
    requires
        is_path(cells, p),
    ensures
        is_path(cells, p.reverse()),
        p.reverse()[0] == p.last(),
        p.reverse().last() == p[0],
{
    let q = p.reverse();
    let n = p.len();
    assert(cells[p[n - 1]] == cells[p[0]]);
    assert forall|k: int| 0 <= k < q.len() implies 0 <= #[trigger] q[k] < CELLS && cells[q[k]] == cells[q[0]] by {
        assert(q[k] == p[n - 1 - k]);
        assert(cells[p[n - 1 - k]] == cells[p[0]]);
    }
    assert forall|k: int| 0 <= k < q.len() - 1 implies adjacent(#[trigger] q[k], q[k + 1]) by {
        assert(q[k] == p[n - 1 - k]);
        assert(q[k + 1] == p[n - 2 - k]);
        assert(adjacent(p[n - 2 - k], p[n - 1 - k]));
        lemma_adjacent_symmetric(p[n - 2 - k], p[n - 1 - k]);
    }
}

proof fn lemma_path_concat(cells: Seq<u8>, p: Seq<int>, q: Seq<int>)
    requires
        is_path(cells, p),
        is_path(cells, q),
        p.last() == q[0],
    ensures
        is_path(cells, p + q.drop_first()),
        (p + q.drop_first())[0] == p[0],
        (p + q.drop_first()).last() == q.last(),
{
    let r = p + q.drop_first();
    let n = p.len();
    assert(cells[p[n - 1]] == cells[p[0]]);
    assert forall|k: int| 0 <= k < r.len() implies 0 <= #[trigger] r[k] < CELLS && cells[r[k]] == cells[r[0]] by {
        if k >= n {
            assert(r[k] == q[k - n + 1]);
        } else {
            assert(r[k] == p[k]);
        }
    }
    assert forall|k: int| 0 <= k < r.len() - 1 implies adjacent(#[trigger] r[k], r[k + 1]) by {
        if k >= n {
            assert(r[k] == q[k - n + 1]);
            assert(r[k + 1] == q[k - n + 2]);
        } else if k == n - 1 {
            assert(r[k] == q[0]);
            assert(r[k + 1] == q[1]);
        } else {
            assert(r[k] == p[k]);
            assert(r[k + 1] == p[k + 1]);
        }
    }
    if q.len() > 1 {
        assert(r.last() == q.last());
    }
}

/// A block is the block of each of its cells.
pub proof fn lemma_block_shared(cells: Seq<u8>, s: int, j: int)
    requires
        in_block(cells, s, j),
    ensures
        forall|n: int| in_block(cells, s, n) == in_block(cells, j, n),
        lib_count(cells, s) == lib_count(cells, j),
{
    let p = choose|p: Seq<int>| is_path(cells, p) && p[0] == s && p.last() == j;
    lemma_path_reverse(cells, p);
    assert forall|n: int| in_block(cells, s, n) == in_block(cells, j, n) by {
        if in_block(cells, s, n) {
            let q = choose|q: Seq<int>| is_path(cells, q) && q[0] == s && q.last() == n;
            lemma_path_concat(cells, p.reverse(), q);
        }
        if in_block(cells, j, n) {
            let q = choose|q: Seq<int>| is_path(cells, q) && q[0] == j && q.last() == n;
            lemma_path_concat(cells, p, q);
        }
    }
    lemma_liberties_below_same(cells, s, j, CELLS as int);
}

proof fn lemma_liberties_below_same(cells: Seq<u8>, s: int, t: int, k: int)
    requires
        forall|n: int| in_block(cells, s, n) == in_block(cells, t, n),
    ensures
        liberties_below(cells, s, k) == liberties_below(cells, t, k),
    decreases k,
{
    if k > 0 {
        lemma_liberties_below_same(cells, s, t, k - 1);
        assert(is_liberty(cells, s, k - 1) == is_liberty(cells, t, k - 1));
    }
}

/// A set that holds `s` and is closed under same-valued steps holds the whole block of `s`.
proof fn lemma_closed_holds_block(cells: Seq<u8>, s: int, ms: Set<int>, p: Seq<int>)
    requires
        ms.contains(s),
        forall|a: int, b: int|
            ms.contains(a) && #[trigger] adjacent(a, b) && cells[b] == cells[s] ==> ms.contains(b),
        is_path(cells, p),
        p[0] == s,
    ensures
        ms.contains(p.last()),
    decreases p.len(),
{
    if p.len() > 1 {
        let q = p.drop_last();
        assert(is_path(cells, q)) by {
            assert forall|k: int| 0 <= k < q.len() implies 0 <= #[trigger] q[k] < CELLS && cells[q[k]] == cells[q[0]] by {
                assert(q[k] == p[k]);
            }
            assert forall|k: int| 0 <= k < q.len() - 1 implies adjacent(#[trigger] q[k], q[k + 1]) by {
                assert(q[k] == p[k]);
                assert(q[k + 1] == p[k + 1]);
            }
        }
        lemma_closed_holds_block(cells, s, ms, q);
        assert(adjacent(p[p.len() - 2], p[p.len() - 1]));
        assert(cells[p[p.len() - 1]] == cells[p[0]]);
    }
}

/// Whether `memo` holds, for each cell, either zero or the liberty count of its block.
pub open spec fn memo_valid(cells: Seq<u8>, memo: Seq<usize>) -> bool {
    &&& memo.len() == CELLS
    &&& forall|j: int| 0 <= j < CELLS && #[trigger] memo[j] != 0 ==> memo[j] == lib_count(cells, j)
}

/// Whether `color` may play at the empty cell `idx` under Tromp-Taylor rules: some
/// neighbor is empty, or is a friendly block with at least two liberties (one is left
/// after the move), or is an enemy block with exactly one liberty (the move captures it).
pub open spec fn valid_move(cells: Seq<u8>, color: Color, idx: int) -> bool {
    exists|n: int| #[trigger] adjacent(idx, n) && valid_via(cells, color, n)
}

/// Whether the neighbor `n` makes a move of `color` next to it legal.
pub open spec fn valid_via(cells: Seq<u8>, color: Color, n: int) -> bool {
    ||| cells[n] == EMPTY
    ||| (cells[n] == color.stone() && lib_count(cells, n) >= 2)
    ||| (cells[n] == color.other().stone() && lib_count(cells, n) == 1)
}

/// Whether the neighbor `n` of a move of `color` is an enemy block that the move captures.
pub open spec fn captures_via(cells: Seq<u8>, color: Color, n: int) -> bool {
    cells[n] == color.other().stone() && lib_count(cells, n) == 1
}

/// Whether the stone at `j` is removed when `color` plays at `idx`.
pub open spec fn captured(cells: Seq<u8>, color: Color, idx: int, j: int) -> bool {
    exists|n: int| #[trigger] adjacent(idx, n) && captures_via(cells, color, n) && in_block(cells, n, j)
}

/// The board after `color` plays at `idx`: the stone is placed and every enemy
/// block next to it that had one liberty is removed.
pub open spec fn after_move(cells: Seq<u8>, color: Color, idx: int) -> Seq<u8> {
    Seq::new(
        CELLS as nat,
        |j: int|
            if j == idx {
                color.stone()
            } else if captured(cells, color, idx, j) {
                EMPTY
            } else {
                cells[j]
            },
    )
}

/// The cells of a block all hold the value of its seed.
pub proof fn lemma_block_same_value(cells: Seq<u8>, s: int, j: int)
    requires
        in_block(cells, s, j),
    ensures
        0 <= j < CELLS,
        cells[j] == cells[s],
{
    let p = choose|p: Seq<int>| is_path(cells, p) && p[0] == s && p.last() == j;
    assert(p[p.len() - 1] == j);
}

proof fn lemma_liberty_counted(cells: Seq<u8>, s: int, j: int, k: int)
    requires
        is_liberty(cells, s, j),
        j < k,
    ensures
        liberties_below(cells, s, k) >= 1,
    decreases k,
{
    if k - 1 != j {
        lemma_liberty_counted(cells, s, j, k - 1);
    }
}

proof fn lemma_one_liberty_at_most(cells: Seq<u8>, s: int, idx: int, k: int)
    requires
        forall|j: int| is_liberty(cells, s, j) ==> j == idx,
    ensures
        liberties_below(cells, s, k) <= if 0 <= idx < k { 1int } else { 0int },
    decreases k,
{
    if k > 0 {
        lemma_one_liberty_at_most(cells, s, idx, k - 1);
    }
}

proof fn lemma_path_kept(cells: Seq<u8>, a: Seq<u8>, p: Seq<int>)
    requires
        is_path(cells, p),
        a.len() == cells.len(),
        forall|k: int| 0 <= k < p.len() ==> a[#[trigger] p[k]] == cells[p[k]],
    ensures
        is_path(a, p),
{
    assert forall|k: int| 0 <= k < p.len() implies 0 <= #[trigger] p[k] < CELLS && a[p[k]] == a[p[0]] by {
        assert(a[p[0]] == cells[p[0]]);
    }
}

/// A legal move never leaves its stone without liberties: the block that holds the
/// new stone, after the captures, has at least one liberty.
pub proof fn lemma_valid_move_has_liberty(cells: Seq<u8>, color: Color, idx: int)
    requires
        cells_wf(cells),
        0 <= idx < CELLS,
        cells[idx] == EMPTY,
        valid_move(cells, color, idx),
    ensures
        lib_count(after_move(cells, color, idx), idx) >= 1,
{
    let a = after_move(cells, color, idx);
    let n = choose|n: int| #[trigger] adjacent(idx, n) && valid_via(cells, color, n);
    assert(is_path(a, seq![idx]));
    assert(in_block(a, idx, idx));
    assert forall|j: int| 0 <= j < CELLS && #[trigger] captured(cells, color, idx, j) implies cells[j] == color.other().stone() by {
        let m = choose|m: int| #[trigger] adjacent(idx, m) && captures_via(cells, color, m) && in_block(cells, m, j);
        lemma_block_same_value(cells, m, j);
    }
    if cells[n] == EMPTY || captures_via(cells, color, n) {
        if captures_via(cells, color, n) {
            assert(is_path(cells, seq![n]));
            assert(in_block(cells, n, n));
            assert(captured(cells, color, idx, n));
        }
        assert(a[n] == EMPTY);
        assert(adjacent(n, idx));
        assert(is_liberty(a, idx, n));
        lemma_liberty_counted(a, idx, n, CELLS as int);
    } else {
        assert(cells[n] == color.stone() && lib_count(cells, n) >= 2);
        if forall|j: int| is_liberty(cells, n, j) ==> j == idx {
            lemma_one_liberty_at_most(cells, n, idx, CELLS as int);
        }
        let l = choose|l: int| is_liberty(cells, n, l) && l != idx;
        let m = choose|m: int| adjacent(l, m) && #[trigger] in_block(cells, n, m);
        let p = choose|p: Seq<int>| is_path(cells, p) && p[0] == n && p.last() == m;
        assert forall|k: int| 0 <= k < p.len() implies a[#[trigger] p[k]] == cells[p[k]] by {
            assert(cells[p[k]] == cells[p[0]]);
            if captured(cells, color, idx, p[k]) {
                assert(cells[p[k]] == color.other().stone());
            }
        }
        lemma_path_kept(cells, a, p);
        let q = seq![idx, n];
        assert(a[n] == cells[n]);
        assert(is_path(a, q));
        lemma_path_concat(a, q, p);
        assert(in_block(a, idx, m));
        assert(a[l] == EMPTY);
        assert(is_liberty(a, idx, l));
        lemma_liberty_counted(a, idx, l, CELLS as int);
    }
}

proof fn lemma_two_liberties_counted(cells: Seq<u8>, s: int, j1: int, j2: int, k: int)
    requires
        is_liberty(cells, s, j1),
        is_liberty(cells, s, j2),
        j1 < j2 < k,
    ensures
        liberties_below(cells, s, k) >= 2,
    decreases k,
{
    if k - 1 != j2 {
        lemma_two_liberties_counted(cells, s, j1, j2, k - 1);
    } else {
        lemma_liberty_counted(cells, s, j1, k - 1);
    }
}

proof fn lemma_path_suffix(cells: Seq<u8>, p: Seq<int>, k: int)
    requires
        is_path(cells, p),
        0 <= k < p.len(),
    ensures
        is_path(cells, p.subrange(k, p.len() as int)),
{
    let q = p.subrange(k, p.len() as int);
    assert(cells[p[k]] == cells[p[0]]);
    assert forall|i: int| 0 <= i < q.len() implies 0 <= #[trigger] q[i] < CELLS && cells[q[i]] == cells[q[0]] by {
        assert(q[i] == p[k + i]);
        assert(cells[p[k + i]] == cells[p[0]]);
    }
    assert forall|i: int| 0 <= i < q.len() - 1 implies adjacent(#[trigger] q[i], q[i + 1]) by {
        assert(q[i] == p[k + i]);
        assert(q[i + 1] == p[k + i + 1]);
    }
}

/// A path from `idx` to another cell has a part that leaves `idx` and never comes back.
proof fn lemma_path_leaving(cells: Seq<u8>, p: Seq<int>, idx: int) -> (r: Seq<int>)
    requires
        is_path(cells, p),
        p[0] == idx,
        p.last() != idx,
    ensures
        is_path(cells, r),
        r.len() >= 2,
        r[0] == idx,
        r.last() == p.last(),
        forall|k: int| 1 <= k < r.len() ==> #[trigger] r[k] != idx,
    decreases p.len(),
{
    if exists|k: int| 1 <= k < p.len() && #[trigger] p[k] == idx {
        let k = choose|k: int| 1 <= k < p.len() && #[trigger] p[k] == idx;
        lemma_path_suffix(cells, p, k);
        let q = p.subrange(k, p.len() as int);
        assert(q.last() == p.last());
        lemma_path_leaving(cells, q, idx)
    } else {
        p
    }
}

/// A move whose block keeps a liberty after the captures is legal.
pub proof fn lemma_liberty_makes_move_valid(cells: Seq<u8>, color: Color, idx: int)
    requires
        cells_wf(cells),
        0 <= idx < CELLS,
        cells[idx] == EMPTY,
        lib_count(after_move(cells, color, idx), idx) >= 1,
    ensures
        valid_move(cells, color, idx),
{
    let a = after_move(cells, color, idx);
    if !valid_move(cells, color, idx) {
        assert forall|j: int| 0 <= j < CELLS implies #[trigger] a[j] == if j == idx { color.stone() } else { cells[j] } by {
            if j != idx && captured(cells, color, idx, j) {
                let m = choose|m: int| #[trigger] adjacent(idx, m) && captures_via(cells, color, m) && in_block(cells, m, j);
                assert(valid_via(cells, color, m));
            }
        }
        if forall|j: int| !is_liberty(a, idx, j) {
            lemma_no_liberty(a, idx, CELLS as int);
        }
        let l = choose|l: int| is_liberty(a, idx, l);
        let m = choose|m: int| adjacent(l, m) && #[trigger] in_block(a, idx, m);
        let p = choose|p: Seq<int>| is_path(a, p) && p[0] == idx && p.last() == m;
        assert(a[l] == EMPTY);
        assert(l != idx);
        assert(cells[l] == EMPTY);
        if m == idx {
            assert(adjacent(idx, l));
            assert(valid_via(cells, color, l));
        } else {
            let r = lemma_path_leaving(a, p, idx);
            let t = r.drop_first();
            let n = r[1];
            assert(adjacent(r[0], r[1]));
            assert(adjacent(idx, n));
            assert(a[n] == a[idx]);
            assert(cells[n] == color.stone());
            lemma_path_suffix(a, r, 1);
            assert(t =~= r.subrange(1, r.len() as int));
            assert forall|k: int| 0 <= k < t.len() implies cells[#[trigger] t[k]] == a[t[k]] by {
                assert(t[k] == r[k + 1]);
            }
            lemma_path_kept(a, cells, t);
            assert(t[0] == n && t.last() == m);
            assert(in_block(cells, n, m));
            assert(is_path(cells, seq![n]));
            assert(in_block(cells, n, n));
            assert(adjacent(idx, n));
            assert(is_liberty(cells, n, idx));
            assert(is_liberty(cells, n, l));
            if l < idx {
                lemma_two_liberties_counted(cells, n, l, idx, CELLS as int);
            } else {
                lemma_two_liberties_counted(cells, n, idx, l, CELLS as int);
            }
            assert(valid_via(cells, color, n));
        }
    }
}

/// Tromp-Taylor legality: a move at an empty cell is legal exactly when, after the
/// enemy blocks it captures are removed, the block that holds the new stone has a liberty.
pub proof fn lemma_valid_iff_liberty(cells: Seq<u8>, color: Color, idx: int)
    requires
        cells_wf(cells),
        0 <= idx < CELLS,
        cells[idx] == EMPTY,
    ensures
        valid_move(cells, color, idx) <==> lib_count(after_move(cells, color, idx), idx) >= 1,
{
    if valid_move(cells, color, idx) {
        lemma_valid_move_has_liberty(cells, color, idx);
    }
    if lib_count(after_move(cells, color, idx), idx) >= 1 {
        lemma_liberty_makes_move_valid(cells, color, idx);
    }
}

proof fn lemma_no_liberty(cells: Seq<u8>, s: int, k: int)
    requires
        forall|j: int| !is_liberty(cells, s, j),
    ensures
        liberties_below(cells, s, k) == 0,
    decreases k,
{
    if k > 0 {
        lemma_no_liberty(cells, s, k - 1);
    }
}

/// The stones of a 19x19 board, one cell value per vertex.
pub struct FastBoard {
    pub cells: Vec<u8>,
}

impl FastBoard {
    pub open spec fn wf(&self) -> bool {
        cells_wf(self.cells@)
    }

    /// Returns an empty board.
    pub fn new() -> (r: FastBoard)
        ensures
            r.wf(),
            forall|j: int| 0 <= j < CELLS ==> #[trigger] r.cells@[j] == EMPTY,
    {
        let mut cells: Vec<u8> = Vec::new();
        while cells.len() < CELLS
            invariant
                cells@.len() <= CELLS,
                forall|j: int| 0 <= j < cells@.len() ==> #[trigger] cells@[j] == EMPTY,
            decreases CELLS - cells@.len(),
        {
            cells.push(EMPTY);
        }
        FastBoard { cells }
    }

    /// Returns an independent copy of this board.
    pub fn duplicate(&self) -> (r: FastBoard)
        ensures
            r.cells@ == self.cells@,
    {
        FastBoard { cells: self.cells.clone() }
    }

    /// Marks the block of `s`: the cells connected to it through cells of the same value.
    pub fn block_at(&self, s: usize) -> (marks: Vec<bool>)
        requires
            self.wf(),
            s < CELLS,
        ensures
            marks@.len() == CELLS,
            forall|j: int| 0 <= j < CELLS ==> (#[trigger] marks@[j] <==> in_block(self.cells@, s as int, j)),
    {
        let ghost cells = self.cells@;
        let mut marks: Vec<bool> = Vec::new();
        while marks.len() < CELLS
            invariant
                marks@.len() <= CELLS,
                forall|j: int| 0 <= j < marks@.len() ==> !#[trigger] marks@[j],
            decreases CELLS - marks@.len(),
        {
            marks.push(false);
        }
        marks.set(s, true);
        let color = self.cells[s];
        let mut stack: Vec<usize> = Vec::new();
        stack.push(s);
        let ghost mut ms: Set<int> = set![s as int];
        proof {
            let p = seq![s as int];
            assert(is_path(cells, p));
            assert(stack@[0] == s);
            lemma_int_range(0, CELLS as int);
        }
        while stack.len() > 0
            invariant
                self.wf(),
                cells == self.cells@,
                color == cells[s as int],
                s < CELLS,
                marks@.len() == CELLS,
                ms.subset_of(set_int_range(0, CELLS as int)),
                set_int_range(0, CELLS as int).finite(),
                set_int_range(0, CELLS as int).len() == CELLS,
                ms.contains(s as int),
                forall|j: int| 0 <= j < CELLS ==> (#[trigger] marks@[j] <==> ms.contains(j)),
                forall|j: int| #[trigger] ms.contains(j) ==> in_block(cells, s as int, j),
                forall|k: int| 0 <= k < stack@.len() ==> (#[trigger] stack@[k]) < CELLS && marks@[stack@[k] as int],
                forall|a: int, b: int|
                    ms.contains(a) && !stack@.contains(a as usize) && #[trigger] adjacent(a, b) && cells[b] == color
                        ==> ms.contains(b),
            decreases 2 * (CELLS - ms.len()) + stack@.len(),
        {
            proof {
                lemma_len_subset(ms, set_int_range(0, CELLS as int));
            }
            let ghost ms0 = ms;
            let ghost stack0 = stack@;
            let x = stack.pop().unwrap();
            let nbrs = adjacent_to(x);
            let mut k: usize = 0;
            while k < nbrs.len()
                invariant
                    self.wf(),
                    cells == self.cells@,
                    color == cells[s as int],
                    s < CELLS,
                    x < CELLS,
                    ms0.contains(x as int),
                    marks@.len() == CELLS,
                    ms0.subset_of(ms),
                    ms.subset_of(set_int_range(0, CELLS as int)),
                    set_int_range(0, CELLS as int).finite(),
                    set_int_range(0, CELLS as int).len() == CELLS,
                    ms.contains(s as int),
                    2 * (CELLS - ms.len()) + stack@.len() <= 2 * (CELLS - ms0.len()) + stack0.len() - 1,
                    k <= nbrs@.len(),
                    forall|i: int| 0 <= i < nbrs@.len() ==> (#[trigger] nbrs@[i]) < CELLS && adjacent(x as int, nbrs@[i] as int),
                    forall|j: int| adjacent(x as int, j) ==> nbrs@.contains(j as usize),
                    forall|i: int| 0 <= i < k && cells[nbrs@[i] as int] == color ==> ms.contains(#[trigger] nbrs@[i] as int),
                    forall|j: int| 0 <= j < CELLS ==> (#[trigger] marks@[j] <==> ms.contains(j)),
                    forall|j: int| #[trigger] ms.contains(j) ==> in_block(cells, s as int, j),
                    forall|i: int| 0 <= i < stack@.len() ==> (#[trigger] stack@[i]) < CELLS && marks@[stack@[i] as int],
                    stack@.len() >= stack0.len() - 1,
                    forall|i: int| 0 <= i < stack0.len() - 1 ==> stack@[i] == #[trigger] stack0[i],
                    forall|a: int, b: int|
                        ms0.contains(a) && !stack0.contains(a as usize) && #[trigger] adjacent(a, b) && cells[b] == color
                            ==> ms0.contains(b),
                    forall|j: int| #[trigger] ms.contains(j) && !ms0.contains(j) ==> stack@.contains(j as usize),
                decreases nbrs@.len() - k,
            {
                let n = nbrs[k];
                if self.cells[n] == color && !marks[n] {
                    proof {
                        let p = choose|p: Seq<int>| is_path(cells, p) && p[0] == s && p.last() == x;
                        lemma_path_extend(cells, p, n as int);
                        lemma_len_subset(ms, set_int_range(0, CELLS as int));
                    }
                    let ghost stack1 = stack@;
                    marks.set(n, true);
                    stack.push(n);
                    proof {
                        ms = ms.insert(n as int);
                        assert(stack@.last() == n);
                        assert forall|j: int| #[trigger] ms.contains(j) && !ms0.contains(j) implies stack@.contains(j as usize) by {
                            if j != n as int {
                                let i = choose|i: int| 0 <= i < stack1.len() && stack1[i] == j as usize;
                                assert(stack@[i] == stack1[i]);
                            }
                        }
                    }
                }
                k = k + 1;
            }
            proof {
                lemma_len_subset(ms, set_int_range(0, CELLS as int));
                assert(2 * (CELLS - ms.len()) + stack@.len() < 2 * (CELLS - ms0.len()) + stack0.len());
                assert forall|a: int, b: int|
                    ms.contains(a) && !stack@.contains(a as usize) && #[trigger] adjacent(a, b) && cells[b] == color
                        implies ms.contains(b) by {
                    if a == x as int {
                        assert(nbrs@.contains(b as usize));
                        let i = choose|i: int| 0 <= i < nbrs@.len() && nbrs@[i] == b as usize;
                        assert(ms.contains(nbrs@[i] as int));
                    } else if ms0.contains(a) {
                        if stack0.contains(a as usize) {
                            let i = choose|i: int| 0 <= i < stack0.len() && stack0[i] == a as usize;
                            assert(i < stack0.len() - 1);
                            assert(stack@[i] == stack0[i]);
                            assert(stack@.contains(a as usize));
                        } else {
                            assert(ms0.contains(b));
                        }
                    } else {
                        assert(stack@.contains(a as usize));
                    }
                }
            }
        }
        proof {
            assert forall|j: int| 0 <= j < CELLS implies (#[trigger] marks@[j] <==> in_block(cells, s as int, j)) by {
                if in_block(cells, s as int, j) {
                    let p = choose|p: Seq<int>| is_path(cells, p) && p[0] == s && p.last() == j;
                    lemma_closed_holds_block(cells, s as int, ms, p);
                }
            }
        }
        marks
    }

    /// Sets every marked cell to empty.
    fn clear_marked(&mut self, marks: &Vec<bool>)
        requires
            old(self).wf(),
            marks@.len() == CELLS,
        ensures
            final(self).wf(),
            forall|j: int| 0 <= j < CELLS ==> #[trigger] final(self).cells@[j]
                == if marks@[j] { EMPTY } else { old(self).cells@[j] },
    {
        let ghost before = self.cells@;
        let mut j: usize = 0;
        while j < CELLS
            invariant
                j <= CELLS,
                self.wf(),
                before.len() == CELLS,
                marks@.len() == CELLS,
                forall|i: int| 0 <= i < j ==> #[trigger] self.cells@[i] == if marks@[i] { EMPTY } else { before[i] },
                forall|i: int| j <= i < CELLS ==> #[trigger] self.cells@[i] == before[i],
            decreases CELLS - j,
        {
            if marks[j] {
                self.cells.set(j, EMPTY);
            }
            j = j + 1;
        }
    }

    /// Removes every stone of the block of `index`.
    pub fn capture(&mut self, index: usize)
        requires
            old(self).wf(),
            index < CELLS,
        ensures
            final(self).wf(),
            forall|j: int| 0 <= j < CELLS ==> #[trigger] final(self).cells@[j]
                == if in_block(old(self).cells@, index as int, j) { EMPTY } else { old(self).cells@[j] },
    {
        let marks = self.block_at(index);
        self.clear_marked(&marks);
    }

    /// Counts the liberties of the block of `s`.
    pub fn count_liberties(&self, s: usize) -> (r: usize)
        requires
            self.wf(),
            s < CELLS,
        ensures
            r == lib_count(self.cells@, s as int),
    {
        let ghost cells = self.cells@;
        let marks = self.block_at(s);
        let mut count: usize = 0;
        let mut j: usize = 0;
        while j < CELLS
            invariant
                j <= CELLS,
                self.wf(),
                cells == self.cells@,
                s < CELLS,
                marks@.len() == CELLS,
                forall|i: int| 0 <= i < CELLS ==> (#[trigger] marks@[i] <==> in_block(cells, s as int, i)),
                count == liberties_below(cells, s as int, j as int),
                count <= j,
            decreases CELLS - j,
        {
            if self.cells[j] == EMPTY {
                let nbrs = adjacent_to(j);
                let mut k: usize = 0;
                let mut found = false;
                while k < nbrs.len()
                    invariant
                        j < CELLS,
                        k <= nbrs@.len(),
                        marks@.len() == CELLS,
                        forall|i: int| 0 <= i < nbrs@.len() ==> (#[trigger] nbrs@[i]) < CELLS && adjacent(j as int, nbrs@[i] as int),
                        found == exists|i: int| 0 <= i < k && #[trigger] marks@[nbrs@[i] as int],
                    decreases nbrs@.len() - k,
                {
                    if marks[nbrs[k]] {
                        found = true;
                    }
                    k = k + 1;
                }
                proof {
                    if found {
                        let i = choose|i: int| 0 <= i < k && #[trigger] marks@[nbrs@[i] as int];
                        assert(in_block(cells, s as int, nbrs@[i] as int));
                        assert(is_liberty(cells, s as int, j as int));
                    } else {
                        if is_liberty(cells, s as int, j as int) {
                            let n = choose|n: int| adjacent(j as int, n) && #[trigger] in_block(cells, s as int, n);
                            assert(nbrs@.contains(n as usize));
                            let i = choose|i: int| 0 <= i < nbrs@.len() && nbrs@[i] == n as usize;
                            assert(marks@[nbrs@[i] as int]);
                        }
                    }
                }
                if found {
                    count = count + 1;
                }
            }
            j = j + 1;
        }
        count
    }

    /// Returns the number of liberties of the block of `index`, taking it from
    /// `memo` where a nonzero count is recorded there, and otherwise counting
    /// it and recording it for every stone of the block.
    pub fn get_num_liberties(&self, index: usize, memo: &mut Vec<usize>) -> (r: usize)
        requires
            self.wf(),
            index < CELLS,
            self.cells@[index as int] != EMPTY,
            memo_valid(self.cells@, old(memo)@),
        ensures
            r == lib_count(self.cells@, index as int),
            memo_valid(self.cells@, final(memo)@),
    {
        if memo[index] != 0 {
            memo[index]
        } else {
            let ghost cells = self.cells@;
            let num_liberties = self.count_liberties(index);
            let marks = self.block_at(index);
            let mut j: usize = 0;
            while j < CELLS
                invariant
                    j <= CELLS,
                    index < CELLS,
                    cells == self.cells@,
                    num_liberties == lib_count(cells, index as int),
                    marks@.len() == CELLS,
                    forall|i: int| 0 <= i < CELLS ==> (#[trigger] marks@[i] <==> in_block(cells, index as int, i)),
                    memo_valid(cells, memo@),
                decreases CELLS - j,
            {
                if marks[j] {
                    proof {
                        lemma_block_shared(cells, index as int, j as int);
                    }
                    memo.set(j, num_liberties);
                }
                j = j + 1;
            }
            num_liberties
        }
    }

    /// Returns a memo with nothing recorded.
    pub fn new_memo(&self) -> (memo: Vec<usize>)
        ensures
            memo_valid(self.cells@, memo@),
    {
        let mut memo: Vec<usize> = Vec::new();
        while memo.len() < CELLS
            invariant
                memo@.len() <= CELLS,
                forall|j: int| 0 <= j < memo@.len() ==> #[trigger] memo@[j] == 0,
            decreases CELLS - memo@.len(),
        {
            memo.push(0);
        }
        memo
    }

    /// Whether `color` may play at the empty cell `index` (no suicide).
    pub fn is_valid(&self, color: Color, index: usize, memo: &mut Vec<usize>) -> (r: bool)
        requires
            self.wf(),
            index < CELLS,
            self.cells@[index as int] == EMPTY,
            memo_valid(self.cells@, old(memo)@),
        ensures
            r == valid_move(self.cells@, color, index as int),
            memo_valid(self.cells@, final(memo)@),
    {
        let ghost cells = self.cells@;
        let current = color.as_u8();
        let nbrs = adjacent_to(index);
        let mut k: usize = 0;
        while k < nbrs.len()
            invariant
                self.wf(),
                cells == self.cells@,
                current == color.stone(),
                index < CELLS,
                k <= nbrs@.len(),
                forall|i: int| 0 <= i < nbrs@.len() ==> (#[trigger] nbrs@[i]) < CELLS && adjacent(index as int, nbrs@[i] as int),
                forall|i: int| 0 <= i < k ==> !valid_via(cells, color, #[trigger] nbrs@[i] as int),
                memo_valid(cells, memo@),
            decreases nbrs@.len() - k,
        {
            let n = nbrs[k];
            let value = self.cells[n];
            if value == EMPTY {
                return true;
            }
            let libs = self.get_num_liberties(n, memo);
            if value == current {
                if libs >= 2 {
                    return true;
                }
            } else if libs == 1 {
                return true;
            }
            k = k + 1;
        }
        proof {
            if valid_move(cells, color, index as int) {
                let n = choose|n: int| #[trigger] adjacent(index as int, n) && valid_via(cells, color, n);
                assert(nbrs@.contains(n as usize));
                let i = choose|i: int| 0 <= i < nbrs@.len() && nbrs@[i] == n as usize;
                assert(!valid_via(cells, color, nbrs@[i] as int));
            }
        }
        false
    }

    /// Returns a copy of this board on which `color` has played at the empty cell
    /// `index`, with the enemy blocks that the move captures removed.
    pub fn play_on(&self, color: Color, index: usize, memo: &mut Vec<usize>) -> (r: FastBoard)
        requires
            self.wf(),
            index < CELLS,
            self.cells@[index as int] == EMPTY,
            memo_valid(self.cells@, old(memo)@),
        ensures
            r.wf(),
            r.cells@ == after_move(self.cells@, color, index as int),
            memo_valid(self.cells@, final(memo)@),
    {
        let ghost cells = self.cells@;
        let mut other = self.duplicate();
        other.cells.set(index, color.as_u8());
        let opponent = color.opposite().as_u8();
        let nbrs = adjacent_to(index);
        let mut k: usize = 0;
        while k < nbrs.len()
            invariant
                self.wf(),
                cells == self.cells@,
                other.wf(),
                opponent == color.other().stone(),
                index < CELLS,
                cells[index as int] == EMPTY,
                k <= nbrs@.len(),
                forall|i: int| 0 <= i < nbrs@.len() ==> (#[trigger] nbrs@[i]) < CELLS && adjacent(index as int, nbrs@[i] as int),
                forall|j: int| 0 <= j < CELLS ==> #[trigger] other.cells@[j] == if j == index as int {
                    color.stone()
                } else if exists|i: int| 0 <= i < k && captures_via(cells, color, #[trigger] nbrs@[i] as int) && in_block(cells, nbrs@[i] as int, j) {
                    EMPTY
                } else {
                    cells[j]
                },
                memo_valid(cells, memo@),
            decreases nbrs@.len() - k,
        {
            let n = nbrs[k];
            if self.cells[n] == opponent && self.get_num_liberties(n, memo) == 1 {
                let marks = self.block_at(n);
                proof {
                    if marks@[index as int] {
                        lemma_block_same_value(cells, n as int, index as int);
                    }
                }
                other.clear_marked(&marks);
            }
            k = k + 1;
        }
        proof {
            assert forall|j: int| 0 <= j < CELLS implies #[trigger] other.cells@[j] == after_move(cells, color, index as int)[j] by {
                if j != index as int {
                    if captured(cells, color, index as int, j) {
                        let n = choose|n: int| #[trigger] adjacent(index as int, n) && captures_via(cells, color, n) && in_block(cells, n, j);
                        assert(nbrs@.contains(n as usize));
                        let i = choose|i: int| 0 <= i < nbrs@.len() && nbrs@[i] == n as usize;
                        assert(captures_via(cells, color, nbrs@[i] as int) && in_block(cells, nbrs@[i] as int, j));
                    }
                }
            }
            assert(other.cells@ =~= after_move(cells, color, index as int));
        }
        other
    }

    /// Returns the number of liberties that the block of a stone of `color` placed
    /// at the empty cell `index` would have, captures included. This board and the
    /// recorded counts in `memo` are left as they are.
    pub fn get_num_liberties_if(&self, color: Color, index: usize, memo: &mut Vec<usize>) -> (r: usize)
        requires
            self.wf(),
            index < CELLS,
            self.cells@[index as int] == EMPTY,
            memo_valid(self.cells@, old(memo)@),
        ensures
            r == lib_count(after_move(self.cells@, color, index as int), index as int),
            memo_valid(self.cells@, final(memo)@),
    {
        let other = self.play_on(color, index, memo);
        other.count_liberties(index)
    }
}

} // verus!
