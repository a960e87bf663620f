use vstd::prelude::*;
use crate::geometry::CELLS;

verus! {

/// One of the eight symmetries of the square board.
#[derive(Clone, Copy, Debug, PartialEq, Eq, Structural)]
pub enum Transform {
    Identity,
    FlipLR,
    FlipUD,
    Transpose,
    TransposeAnti,
    Rot90,
    Rot180,
    Rot270,
}

/// The row and column that `t` sends the cell at row `r`, column `c` to.
pub open spec fn map_rc(t: Transform, r: int, c: int) -> (int, int) {
    match t {
        Transform::Identity => (r, c),
        Transform::FlipLR => (r, 18 - c),
        Transform::FlipUD => (18 - r, c),
        Transform::Transpose => (c, r),
        Transform::TransposeAnti => (18 - c, 18 - r),
        Transform::Rot90 => (c, 18 - r),
        Transform::Rot180 => (18 - r, 18 - c),
        Transform::Rot270 => (18 - c, r),
    }
}

/// The cell that `t` sends cell `i` to.
pub open spec fn image(t: Transform, i: int) -> int {
    let rc = map_rc(t, i / 19, i % 19);
    rc.0 * 19 + rc.1
}

/// Every symmetry maps the board onto itself without sending two cells to one.
pub proof fn lemma_image_injective(t: Transform, i: int, j: int)
    requires
        0 <= i < CELLS,
        0 <= j < CELLS,
    ensures
        0 <= image(t, i) < CELLS,
        image(t, i) == image(t, j) ==> i == j,
{
    let (a, b) = map_rc(t, i / 19, i % 19);
    let (c, d) = map_rc(t, j / 19, j % 19);
    assert(0 <= a < 19 && 0 <= b < 19 && 0 <= c < 19 && 0 <= d < 19);
    if a * 19 + b == c * 19 + d {
        assert(a == c && b == d) by (nonlinear_arith)
            requires
                a * 19 + b == c * 19 + d,
                0 <= b < 19,
                0 <= d < 19,
        ;
    }
}

/// The symmetry that undoes `t`.
pub open spec fn inverse(t: Transform) -> Transform {
    match t {
        Transform::Rot90 => Transform::Rot270,
        Transform::Rot270 => Transform::Rot90,
        _ => t,
    }
}

proof fn lemma_row_col(r: int, c: int)
    requires
        0 <= r < 19,
        0 <= c < 19,
    ensures
        (r * 19 + c) / 19 == r,
        (r * 19 + c) % 19 == c,
        0 <= r * 19 + c < CELLS,
{
    assert((r * 19 + c) / 19 == r && (r * 19 + c) % 19 == c) by (nonlinear_arith)
        requires
            0 <= r < 19,
            0 <= c < 19,
    ;
}

/// Every cell is the image of some cell: the one that the inverse symmetry sends it to.
pub proof fn lemma_image_onto(t: Transform, q: int)
    requires
        0 <= q < CELLS,
    ensures
        0 <= image(inverse(t), q) < CELLS,
        image(t, image(inverse(t), q)) == q,
{
    let (a, b) = map_rc(inverse(t), q / 19, q % 19);
    lemma_row_col(a, b);
}

/// The identity sends every cell to itself.
pub proof fn lemma_identity(i: int)
    requires
        0 <= i < CELLS,
    ensures
        image(Transform::Identity, i) == i,
{
}

impl Transform {
    /// Returns the cell that this symmetry sends cell `i` to.
    pub fn apply(&self, i: usize) -> (r: usize)
        requires
            i < CELLS,
        ensures
            r == image(*self, i as int),
            r < CELLS,
    {
        let r = i / 19;
        let c = i % 19;
        let (r2, c2) = match self {
            Transform::Identity => (r, c),
            Transform::FlipLR => (r, 18 - c),
            Transform::FlipUD => (18 - r, c),
            Transform::Transpose => (c, r),
            Transform::TransposeAnti => (18 - c, 18 - r),
            Transform::Rot90 => (c, 18 - r),
            Transform::Rot180 => (18 - r, 18 - c),
            Transform::Rot270 => (18 - c, r),
        };
        r2 * 19 + c2
    }

    /// Returns the table that sends each cell to its image under this symmetry.
    pub fn get_table(&self) -> (table: Vec<usize>)
        ensures
            table@.len() == CELLS,
            forall|i: int| 0 <= i < CELLS ==> #[trigger] table@[i] as int == image(*self, i),
    {
        let mut table: Vec<usize> = Vec::new();
        let mut i: usize = 0;
        while i < CELLS
            invariant
                i <= CELLS,
                table@.len() == i,
                forall|k: int| 0 <= k < i ==> #[trigger] table@[k] as int == image(*self, k),
            decreases CELLS - i,
        {
            table.push(self.apply(i));
            i = i + 1;
        }
        table
    }
}

} // verus!
