use vstd::prelude::*;
use crate::board::{repeats_position, Board};
use crate::board_fast::{after_move, lib_count, memo_valid, valid_move};
use crate::geometry::{Color, CELLS, EMPTY};
use crate::symmetry::{image, inverse, lemma_identity, lemma_image_injective, lemma_image_onto, Transform};

verus! {

/// The number of feature planes.
pub const NUM_FEATURES: usize = 40;

/// The number of elements of a feature tensor.
pub const FEATURE_SIZE: usize = NUM_FEATURES * CELLS;

/// The element value that stands for one: feature values are fixed-point
/// numbers with this denominator, which holds the komi plane exactly for any
/// komi in half points.
pub const FEATURE_ONE: u8 = 30;

/// The memory layout of a feature tensor: where plane `c` of cell `i` is stored.
pub trait Order {
    spec fn position(c: int, i: int) -> int;

    /// Distinct (plane, cell) pairs are stored at distinct places inside the tensor.
    proof fn lemma_position_injective(c1: int, i1: int, c2: int, i2: int)
        requires
            0 <= c1 < NUM_FEATURES,
            0 <= i1 < CELLS,
            0 <= c2 < NUM_FEATURES,
            0 <= i2 < CELLS,
        ensures
            0 <= Self::position(c1, i1) < FEATURE_SIZE,
            Self::position(c1, i1) == Self::position(c2, i2) ==> c1 == c2 && i1 == i2,
    ;

    /// Every place inside the tensor holds some (plane, cell) pair.
    proof fn lemma_position_onto(p: int)
        requires
            0 <= p < FEATURE_SIZE,
        ensures
            exists|c: int, i: int| 0 <= c < NUM_FEATURES && 0 <= i < CELLS && #[trigger] Self::position(c, i) == p,
    ;

    fn index(c: usize, i: usize) -> (r: usize)
        requires
            c < NUM_FEATURES,
            i < CELLS,
        ensures
            r == Self::position(c as int, i as int),
    ;
}

/// Plane-major layout: all cells of plane 0, then of plane 1, and so on.
pub struct CHW;

impl Order for CHW {
    open spec fn position(c: int, i: int) -> int {
        c * 361 + i
    }

    proof fn lemma_position_injective(c1: int, i1: int, c2: int, i2: int) {
        assert(0 <= c1 * 361 + i1 < FEATURE_SIZE) by (nonlinear_arith)
            requires
                0 <= c1 < NUM_FEATURES,
                0 <= i1 < CELLS,
        ;
        if c1 * 361 + i1 == c2 * 361 + i2 {
            assert(c1 == c2) by (nonlinear_arith)
                requires
                    c1 * 361 + i1 == c2 * 361 + i2,
                    0 <= i1 < 361,
                    0 <= i2 < 361,
            ;
        }
    }

    proof fn lemma_position_onto(p: int) {
        let c = p / 361;
        let i = p % 361;
        assert(Self::position(c, i) == p);
    }

    fn index(c: usize, i: usize) -> (r: usize) {
        c * 361 + i
    }
}

/// Cell-major layout: all planes of cell 0, then of cell 1, and so on.
pub struct HWC;

impl Order for HWC {
    open spec fn position(c: int, i: int) -> int {
        NUM_FEATURES * i + c
    }

    proof fn lemma_position_injective(c1: int, i1: int, c2: int, i2: int) {
        assert(0 <= 40 * i1 + c1 < FEATURE_SIZE) by (nonlinear_arith)
            requires
                0 <= c1 < NUM_FEATURES,
                0 <= i1 < CELLS,
        ;
        if 40 * i1 + c1 == 40 * i2 + c2 {
            assert(i1 == i2) by (nonlinear_arith)
                requires
                    40 * i1 + c1 == 40 * i2 + c2,
                    0 <= c1 < 40,
                    0 <= c2 < 40,
            ;
        }
    }

    proof fn lemma_position_onto(p: int) {
        let i = p / 40;
        let c = p % 40;
        assert(Self::position(c, i) == p);
    }

    fn index(c: usize, i: usize) -> (r: usize) {
        NUM_FEATURES * i + c
    }
}

/// The value of the komi planes: `clamp(1/2 + komi / 15, 0, 1)` with the komi
/// given in half points, in units of `1 / FEATURE_ONE`.
pub open spec fn komi_level(komi: int) -> int {
    if 15 + komi <= 0 {
        0
    } else if 15 + komi >= 30 {
        30
    } else {
        15 + komi
    }
}

/// `FEATURE_ONE` where `b` holds, zero elsewhere.
pub open spec fn level(b: bool) -> u8 {
    if b {
        FEATURE_ONE
    } else {
        0
    }
}

/// Whether some legal move of `to_move` is forbidden by superko.
pub open spec fn any_ko(b: Board, to_move: Color) -> bool {
    exists|j: int|
        0 <= j < CELLS && b.inner.cells@[j] == EMPTY && valid_move(b.inner.cells@, to_move, j)
            && #[trigger] repeats_position(b, to_move, j)
}

/// Whether `to_move` may play at the cell `i`: it is empty and the move is legal.
pub open spec fn playable(b: Board, to_move: Color, i: int) -> bool {
    b.inner.cells@[i] == EMPTY && valid_move(b.inner.cells@, to_move, i)
}

/// Whether the liberties of the block at the stone `i` exceed `t`.
pub open spec fn stone_libs_exceed(b: Board, i: int, t: int) -> bool {
    lib_count(b.inner.cells@, i) > t
}

/// Whether a legal move of `color` at `i` leaves its block with more than `t` liberties.
pub open spec fn move_libs_exceed(b: Board, color: Color, i: int, t: int) -> bool {
    playable(b, color, i) && lib_count(after_move(b.inner.cells@, color, i), i) > t
}

/// The value of plane `c` at cell `i`, before any symmetry is applied.
pub open spec fn feature_value(
    b: Board,
    to_move: Color,
    capture: Seq<bool>,
    escape: Seq<bool>,
    c: int,
    i: int,
) -> u8 {
    let cells = b.inner.cells@;
    let h = b.history@;
    if c == 0 {
        if to_move == Color::Black { komi_level(b.komi as int) as u8 } else { 0 }
    } else if c == 1 {
        if to_move == Color::White { komi_level(b.komi as int) as u8 } else { 0 }
    } else if c == 2 {
        level(any_ko(b, to_move))
    } else if c == 3 {
        level(h.len() >= 1 && h[h.len() - 1] as int == i)
    } else if c == 4 {
        level(h.len() >= 2 && h[h.len() - 2] as int == i)
    } else if c < 13 {
        level(cells[i] == to_move.stone() && stone_libs_exceed(b, i, c - 5))
    } else if c < 21 {
        level(move_libs_exceed(b, to_move, i, c - 13))
    } else if c < 29 {
        level(cells[i] != EMPTY && cells[i] != to_move.stone() && stone_libs_exceed(b, i, c - 21))
    } else if c < 37 {
        level(move_libs_exceed(b, to_move.other(), i, c - 29))
    } else if c == 37 {
        level(playable(b, to_move, i) && repeats_position(b, to_move, i))
    } else if c == 38 {
        level(playable(b, to_move, i) && capture[i])
    } else {
        level(playable(b, to_move, i) && escape[i])
    }
}

/// Whether `f` is the feature tensor of `b` for `to_move` under `symmetry` in the layout `O`.
pub open spec fn is_feature_tensor<O: Order>(
    b: Board,
    to_move: Color,
    symmetry: Transform,
    capture: Seq<bool>,
    escape: Seq<bool>,
    f: Seq<u8>,
) -> bool {
    &&& f.len() == FEATURE_SIZE
    &&& forall|c: int, i: int|
        0 <= c < NUM_FEATURES && 0 <= i < CELLS ==> #[trigger] f[O::position(c, image(symmetry, i))]
            == feature_value(b, to_move, capture, escape, c, i)
}

/// The feature tensor is determined by its inputs: the same position, player,
/// symmetry, layout and ladder answers always give the same tensor.
pub proof fn lemma_features_deterministic<O: Order>(
    b: Board,
    to_move: Color,
    symmetry: Transform,
    capture: Seq<bool>,
    escape: Seq<bool>,
    f1: Seq<u8>,
    f2: Seq<u8>,
)
    requires
        is_feature_tensor::<O>(b, to_move, symmetry, capture, escape, f1),
        is_feature_tensor::<O>(b, to_move, symmetry, capture, escape, f2),
    ensures
        f1 == f2,
{
    assert forall|p: int| 0 <= p < FEATURE_SIZE implies f1[p] == f2[p] by {
        O::lemma_position_onto(p);
        let (c, q) = choose|c: int, q: int| 0 <= c < NUM_FEATURES && 0 <= q < CELLS && #[trigger] O::position(c, q) == p;
        lemma_image_onto(symmetry, q);
        let i = image(inverse(symmetry), q);
        assert(f1[O::position(c, image(symmetry, i))] == feature_value(b, to_move, capture, escape, c, i));
        assert(f2[O::position(c, image(symmetry, i))] == feature_value(b, to_move, capture, escape, c, i));
    }
    assert(f1 =~= f2);
}

/// A symmetry only moves cells: plane `c` of the tensor under `symmetry`, read at the
/// image of cell `i`, equals plane `c` of the untransformed tensor read at `i`.
pub proof fn lemma_features_equivariant<O: Order>(
    b: Board,
    to_move: Color,
    symmetry: Transform,
    capture: Seq<bool>,
    escape: Seq<bool>,
    transformed: Seq<u8>,
    plain: Seq<u8>,
)
    requires
        is_feature_tensor::<O>(b, to_move, symmetry, capture, escape, transformed),
        is_feature_tensor::<O>(b, to_move, Transform::Identity, capture, escape, plain),
    ensures
        forall|c: int, i: int|
            0 <= c < NUM_FEATURES && 0 <= i < CELLS ==> #[trigger] transformed[O::position(c, image(symmetry, i))]
                == plain[O::position(c, i)],
{
    assert forall|c: int, i: int| 0 <= c < NUM_FEATURES && 0 <= i < CELLS implies #[trigger] transformed[O::position(c, image(symmetry, i))]
        == plain[O::position(c, i)] by {
        lemma_identity(i);
        assert(plain[O::position(c, image(Transform::Identity, i))] == feature_value(b, to_move, capture, escape, c, i));
    }
}

impl Board {
    /// Whether some legal move of `to_move` is forbidden by superko.
    fn has_ko(&self, to_move: Color, memo: &mut Vec<usize>) -> (r: bool)
        requires
            self.wf(),
            memo_valid(self.inner.cells@, old(memo)@),
        ensures
            r == any_ko(*self, to_move),
            memo_valid(self.inner.cells@, final(memo)@),
    {
        let mut j: usize = 0;
        while j < CELLS
            invariant
                self.wf(),
                j <= CELLS,
                memo_valid(self.inner.cells@, memo@),
                forall|k: int|
                    0 <= k < j ==> !(self.inner.cells@[k] == EMPTY && valid_move(self.inner.cells@, to_move, k)
                        && #[trigger] repeats_position(*self, to_move, k)),
            decreases CELLS - j,
        {
            if self.inner.cells[j] == EMPTY && self.inner.is_valid(to_move, j, memo) && self.is_ko(to_move, j) {
                return true;
            }
            j = j + 1;
        }
        false
    }

    /// Returns the feature tensor of this position for the player `to_move`, with
    /// every cell moved to its image under `symmetry` and stored in the layout `O`.
    /// `capture` and `escape` tell, for each cell, whether a move of `to_move` there
    /// is a ladder capture or a ladder escape.
    pub fn get_features<O: Order>(
        &self,
        to_move: Color,
        symmetry: Transform,
        capture: &Vec<bool>,
        escape: &Vec<bool>,
    ) -> (features: Vec<u8>)
        requires
            self.wf(),
            capture@.len() == CELLS,
            escape@.len() == CELLS,
        ensures
            is_feature_tensor::<O>(*self, to_move, symmetry, capture@, escape@, features@),
    {
        let mut memo = self.inner.new_memo();
        let ko = self.has_ko(to_move, &mut memo);
        let mut features: Vec<u8> = Vec::new();
        while features.len() < FEATURE_SIZE
            invariant
                features@.len() <= FEATURE_SIZE,
            decreases FEATURE_SIZE - features@.len(),
        {
            features.push(0);
        }
        let table = symmetry.get_table();
        let mut i: usize = 0;
        while i < CELLS
            invariant
                self.wf(),
                i <= CELLS,
                capture@.len() == CELLS,
                escape@.len() == CELLS,
                ko == any_ko(*self, to_move),
                memo_valid(self.inner.cells@, memo@),
                features@.len() == FEATURE_SIZE,
                table@.len() == CELLS,
                forall|k: int| 0 <= k < CELLS ==> #[trigger] table@[k] as int == image(symmetry, k),
                forall|c: int, k: int|
                    0 <= c < NUM_FEATURES && 0 <= k < i ==> #[trigger] features@[O::position(c, image(symmetry, k))]
                        == feature_value(*self, to_move, capture@, escape@, c, k),
            decreases CELLS - i,
        {
            let col = self.cell_features(to_move, i, capture, escape, ko, &mut memo);
            let other = table[i];
            proof {
                lemma_image_injective(symmetry, i as int, i as int);
            }
            let mut c: usize = 0;
            while c < NUM_FEATURES
                invariant
                    i < CELLS,
                    c <= NUM_FEATURES,
                    other as int == image(symmetry, i as int),
                    other < CELLS,
                    col@.len() == NUM_FEATURES,
                    forall|d: int| 0 <= d < NUM_FEATURES ==> #[trigger] col@[d]
                        == feature_value(*self, to_move, capture@, escape@, d, i as int),
                    features@.len() == FEATURE_SIZE,
                    forall|d: int, k: int|
                        0 <= d < NUM_FEATURES && 0 <= k < i ==> #[trigger] features@[O::position(d, image(symmetry, k))]
                            == feature_value(*self, to_move, capture@, escape@, d, k),
                    forall|d: int|
                        0 <= d < c ==> #[trigger] features@[O::position(d, image(symmetry, i as int))]
                            == feature_value(*self, to_move, capture@, escape@, d, i as int),
                decreases NUM_FEATURES - c,
            {
                let pos = O::index(c, other);
                proof {
                    O::lemma_position_injective(c as int, other as int, c as int, other as int);
                }
                let ghost before = features@;
                features.set(pos, col[c]);
                proof {
                    assert forall|d: int, k: int|
                        0 <= d < NUM_FEATURES && 0 <= k < i implies #[trigger] features@[O::position(d, image(symmetry, k))]
                            == feature_value(*self, to_move, capture@, escape@, d, k) by {
                        lemma_image_injective(symmetry, k, i as int);
                        O::lemma_position_injective(d, image(symmetry, k), c as int, other as int);
                        assert(before[O::position(d, image(symmetry, k))] == feature_value(*self, to_move, capture@, escape@, d, k));
                    }
                    assert forall|d: int| 0 <= d <= c implies #[trigger] features@[O::position(d, image(symmetry, i as int))]
                            == feature_value(*self, to_move, capture@, escape@, d, i as int) by {
                        O::lemma_position_injective(d, other as int, c as int, other as int);
                        if d < c {
                            assert(before[O::position(d, image(symmetry, i as int))] == feature_value(*self, to_move, capture@, escape@, d, i as int));
                        }
                    }
                }
                c = c + 1;
            }
            i = i + 1;
        }
        features
    }

    /// Gathers what the planes of cell `i` are computed from.
    fn cell_facts(
        &self,
        to_move: Color,
        i: usize,
        capture: &Vec<bool>,
        escape: &Vec<bool>,
        ko: bool,
        memo: &mut Vec<usize>,
    ) -> (f: CellFacts)
        requires
            self.wf(),
            i < CELLS,
            capture@.len() == CELLS,
            escape@.len() == CELLS,
            ko == any_ko(*self, to_move),
            memo_valid(self.inner.cells@, old(memo)@),
        ensures
            facts_hold(*self, to_move, capture@, escape@, i as int, f),
            memo_valid(self.inner.cells@, final(memo)@),
    {
        let komi: u8 = if self.komi <= -15 {
            0
        } else if self.komi >= 15 {
            FEATURE_ONE
        } else {
            (15 + self.komi) as u8
        };
        let n = self.history.len();
        let last = n >= 1 && self.history[n - 1] == i;
        let prev = n >= 2 && self.history[n - 2] == i;
        let value = self.inner.cells[i];
        let ours_stone = value == to_move.as_u8();
        let mut f = CellFacts {
            komi,
            ko,
            last,
            prev,
            empty: value == EMPTY,
            ours_stone,
            libs: 0,
            ours: false,
            our_libs: 0,
            theirs: false,
            their_libs: 0,
            ko_here: false,
            ladder_capture: false,
            ladder_escape: false,
        };
        if value != EMPTY {
            f.libs = self.inner.get_num_liberties(i, memo);
        } else {
            let opponent = to_move.opposite();
            f.ours = self.inner.is_valid(to_move, i, memo);
            if f.ours {
                f.our_libs = self.inner.get_num_liberties_if(to_move, i, memo);
                f.ko_here = self.is_ko(to_move, i);
                f.ladder_capture = capture[i];
                f.ladder_escape = escape[i];
            }
            f.theirs = self.inner.is_valid(opponent, i, memo);
            if f.theirs {
                f.their_libs = self.inner.get_num_liberties_if(opponent, i, memo);
            }
        }
        f
    }

    /// The values of the planes of cell `i`, before any symmetry is applied.
    fn cell_features(
        &self,
        to_move: Color,
        i: usize,
        capture: &Vec<bool>,
        escape: &Vec<bool>,
        ko: bool,
        memo: &mut Vec<usize>,
    ) -> (col: Vec<u8>)
        requires
            self.wf(),
            i < CELLS,
            capture@.len() == CELLS,
            escape@.len() == CELLS,
            ko == any_ko(*self, to_move),
            memo_valid(self.inner.cells@, old(memo)@),
        ensures
            col@.len() == NUM_FEATURES,
            forall|c: int| 0 <= c < NUM_FEATURES ==> #[trigger] col@[c]
                == feature_value(*self, to_move, capture@, escape@, c, i as int),
            memo_valid(self.inner.cells@, final(memo)@),
    {
        let f = self.cell_facts(to_move, i, capture, escape, ko, memo);
        let mut col: Vec<u8> = Vec::new();
        let mut c: usize = 0;
        while c < NUM_FEATURES
            invariant
                c <= NUM_FEATURES,
                i < CELLS,
                col@.len() == c,
                facts_hold(*self, to_move, capture@, escape@, i as int, f),
                forall|k: int| 0 <= k < c ==> #[trigger] col@[k]
                    == feature_value(*self, to_move, capture@, escape@, k, i as int),
            decreases NUM_FEATURES - c,
        {
            col.push(channel_value(&f, to_move, c, Ghost(*self), Ghost(capture@), Ghost(escape@), Ghost(i as int)));
            c = c + 1;
        }
        col
    }
}

/// What the planes of one cell are computed from.
pub struct CellFacts {
    pub komi: u8,
    pub ko: bool,
    pub last: bool,
    pub prev: bool,
    pub empty: bool,
    pub ours_stone: bool,
    pub libs: usize,
    pub ours: bool,
    pub our_libs: usize,
    pub theirs: bool,
    pub their_libs: usize,
    pub ko_here: bool,
    pub ladder_capture: bool,
    pub ladder_escape: bool,
}

/// Whether `f` holds the facts of cell `i`.
pub open spec fn facts_hold(b: Board, to_move: Color, capture: Seq<bool>, escape: Seq<bool>, i: int, f: CellFacts) -> bool {
    let cells = b.inner.cells@;
    let h = b.history@;
    &&& f.komi as int == komi_level(b.komi as int)
    &&& f.ko == any_ko(b, to_move)
    &&& f.last == (h.len() >= 1 && h[h.len() - 1] as int == i)
    &&& f.prev == (h.len() >= 2 && h[h.len() - 2] as int == i)
    &&& f.empty == (cells[i] == EMPTY)
    &&& f.ours_stone == (cells[i] == to_move.stone())
    &&& (cells[i] != EMPTY ==> f.libs == lib_count(cells, i))
    &&& (cells[i] == EMPTY ==> f.ours == valid_move(cells, to_move, i))
    &&& (f.ours ==> f.our_libs == lib_count(after_move(cells, to_move, i), i))
    &&& (cells[i] == EMPTY ==> f.theirs == valid_move(cells, to_move.other(), i))
    &&& (f.theirs ==> f.their_libs == lib_count(after_move(cells, to_move.other(), i), i))
    &&& (cells[i] != EMPTY ==> !f.ours && !f.theirs)
    &&& f.ko_here == (playable(b, to_move, i) && repeats_position(b, to_move, i))
    &&& f.ladder_capture == (playable(b, to_move, i) && capture[i])
    &&& f.ladder_escape == (playable(b, to_move, i) && escape[i])
}

/// The value of plane `c` of a cell with the facts `f`.
fn channel_value(
    f: &CellFacts,
    to_move: Color,
    c: usize,
    Ghost(b): Ghost<Board>,
    Ghost(capture): Ghost<Seq<bool>>,
    Ghost(escape): Ghost<Seq<bool>>,
    Ghost(i): Ghost<int>,
) -> (r: u8)
    requires
        c < NUM_FEATURES,
        0 <= i < CELLS,
        facts_hold(b, to_move, capture, escape, i, *f),
    ensures
        r == feature_value(b, to_move, capture, escape, c as int, i),
{
    if c == 0 {
        return if to_move == Color::Black { f.komi } else { 0 };
    }
    if c == 1 {
        return if to_move == Color::White { f.komi } else { 0 };
    }
    let on = if c == 2 {
        f.ko
    } else if c == 3 {
        f.last
    } else if c == 4 {
        f.prev
    } else if c < 13 {
        !f.empty && f.ours_stone && f.libs > c - 5
    } else if c < 21 {
        f.ours && f.our_libs > c - 13
    } else if c < 29 {
        !f.empty && !f.ours_stone && f.libs > c - 21
    } else if c < 37 {
        f.theirs && f.their_libs > c - 29
    } else if c == 37 {
        f.ko_here
    } else if c == 38 {
        f.ladder_capture
    } else {
        f.ladder_escape
    };
    if on { FEATURE_ONE } else { 0 }
}

} // verus!
