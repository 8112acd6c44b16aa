//! The seven tetromino shapes and the random choice among them.

use crate::block_kind::{BlockColor, I, J, L, O, S, T, Z};
use rand::Rng;
use vstd::prelude::*;

verus! {

/// The seven piece kinds.
#[derive(Clone, Copy, Debug, PartialEq, Eq, Structural)]
pub enum BlockKind {
    I,
    O,
    S,
    Z,
    J,
    L,
    T,
}

/// A piece shape: a 4x4 grid of cell values, indexed `[y][x]`.
pub type BlockShape = [[BlockColor; 4]; 4];

/// The position of a kind in the catalog order I, O, S, Z, J, L, T.
pub open spec fn kind_index(k: BlockKind) -> int {
    match k {
        BlockKind::I => 0,
        BlockKind::O => 1,
        BlockKind::S => 2,
        BlockKind::Z => 3,
        BlockKind::J => 4,
        BlockKind::L => 5,
        BlockKind::T => 6,
    }
}

/// The kind drawn for a number: 0 to 5 name I to L in catalog order, anything else is T.
pub open spec fn kind_of_index(n: int) -> BlockKind {
    if n == 0 {
        BlockKind::I
    } else if n == 1 {
        BlockKind::O
    } else if n == 2 {
        BlockKind::S
    } else if n == 3 {
        BlockKind::Z
    } else if n == 4 {
        BlockKind::J
    } else if n == 5 {
        BlockKind::L
    } else {
        BlockKind::T
    }
}

/// The cell value of a kind's pieces.
pub open spec fn kind_color(k: int) -> BlockColor {
    (k + 3) as BlockColor
}

/// Whether cell `(y, x)` of the canonical shape of kind `k` is occupied.
pub open spec fn catalog_occupied(k: int, y: int, x: int) -> bool {
    if k == 0 {
        y == 2
    } else if k == 1 {
        (y == 1 || y == 2) && (x == 1 || x == 2)
    } else if k == 2 {
        (y == 1 && (x == 1 || x == 2)) || (y == 2 && (x == 0 || x == 1))
    } else if k == 3 {
        (y == 1 && (x == 0 || x == 1)) || (y == 2 && (x == 1 || x == 2))
    } else if k == 4 {
        (y == 1 && x == 0) || (y == 2 && x <= 2)
    } else if k == 5 {
        (y == 1 && x == 2) || (y == 2 && x <= 2)
    } else {
        (y == 1 && x == 1) || (y == 2 && x <= 2)
    }
}

/// The canonical shape of kind `k` (0 to 6), as rows of cells.
pub open spec fn catalog_shape(k: int) -> Seq<Seq<BlockColor>> {
    Seq::new(
        4,
        |y: int|
            Seq::new(
                4,
                |x: int|
                    if catalog_occupied(k, y, x) {
                        kind_color(k)
                    } else {
                        0
                    },
            ),
    )
}

/// The rows of a shape as sequences.
pub open spec fn shape_view(b: BlockShape) -> Seq<Seq<BlockColor>> {
    Seq::new(4, |y: int| b[y]@)
}

impl BlockKind {
    /// The kind for a number drawn from 0 to 6; numbers above 5 give T.
    pub fn from_index(n: usize) -> (r: BlockKind)
        ensures
            r == kind_of_index(n as int),
    {
        match n {
            0 => BlockKind::I,
            1 => BlockKind::O,
            2 => BlockKind::S,
            3 => BlockKind::Z,
            4 => BlockKind::J,
            5 => BlockKind::L,
            _ => BlockKind::T,
        }
    }
}

/// A fresh copy of the canonical shape of a kind.
pub fn block_shape(kind: BlockKind) -> (r: BlockShape)
    ensures
        shape_view(r) == catalog_shape(kind_index(kind)),
{
    let r: BlockShape = match kind {
        BlockKind::I => [[0, 0, 0, 0], [0, 0, 0, 0], [I, I, I, I], [0, 0, 0, 0]],
        BlockKind::O => [[0, 0, 0, 0], [0, O, O, 0], [0, O, O, 0], [0, 0, 0, 0]],
        BlockKind::S => [[0, 0, 0, 0], [0, S, S, 0], [S, S, 0, 0], [0, 0, 0, 0]],
        BlockKind::Z => [[0, 0, 0, 0], [Z, Z, 0, 0], [0, Z, Z, 0], [0, 0, 0, 0]],
        BlockKind::J => [[0, 0, 0, 0], [J, 0, 0, 0], [J, J, J, 0], [0, 0, 0, 0]],
        BlockKind::L => [[0, 0, 0, 0], [0, 0, L, 0], [L, L, L, 0], [0, 0, 0, 0]],
        BlockKind::T => [[0, 0, 0, 0], [0, T, 0, 0], [T, T, T, 0], [0, 0, 0, 0]],
    };
    assert(shape_view(r) =~~= catalog_shape(kind_index(kind)));
    r
}

/// Relies on rand's `Rng::gen_range` over `0..=6` on the thread-local generator:
/// the number drawn lies in that range.
#[verifier::external_body]
fn draw_kind_index() -> (r: usize)
    ensures
        r <= 6,
{
    rand::thread_rng().gen_range(0..=6)
}

/// A kind chosen uniformly at random.
pub fn random_block_kind() -> BlockKind {
    let n = draw_kind_index();
    BlockKind::from_index(n)
}

} // verus!
