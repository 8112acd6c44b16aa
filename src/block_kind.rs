//! Cell values: what a field cell or a shape cell holds.

use vstd::prelude::*;

verus! {

/// The value stored in one cell of the field or of a piece shape.
pub type BlockColor = usize;

pub const NONE: BlockColor = 0;

pub const WALL: BlockColor = 1;

pub const GHOST: BlockColor = 2;

pub const I: BlockColor = 3;

pub const O: BlockColor = 4;

pub const S: BlockColor = 5;

pub const Z: BlockColor = 6;

pub const J: BlockColor = 7;

pub const L: BlockColor = 8;

pub const T: BlockColor = 9;

} // verus!
