//! A falling-block puzzle game: piece catalog, playing field, collision,
//! rotation with wall kicks, line clearing, scoring, hold and the bag queue.

pub mod block;
pub mod block_kind;
pub mod bag;
pub mod game;
