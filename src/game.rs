//! The field, collision, and the game's state transitions.

use crate::bag::{gen_block_7, is_bag, is_catalog_shape};
use crate::block::{block_shape, catalog_shape, kind_color, random_block_kind, shape_view, BlockShape};
use crate::block_kind::{BlockColor, I, NONE, T, WALL};
use crate::block_kind::WALL as W;
use std::collections::VecDeque;
use vstd::prelude::*;

verus! {

pub const FIELD_WIDTH: usize = 15;

pub const FIELD_HEIGHT: usize = 22;

/// How many pieces of the next queue are shown.
pub const NEXT_LENGTH: usize = 3;

/// The playing field, indexed `[y][x]`: walls on columns 1 and 13 and on row 20.
pub type Field = [[BlockColor; FIELD_WIDTH]; FIELD_HEIGHT];

/// The offset of a piece's 4x4 box within the field.
#[derive(Clone, Copy, Debug, PartialEq, Eq)]
pub struct Position {
    pub x: usize,
    pub y: usize,
}

impl Position {
    /// The spawn position.
    pub fn init() -> (r: Position)
        ensures
            r == spawn_position(),
    {
        Position { x: 4, y: 0 }
    }
}

pub open spec fn spawn_position() -> Position {
    Position { x: 4, y: 0 }
}

/// The rows of a field as sequences.
pub open spec fn field_view(f: Field) -> Seq<Seq<BlockColor>> {
    Seq::new(FIELD_HEIGHT as nat, |y: int| f[y]@)
}

/// Whether shape cell `(y, x)` of `m`, placed with its box at `(px, py)`, lands
/// on an occupied cell inside the field `fv`.
pub open spec fn cell_hits(
    fv: Seq<Seq<BlockColor>>,
    px: int,
    py: int,
    m: Seq<Seq<BlockColor>>,
    y: int,
    x: int,
) -> bool {
    &&& py + y < FIELD_HEIGHT
    &&& px + x < FIELD_WIDTH
    &&& m[y][x] != NONE
    &&& fv[py + y][px + x] != NONE
}

/// Whether shape `m` at `(px, py)` overlaps an occupied field cell; cells that
/// fall outside the field never count.
pub open spec fn collides_at(
    fv: Seq<Seq<BlockColor>>,
    px: int,
    py: int,
    m: Seq<Seq<BlockColor>>,
) -> bool {
    exists|y: int, x: int| 0 <= y < 4 && 0 <= x < 4 && #[trigger] cell_hits(fv, px, py, m, y, x)
}

pub open spec fn collides(field: Field, pos: Position, block: BlockShape) -> bool {
    collides_at(field_view(field), pos.x as int, pos.y as int, shape_view(block))
}

/// Whether `block` at `pos` overlaps an occupied cell of `field`.
pub fn is_collision(field: &Field, pos: &Position, block: &BlockShape) -> (r: bool)
    ensures
        r == collides(*field, *pos, *block),
{
    let ghost fv = field_view(*field);
    let ghost m = shape_view(*block);
    let mut y: usize = 0;
    while y < 4
        invariant
            0 <= y <= 4,
            fv == field_view(*field),
            m == shape_view(*block),
            forall|yy: int, xx: int|
                0 <= yy < y && 0 <= xx < 4 ==> !#[trigger] cell_hits(fv, pos.x as int, pos.y as int, m, yy, xx),
        decreases 4 - y,
    {
        let mut x: usize = 0;
        while x < 4
            invariant
                0 <= y < 4,
                0 <= x <= 4,
                fv == field_view(*field),
                m == shape_view(*block),
                forall|yy: int, xx: int|
                    0 <= yy < y && 0 <= xx < 4 ==> !#[trigger] cell_hits(fv, pos.x as int, pos.y as int, m, yy, xx),
                forall|xx: int| 0 <= xx < x ==> !#[trigger] cell_hits(fv, pos.x as int, pos.y as int, m, y as int, xx),
            decreases 4 - x,
        {
            if pos.y >= FIELD_HEIGHT - y || pos.x >= FIELD_WIDTH - x {
                x = x + 1;
                continue;
            }
            if block[y][x] != NONE && field[y + pos.y][x + pos.x] != NONE {
                assert(cell_hits(fv, pos.x as int, pos.y as int, m, y as int, x as int));
                return true;
            }
            x = x + 1;
        }
        y = y + 1;
    }
    false
}

/// Every occupied shape cell either falls outside the field or on an empty field
/// cell exactly when there is no collision.
pub proof fn lemma_collision_free_iff_cells_free(field: Field, pos: Position, block: BlockShape)
    ensures
        !collides(field, pos, block) <==> forall|y: int, x: int|
            0 <= y < 4 && 0 <= x < 4 && block[y][x] != NONE ==> (pos.y + y >= FIELD_HEIGHT || pos.x + x
                >= FIELD_WIDTH || #[trigger] field[pos.y + y][pos.x + x] == NONE),
{
    let fv = field_view(field);
    let m = shape_view(block);
    if !collides(field, pos, block) {
        assert forall|y: int, x: int|
            0 <= y < 4 && 0 <= x < 4 && block[y][x] != NONE implies (pos.y + y >= FIELD_HEIGHT || pos.x
                + x >= FIELD_WIDTH || #[trigger] field[pos.y + y][pos.x + x] == NONE) by {
            assert(!cell_hits(fv, pos.x as int, pos.y as int, m, y, x));
        }
    }
}

/// Whether every interior cell (columns 2 to 12) of a row is occupied.
pub open spec fn row_full(row: Seq<BlockColor>) -> bool {
    forall|x: int| 2 <= x < FIELD_WIDTH - 2 ==> #[trigger] row[x] != NONE
}

/// Rows 2 to `y` take the row above them; the others stay.
pub open spec fn shift_down(g: Seq<Seq<BlockColor>>, y: int) -> Seq<Seq<BlockColor>> {
    Seq::new(
        g.len(),
        |r: int|
            if 2 <= r <= y {
                g[r - 1]
            } else {
                g[r]
            },
    )
}

/// The scan of rows `y` to 19, top to bottom: each full row, as found at its
/// turn, is erased by shifting the rows above it down at once. Gives the field
/// afterwards and the number of rows erased.
pub open spec fn erase_from(g: Seq<Seq<BlockColor>>, y: int) -> (Seq<Seq<BlockColor>>, nat)
    decreases FIELD_HEIGHT - 2 - y,
{
    if y < 1 || y >= FIELD_HEIGHT - 2 {
        (g, 0)
    } else {
        let full = row_full(g[y]);
        let g1 = if full {
            shift_down(g, y)
        } else {
            g
        };
        let rest = erase_from(g1, y + 1);
        (rest.0, if full {
            rest.1 + 1
        } else {
            rest.1
        })
    }
}

/// The field and count after one full scan of the playable rows.
pub open spec fn erased(g: Seq<Seq<BlockColor>>) -> (Seq<Seq<BlockColor>>, nat) {
    erase_from(g, 1)
}

/// Erases full rows of the playable interior and returns how many were erased.
pub fn erase_line(field: &mut Field) -> (r: usize)
    ensures
        field_view(*final(field)) == erased(field_view(*old(field))).0,
        r == erased(field_view(*old(field))).1,
{
    let ghost target = erased(field_view(*field));
    let mut erase_count: usize = 0;
    let mut y: usize = 1;
    while y < FIELD_HEIGHT - 2
        invariant
            1 <= y <= FIELD_HEIGHT - 2,
            erase_count <= y - 1,
            erase_from(field_view(*field), y as int).0 == target.0,
            erase_from(field_view(*field), y as int).1 + erase_count == target.1,
        decreases FIELD_HEIGHT - 2 - y,
    {
        let ghost g0 = field_view(*field);
        let mut can_erase = true;
        let mut x: usize = 2;
        while x < FIELD_WIDTH - 2
            invariant_except_break
                can_erase,
            invariant
                1 <= y < FIELD_HEIGHT - 2,
                2 <= x <= FIELD_WIDTH - 2,
                g0 == field_view(*field),
                forall|xx: int| 2 <= xx < x ==> #[trigger] g0[y as int][xx] != NONE,
            ensures
                can_erase == row_full(g0[y as int]),
            decreases FIELD_WIDTH - 2 - x,
        {
            if field[y][x] == 0 {
                can_erase = false;
                break;
            }
            x = x + 1;
        }
        if can_erase {
            erase_count = erase_count + 1;
            let mut y2: usize = y;
            while y2 >= 2
                invariant
                    1 <= y < FIELD_HEIGHT - 2,
                    1 <= y2 <= y,
                    forall|r: int|
                        0 <= r < FIELD_HEIGHT ==> #[trigger] field_view(*field)[r] == (if y2 < r <= y {
                            g0[r - 1]
                        } else {
                            g0[r]
                        }),
                decreases y2,
            {
                let ghost before = field_view(*field);
                field[y2] = field[y2 - 1];
                assert forall|r: int| 0 <= r < FIELD_HEIGHT implies #[trigger] field_view(*field)[r] == (
                if y2 - 1 < r <= y {
                    g0[r - 1]
                } else {
                    g0[r]
                }) by {
                    if r != y2 {
                        assert(field_view(*field)[r] == before[r]);
                    } else {
                        assert(before[y2 - 1] == g0[y2 - 1]);
                        assert(field_view(*field)[r] == before[y2 - 1]);
                    }
                }
                y2 = y2 - 1;
            }
            assert(field_view(*field) =~= shift_down(g0, y as int));
        }
        y = y + 1;
    }
    erase_count
}

/// The whole game state.
pub struct Game {
    pub field: Field,
    pub pos: Position,
    pub block: BlockShape,
    pub hold: Option<BlockShape>,
    /// Whether hold was used since the last landing.
    pub holded: bool,
    pub next: VecDeque<BlockShape>,
    pub next_buf: VecDeque<BlockShape>,
    pub score: usize,
    pub line: usize,
}

/// Whether a cell value is the colour of one of the seven kinds.
pub open spec fn is_piece_color(c: BlockColor) -> bool {
    I <= c <= T
}

/// Whether every cell of a shape is empty or a piece colour.
pub open spec fn piece_colored(b: BlockShape) -> bool {
    forall|y: int, x: int| 0 <= y < 4 && 0 <= x < 4 ==> #[trigger] b[y][x] == NONE || is_piece_color(b[y][x])
}

/// Whether every shape of a sequence is empty or piece colours cell by cell.
pub open spec fn all_piece_colored(s: Seq<BlockShape>) -> bool {
    forall|i: int| 0 <= i < s.len() ==> #[trigger] piece_colored(s[i])
}

/// Whether every shape the game holds (active, held, queued) has only empty
/// cells and piece colours.
pub open spec fn game_colored(g: Game) -> bool {
    &&& piece_colored(g.block)
    &&& (g.hold matches Some(h) ==> piece_colored(h))
    &&& all_piece_colored(g.next@)
    &&& all_piece_colored(g.next_buf@)
}

proof fn lemma_catalog_colored(b: BlockShape)
    requires
        is_catalog_shape(b),
    ensures
        piece_colored(b),
{
    let k = choose|k: int| 0 <= k < 7 && shape_view(b) == #[trigger] catalog_shape(k);
    assert forall|y: int, x: int| 0 <= y < 4 && 0 <= x < 4 implies #[trigger] b[y][x] == NONE || is_piece_color(
        b[y][x],
    ) by {
        assert(b[y][x] == shape_view(b)[y][x]);
        assert(catalog_shape(k)[y][x] == 0 || catalog_shape(k)[y][x] == kind_color(k));
    }
}

proof fn lemma_bag_colored(s: Seq<BlockShape>)
    requires
        is_bag(s),
    ensures
        all_piece_colored(s),
{
    assert forall|i: int| 0 <= i < s.len() implies #[trigger] piece_colored(s[i]) by {
        assert(is_catalog_shape(s[i]));
        lemma_catalog_colored(s[i]);
    }
}

/// Whether `g`'s active piece overlaps the field at `pos`.
pub open spec fn game_collides_at(g: Game, pos: Position) -> bool {
    collides(g.field, pos, g.block)
}

/// Moves the active piece to `new_pos` unless it would collide there.
pub fn move_block(game: &mut Game, new_pos: Position)
    ensures
        !game_collides_at(*old(game), new_pos) ==> *final(game) == (Game { pos: new_pos, ..*old(game) }),
        game_collides_at(*old(game), new_pos) ==> *final(game) == *old(game),
{
    if !is_collision(&game.field, &new_pos, &game.block) {
        game.pos = new_pos;
    }
}

/// A shape turned a quarter clockwise: `new[y][x] = old[3 - x][y]`.
pub open spec fn rot_right(m: Seq<Seq<BlockColor>>) -> Seq<Seq<BlockColor>> {
    Seq::new(4, |y: int| Seq::new(4, |x: int| m[3 - x][y]))
}

/// A shape turned a quarter counter-clockwise: `new[3 - x][y] = old[y][x]`.
pub open spec fn rot_left(m: Seq<Seq<BlockColor>>) -> Seq<Seq<BlockColor>> {
    Seq::new(4, |y: int| Seq::new(4, |x: int| m[x][3 - y]))
}

/// Whether `m` is a 4x4 grid.
pub open spec fn is_grid4(m: Seq<Seq<BlockColor>>) -> bool {
    m.len() == 4 && forall|y: int| 0 <= y < 4 ==> #[trigger] m[y].len() == 4
}

/// Turning a shape right and then left, or left and then right, gives it back;
/// four quarter turns the same way give it back too.
pub proof fn lemma_rotation_round_trip(m: Seq<Seq<BlockColor>>)
    requires
        is_grid4(m),
    ensures
        rot_left(rot_right(m)) == m,
        rot_right(rot_left(m)) == m,
        rot_right(rot_right(rot_right(rot_right(m)))) == m,
        rot_left(rot_left(rot_left(rot_left(m)))) == m,
{
    assert(rot_left(rot_right(m)) =~~= m);
    assert(rot_right(rot_left(m)) =~~= m);
    assert(rot_right(rot_right(rot_right(rot_right(m)))) =~~= m);
    assert(rot_left(rot_left(rot_left(rot_left(m)))) =~~= m);
}

/// Two shapes with the same rows are the same shape.
pub proof fn lemma_shape_view_injective(a: BlockShape, b: BlockShape)
    requires
        shape_view(a) == shape_view(b),
    ensures
        a == b,
{
    assert forall|y: int| 0 <= y < 4 implies #[trigger] a[y] == b[y] by {
        assert(a[y]@ == shape_view(a)[y]);
        assert(a[y] =~= b[y]);
    }
    assert(a =~= b);
}

proof fn lemma_shape_grid4(b: BlockShape)
    ensures
        is_grid4(shape_view(b)),
{
}

/// A left turn taken in place, then a right turn, restores the game exactly;
/// so does a right turn taken in place followed by a left turn.
pub proof fn lemma_rotate_round_trip(g0: Game, g1: Game, g2: Game, left_first: bool)
    requires
        !collides(g0.field, g0.pos, g0.block),
        left_first ==> rotation_post(g0, g1, rot_left(shape_view(g0.block))),
        !left_first ==> rotation_post(g0, g1, rot_right(shape_view(g0.block))),
        left_first ==> !collides_at(field_view(g0.field), g0.pos.x as int, g0.pos.y as int, rot_left(shape_view(g0.block))),
        !left_first ==> !collides_at(field_view(g0.field), g0.pos.x as int, g0.pos.y as int, rot_right(shape_view(g0.block))),
        left_first ==> rotation_post(g1, g2, rot_right(shape_view(g1.block))),
        !left_first ==> rotation_post(g1, g2, rot_left(shape_view(g1.block))),
    ensures
        g2 == g0,
{
    lemma_shape_grid4(g0.block);
    lemma_rotation_round_trip(shape_view(g0.block));
    assert(shape_view(g2.block) == shape_view(g0.block));
    lemma_shape_view_injective(g2.block, g0.block);
}

/// Four right turns in a row, none of them rejected, give back the piece's
/// shape; the same holds of four left turns.
pub proof fn lemma_four_turns(g0: Game, g1: Game, g2: Game, g3: Game, g4: Game, right: bool)
    requires
        right ==> shape_view(g1.block) == rot_right(shape_view(g0.block)),
        right ==> shape_view(g2.block) == rot_right(shape_view(g1.block)),
        right ==> shape_view(g3.block) == rot_right(shape_view(g2.block)),
        right ==> shape_view(g4.block) == rot_right(shape_view(g3.block)),
        !right ==> shape_view(g1.block) == rot_left(shape_view(g0.block)),
        !right ==> shape_view(g2.block) == rot_left(shape_view(g1.block)),
        !right ==> shape_view(g3.block) == rot_left(shape_view(g2.block)),
        !right ==> shape_view(g4.block) == rot_left(shape_view(g3.block)),
    ensures
        g4.block == g0.block,
{
    lemma_shape_grid4(g0.block);
    lemma_rotation_round_trip(shape_view(g0.block));
    lemma_shape_view_injective(g4.block, g0.block);
}

/// The shape turned a quarter clockwise.
pub fn rotated_right(block: &BlockShape) -> (r: BlockShape)
    ensures
        shape_view(r) == rot_right(shape_view(*block)),
        piece_colored(*block) ==> piece_colored(r),
{
    let mut new_shape: BlockShape = [[0; 4]; 4];
    let mut y: usize = 0;
    while y < 4
        invariant
            0 <= y <= 4,
            forall|yy: int, xx: int|
                0 <= yy < y && 0 <= xx < 4 ==> #[trigger] new_shape[yy][xx] == block[3 - xx][yy],
        decreases 4 - y,
    {
        let mut x: usize = 0;
        while x < 4
            invariant
                0 <= y < 4,
                0 <= x <= 4,
                forall|yy: int, xx: int|
                    0 <= yy < y && 0 <= xx < 4 ==> #[trigger] new_shape[yy][xx] == block[3 - xx][yy],
                forall|xx: int| 0 <= xx < x ==> #[trigger] new_shape[y as int][xx] == block[3 - xx][y as int],
            decreases 4 - x,
        {
            new_shape[y][x] = block[4 - 1 - x][y];
            x = x + 1;
        }
        y = y + 1;
    }
    assert(shape_view(new_shape) =~~= rot_right(shape_view(*block)));
    assert forall|y: int, x: int| 0 <= y < 4 && 0 <= x < 4 implies #[trigger] new_shape[y][x] == block[3 - x][y] by {
        assert(new_shape[y][x] == shape_view(new_shape)[y][x]);
    }
    new_shape
}

/// The shape turned a quarter counter-clockwise.
pub fn rotated_left(block: &BlockShape) -> (r: BlockShape)
    ensures
        shape_view(r) == rot_left(shape_view(*block)),
        piece_colored(*block) ==> piece_colored(r),
{
    let mut new_shape: BlockShape = [[0; 4]; 4];
    let mut y: usize = 0;
    while y < 4
        invariant
            0 <= y <= 4,
            forall|yy: int, xx: int|
                0 <= yy < y && 0 <= xx < 4 ==> #[trigger] new_shape[3 - xx][yy] == block[yy][xx],
        decreases 4 - y,
    {
        let mut x: usize = 0;
        while x < 4
            invariant
                0 <= y < 4,
                0 <= x <= 4,
                forall|yy: int, xx: int|
                    0 <= yy < y && 0 <= xx < 4 ==> #[trigger] new_shape[3 - xx][yy] == block[yy][xx],
                forall|xx: int| 0 <= xx < x ==> #[trigger] new_shape[3 - xx][y as int] == block[y as int][xx],
            decreases 4 - x,
        {
            new_shape[4 - 1 - x][y] = block[y][x];
            x = x + 1;
        }
        y = y + 1;
    }
    assert forall|a: int, b: int| 0 <= a < 4 && 0 <= b < 4 implies #[trigger] new_shape[a][b] == block[b][3 - a] by {
        assert(new_shape[3 - (3 - a)][b] == block[b][3 - a]);
    }
    assert(shape_view(new_shape) =~~= rot_left(shape_view(*block)));
    assert forall|y: int, x: int| 0 <= y < 4 && 0 <= x < 4 implies #[trigger] new_shape[y][x] == block[x][3 - y] by {
        assert(new_shape[y][x] == shape_view(new_shape)[y][x]);
    }
    new_shape
}

/// The kick candidates in the order tried: up, right, down, left by one cell.
/// A step that would go below zero keeps the coordinate.
pub open spec fn kick(pos: Position, i: int) -> Position {
    if i == 0 {
        Position { x: pos.x, y: if pos.y >= 1 { (pos.y - 1) as usize } else { pos.y } }
    } else if i == 1 {
        Position { x: (pos.x + 1) as usize, y: pos.y }
    } else if i == 2 {
        Position { x: pos.x, y: (pos.y + 1) as usize }
    } else {
        Position { x: if pos.x >= 1 { (pos.x - 1) as usize } else { pos.x }, y: pos.y }
    }
}

/// The first kick candidate at which shape `m` fits, if any.
pub open spec fn kick_result(fv: Seq<Seq<BlockColor>>, pos: Position, m: Seq<Seq<BlockColor>>) -> Result<Position, ()> {
    if !collides_at(fv, kick(pos, 0).x as int, kick(pos, 0).y as int, m) {
        Ok(kick(pos, 0))
    } else if !collides_at(fv, kick(pos, 1).x as int, kick(pos, 1).y as int, m) {
        Ok(kick(pos, 1))
    } else if !collides_at(fv, kick(pos, 2).x as int, kick(pos, 2).y as int, m) {
        Ok(kick(pos, 2))
    } else if !collides_at(fv, kick(pos, 3).x as int, kick(pos, 3).y as int, m) {
        Ok(kick(pos, 3))
    } else {
        Err(())
    }
}

/// Looks for a position near `pos` where `block` fits, trying up, right, down
/// and left in turn.
pub fn super_rotation(field: &Field, pos: &Position, block: &BlockShape) -> (r: Result<Position, ()>)
    requires
        pos.x < usize::MAX,
        pos.y < usize::MAX,
    ensures
        r == kick_result(field_view(*field), *pos, shape_view(*block)),
{
    let diff_pos = [
        Position { x: pos.x, y: if pos.y >= 1 { pos.y - 1 } else { pos.y } },
        Position { x: pos.x + 1, y: pos.y },
        Position { x: pos.x, y: pos.y + 1 },
        Position { x: if pos.x >= 1 { pos.x - 1 } else { pos.x }, y: pos.y },
    ];
    let mut i: usize = 0;
    while i < 4
        invariant
            0 <= i <= 4,
            forall|j: int| 0 <= j < 4 ==> #[trigger] diff_pos[j] == kick(*pos, j),
            forall|j: int| 0 <= j < i ==> collides(*field, #[trigger] kick(*pos, j), *block),
        decreases 4 - i,
    {
        if !is_collision(field, &diff_pos[i], block) {
            return Ok(diff_pos[i]);
        }
        i = i + 1;
    }
    Err(())
}

/// What a rotation does: `m` is the turned shape. It is taken where it fits,
/// else at the first kick candidate where it fits; else nothing changes.
pub open spec fn rotation_post(g0: Game, g1: Game, m: Seq<Seq<BlockColor>>) -> bool {
    let fv = field_view(g0.field);
    if !collides_at(fv, g0.pos.x as int, g0.pos.y as int, m) {
        shape_view(g1.block) == m && g1 == (Game { block: g1.block, ..g0 })
    } else {
        match kick_result(fv, g0.pos, m) {
            Ok(p) => shape_view(g1.block) == m && g1 == (Game { block: g1.block, pos: p, ..g0 }),
            Err(_) => g1 == g0,
        }
    }
}

/// Turns the active piece a quarter clockwise, with wall kicks.
pub fn rotate_right(game: &mut Game)
    requires
        old(game).pos.x < usize::MAX,
        old(game).pos.y < usize::MAX,
    ensures
        rotation_post(*old(game), *final(game), rot_right(shape_view(old(game).block))),
        game_colored(*old(game)) ==> game_colored(*final(game)),
{
    let new_shape = rotated_right(&game.block);
    if !is_collision(&game.field, &game.pos, &new_shape) {
        game.block = new_shape;
    } else if let Ok(new_pos) = super_rotation(&game.field, &game.pos, &new_shape) {
        game.pos = new_pos;
        game.block = new_shape;
    }
}

/// Turns the active piece a quarter counter-clockwise, with wall kicks.
pub fn rotate_left(game: &mut Game)
    requires
        old(game).pos.x < usize::MAX,
        old(game).pos.y < usize::MAX,
    ensures
        rotation_post(*old(game), *final(game), rot_left(shape_view(old(game).block))),
        game_colored(*old(game)) ==> game_colored(*final(game)),
{
    let new_shape = rotated_left(&game.block);
    if !is_collision(&game.field, &game.pos, &new_shape) {
        game.block = new_shape;
    } else if let Ok(new_pos) = super_rotation(&game.field, &game.pos, &new_shape) {
        game.pos = new_pos;
        game.block = new_shape;
    }
}

/// Whether the piece, pushed straight down from `pos`, meets an occupied cell
/// at some point.
pub open spec fn lands_below(field: Field, pos: Position, block: BlockShape) -> bool {
    exists|d: int|
        d >= 1 && #[trigger] collides_at(field_view(field), pos.x as int, pos.y + d, shape_view(block))
}

/// Whether `r` is where the piece rests when dropped from `pos`: same column,
/// every row on the way down is free, and the row below `r` is not.
pub open spec fn is_drop_of(field: Field, pos: Position, block: BlockShape, r: Position) -> bool {
    let fv = field_view(field);
    let m = shape_view(block);
    &&& r.x == pos.x
    &&& r.y >= pos.y
    &&& forall|y: int| pos.y < y <= r.y ==> !#[trigger] collides_at(fv, pos.x as int, y, m)
    &&& collides_at(fv, pos.x as int, r.y + 1, m)
}

/// Cells whose row is past the field's bottom never collide.
proof fn lemma_below_field_free(fv: Seq<Seq<BlockColor>>, px: int, py: int, m: Seq<Seq<BlockColor>>)
    requires
        py >= FIELD_HEIGHT,
    ensures
        !collides_at(fv, px, py, m),
{
}

/// Where the piece would rest if dropped now.
pub fn ghost_pos(field: &Field, pos: &Position, block: &BlockShape) -> (r: Position)
    requires
        lands_below(*field, *pos, *block),
    ensures
        is_drop_of(*field, *pos, *block, r),
{
    let ghost fv = field_view(*field);
    let ghost m = shape_view(*block);
    let ghost d = choose|d: int| d >= 1 && #[trigger] collides_at(fv, pos.x as int, pos.y + d, m);
    proof {
        if pos.y + d >= FIELD_HEIGHT {
            lemma_below_field_free(fv, pos.x as int, pos.y + d, m);
        }
    }
    let mut rest = *pos;
    let mut below = Position { x: rest.x, y: rest.y + 1 };
    while !is_collision(field, &below, block)
        invariant
            below == (Position { x: rest.x, y: (rest.y + 1) as usize }),
            rest.x == pos.x,
            pos.y <= rest.y < pos.y + d,
            pos.y + d < FIELD_HEIGHT,
            collides_at(fv, pos.x as int, pos.y + d, m),
            fv == field_view(*field),
            m == shape_view(*block),
            forall|y: int| pos.y < y <= rest.y ==> !#[trigger] collides_at(fv, pos.x as int, y, m),
        decreases pos.y + d - rest.y,
    {
        rest.y = rest.y + 1;
        below = Position { x: rest.x, y: rest.y + 1 };
    }
    rest
}

/// Drops the active piece straight down as far as it goes.
pub fn hard_drop(game: &mut Game)
    requires
        lands_below(old(game).field, old(game).pos, old(game).block),
    ensures
        is_drop_of(old(game).field, old(game).pos, old(game).block, final(game).pos),
        *final(game) == (Game { pos: final(game).pos, ..*old(game) }),
{
    let ghost g0 = *game;
    let ghost fv = field_view(game.field);
    let ghost m = shape_view(game.block);
    let ghost p0 = game.pos;
    let ghost d = choose|d: int| d >= 1 && #[trigger] collides_at(fv, p0.x as int, p0.y + d, m);
    proof {
        if p0.y + d >= FIELD_HEIGHT {
            lemma_below_field_free(fv, p0.x as int, p0.y + d, m);
        }
    }
    let mut below = Position { x: game.pos.x, y: game.pos.y + 1 };
    while !is_collision(&game.field, &below, &game.block)
        invariant
            below == (Position { x: game.pos.x, y: (game.pos.y + 1) as usize }),
            *game == (Game { pos: game.pos, ..g0 }),
            game.pos.x == p0.x,
            p0.y <= game.pos.y < p0.y + d,
            p0.y + d < FIELD_HEIGHT,
            collides_at(fv, p0.x as int, p0.y + d, m),
            fv == field_view(game.field),
            m == shape_view(game.block),
            forall|y: int| p0.y < y <= game.pos.y ==> !#[trigger] collides_at(fv, p0.x as int, y, m),
        decreases p0.y + d - game.pos.y,
    {
        game.pos.y = game.pos.y + 1;
        below = Position { x: game.pos.x, y: game.pos.y + 1 };
    }
    let new_pos = game.pos;
    move_block(game, new_pos);
}

/// Whether every occupied cell of `block` at `pos` lies inside the field.
pub open spec fn in_field(pos: Position, block: BlockShape) -> bool {
    forall|y: int, x: int|
        0 <= y < 4 && 0 <= x < 4 && #[trigger] block[y][x] != NONE ==> pos.y + y < FIELD_HEIGHT && pos.x + x
            < FIELD_WIDTH
}

/// Whether field cell `(r, c)` is covered by an occupied cell of `m` at `(px, py)`.
pub open spec fn covers(px: int, py: int, m: Seq<Seq<BlockColor>>, r: int, c: int) -> bool {
    &&& py <= r < py + 4
    &&& px <= c < px + 4
    &&& m[r - py][c - px] != NONE
}

/// The field with shape `m` at `(px, py)` written into it.
pub open spec fn fixed(fv: Seq<Seq<BlockColor>>, px: int, py: int, m: Seq<Seq<BlockColor>>) -> Seq<Seq<BlockColor>> {
    Seq::new(
        fv.len(),
        |r: int|
            Seq::new(
                fv[r].len(),
                |c: int|
                    if covers(px, py, m, r, c) {
                        m[r - py][c - px]
                    } else {
                        fv[r][c]
                    },
            ),
    )
}

/// Whether placing shape `block` at `pos` into `f0` gave `f1` without touching
/// an occupied cell: walls and locked cells keep their values, and every cell
/// that changed was empty and now holds a piece colour.
pub open spec fn only_empty_cells_filled(f0: Field, f1: Field) -> bool {
    forall|r: int, c: int|
        0 <= r < FIELD_HEIGHT && 0 <= c < FIELD_WIDTH ==> (#[trigger] f0[r][c] != NONE ==> f1[r][c] == f0[r][c])
            && (f1[r][c] != f0[r][c] ==> f0[r][c] == NONE && is_piece_color(f1[r][c]))
}

/// Writes every occupied cell of `block` at `pos` into `field`.
pub fn place_block(field: &mut Field, pos: &Position, block: &BlockShape)
    requires
        in_field(*pos, *block),
    ensures
        field_view(*final(field)) == fixed(field_view(*old(field)), pos.x as int, pos.y as int, shape_view(*block)),
        piece_colored(*block) && !collides(*old(field), *pos, *block) ==> only_empty_cells_filled(
            *old(field),
            *final(field),
        ),
{
    let ghost f0 = *field;
    let ghost fv = field_view(*field);
    let ghost m = shape_view(*block);
    let ghost px = pos.x as int;
    let ghost py = pos.y as int;
    let mut y: usize = 0;
    while y < 4
        invariant
            0 <= y <= 4,
            in_field(*pos, *block),
            fv == field_view(f0),
            m == shape_view(*block),
            px == pos.x,
            py == pos.y,
            forall|r: int, c: int|
                0 <= r < FIELD_HEIGHT && 0 <= c < FIELD_WIDTH ==> #[trigger] field[r][c] == if covers(
                    px,
                    py,
                    m,
                    r,
                    c,
                ) && r - py < y {
                    m[r - py][c - px]
                } else {
                    fv[r][c]
                },
        decreases 4 - y,
    {
        let mut x: usize = 0;
        while x < 4
            invariant
                0 <= y < 4,
                0 <= x <= 4,
                in_field(*pos, *block),
                fv == field_view(f0),
                m == shape_view(*block),
                px == pos.x,
                py == pos.y,
                forall|r: int, c: int|
                    0 <= r < FIELD_HEIGHT && 0 <= c < FIELD_WIDTH ==> #[trigger] field[r][c] == if covers(
                        px,
                        py,
                        m,
                        r,
                        c,
                    ) && (r - py < y || (r - py == y && c - px < x)) {
                        m[r - py][c - px]
                    } else {
                        fv[r][c]
                    },
            decreases 4 - x,
        {
            if block[y][x] != NONE {
                let v = block[y][x];
                field[y + pos.y][x + pos.x] = v;
            }
            x = x + 1;
        }
        y = y + 1;
    }
    assert(field_view(*field) =~~= fixed(fv, px, py, m));
    proof {
        if piece_colored(*block) && !collides(f0, *pos, *block) {
            assert forall|r: int, c: int| 0 <= r < FIELD_HEIGHT && 0 <= c < FIELD_WIDTH implies (#[trigger] f0[r][c]
                != NONE ==> field[r][c] == f0[r][c]) && (field[r][c] != f0[r][c] ==> f0[r][c] == NONE
                && is_piece_color(field[r][c])) by {
                assert(fv[r][c] == f0[r][c]);
                if covers(px, py, m, r, c) {
                    let yy = r - py;
                    let xx = c - px;
                    assert(m[yy][xx] == block[yy][xx]);
                    assert(block[yy][xx] == NONE || is_piece_color(block[yy][xx]));
                    if f0[r][c] != NONE {
                        assert(cell_hits(fv, px, py, m, yy, xx));
                    }
                }
            }
        }
    }
}

/// Locks the active piece into the field. Where the piece is free of the
/// field and has only piece colours, walls and locked cells stay as they are.
pub fn fix_block(game: &mut Game)
    requires
        in_field(old(game).pos, old(game).block),
    ensures
        field_view(final(game).field) == fixed(
            field_view(old(game).field),
            old(game).pos.x as int,
            old(game).pos.y as int,
            shape_view(old(game).block),
        ),
        piece_colored(old(game).block) && !collides(old(game).field, old(game).pos, old(game).block)
            ==> only_empty_cells_filled(old(game).field, final(game).field),
        *final(game) == (Game { field: final(game).field, ..*old(game) }),
{
    place_block(&mut game.field, &game.pos, &game.block);
}

/// How many rows the landing of the active piece would erase.
pub fn landing_lines(game: &Game) -> (r: usize)
    requires
        in_field(game.pos, game.block),
    ensures
        r == landing_erase(*game).1,
{
    let mut f = game.field;
    place_block(&mut f, &game.pos, &game.block);
    erase_line(&mut f)
}

/// How the next queue and its backing buffer move on at a spawn: the queue's
/// front leaves and one piece joins its back, taken from the buffer, or from a
/// fresh bag that becomes the buffer when the buffer is empty.
pub open spec fn queue_advanced(
    next0: Seq<BlockShape>,
    buf0: Seq<BlockShape>,
    next1: Seq<BlockShape>,
    buf1: Seq<BlockShape>,
) -> bool {
    if buf0.len() > 0 {
        next1 == next0.drop_first().push(buf0[0]) && buf1 == buf0.drop_first()
    } else {
        exists|bag: Seq<BlockShape>|
            #[trigger] is_bag(bag) && next1 == next0.drop_first().push(bag[0]) && buf1 == bag.drop_first()
    }
}

/// What a spawn does to the piece and the queues.
pub open spec fn spawned(g0: Game, g1: Game) -> bool {
    &&& g1.pos == spawn_position()
    &&& g1.block == g0.next@[0]
    &&& queue_advanced(g0.next@, g0.next_buf@, g1.next@, g1.next_buf@)
}

/// Takes the next piece from the queue and places it at the spawn position.
/// Fails when it overlaps the field there, which ends the game.
pub fn spawn_block(game: &mut Game) -> (r: Result<(), ()>)
    requires
        old(game).next@.len() > 0,
    ensures
        spawned(*old(game), *final(game)),
        *final(game) == (Game {
            pos: final(game).pos,
            block: final(game).block,
            next: final(game).next,
            next_buf: final(game).next_buf,
            ..*old(game)
        }),
        final(game).next@.len() == old(game).next@.len(),
        r is Err <==> game_collides_at(*final(game), spawn_position()),
        game_colored(*old(game)) ==> game_colored(*final(game)),
{
    game.pos = Position::init();
    let front = game.next.pop_front();
    game.block = match front {
        Some(b) => b,
        None => game.block,
    };
    if let Some(next) = game.next_buf.pop_front() {
        game.next.push_back(next);
    } else {
        game.next_buf = gen_block_7();
        let ghost bag = game.next_buf@;
        let first = game.next_buf.pop_front();
        match first {
            Some(b) => game.next.push_back(b),
            None => {},
        }
        assert(is_bag(bag));
        proof {
            lemma_bag_colored(bag);
        }
    }
    if is_collision(&game.field, &game.pos, &game.block) {
        Err(())
    } else {
        Ok(())
    }
}

/// What hold does: nothing if hold was already used since the last landing;
/// else it swaps the active piece with the held one and returns to the spawn
/// position, or, with nothing held yet, stores the active piece and spawns the
/// next. Either way hold is then used.
pub open spec fn hold_post(g0: Game, g1: Game) -> bool {
    if g0.holded {
        g1 == g0
    } else {
        match g0.hold {
            Some(h) => g1 == (Game {
                block: h,
                hold: Some(g0.block),
                pos: spawn_position(),
                holded: true,
                ..g0
            }),
            None => {
                &&& spawned(g0, g1)
                &&& g1 == (Game {
                    pos: g1.pos,
                    block: g1.block,
                    next: g1.next,
                    next_buf: g1.next_buf,
                    hold: Some(g0.block),
                    holded: true,
                    ..g0
                })
            },
        }
    }
}

/// Holds the active piece (see `hold_post`).
pub fn hold(game: &mut Game)
    requires
        !old(game).holded && old(game).hold is None ==> old(game).next@.len() > 0,
    ensures
        hold_post(*old(game), *final(game)),
        game_colored(*old(game)) ==> game_colored(*final(game)),
{
    if game.holded {
        return;
    }
    if let Some(held) = game.hold {
        game.hold = Some(game.block);
        game.block = held;
        game.pos = Position::init();
    } else {
        game.hold = Some(game.block);
        let _ = spawn_block(game);
    }
    game.holded = true;
}

/// Calling hold a second time before a landing changes nothing: the swap or
/// store happens once.
pub proof fn lemma_hold_twice(g0: Game, g1: Game, g2: Game)
    requires
        hold_post(g0, g1),
        hold_post(g1, g2),
    ensures
        g2 == g1,
        g1.holded,
{
}

/// The points for erasing `n` rows at once.
pub open spec fn score_table(n: int) -> int {
    if n == 0 {
        0
    } else if n == 1 {
        100
    } else if n == 2 {
        200
    } else if n == 3 {
        400
    } else {
        800
    }
}

/// The points for erasing `count` rows at once.
pub fn line_score(count: usize) -> (r: usize)
    requires
        count <= 4,
    ensures
        r == score_table(count as int),
{
    match count {
        0 => 0,
        1 => 100,
        2 => 200,
        3 => 400,
        _ => 800,
    }
}

/// The rows that the landing of `g`'s piece erases, with the field afterwards.
pub open spec fn landing_erase(g: Game) -> (Seq<Seq<BlockColor>>, nat) {
    erased(fixed(field_view(g.field), g.pos.x as int, g.pos.y as int, shape_view(g.block)))
}

/// Whether `landing`'s preconditions hold for `g`: the piece lies inside the
/// field, it completes at most four rows, and score and line count stay in range.
pub open spec fn can_land_now(g: Game) -> bool {
    &&& in_field(g.pos, g.block)
    &&& landing_erase(g).1 <= 4
    &&& g.score + score_table(landing_erase(g).1 as int) <= usize::MAX
    &&& g.line + landing_erase(g).1 <= usize::MAX
    &&& g.next@.len() > 0
}

/// What a landing does: the piece is locked, full rows are erased and scored,
/// the next piece spawns, and hold is released unless the spawn failed.
pub open spec fn landed(g0: Game, g1: Game, r: Result<(), ()>) -> bool {
    &&& field_view(g1.field) == landing_erase(g0).0
    &&& g1.score == g0.score + score_table(landing_erase(g0).1 as int)
    &&& g1.line == g0.line + landing_erase(g0).1
    &&& spawned(g0, g1)
    &&& g1.hold == g0.hold
    &&& (r is Err <==> game_collides_at(g1, spawn_position()))
    &&& g1.holded == (r is Err && g0.holded)
}

/// Locks the active piece, erases full rows, scores them, and spawns the next
/// piece. Fails when the new piece cannot be placed; hold is then not
/// released.
pub fn landing(game: &mut Game) -> (r: Result<(), ()>)
    requires
        can_land_now(*old(game)),
    ensures
        landed(*old(game), *final(game), r),
        game_colored(*old(game)) ==> game_colored(*final(game)),
{
    fix_block(game);
    let line_count = erase_line(&mut game.field);
    game.score = game.score + line_score(line_count);
    game.line = game.line + line_count;
    spawn_block(game)?;
    game.holded = false;
    Ok(())
}

/// The position one row below `pos`.
pub open spec fn one_below(pos: Position) -> Position {
    Position { x: pos.x, y: (pos.y + 1) as usize }
}

/// One gravity step: the piece moves down a row where that row is free;
/// otherwise it lands. Fails when the piece after it cannot be placed.
pub fn gravity_tick(game: &mut Game) -> (r: Result<(), ()>)
    requires
        old(game).pos.y < usize::MAX,
        game_collides_at(*old(game), one_below(old(game).pos)) ==> can_land_now(*old(game)),
    ensures
        !game_collides_at(*old(game), one_below(old(game).pos)) ==> r is Ok && *final(game) == (Game {
            pos: one_below(old(game).pos),
            ..*old(game)
        }),
        game_collides_at(*old(game), one_below(old(game).pos)) ==> landed(*old(game), *final(game), r),
        game_colored(*old(game)) ==> game_colored(*final(game)),
{
    let below = Position { x: game.pos.x, y: game.pos.y + 1 };
    if !is_collision(&game.field, &below, &game.block) {
        game.pos = below;
        Ok(())
    } else {
        landing(game)
    }
}

/// A landing that erases one, two, three or four rows adds 100, 200, 400 or
/// 800 points; one that erases none adds nothing, to score and line count.
pub proof fn lemma_line_clear_score(g0: Game, g1: Game, r: Result<(), ()>)
    requires
        landed(g0, g1, r),
    ensures
        landing_erase(g0).1 == 0 ==> g1.score == g0.score && g1.line == g0.line,
        landing_erase(g0).1 == 1 ==> g1.score == g0.score + 100,
        landing_erase(g0).1 == 2 ==> g1.score == g0.score + 200,
        landing_erase(g0).1 == 3 ==> g1.score == g0.score + 400,
        landing_erase(g0).1 == 4 ==> g1.score == g0.score + 800,
{
}

/// Whether cell `(y, x)` of a new field is a wall: columns 1 and 13 down to
/// row 20, and row 20 between them.
pub open spec fn is_wall_cell(y: int, x: int) -> bool {
    (y <= 20 && (x == 1 || x == 13)) || (y == 20 && 1 <= x <= 13)
}

/// The field a game starts with.
pub open spec fn initial_field() -> Seq<Seq<BlockColor>> {
    Seq::new(
        FIELD_HEIGHT as nat,
        |y: int|
            Seq::new(
                FIELD_WIDTH as nat,
                |x: int|
                    if is_wall_cell(y, x) {
                        WALL
                    } else {
                        NONE
                    },
            ),
    )
}

/// A new field: empty inside its walls.
pub fn new_field() -> (r: Field)
    ensures
        field_view(r) == initial_field(),
{
    let r: Field = [
        [0, W, 0, 0, 0, 0, 0, 0, 0, 0, 0, 0, 0, W, 0],
        [0, W, 0, 0, 0, 0, 0, 0, 0, 0, 0, 0, 0, W, 0],
        [0, W, 0, 0, 0, 0, 0, 0, 0, 0, 0, 0, 0, W, 0],
        [0, W, 0, 0, 0, 0, 0, 0, 0, 0, 0, 0, 0, W, 0],
        [0, W, 0, 0, 0, 0, 0, 0, 0, 0, 0, 0, 0, W, 0],
        [0, W, 0, 0, 0, 0, 0, 0, 0, 0, 0, 0, 0, W, 0],
        [0, W, 0, 0, 0, 0, 0, 0, 0, 0, 0, 0, 0, W, 0],
        [0, W, 0, 0, 0, 0, 0, 0, 0, 0, 0, 0, 0, W, 0],
        [0, W, 0, 0, 0, 0, 0, 0, 0, 0, 0, 0, 0, W, 0],
        [0, W, 0, 0, 0, 0, 0, 0, 0, 0, 0, 0, 0, W, 0],
        [0, W, 0, 0, 0, 0, 0, 0, 0, 0, 0, 0, 0, W, 0],
        [0, W, 0, 0, 0, 0, 0, 0, 0, 0, 0, 0, 0, W, 0],
        [0, W, 0, 0, 0, 0, 0, 0, 0, 0, 0, 0, 0, W, 0],
        [0, W, 0, 0, 0, 0, 0, 0, 0, 0, 0, 0, 0, W, 0],
        [0, W, 0, 0, 0, 0, 0, 0, 0, 0, 0, 0, 0, W, 0],
        [0, W, 0, 0, 0, 0, 0, 0, 0, 0, 0, 0, 0, W, 0],
        [0, W, 0, 0, 0, 0, 0, 0, 0, 0, 0, 0, 0, W, 0],
        [0, W, 0, 0, 0, 0, 0, 0, 0, 0, 0, 0, 0, W, 0],
        [0, W, 0, 0, 0, 0, 0, 0, 0, 0, 0, 0, 0, W, 0],
        [0, W, 0, 0, 0, 0, 0, 0, 0, 0, 0, 0, 0, W, 0],
        [0, W, W, W, W, W, W, W, W, W, W, W, W, W, 0],
        [0, 0, 0, 0, 0, 0, 0, 0, 0, 0, 0, 0, 0, 0, 0],
    ];
    assert(field_view(r) =~~= initial_field());
    r
}

impl Game {
    /// A new game: an empty field, score and line count zero, nothing held, and
    /// the first piece spawned from a queue filled from two fresh bags.
    pub fn new() -> (r: Game)
        ensures
            field_view(r.field) == initial_field(),
            r.pos == spawn_position(),
            r.hold is None,
            !r.holded,
            r.score == 0,
            r.line == 0,
            game_colored(r),
            exists|b1: Seq<BlockShape>, b2: Seq<BlockShape>|
                is_bag(b1) && is_bag(b2) && r.block == b1[0] && #[trigger] r.next@ == b1.drop_first().push(
                    b2[0],
                ) && #[trigger] r.next_buf@ == b2.drop_first(),
    {
        let mut game = Game {
            field: new_field(),
            pos: Position::init(),
            block: block_shape(random_block_kind()),
            hold: None,
            holded: false,
            next: gen_block_7(),
            next_buf: gen_block_7(),
            score: 0,
            line: 0,
        };
        let ghost b1 = game.next@;
        let ghost b2 = game.next_buf@;
        proof {
            lemma_bag_colored(b1);
            lemma_bag_colored(b2);
            assert(is_catalog_shape(b1[0]));
            lemma_catalog_colored(game.block);
        }
        let _ = spawn_block(&mut game);
        assert(game.next@ == b1.drop_first().push(b2[0]) && game.next_buf@ == b2.drop_first());
        game
    }
}

/// Whether the piece would come to rest if dropped from `pos`: the
/// precondition of `ghost_pos` and `hard_drop`.
pub fn can_land(field: &Field, pos: &Position, block: &BlockShape) -> (r: bool)
    ensures
        r == lands_below(*field, *pos, *block),
{
    let ghost fv = field_view(*field);
    let ghost m = shape_view(*block);
    if pos.y >= FIELD_HEIGHT {
        assert forall|d: int| d >= 1 implies !#[trigger] collides_at(fv, pos.x as int, pos.y + d, m) by {
            lemma_below_field_free(fv, pos.x as int, pos.y + d, m);
        }
        return false;
    }
    let mut y: usize = pos.y + 1;
    while y < FIELD_HEIGHT
        invariant
            pos.y < y <= FIELD_HEIGHT,
            fv == field_view(*field),
            m == shape_view(*block),
            forall|d: int| 1 <= d && pos.y + d < y ==> !#[trigger] collides_at(fv, pos.x as int, pos.y + d, m),
        decreases FIELD_HEIGHT - y,
    {
        if is_collision(field, &Position { x: pos.x, y: y }, block) {
            assert(collides_at(fv, pos.x as int, pos.y + (y - pos.y), m));
            return true;
        }
        y = y + 1;
    }
    assert forall|d: int| d >= 1 implies !#[trigger] collides_at(fv, pos.x as int, pos.y + d, m) by {
        if pos.y + d >= FIELD_HEIGHT {
            lemma_below_field_free(fv, pos.x as int, pos.y + d, m);
        }
    }
    false
}

/// Whether every occupied cell of `block` at `pos` lies inside the field: the
/// precondition of `fix_block`.
pub fn fits_in_field(pos: &Position, block: &BlockShape) -> (r: bool)
    ensures
        r == in_field(*pos, *block),
{
    let mut y: usize = 0;
    while y < 4
        invariant
            0 <= y <= 4,
            forall|yy: int, xx: int|
                0 <= yy < y && 0 <= xx < 4 && #[trigger] block[yy][xx] != NONE ==> pos.y + yy < FIELD_HEIGHT
                    && pos.x + xx < FIELD_WIDTH,
        decreases 4 - y,
    {
        let mut x: usize = 0;
        while x < 4
            invariant
                0 <= y < 4,
                0 <= x <= 4,
                forall|yy: int, xx: int|
                    0 <= yy < y && 0 <= xx < 4 && #[trigger] block[yy][xx] != NONE ==> pos.y + yy
                        < FIELD_HEIGHT && pos.x + xx < FIELD_WIDTH,
                forall|xx: int|
                    0 <= xx < x && #[trigger] block[y as int][xx] != NONE ==> pos.y + y < FIELD_HEIGHT && pos.x
                        + xx < FIELD_WIDTH,
            decreases 4 - x,
        {
            if block[y][x] != NONE && (pos.y >= FIELD_HEIGHT - y || pos.x >= FIELD_WIDTH - x) {
                return false;
            }
            x = x + 1;
        }
        y = y + 1;
    }
    true
}

} // verus!
