use std::collections::VecDeque;
use tetris::bag::{bag_from_order, gen_block_7};
use tetris::block::{block_shape, BlockKind, BlockShape};
use tetris::block_kind::{I, NONE, O, T, WALL};
use tetris::game::{
    can_land, erase_line, fits_in_field, fix_block, ghost_pos, gravity_tick, hard_drop, hold,
    is_collision, landing, landing_lines, line_score, move_block, new_field, place_block,
    rotate_left, rotate_right, rotated_left, rotated_right, spawn_block, super_rotation, Field,
    Game, Position, FIELD_HEIGHT, FIELD_WIDTH,
};

const KINDS: [BlockKind; 7] = [
    BlockKind::I,
    BlockKind::O,
    BlockKind::S,
    BlockKind::Z,
    BlockKind::J,
    BlockKind::L,
    BlockKind::T,
];

fn game_with(field: Field, block: BlockShape, pos: Position, next: Vec<BlockShape>, buf: Vec<BlockShape>) -> Game {
    Game {
        field,
        pos,
        block,
        hold: None,
        holded: false,
        next: next.into_iter().collect::<VecDeque<_>>(),
        next_buf: buf.into_iter().collect::<VecDeque<_>>(),
        score: 0,
        line: 0,
    }
}

fn fill_row_except(field: &mut Field, y: usize, gap: usize) {
    for x in 2..FIELD_WIDTH - 2 {
        if x != gap {
            field[y][x] = T;
        }
    }
}

fn vertical_i() -> BlockShape {
    rotated_right(&block_shape(BlockKind::I))
}

#[test]
fn new_field_has_walls() {
    let f = new_field();
    assert_eq!(f[0][1], WALL);
    assert_eq!(f[0][13], WALL);
    assert_eq!(f[20][7], WALL);
    assert_eq!(f[5][7], NONE);
    assert_eq!(f[21][7], NONE);
    assert_eq!(f[5][0], NONE);
    assert_eq!(f[5][14], NONE);
}

#[test]
fn catalog_shapes() {
    let i = block_shape(BlockKind::I);
    assert_eq!(i, [[0, 0, 0, 0], [0, 0, 0, 0], [I, I, I, I], [0, 0, 0, 0]]);
    let o = block_shape(BlockKind::O);
    assert_eq!(o, [[0, 0, 0, 0], [0, O, O, 0], [0, O, O, 0], [0, 0, 0, 0]]);
    assert_eq!(BlockKind::from_index(0), BlockKind::I);
    assert_eq!(BlockKind::from_index(5), BlockKind::L);
    assert_eq!(BlockKind::from_index(6), BlockKind::T);
}

#[test]
fn collision_against_walls_and_cells() {
    let mut f = new_field();
    let o = block_shape(BlockKind::O);
    assert!(!is_collision(&f, &Position { x: 4, y: 0 }, &o));
    // O occupies box columns 1 and 2: at x = 0 column 1 is the wall.
    assert!(is_collision(&f, &Position { x: 0, y: 0 }, &o));
    // rows 19 and 20: row 20 is the floor.
    assert!(is_collision(&f, &Position { x: 4, y: 18 }, &o));
    assert!(!is_collision(&f, &Position { x: 4, y: 17 }, &o));
    f[2][6] = T;
    assert!(is_collision(&f, &Position { x: 4, y: 0 }, &o));
    assert!(!is_collision(&f, &Position { x: 6, y: 0 }, &o));
}

#[test]
fn collision_ignores_cells_outside_field() {
    let f = new_field();
    let o = block_shape(BlockKind::O);
    assert!(!is_collision(&f, &Position { x: 100, y: 3 }, &o));
    assert!(!is_collision(&f, &Position { x: 4, y: 100 }, &o));
    assert!(!is_collision(&f, &Position { x: usize::MAX, y: usize::MAX }, &o));
}

#[test]
fn rotation_four_times_is_identity() {
    for k in KINDS {
        let b = block_shape(k);
        let mut r = b;
        let mut l = b;
        for _ in 0..4 {
            r = rotated_right(&r);
            l = rotated_left(&l);
        }
        assert_eq!(r, b);
        assert_eq!(l, b);
        assert_eq!(rotated_left(&rotated_right(&b)), b);
        assert_eq!(rotated_right(&rotated_left(&b)), b);
    }
}

#[test]
fn rotation_moves_cells() {
    let i = block_shape(BlockKind::I);
    let r = rotated_right(&i);
    assert_eq!(r, [[0, I, 0, 0], [0, I, 0, 0], [0, I, 0, 0], [0, I, 0, 0]]);
    let l = rotated_left(&i);
    assert_eq!(l, [[0, 0, I, 0], [0, 0, I, 0], [0, 0, I, 0], [0, 0, I, 0]]);
}

#[test]
fn bag_holds_each_kind_once() {
    for _ in 0..50 {
        let bag = gen_block_7();
        assert_eq!(bag.len(), 7);
        for k in KINDS {
            let shape = block_shape(k);
            assert_eq!(bag.iter().filter(|b| **b == shape).count(), 1);
        }
    }
}

#[test]
fn bag_is_shuffled() {
    let ordered: Vec<BlockShape> = KINDS.iter().map(|k| block_shape(*k)).collect();
    let mut seen_other = false;
    let mut first_counts = [0usize; 7];
    for _ in 0..200 {
        let bag: Vec<BlockShape> = gen_block_7().into_iter().collect();
        if bag != ordered {
            seen_other = true;
        }
        let k = ordered.iter().position(|s| *s == bag[0]).unwrap();
        first_counts[k] += 1;
    }
    assert!(seen_other);
    for c in first_counts {
        assert!(c > 0);
    }
}

#[test]
fn move_block_rejects_collisions() {
    let o = block_shape(BlockKind::O);
    let mut g = game_with(new_field(), o, Position { x: 4, y: 0 }, vec![o], vec![]);
    move_block(&mut g, Position { x: 5, y: 0 });
    assert_eq!(g.pos, Position { x: 5, y: 0 });
    move_block(&mut g, Position { x: 0, y: 0 });
    assert_eq!(g.pos, Position { x: 5, y: 0 });
}

#[test]
fn ghost_and_hard_drop_rest_on_floor() {
    let o = block_shape(BlockKind::O);
    let f = new_field();
    let p = Position { x: 4, y: 0 };
    assert!(can_land(&f, &p, &o));
    assert_eq!(ghost_pos(&f, &p, &o), Position { x: 4, y: 17 });
    let mut g = game_with(f, o, p, vec![o], vec![]);
    hard_drop(&mut g);
    assert_eq!(g.pos, Position { x: 4, y: 17 });
    assert!(!can_land(&new_field(), &Position { x: 4, y: 30 }, &o));
}

#[test]
fn super_rotation_tries_up_right_down_left() {
    let o = block_shape(BlockKind::O);
    let mut f = new_field();
    // O at (4, 5) covers rows 6-7, columns 5-6.
    f[7][5] = T;
    assert_eq!(super_rotation(&f, &Position { x: 4, y: 5 }, &o), Ok(Position { x: 4, y: 4 }));
    let mut f2 = new_field();
    f2[5][5] = T;
    f2[7][5] = T;
    assert_eq!(super_rotation(&f2, &Position { x: 4, y: 5 }, &o), Ok(Position { x: 5, y: 5 }));
    let mut f3 = new_field();
    for y in 0..20 {
        for x in 2..13 {
            f3[y][x] = T;
        }
    }
    assert_eq!(super_rotation(&f3, &Position { x: 4, y: 5 }, &o), Err(()));
}

#[test]
fn rotate_kicks_off_wall_or_stays() {
    let i = block_shape(BlockKind::I);
    // vertical I in box column 1 at x = 0 sits on the wall column; a right
    // turn from horizontal there would collide, so the kick moves it.
    let v = vertical_i();
    let mut g = game_with(new_field(), v, Position { x: 1, y: 5 }, vec![i], vec![]);
    rotate_left(&mut g);
    // the horizontal I at x = 1 covers columns 1-4: the wall; up also, right works.
    assert_eq!(g.block, i);
    assert_eq!(g.pos, Position { x: 2, y: 5 });
    let mut full = new_field();
    for y in 0..20 {
        for x in 2..13 {
            if x != 3 {
                full[y][x] = T;
            }
        }
    }
    let mut g2 = game_with(full, v, Position { x: 2, y: 5 }, vec![i], vec![]);
    rotate_right(&mut g2);
    assert_eq!(g2.block, v);
    assert_eq!(g2.pos, Position { x: 2, y: 5 });
}

#[test]
fn erase_line_counts_and_shifts() {
    let mut f = new_field();
    assert_eq!(erase_line(&mut f), 0);
    assert_eq!(f, new_field());
    fill_row_except(&mut f, 19, 0);
    fill_row_except(&mut f, 18, 0);
    f[17][4] = T;
    assert_eq!(erase_line(&mut f), 2);
    assert_eq!(f[19][4], T);
    assert_eq!(f[19][5], NONE);
    assert_eq!(f[17][4], NONE);
}

#[test]
fn line_score_table() {
    assert_eq!(line_score(0), 0);
    assert_eq!(line_score(1), 100);
    assert_eq!(line_score(2), 200);
    assert_eq!(line_score(3), 400);
    assert_eq!(line_score(4), 800);
}

#[test]
fn fix_block_writes_cells() {
    let o = block_shape(BlockKind::O);
    let mut g = game_with(new_field(), o, Position { x: 4, y: 3 }, vec![o], vec![]);
    assert!(fits_in_field(&g.pos, &g.block));
    fix_block(&mut g);
    assert_eq!(g.field[4][5], O);
    assert_eq!(g.field[5][6], O);
    assert_eq!(g.field[4][4], NONE);
    assert!(!fits_in_field(&Position { x: 13, y: 0 }, &o));
}

fn score_for_lines(n: usize) -> (usize, usize) {
    let v = vertical_i();
    let mut f = new_field();
    // the I fills column 7 of rows 16-19; the lowest n rows are full otherwise.
    for y in 16..20 {
        fill_row_except(&mut f, y, 7);
        if y < 20 - n {
            f[y][3] = NONE;
        }
    }
    let o = block_shape(BlockKind::O);
    let mut g = game_with(f, v, Position { x: 6, y: 16 }, vec![o, o], vec![o]);
    assert!(landing(&mut g).is_ok());
    (g.score, g.line)
}

#[test]
fn landing_scores_by_table() {
    assert_eq!(score_for_lines(0), (0, 0));
    assert_eq!(score_for_lines(1), (100, 1));
    assert_eq!(score_for_lines(2), (200, 2));
    assert_eq!(score_for_lines(3), (400, 3));
    assert_eq!(score_for_lines(4), (800, 4));
}

#[test]
fn single_line_clear_scenario() {
    let v = vertical_i();
    let o = block_shape(BlockKind::O);
    let mut f = new_field();
    fill_row_except(&mut f, 19, 7);
    let mut g = game_with(f, v, Position { x: 6, y: 0 }, vec![o, o], vec![o]);
    hard_drop(&mut g);
    assert_eq!(g.pos, Position { x: 6, y: 16 });
    assert!(landing(&mut g).is_ok());
    assert_eq!(g.score, 100);
    assert_eq!(g.line, 1);
    // rows moved down by one: the I's cells now stand in rows 17-19.
    for y in 17..20 {
        assert_eq!(g.field[y][7], I);
        assert_eq!(g.field[y][8], NONE);
    }
    assert_eq!(g.field[16][7], NONE);
    for x in 2..13 {
        assert_eq!(g.field[1][x], NONE);
    }
    assert!(!g.holded);
}

#[test]
fn next_queue_refills_from_fresh_bag() {
    let o = block_shape(BlockKind::O);
    let t = block_shape(BlockKind::T);
    let mut g = game_with(new_field(), o, Position { x: 4, y: 0 }, vec![o, o, o], vec![t, t]);
    assert!(spawn_block(&mut g).is_ok());
    assert_eq!((g.next.len(), g.next_buf.len()), (3, 1));
    assert!(spawn_block(&mut g).is_ok());
    assert_eq!((g.next.len(), g.next_buf.len()), (3, 0));
    assert_eq!(g.next[1], t);
    assert_eq!(g.next[2], t);
    assert!(spawn_block(&mut g).is_ok());
    assert_eq!((g.next.len(), g.next_buf.len()), (3, 6));
    assert_eq!(g.pos, Position { x: 4, y: 0 });
    let mut kinds: Vec<BlockShape> = g.next_buf.iter().copied().collect();
    kinds.push(g.next[2]);
    for k in KINDS {
        let shape = block_shape(k);
        assert_eq!(kinds.iter().filter(|b| **b == shape).count(), 1);
    }
}

#[test]
fn spawn_onto_occupied_cell_fails() {
    let o = block_shape(BlockKind::O);
    let mut f = new_field();
    f[1][5] = T;
    let mut g = game_with(f, o, Position { x: 4, y: 10 }, vec![o, o], vec![o]);
    g.score = 300;
    g.line = 3;
    assert!(spawn_block(&mut g).is_err());
    assert_eq!(g.score, 300);
    assert_eq!(g.line, 3);
    assert_eq!(g.pos, Position { x: 4, y: 0 });
}

#[test]
fn hold_twice_swaps_once() {
    let o = block_shape(BlockKind::O);
    let t = block_shape(BlockKind::T);
    let i = block_shape(BlockKind::I);
    let mut g = game_with(new_field(), o, Position { x: 5, y: 3 }, vec![t, t], vec![i]);
    hold(&mut g);
    assert_eq!(g.hold, Some(o));
    assert_eq!(g.block, t);
    assert!(g.holded);
    let next_len = g.next.len();
    hold(&mut g);
    assert_eq!(g.hold, Some(o));
    assert_eq!(g.block, t);
    assert_eq!(g.next.len(), next_len);
}

#[test]
fn hold_swaps_with_held_piece() {
    let o = block_shape(BlockKind::O);
    let t = block_shape(BlockKind::T);
    let mut g = game_with(new_field(), o, Position { x: 6, y: 3 }, vec![t], vec![]);
    g.hold = Some(t);
    hold(&mut g);
    assert_eq!(g.block, t);
    assert_eq!(g.hold, Some(o));
    assert_eq!(g.pos, Position { x: 4, y: 0 });
    assert_eq!(g.next.len(), 1);
}

#[test]
fn new_game_starts_clean() {
    let g = Game::new();
    assert_eq!(g.score, 0);
    assert_eq!(g.line, 0);
    assert!(g.hold.is_none());
    assert!(!g.holded);
    assert_eq!(g.pos, Position::init());
    assert_eq!(g.next.len(), 7);
    assert_eq!(g.next_buf.len(), 6);
    assert_eq!(g.field, new_field());
    assert_eq!(FIELD_HEIGHT, 22);
    let _ = tetris::block::random_block_kind();
}

#[test]
fn bag_from_order_follows_order() {
    let bag = bag_from_order(&vec![6, 5, 4, 3, 2, 1, 0]);
    assert_eq!(bag.len(), 7);
    for (i, k) in KINDS.iter().rev().enumerate() {
        assert_eq!(bag[i], block_shape(*k));
    }
    let bag2 = bag_from_order(&vec![1, 0, 2, 3, 4, 5, 6]);
    assert_eq!(bag2[0], block_shape(BlockKind::O));
    assert_eq!(bag2[1], block_shape(BlockKind::I));
}

#[test]
fn place_block_keeps_walls_and_fills_empty_cells() {
    let mut f = new_field();
    let o = block_shape(BlockKind::O);
    place_block(&mut f, &Position { x: 4, y: 10 }, &o);
    let base = new_field();
    for y in 0..FIELD_HEIGHT {
        for x in 0..FIELD_WIDTH {
            if base[y][x] != NONE {
                assert_eq!(f[y][x], base[y][x]);
            } else if f[y][x] != NONE {
                assert_eq!(f[y][x], O);
            }
        }
    }
    assert_eq!(f[11][5], O);
}

#[test]
fn gravity_tick_moves_or_lands() {
    let v = vertical_i();
    let o = block_shape(BlockKind::O);
    let mut f = new_field();
    fill_row_except(&mut f, 19, 7);
    let mut g = game_with(f, v, Position { x: 6, y: 15 }, vec![o, o], vec![o]);
    g.holded = true;
    assert!(gravity_tick(&mut g).is_ok());
    assert_eq!(g.pos, Position { x: 6, y: 16 });
    assert_eq!(g.score, 0);
    assert_eq!(landing_lines(&g), 1);
    assert!(gravity_tick(&mut g).is_ok());
    assert_eq!(g.score, 100);
    assert_eq!(g.line, 1);
    assert_eq!(g.pos, Position { x: 4, y: 0 });
    assert_eq!(g.block, o);
    assert!(!g.holded);
}

#[test]
fn rotate_left_then_right_restores_game() {
    let t = block_shape(BlockKind::T);
    let mut g = game_with(new_field(), t, Position { x: 6, y: 5 }, vec![t], vec![]);
    rotate_left(&mut g);
    assert_ne!(g.block, t);
    assert_eq!(g.pos, Position { x: 6, y: 5 });
    rotate_right(&mut g);
    assert_eq!(g.block, t);
    assert_eq!(g.pos, Position { x: 6, y: 5 });
    for _ in 0..4 {
        rotate_right(&mut g);
    }
    assert_eq!(g.block, t);
}
