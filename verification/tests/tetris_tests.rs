use grid_games::tetris::{Direction, Pos, Shape, Tetris};

#[test]
fn tetris_test() {
    let mut tetris = Tetris::new(10, 30);
    tetris.tick();
    tetris.tick();
    tetris.tick();

    println!("{:#?}", tetris);
}

#[test]
fn grid_positions_are_row_major() {
    let tetris = Tetris::new(4, 3);
    let cells = tetris.iter_positions();
    assert_eq!(cells.len(), 12);
    assert_eq!(cells[0], Pos(0, 0));
    assert_eq!(cells[5], Pos(1, 1));
    assert_eq!(cells[11], Pos(3, 2));
}

#[test]
fn fresh_board_has_a_falling_shape() {
    let tetris = Tetris::new(10, 20);
    let mut covered = 0;
    for p in tetris.iter_positions() {
        if tetris.get(p).is_some() {
            covered += 1;
        }
    }
    // Exactly the four cells of the spawned tetromino are filled.
    assert_eq!(covered, 4);
    assert!(!tetris.is_line_full(0));
    assert!(!tetris.is_line_full(19));
}

#[test]
fn shapes_translate_rotate_and_collide() {
    let s = Shape::from_kind(0);
    assert_eq!(s.typ(), "I");
    assert!(s.has_position(Pos(0, 1)));
    assert!(!s.has_position(Pos(0, 0)));
    let t = s.translated(2, 3);
    assert!(t.has_position(Pos(2, 4)));
    assert!(!t.collides_with(&s) || s.has_position(Pos(2, 4)));
    let r = s.rotated();
    // The I piece lies on x == anchor.x after a quarter turn.
    assert!(r.has_position(Pos(1, 0)));
    assert!(r.has_position(Pos(1, 3)));
    let o = Shape::from_kind(1);
    assert_eq!(o.typ(), "O");
    assert!(s.collides_with(&o));
}

#[test]
fn removing_a_line_drops_rows_above() {
    let mut s = Shape::from_kind(1);
    // O occupies (1,0),(2,0),(1,1),(2,1); removing row 1 drops row 0.
    s.remove_line(1);
    assert!(s.has_position(Pos(1, 1)));
    assert!(s.has_position(Pos(2, 1)));
    assert!(!s.has_position(Pos(1, 0)));
    assert!(!s.has_position(Pos(2, 0)));
}

#[test]
fn ticking_moves_the_shape_down() {
    let mut tetris = Tetris::new(8, 20);
    let before = tetris.iter_positions();
    let mut top: Vec<Pos> = Vec::new();
    for p in before {
        if tetris.get(p).is_some() {
            top.push(p);
        }
    }
    tetris.tick();
    for p in &top {
        let moved = Pos(p.0, p.1 + 1);
        assert!(tetris.get(moved).is_some());
    }
}

#[test]
fn shifting_respects_walls() {
    let mut tetris = Tetris::new(6, 12);
    // Push far past the wall; the shape must stay on the board.
    for _ in 0..12 {
        tetris.shift(Direction::Left);
    }
    for _ in 0..24 {
        tetris.shift(Direction::Right);
    }
    for p in tetris.iter_positions() {
        if tetris.get(p).is_some() {
            assert!(p.0 >= 0 && p.0 < 6 && p.1 >= 0 && p.1 < 12);
        }
    }
    tetris.rotate();
    let mut covered = 0;
    for p in tetris.iter_positions() {
        if tetris.get(p).is_some() {
            covered += 1;
        }
    }
    assert_eq!(covered, 4);
}

#[test]
fn a_cramped_game_is_eventually_lost() {
    let mut tetris = Tetris::new(4, 4);
    for _ in 0..200 {
        tetris.tick();
    }
    assert!(tetris.is_lost());
}
