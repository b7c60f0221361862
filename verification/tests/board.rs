use tetris::control::Control;
use tetris::game::Game;
use tetris::grid::Grid;
use tetris::tetramino::Tetramino;
use tetris::variant::Variant;

fn occupied(grid: &Grid) -> Vec<(usize, usize)> {
    match &grid.current {
        Some(t) => t.to_coords().coords,
        None => panic!("No tetramino on the grid"),
    }
}

#[test]
fn test_game_init_board_is_empty() {
    let game = Game::init();
    assert_eq!(game.grid.h, 20);
    assert_eq!(game.grid.l, 10);
    assert!(game.grid.current.is_none());
    assert_eq!(game.grid.grid.len(), 20);
    for row in &game.grid.grid {
        assert_eq!(row, &vec![0; 10]);
    }
}

#[test]
fn test_no_piece_descends() {
    let g = Grid::init();
    assert!(g.is_not_collide());
}

#[test]
fn test_spawned_i_occupies_and_descends() {
    let mut g = Grid::init();
    g.attach(Tetramino::init_with_offset(Variant::I, (0, 4)));
    assert_eq!(occupied(&g), vec![(0, 4), (0, 5), (0, 6), (0, 7)]);
    assert!(g.is_not_collide());
    g.gravitate();
    assert_eq!(occupied(&g), vec![(1, 4), (1, 5), (1, 6), (1, 7)]);
}

#[test]
fn test_piece_in_final_row_cannot_descend() {
    let mut g = Grid::init();
    g.attach(Tetramino::init_with_offset(Variant::O, (18, 3)));
    assert!(!g.is_not_collide());
}

#[test]
fn test_piece_above_terrain_cannot_descend() {
    let mut g = Grid::init();
    g.grid[10][4] = 1;
    g.attach(Tetramino::init_with_offset(Variant::O, (8, 4)));
    assert!(!g.is_not_collide());
}

#[test]
fn test_partially_blocked_piece_cannot_descend() {
    let mut g = Grid::init();
    // terrain under only one of the two bottom cells
    g.grid[10][4] = 1;
    g.attach(Tetramino::init_with_offset(Variant::O, (8, 3)));
    assert!(!g.is_not_collide());
}

#[test]
fn test_free_piece_descends() {
    let mut g = Grid::init();
    g.grid[19][4] = 1;
    g.attach(Tetramino::init_with_offset(Variant::O, (8, 3)));
    assert!(g.is_not_collide());
}

#[test]
fn test_left_at_wall_is_noop() {
    let mut g = Grid::init();
    g.attach(Tetramino::init_with_offset(Variant::O, (5, 0)));
    g.mv(Control::LEFT);
    let t = g.current.as_ref().unwrap();
    assert_eq!((t.y, t.x), (5, 0));
}

#[test]
fn test_right_at_wall_is_noop() {
    let mut g = Grid::init();
    g.attach(Tetramino::init_with_offset(Variant::O, (5, 8)));
    g.mv(Control::RIGHT);
    let t = g.current.as_ref().unwrap();
    assert_eq!((t.y, t.x), (5, 8));
}

#[test]
fn test_left_blocked_by_terrain_is_noop() {
    let mut g = Grid::init();
    g.grid[5][2] = 1;
    g.attach(Tetramino::init_with_offset(Variant::O, (5, 3)));
    g.mv(Control::LEFT);
    let t = g.current.as_ref().unwrap();
    assert_eq!((t.y, t.x), (5, 3));
}

#[test]
fn test_right_blocked_by_terrain_is_noop() {
    let mut g = Grid::init();
    g.grid[6][5] = 1;
    g.attach(Tetramino::init_with_offset(Variant::O, (5, 3)));
    g.mv(Control::RIGHT);
    let t = g.current.as_ref().unwrap();
    assert_eq!((t.y, t.x), (5, 3));
}

#[test]
fn test_free_lateral_moves() {
    let mut g = Grid::init();
    g.attach(Tetramino::init_with_offset(Variant::O, (5, 3)));
    g.mv(Control::LEFT);
    {
        let t = g.current.as_ref().unwrap();
        assert_eq!((t.y, t.x), (5, 2));
    }
    g.mv(Control::RIGHT);
    g.mv(Control::RIGHT);
    let t = g.current.as_ref().unwrap();
    assert_eq!((t.y, t.x), (5, 4));
}

#[test]
fn test_down_command_descends() {
    let mut g = Grid::init();
    g.attach(Tetramino::init_with_offset(Variant::O, (5, 3)));
    g.mv(Control::DOWN);
    let t = g.current.as_ref().unwrap();
    assert_eq!((t.y, t.x), (6, 3));
}

#[test]
fn test_rotate_in_open_space() {
    let mut g = Grid::init();
    g.attach(Tetramino::init_with_offset(Variant::I, (0, 4)));
    g.mv(Control::UP);
    let t = g.current.as_ref().unwrap();
    assert_eq!(t.coors, vec![vec![1], vec![1], vec![1], vec![1]]);
    assert_eq!((t.y, t.x), (0, 4));
}

#[test]
fn test_rotate_near_right_wall_kicks_back() {
    let mut g = Grid::init();
    let mut t = Tetramino::init(Variant::I);
    t.rotate(&tetris::control::Rotation::CLOCKWISE);
    t.x = 9;
    g.attach(t);
    g.mv(Control::UP);
    let t = g.current.as_ref().unwrap();
    assert_eq!(t.coors, vec![vec![1, 1, 1, 1]]);
    assert_eq!((t.y, t.x), (0, 6));
}

#[test]
fn test_snapshot_bakes_and_clear_erases() {
    let mut g = Grid::init();
    g.attach(Tetramino::init_with_offset(Variant::O, (18, 3)));
    g.snapshot();
    assert_eq!(g.grid[18][3], 1);
    assert_eq!(g.grid[18][4], 1);
    assert_eq!(g.grid[19][3], 1);
    assert_eq!(g.grid[19][4], 1);
    assert_eq!(g.grid[18][5], 0);
    g.clear();
    for row in &g.grid {
        assert_eq!(row, &vec![0; 10]);
    }
}

#[test]
fn test_lock_and_clear_shifts_rows() {
    let mut g = Grid::init();
    for c in 0..10 {
        g.grid[19][c] = 1;
    }
    g.grid[18][0] = 1;
    g.grid[18][1] = 1;
    g.detach();
    assert!(g.current.is_none());
    assert_eq!(g.grid[19], vec![1, 1, 0, 0, 0, 0, 0, 0, 0, 0]);
    assert_eq!(g.grid[0], vec![0; 10]);
    assert_eq!(g.grid[18], vec![0; 10]);
}

#[test]
fn test_detach_without_full_rows_keeps_terrain() {
    let mut g = Grid::init();
    g.grid[19][0] = 1;
    g.grid[17][9] = 1;
    g.detach();
    assert_eq!(g.grid[19][0], 1);
    assert_eq!(g.grid[17][9], 1);
    let filled: usize = g.grid.iter().flatten().map(|&v| v as usize).sum();
    assert_eq!(filled, 2);
}

#[test]
fn test_two_full_rows_clear_at_once() {
    let mut g = Grid::init();
    for c in 0..10 {
        g.grid[19][c] = 1;
        g.grid[18][c] = 1;
    }
    g.grid[17][3] = 1;
    g.detach();
    assert_eq!(g.grid[19], vec![0, 0, 0, 1, 0, 0, 0, 0, 0, 0]);
    for r in 0..19 {
        assert_eq!(g.grid[r], vec![0; 10]);
    }
}

#[test]
fn test_o_piece_drop_completes_bottom_row() {
    let mut g = Grid::init();
    for c in 0..10 {
        if c != 3 && c != 4 {
            g.grid[19][c] = 1;
        }
    }
    g.attach(Tetramino::init_with_offset(Variant::O, (0, 3)));
    while g.is_not_collide() {
        g.gravitate();
    }
    {
        let t = g.current.as_ref().unwrap();
        assert_eq!((t.y, t.x), (18, 3));
    }
    g.snapshot();
    assert_eq!(g.grid[19], vec![1; 10]);
    g.detach();
    // the full bottom row is cleared; everything above, here the upper
    // half of the O piece, shifts down by exactly one row
    assert_eq!(g.grid[19], vec![0, 0, 0, 1, 1, 0, 0, 0, 0, 0]);
    for r in 0..19 {
        assert_eq!(g.grid[r], vec![0; 10]);
    }
}

#[test]
fn test_render_empty_board() {
    let g = Grid::init();
    let line = " 0".repeat(10);
    let mut expected = String::new();
    for _ in 0..20 {
        expected.push_str(&line);
        expected.push('\n');
    }
    expected.push('\n');
    assert_eq!(g.render(), expected);
}

#[test]
fn test_render_marks_locked_cells() {
    let mut g = Grid::init();
    g.grid[0][0] = 1;
    let rendered = g.render();
    assert!(rendered.starts_with("[] 0"));
}

#[test]
fn test_spawn_and_attach_anchors_at_top_centre() {
    let mut g = Grid::init();
    g.spawn_and_attach();
    let t = g.current.as_ref().unwrap();
    assert_eq!(t.y, 0);
    assert_eq!(t.x, 4);
    let filled: usize = t
        .coors
        .iter()
        .flatten()
        .map(|&v| v as usize)
        .sum();
    assert_eq!(filled, 4);
}
