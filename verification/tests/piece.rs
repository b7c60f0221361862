use tetris::control::Rotation::CLOCKWISE;
use tetris::tetramino::{Coords, Tetramino};
use tetris::utils::group_by;
use tetris::variant::Variant;

#[test]
fn test_transpose_t_shape() {
    let mut t = Tetramino::init(Variant::T);
    t.rotate(&CLOCKWISE);

    assert_eq!(t.coors, vec![vec![1, 0], vec![1, 1], vec![1, 0]])
}

#[test]
fn test_transpose_t_shape_twice() {
    let mut t = Tetramino::init(Variant::T);
    t.rotate(&CLOCKWISE);
    t.rotate(&CLOCKWISE);

    assert_eq!(t.coors, vec![vec![1, 1, 1], vec![0, 1, 0]])
}

#[test]
fn test_transpose_i_shape() {
    let mut t = Tetramino::init(Variant::I);
    t.rotate(&CLOCKWISE);

    assert_eq!(t.coors, vec![vec![1], vec![1], vec![1], vec![1]])
}

fn all_variants() -> Vec<Variant> {
    vec![
        Variant::O,
        Variant::I,
        Variant::S,
        Variant::Z,
        Variant::L,
        Variant::J,
        Variant::T,
    ]
}

#[test]
fn test_default_layouts_rectangular_with_four_cells() {
    for v in all_variants() {
        let layout = v.default_layout();
        assert!(!layout.is_empty());
        let width = layout[0].len();
        assert!(width >= 1);
        let mut ones = 0;
        for row in &layout {
            assert_eq!(row.len(), width);
            for &cell in row {
                assert!(cell == 0 || cell == 1);
                if cell == 1 {
                    ones += 1;
                }
            }
        }
        assert_eq!(ones, 4);
    }
}

#[test]
fn test_default_layout_stable_across_calls() {
    for v in all_variants() {
        assert_eq!(v.default_layout(), v.default_layout());
    }
}

#[test]
fn test_default_layout_exact_values() {
    assert_eq!(
        Variant::O.default_layout(),
        vec![vec![1, 1], vec![1, 1]]
    );
    assert_eq!(Variant::I.default_layout(), vec![vec![1, 1, 1, 1]]);
    assert_eq!(
        Variant::T.default_layout(),
        vec![vec![0, 1, 0], vec![1, 1, 1]]
    );
    assert_eq!(
        Variant::S.default_layout(),
        vec![vec![0, 1, 1], vec![1, 1, 0]]
    );
}

#[test]
fn test_rotate_dimensions_swap() {
    for v in all_variants() {
        let mut t = Tetramino::init(v);
        let n = t.height();
        let m = t.length();
        t.rotate(&CLOCKWISE);
        assert_eq!(t.height(), m);
        assert_eq!(t.length(), n);
    }
}

#[test]
fn test_rotate_four_times_restores_layout() {
    for v in all_variants() {
        let mut t = Tetramino::init(v);
        let original = t.coors.clone();
        for _ in 0..4 {
            t.rotate(&CLOCKWISE);
        }
        assert_eq!(t.coors, original);
    }
}

#[test]
fn test_rotate_i_alternates_between_two_states() {
    let mut t = Tetramino::init(Variant::I);
    let horizontal = t.coors.clone();
    t.rotate(&CLOCKWISE);
    let vertical = t.coors.clone();
    assert_ne!(vertical, horizontal);
    t.rotate(&CLOCKWISE);
    assert_eq!(t.coors, horizontal);
    t.rotate(&CLOCKWISE);
    assert_eq!(t.coors, vertical);
}

#[test]
fn test_init_with_offset_sets_anchor() {
    let t = Tetramino::init_with_offset(Variant::L, (3, 5));
    assert_eq!(t.y, 3);
    assert_eq!(t.x, 5);
    assert_eq!(t.coors, vec![vec![1, 0, 0], vec![1, 1, 1]]);
}

#[test]
fn test_init_random_covers_all_variants() {
    let catalog: Vec<Vec<Vec<u8>>> = all_variants()
        .into_iter()
        .map(|v| v.default_layout())
        .collect();
    let mut seen = vec![false; catalog.len()];
    for _ in 0..500 {
        let t = Tetramino::init_random((0, 4));
        assert_eq!(t.y, 0);
        assert_eq!(t.x, 4);
        let pos = catalog
            .iter()
            .position(|layout| *layout == t.coors)
            .expect("layout drawn from the catalog");
        seen[pos] = true;
    }
    assert!(seen.iter().all(|&s| s));
}

#[test]
fn test_to_coords_of_spawned_i() {
    let t = Tetramino::init_with_offset(Variant::I, (0, 4));
    let coords = t.to_coords();
    assert_eq!(coords.coords, vec![(0, 4), (0, 5), (0, 6), (0, 7)]);
}

#[test]
fn test_to_coords_of_t_shape() {
    let t = Tetramino::init_with_offset(Variant::T, (2, 3));
    let coords = t.to_coords();
    assert_eq!(coords.coords, vec![(2, 4), (3, 3), (3, 4), (3, 5)]);
}

#[test]
fn test_wall_kick_negative_offsets_are_noop() {
    let mut t = Tetramino::init_with_offset(Variant::O, (5, 5));
    t.wall_kick((-2, -3));
    assert_eq!(t.y, 5);
    assert_eq!(t.x, 5);
}

#[test]
fn test_wall_kick_positive_offsets_pull_back() {
    let mut t = Tetramino::init_with_offset(Variant::O, (3, 5));
    t.wall_kick((2, 1));
    assert_eq!(t.x, 3);
    assert_eq!(t.y, 2);
}

#[test]
fn test_wall_kick_mixed_offsets_apply_positive_only() {
    let mut t = Tetramino::init_with_offset(Variant::O, (3, 5));
    t.wall_kick((2, -1));
    assert_eq!(t.x, 3);
    assert_eq!(t.y, 3);
}

#[test]
fn test_bottoms_lefts_rights_of_t_shape() {
    let t = Tetramino::init_with_offset(Variant::T, (0, 0));
    let coords = t.to_coords();

    let mut bottoms = coords.bottoms();
    bottoms.sort();
    assert_eq!(bottoms, vec![(1, 0), (1, 1), (1, 2)]);

    let mut lefts = coords.lefts();
    lefts.sort();
    assert_eq!(lefts, vec![(0, 1), (1, 0)]);

    let mut rights = coords.rights();
    rights.sort();
    assert_eq!(rights, vec![(0, 1), (1, 2)]);
}

#[test]
fn test_bottoms_of_s_shape() {
    let t = Tetramino::init_with_offset(Variant::S, (0, 0));
    let mut bottoms = t.to_coords().bottoms();
    bottoms.sort();
    assert_eq!(bottoms, vec![(0, 2), (1, 0), (1, 1)]);
}

#[test]
fn test_group_by_column() {
    let cells = vec![(0, 1), (0, 2), (1, 1)];
    let mut groups = group_by(&cells, true);
    groups.sort();
    assert_eq!(
        groups,
        vec![(1, vec![(0, 1), (1, 1)]), (2, vec![(0, 2)])]
    );
}

#[test]
fn test_group_by_row() {
    let cells = vec![(0, 1), (0, 2), (1, 1)];
    let mut groups = group_by(&cells, false);
    groups.sort();
    assert_eq!(
        groups,
        vec![(0, vec![(0, 1), (0, 2)]), (1, vec![(1, 1)])]
    );
}

#[test]
fn test_coords_struct_is_plain_data() {
    let c = Coords {
        coords: vec![(4, 2)],
    };
    assert_eq!(c.bottoms(), vec![(4, 2)]);
}
