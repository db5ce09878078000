use quotation_align::grid::{cells_to_extend_diagonal, path_cells, Pos, Step};

#[test]
fn cells_to_extend_diagonal_square_cases() {
    assert_eq!(cells_to_extend_diagonal(0, 0, 1, 1), 0);
    assert_eq!(cells_to_extend_diagonal(2, 2, 3, 3), 0);
    assert_eq!(cells_to_extend_diagonal(1, 2, 3, 3), 1);
    assert_eq!(cells_to_extend_diagonal(0, 2, 3, 3), 2);
    assert_eq!(cells_to_extend_diagonal(2, 0, 3, 3), 2);
}

#[test]
fn cells_to_extend_diagonal_non_square_cases() {
    assert_eq!(cells_to_extend_diagonal(0, 0, 1, 3), 0);
    assert_eq!(cells_to_extend_diagonal(0, 1, 1, 3), 0);
    assert_eq!(cells_to_extend_diagonal(0, 2, 1, 3), 0);
    assert_eq!(cells_to_extend_diagonal(0, 0, 2, 3), 0);
    assert_eq!(cells_to_extend_diagonal(1, 1, 2, 3), 0);
    assert_eq!(cells_to_extend_diagonal(1, 0, 2, 3), 1);
    assert_eq!(cells_to_extend_diagonal(0, 2, 2, 3), 1);
}

#[test]
fn cells_to_extend_diagonal_wide_grid_is_transposed() {
    // a wide grid is read as its transpose
    assert_eq!(cells_to_extend_diagonal(0, 1, 3, 2), cells_to_extend_diagonal(1, 0, 2, 3));
    assert_eq!(cells_to_extend_diagonal(3, 0, 4, 2), 1);
    assert_eq!(cells_to_extend_diagonal(0, 1, 4, 2), 1);
    for x in 0..6 {
        for y in 0..4 {
            assert_eq!(cells_to_extend_diagonal(x, y, 6, 4), cells_to_extend_diagonal(y, x, 4, 6));
        }
    }
}

#[test]
fn cells_to_extend_diagonal_zero_on_longest_band() {
    // a 3 by 5 grid has its longest diagonals at offsets 0, -1 and -2
    for d in 0..3 {
        assert_eq!(cells_to_extend_diagonal(0, d, 3, 5), 0);
    }
    assert_eq!(cells_to_extend_diagonal(0, 3, 3, 5), 1);
    assert_eq!(cells_to_extend_diagonal(1, 0, 3, 5), 1);
}

#[test]
fn start_positions() {
    assert_eq!(Pos::start(true), Pos { x: -1, y: -1 });
    assert_eq!(Pos::start(false), Pos { x: 0, y: 0 });
    assert!(Pos::start(true).is_flexible_start());
    assert!(!Pos::start(false).is_flexible_start());
}

#[test]
fn reached_on_last_row_or_column() {
    assert!(Pos { x: 2, y: 0 }.reached(3, 4));
    assert!(Pos { x: 0, y: 3 }.reached(3, 4));
    assert!(!Pos { x: 1, y: 2 }.reached(3, 4));
    assert!(!Pos { x: -1, y: -1 }.reached(3, 4));
    // a single cell is reached at once
    assert!(Pos { x: 0, y: 0 }.reached(1, 1));
}

#[test]
fn end_cells_only_on_the_border() {
    assert_eq!(Pos { x: 1, y: 1 }.end_cells(3, 3), None);
    assert_eq!(Pos { x: 2, y: 2 }.end_cells(3, 3), Some(0));
    assert_eq!(Pos { x: 2, y: 0 }.end_cells(3, 3), Some(2));
}

#[test]
fn successors_of_a_cell() {
    let steps = Pos { x: 0, y: 0 }.successors(3, 3);
    assert_eq!(
        steps,
        vec![
            Step { to: Pos { x: 1, y: 1 }, start_cells: None, end_cells: None },
            Step { to: Pos { x: 1, y: 0 }, start_cells: None, end_cells: None },
            Step { to: Pos { x: 0, y: 1 }, start_cells: None, end_cells: None },
        ]
    );
    let steps = Pos { x: 1, y: 0 }.successors(3, 3);
    assert_eq!(steps[0], Step { to: Pos { x: 2, y: 1 }, start_cells: None, end_cells: Some(1) });
    assert_eq!(steps[1], Step { to: Pos { x: 2, y: 0 }, start_cells: None, end_cells: Some(2) });
    assert_eq!(steps[2], Step { to: Pos { x: 1, y: 1 }, start_cells: None, end_cells: None });
}

#[test]
fn successors_of_the_flexible_start() {
    let steps = Pos { x: -1, y: -1 }.successors(2, 3);
    let cells: Vec<(i32, i32)> = steps.iter().map(|s| (s.to.x, s.to.y)).collect();
    assert_eq!(cells, vec![(0, 0), (1, 0), (0, 1), (0, 2)]);
    let starts: Vec<Option<i32>> = steps.iter().map(|s| s.start_cells).collect();
    assert_eq!(starts, vec![Some(0), Some(1), Some(0), Some(1)]);
    let ends: Vec<Option<i32>> = steps.iter().map(|s| s.end_cells).collect();
    assert_eq!(ends, vec![None, Some(1), None, Some(1)]);
}

#[test]
fn path_cells_drops_the_flexible_start() {
    let path = vec![Pos { x: -1, y: -1 }, Pos { x: 0, y: 2 }, Pos { x: 1, y: 3 }];
    assert_eq!(path_cells(&path, true), vec![(0, 2), (1, 3)]);
    let path = vec![Pos { x: 0, y: 0 }, Pos { x: 1, y: 1 }];
    assert_eq!(path_cells(&path, false), vec![(0, 0), (1, 1)]);
}
