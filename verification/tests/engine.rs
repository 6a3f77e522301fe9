use match3::{Cell, CellGrid, Color};
use match3::scan::check_line;

fn n(k: Color) -> Cell {
    Cell::Normal(k)
}

fn grid(rows: Vec<Vec<Cell>>) -> CellGrid {
    CellGrid::from_rows(rows).expect("rectangular rows")
}

fn cells_of(g: &CellGrid) -> Vec<Vec<Cell>> {
    let mut out = Vec::new();
    let mut r = 0;
    while r < g.height() {
        out.push(g.row_vec(r));
        r += 1;
    }
    out
}

#[test]
fn scanner_finds_one_red_run() {
    // a 5-cell row: three reds, then blue, then green
    let line = vec![
        n(Color::Red),
        n(Color::Red),
        n(Color::Red),
        n(Color::Blue),
        n(Color::Green),
    ];
    let ms = check_line(0, &line);
    assert_eq!(ms.len(), 1);
    assert_eq!(ms[0].color, Color::Red);
    assert_eq!(ms[0].length, 3);
    assert_eq!(ms[0].outer_index, 0);
    assert_eq!(ms[0].inner_index, 3);
}

#[test]
fn scanner_trailing_run_and_empty_break() {
    // an empty cell always breaks a run
    let line = vec![
        n(Color::Blue),
        n(Color::Blue),
        Cell::Empty,
        n(Color::Blue),
        n(Color::Blue),
        n(Color::Blue),
    ];
    let ms = check_line(7, &line);
    assert_eq!(ms.len(), 1);
    assert_eq!(ms[0].color, Color::Blue);
    assert_eq!(ms[0].length, 3);
    assert_eq!(ms[0].outer_index, 7);
    assert_eq!(ms[0].inner_index, 6);
}

#[test]
fn scanner_two_runs_one_line() {
    let line = vec![
        n(Color::Red),
        n(Color::Red),
        n(Color::Red),
        n(Color::Green),
        n(Color::Green),
        n(Color::Green),
        n(Color::Green),
    ];
    let ms = check_line(2, &line);
    assert_eq!(ms.len(), 2);
    assert_eq!(ms[0].color, Color::Red);
    assert_eq!(ms[0].length, 3);
    assert_eq!(ms[0].inner_index, 3);
    assert_eq!(ms[1].color, Color::Green);
    assert_eq!(ms[1].length, 4);
    assert_eq!(ms[1].inner_index, 7);
}

#[test]
fn scanner_counts_marked_tiles_like_active_ones() {
    // a tile marked for removal still carries its color for matching
    let line = vec![
        n(Color::Red),
        Cell::Deleting(Color::Red),
        n(Color::Red),
        Cell::Empty,
    ];
    let ms = check_line(0, &line);
    assert_eq!(ms.len(), 1);
    assert_eq!(ms[0].length, 3);
    assert_eq!(ms[0].inner_index, 3);
}

#[test]
fn scanner_short_runs_do_not_match() {
    let line = vec![n(Color::Red), n(Color::Red), n(Color::Blue), n(Color::Blue)];
    let ms = check_line(0, &line);
    assert_eq!(ms.len(), 0);
}

#[test]
fn delete_single_run_of_four_scores_ten() {
    // a single horizontal run of length 4: score delta is 4 * 5 / 2 = 10
    let mut g = grid(vec![vec![
        n(Color::Red),
        n(Color::Red),
        n(Color::Red),
        n(Color::Red),
        n(Color::Blue),
    ]]);
    let found = g.delete_matches();
    assert!(found);
    assert_eq!(g.score(), 10);
    let row = g.row_vec(0);
    assert_eq!(
        row,
        vec![Cell::Empty, Cell::Empty, Cell::Empty, Cell::Empty, n(Color::Blue)]
    );
}

#[test]
fn delete_single_run_of_three_scores_six() {
    let mut g = grid(vec![vec![n(Color::Green), n(Color::Green), n(Color::Green)]]);
    assert!(g.delete_matches());
    assert_eq!(g.score(), 6);
}

#[test]
fn delete_crossing_runs_count_cells_twice() {
    // a vertical and a horizontal run of 3 sharing the center cell:
    // n = 3 + 3 = 6, score delta 6 * 7 / 2 = 21
    let b = n(Color::Blue);
    let r = n(Color::Red);
    let g0 = vec![
        vec![b, r, b],
        vec![r, r, r],
        vec![b, r, b],
    ];
    let mut g = grid(g0);
    assert!(g.delete_matches());
    assert_eq!(g.score(), 21);
    // the cross is gone, the corners stay
    assert_eq!(g.cell_at(0, 0), b);
    assert_eq!(g.cell_at(0, 1), Cell::Empty);
    assert_eq!(g.cell_at(1, 1), Cell::Empty);
    assert_eq!(g.cell_at(2, 2), b);
}

#[test]
fn delete_without_matches_scores_nothing() {
    let mut g = grid(vec![vec![n(Color::Red), n(Color::Blue), n(Color::Red)]]);
    let found = g.delete_matches();
    assert!(!found);
    assert_eq!(g.score(), 0);
}

#[test]
fn gravity_compacts_one_column() {
    // top to bottom: Empty, Blue, Empty, Red, Empty
    let mut g = grid(vec![
        vec![Cell::Empty],
        vec![n(Color::Blue)],
        vec![Cell::Empty],
        vec![n(Color::Red)],
        vec![Cell::Empty],
    ]);
    let moved = g.do_gravity();
    assert!(moved);
    assert_eq!(
        cells_of(&g),
        vec![
            vec![Cell::Empty],
            vec![Cell::Empty],
            vec![Cell::Empty],
            vec![n(Color::Blue)],
            vec![n(Color::Red)],
        ]
    );
}

#[test]
fn gravity_twice_moves_nothing_the_second_time() {
    let mut g = grid(vec![
        vec![n(Color::Red), Cell::Empty],
        vec![Cell::Empty, n(Color::Blue)],
        vec![n(Color::Green), Cell::Empty],
    ]);
    g.do_gravity();
    let before = cells_of(&g);
    let moved_again = g.do_gravity();
    assert!(!moved_again);
    assert_eq!(cells_of(&g), before);
}

#[test]
fn gravity_step_moves_each_token_one_row() {
    let mut g = grid(vec![
        vec![n(Color::Red)],
        vec![Cell::Empty],
        vec![Cell::Empty],
    ]);
    let moved = g.do_gravity_step();
    assert!(moved);
    assert_eq!(
        cells_of(&g),
        vec![vec![Cell::Empty], vec![n(Color::Red)], vec![Cell::Empty]]
    );
}

#[test]
fn swap_exchanges_and_swapping_back_restores() {
    let mut g = grid(vec![vec![n(Color::Red), n(Color::Blue)], vec![
        n(Color::Green),
        n(Color::Yellow),
    ]]);
    let before = cells_of(&g);
    g.swap(0, 0, 1, 1);
    assert_eq!(g.cell_at(0, 0), n(Color::Yellow));
    assert_eq!(g.cell_at(1, 1), n(Color::Red));
    g.swap(0, 0, 1, 1);
    assert_eq!(cells_of(&g), before);
}

#[test]
fn swap_with_itself_is_a_no_op() {
    let mut g = grid(vec![vec![n(Color::Red), n(Color::Blue)]]);
    let before = cells_of(&g);
    g.swap(0, 1, 0, 1);
    assert_eq!(cells_of(&g), before);
}

#[test]
fn swap_out_of_bounds_changes_nothing() {
    let mut g = grid(vec![vec![n(Color::Red), n(Color::Blue)]]);
    let before = cells_of(&g);
    g.swap(0, 0, 5, 7);
    assert_eq!(cells_of(&g), before);
    g.swap(9, 9, 0, 0);
    assert_eq!(cells_of(&g), before);
}

#[test]
fn count_matches_totals_rows_and_columns() {
    let b = n(Color::Blue);
    let r = n(Color::Red);
    let g = grid(vec![
        vec![b, r, b],
        vec![r, r, r],
        vec![b, r, b],
    ]);
    // one vertical and one horizontal run of red
    assert_eq!(g.count_matches(), 2);
}

#[test]
fn resolve_already_stable_grid_unchanged() {
    let g0 = vec![
        vec![n(Color::Red), n(Color::Blue)],
        vec![n(Color::Blue), n(Color::Red)],
    ];
    let mut g = grid(g0);
    let before = cells_of(&g);
    let (delta, stable, used) = g.resolve(&vec![]);
    assert!(stable);
    assert_eq!(delta, 0);
    assert_eq!(used, 0);
    assert_eq!(g.score(), 0);
    assert_eq!(cells_of(&g), before);
}

#[test]
fn resolve_cascade_is_deterministic_with_a_supply() {
    // one row of three reds collapses, and the supply refills it with a
    // stable arrangement
    let mut g = grid(vec![vec![n(Color::Red), n(Color::Red), n(Color::Red)]]);
    let supply = vec![Color::Blue, Color::Green, Color::Blue];
    let (delta, stable, used) = g.resolve(&supply);
    assert!(stable);
    assert_eq!(delta, 6);
    assert_eq!(used, 3);
    assert_eq!(g.score(), 6);
    assert_eq!(
        g.row_vec(0),
        vec![n(Color::Blue), n(Color::Green), n(Color::Blue)]
    );
}

#[test]
fn resolve_refill_only_consumes_into_the_grid() {
    // no match anywhere: resolution only fills the one vacancy, and the
    // consumed token stands in the grid
    let mut g = grid(vec![
        vec![Cell::Empty, n(Color::Red)],
        vec![n(Color::Blue), n(Color::Green)],
    ]);
    let (delta, stable, used) = g.resolve(&vec![Color::Yellow]);
    assert!(stable);
    assert_eq!(delta, 0);
    assert_eq!(used, 1);
    assert_eq!(g.cell_at(0, 0), n(Color::Yellow));
}

#[test]
fn resolve_reports_exhausted_supply() {
    let mut g = grid(vec![vec![n(Color::Red), n(Color::Red), n(Color::Red)]]);
    let (delta, stable, used) = g.resolve(&vec![Color::Blue]);
    assert!(!stable);
    assert_eq!(delta, 6);
    // failure is only ever reported with the whole supply consumed
    assert_eq!(used, 1);
    // the one token was placed, the other two cells are still vacant
    let row = g.row_vec(0);
    assert_eq!(row[0], n(Color::Blue));
    assert_eq!(row[1], Cell::Empty);
    assert_eq!(row[2], Cell::Empty);
}

#[test]
fn resolve_cascades_through_gravity() {
    // deleting the bottom row drops the reds together: a second pass fires
    let r = n(Color::Red);
    let b = n(Color::Blue);
    let g0 = vec![
        vec![r, b, r],
        vec![r, b, r],
        vec![b, b, b],
    ];
    let mut g = grid(g0);
    let supply = vec![Color::Blue, Color::Green, Color::Blue, Color::Yellow, Color::Red];
    let (delta, stable, used) = g.resolve(&supply);
    assert!(stable);
    assert_eq!(used, 5);
    // one pass found the blue column and the blue row: n = 6, 6 * 7 / 2 = 21
    assert_eq!(delta, 21);
    assert_eq!(g.score(), 21);
    // stability: no matches and no vacancies
    assert_eq!(g.count_matches(), 0);
    for row in cells_of(&g) {
        for cell in row {
            assert!(matches!(cell, Cell::Normal(_)));
        }
    }
}

#[test]
fn best_move_with_no_gain_returns_zero_move() {
    // 2 by 2 grids can never form a run of three
    let mut g = grid(vec![
        vec![n(Color::Red), n(Color::Blue)],
        vec![n(Color::Blue), n(Color::Red)],
    ]);
    let before = cells_of(&g);
    let mv = g.best_move();
    assert_eq!(mv, (0, 0, 0, 0));
    assert_eq!(cells_of(&g), before);
}

#[test]
fn best_move_finds_the_winning_swap() {
    // swapping (0,2) with (1,2) lines up three reds on the top row
    let r = n(Color::Red);
    let b = n(Color::Blue);
    let g0 = vec![
        vec![r, r, b, b],
        vec![b, b, r, r],
    ];
    let mut g = grid(g0);
    let before = cells_of(&g);
    let mv = g.best_move();
    assert_eq!(cells_of(&g), before);
    // the first maximal candidate in scan order: swapping (0,1) with the
    // tile below lines up three blues on top and three reds below
    assert_eq!(mv, (0, 1, 1, 1));
}

#[test]
fn add_element_row_fills_top_vacancies_in_order() {
    let mut g = grid(vec![
        vec![Cell::Empty, n(Color::Red), Cell::Empty],
        vec![n(Color::Blue), n(Color::Blue), n(Color::Green)],
    ]);
    let supply = vec![Color::Yellow, Color::Green];
    let mut next = 0;
    let wanted = g.add_element_row(&supply, &mut next);
    assert!(wanted);
    assert_eq!(next, 2);
    assert_eq!(
        g.row_vec(0),
        vec![n(Color::Yellow), n(Color::Red), n(Color::Green)]
    );
}

#[test]
fn add_element_row_reports_full_top_row() {
    let mut g = grid(vec![vec![n(Color::Red), n(Color::Blue)]]);
    let mut next = 0;
    let wanted = g.add_element_row(&vec![Color::Green], &mut next);
    assert!(!wanted);
    assert_eq!(next, 0);
}

#[test]
fn new_grid_has_requested_shape_and_active_tiles() {
    let g = CellGrid::new(4, 6);
    assert_eq!(g.height(), 4);
    assert_eq!(g.width(), 6);
    assert_eq!(g.score(), 0);
    let mut r = 0;
    while r < 4 {
        for cell in g.row_vec(r) {
            assert!(cell.is_some());
        }
        r += 1;
    }
}

#[test]
fn from_rows_rejects_ragged_rows() {
    let ragged = vec![vec![n(Color::Red)], vec![n(Color::Red), n(Color::Blue)]];
    assert!(CellGrid::from_rows(ragged).is_none());
}

#[test]
fn cell_helpers_behave() {
    let mut c = n(Color::Red);
    assert!(c.is_some());
    c.to_deleting();
    assert_eq!(c, Cell::Deleting(Color::Red));
    assert!(!c.is_some());
    assert!(!Cell::Empty.is_some());

    assert_eq!(n(Color::Blue).fmt_cell(), "B ");
    assert_eq!(n(Color::Red).fmt_cell(), "R ");
    assert_eq!(n(Color::Green).fmt_cell(), "G ");
    assert_eq!(n(Color::Yellow).fmt_cell(), "Y ");
    assert_eq!(Cell::Empty.fmt_cell(), "  ");
    assert_eq!(Cell::Deleting(Color::Blue).fmt_cell(), "\u{2588} ");
}

#[test]
fn random_cells_are_always_active() {
    for _ in 0..64 {
        assert!(Cell::new_random().is_some());
    }
}
