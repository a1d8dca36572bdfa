use minesweeper_solver::board::{Board, GameState};
use minesweeper_solver::field::{Field, FieldState};
use minesweeper_solver::generator::GenerationPolicy;
use minesweeper_solver::solver::Solver;

fn cell(value: u8, mine: bool) -> Field {
    Field { value, field_state: FieldState::Closed, mine, x: 0, z: 0 }
}

/// A 2x2 board with one mine at (1,1): the three safe cells all hint 1.
fn corner_mine_board() -> Board {
    let fields = vec![
        vec![cell(1, false), cell(1, false)],
        vec![cell(1, false), cell(9, true)],
    ];
    Board { fields, mine_count: 1, x_size: 2, z_size: 2, game_state: GameState::PreGame }
}

fn drive(board: Board) -> Board {
    let mut solver = Solver::new(board);
    while solver.board.game_state == GameState::Playing {
        solver.solve_next_step();
    }
    solver.board
}

#[test]
fn new_board_starts_blank() {
    let b = Board::new(3, 4, 5);
    assert_eq!(b.x_size, 4);
    assert_eq!(b.z_size, 5);
    assert_eq!(b.mine_count, 3);
    assert!(matches!(b.game_state, GameState::PreGame));
    for row in &b.fields {
        for f in row {
            assert_eq!(f.field_state, FieldState::Closed);
            assert!(!f.mine);
            assert_eq!(f.value, 0);
        }
    }
}

#[test]
fn reveal_floods_zero_region_and_ring() {
    // no mines at all: revealing one cell must open the whole board
    let mut b = Board::new(0, 3, 3);
    b.open_field(1, 1);
    for row in &b.fields {
        for f in row {
            assert_eq!(f.field_state, FieldState::Open);
        }
    }
    assert_eq!(b.game_state, GameState::Playing);
}

#[test]
fn reveal_stops_at_numbered_ring() {
    // one mine in the corner of a 1x4 strip: revealing the far end floods up
    // to the numbered neighbor of the mine and no further
    let fields = vec![vec![cell(9, true), cell(1, false), cell(0, false), cell(0, false)]];
    let mut b = Board { fields, mine_count: 1, x_size: 1, z_size: 4, game_state: GameState::PreGame };
    b.open_field(0, 3);
    assert_eq!(b.fields[0][3].field_state, FieldState::Open);
    assert_eq!(b.fields[0][2].field_state, FieldState::Open);
    assert_eq!(b.fields[0][1].field_state, FieldState::Open);
    assert_eq!(b.fields[0][0].field_state, FieldState::Closed);
}

#[test]
fn reveal_is_a_no_op_on_open_and_flagged_cells() {
    let mut b = corner_mine_board();
    b.open_field(0, 0);
    b.flag_field(1, 1);
    let before: Vec<Vec<Field>> = b.fields.clone();
    b.open_field(0, 0);
    b.open_field(1, 1);
    assert_eq!(b.fields, before);
}

#[test]
fn revealing_a_mine_fails_the_game() {
    let mut b = corner_mine_board();
    b.open_field(1, 1);
    assert_eq!(b.game_state, GameState::GameoverFailed);
    assert_eq!(b.fields[1][1].field_state, FieldState::Closed);
}

#[test]
fn flag_only_flags_closed_cells() {
    let mut b = corner_mine_board();
    b.open_field(0, 0);
    b.flag_field(0, 0);
    assert_eq!(b.fields[0][0].field_state, FieldState::Open);
    b.flag_field(1, 1);
    assert_eq!(b.fields[1][1].field_state, FieldState::Flagged);
}

#[test]
fn deduction_solves_the_corner_mine_board() {
    // revealing (0,0) shows hint 1; flagging the mine lets the deduction pass
    // open (0,1) and (1,0), reaching the solved verdict with one flag
    let mut b = corner_mine_board();
    b.open_field(0, 0);
    assert_eq!(b.fields[0][0].value, 1);
    b.flag_field(1, 1);
    let done = drive(b);
    assert_eq!(done.game_state, GameState::GameoverSolved);
    assert_eq!(done.fields[0][1].field_state, FieldState::Open);
    assert_eq!(done.fields[1][0].field_state, FieldState::Open);
    assert_eq!(done.fields[1][1].field_state, FieldState::Flagged);
    let flags: usize = done
        .fields
        .iter()
        .flatten()
        .filter(|f| f.field_state == FieldState::Flagged)
        .count();
    assert_eq!(flags, 1);
}

#[test]
fn deduction_pass_flags_only_true_mines() {
    // a numbered 1 cell whose single closed neighbor is the mine
    let fields = vec![vec![cell(0, false), cell(1, false), cell(9, true)]];
    let mut b = Board { fields, mine_count: 1, x_size: 1, z_size: 3, game_state: GameState::PreGame };
    b.open_field(0, 0);
    let mut solver = Solver::new(b);
    solver.solve_single(0, 1);
    assert_eq!(solver.board.fields[0][2].field_state, FieldState::Flagged);
    assert!(solver.board.fields[0][2].mine);
}

#[test]
fn backtracking_leaves_ambiguous_cells_alone() {
    // after revealing only the 1 in the corner, any of the three closed cells
    // could be the mine: the exhaustive search must not resolve any of them
    let mut b = corner_mine_board();
    b.open_field(0, 0);
    let mut solver = Solver::new(b);
    solver.tank_solver();
    assert_eq!(solver.board.fields[0][1].field_state, FieldState::Closed);
    assert_eq!(solver.board.fields[1][0].field_state, FieldState::Closed);
    assert_eq!(solver.board.fields[1][1].field_state, FieldState::Closed);
    // and driving the whole solver gives up rather than guess
    let done = drive(solver.board);
    assert_eq!(done.game_state, GameState::GameoverFailed);
}

#[test]
fn solver_is_deterministic_on_a_fixture() {
    let make = || {
        let fields = vec![
            vec![cell(9, true), cell(1, false), cell(0, false)],
            vec![cell(1, false), cell(1, false), cell(0, false)],
            vec![cell(0, false), cell(0, false), cell(0, false)],
        ];
        let mut b = Board {
            fields,
            mine_count: 1,
            x_size: 3,
            z_size: 3,
            game_state: GameState::PreGame,
        };
        b.open_field(2, 2);
        b
    };
    let first = drive(make());
    let second = drive(make());
    assert_eq!(first.game_state, second.game_state);
    assert_eq!(first.game_state, GameState::GameoverSolved);
    for x in 0..3 {
        for z in 0..3 {
            assert_eq!(
                first.fields[x][z].field_state == FieldState::Flagged,
                second.fields[x][z].field_state == FieldState::Flagged
            );
        }
    }
    assert_eq!(first.fields[0][0].field_state, FieldState::Flagged);
}

#[test]
fn generated_hints_count_mine_neighbors() {
    let mut b = Board::new(4, 5, 5);
    let ok = b.generate_board(GenerationPolicy::Basic, 2, 2, 100_000);
    assert!(ok);
    assert!(!b.fields[2][2].mine);
    let mines: usize = b.fields.iter().flatten().filter(|f| f.mine).count();
    assert_eq!(mines, 4);
    for x in 0..5i32 {
        for z in 0..5i32 {
            let f = &b.fields[x as usize][z as usize];
            assert_eq!(f.field_state, FieldState::Closed);
            if !f.mine {
                let mut n = 0u8;
                for dx in -1..=1i32 {
                    for dz in -1..=1i32 {
                        let (xx, zz) = (x + dx, z + dz);
                        if (dx != 0 || dz != 0)
                            && xx >= 0
                            && xx < 5
                            && zz >= 0
                            && zz < 5
                            && b.fields[xx as usize][zz as usize].mine
                        {
                            n += 1;
                        }
                    }
                }
                assert_eq!(f.value, n);
            } else {
                assert_eq!(f.value, 9);
            }
        }
    }
}

#[test]
fn no_guess_generation_yields_a_solvable_board() {
    let mut b = Board::new(3, 5, 5);
    let ok = b.generate_board(GenerationPolicy::NoGuessing, 2, 2, 100_000);
    assert!(ok);
    assert_eq!(b.game_state, GameState::PreGame);
    for row in &b.fields {
        for f in row {
            assert_eq!(f.field_state, FieldState::Closed);
        }
    }
    // the start cell and its whole ring are mine-free
    for x in 1..=3usize {
        for z in 1..=3usize {
            assert!(!b.fields[x][z].mine);
        }
    }
    // driving the solver from the start cell reaches the solved verdict
    b.open_field(2, 2);
    let done = drive(b);
    assert_eq!(done.game_state, GameState::GameoverSolved);
}

#[test]
fn field_text_renders_states_and_digits() {
    let f = Field { value: 3, field_state: FieldState::Open, mine: false, x: 0, z: 0 };
    assert_eq!(Board::get_field_text(&f), "3");
    let c = Field { value: 3, field_state: FieldState::Closed, mine: false, x: 0, z: 0 };
    assert_eq!(Board::get_field_text(&c), "_");
    let g = Field { value: 3, field_state: FieldState::Flagged, mine: false, x: 0, z: 0 };
    assert_eq!(Board::get_field_text(&g), "F");
}

#[test]
fn helper_queries_read_the_board() {
    let mut b = corner_mine_board();
    b.open_field(0, 0);
    let solver = Solver::new(b);
    assert!(!solver.is_out_of_bounds(0, 0));
    assert!(solver.is_out_of_bounds(-1, 0));
    assert!(solver.is_out_of_bounds(0, 2));
    assert_eq!(Solver::get_field_value(&solver.board.fields, 0, 0), 1);
    assert_eq!(Solver::get_field_value(&solver.board.fields, 0, 1), -2);
    assert_eq!(solver.count_surrounding_by_type(0, 0, FieldState::Closed), 3);
    assert!(solver.is_boundary(0, 1));
    assert!(solver.is_boundary(1, 1));
    assert!(!solver.is_boundary(0, 0));
    assert!(!solver.is_solved());
    let marks = vec![vec![false, true], vec![true, false]];
    assert_eq!(solver.count_in_field(&marks, 0, 0), 2);
    assert_eq!(solver.count_in_field(&marks, 1, 1), 2);
}

#[test]
fn segregation_keeps_linked_blocks_together() {
    // two mines far apart on a strip: the frontier falls into two regions,
    // and blocks sharing a constraint always land in the same region
    let fields = vec![vec![
        cell(9, true),
        cell(1, false),
        cell(0, false),
        cell(0, false),
        cell(0, false),
        cell(1, false),
        cell(9, true),
    ]];
    let mut b = Board { fields, mine_count: 2, x_size: 1, z_size: 7, game_state: GameState::PreGame };
    b.open_field(0, 3);
    let solver = Solver::new(b);
    let blocks = vec![(0usize, 0usize), (0usize, 6usize)];
    let regions = solver.tank_segregate(&blocks);
    assert_eq!(regions.len(), 2);
    assert_eq!(regions[0], vec![(0, 0)]);
    assert_eq!(regions[1], vec![(0, 6)]);
}

#[test]
fn zero_mine_generation_always_succeeds() {
    // with no mines wanted, one attempt suffices and the first reveal
    // cascades over the whole board
    let mut b = Board::new(0, 4, 4);
    let ok = b.generate_board(GenerationPolicy::NoGuessing, 0, 0, 1);
    assert!(ok);
    for (x, row) in b.fields.iter().enumerate() {
        for (z, f) in row.iter().enumerate() {
            assert!(!f.mine);
            assert_eq!(f.value, 0);
            assert_eq!(f.field_state, FieldState::Closed);
            assert_eq!((f.x, f.z), (x, z));
        }
    }
    b.open_field(0, 0);
    let done = drive(b);
    assert_eq!(done.game_state, GameState::GameoverSolved);
}

#[test]
fn start_excluded_generation_spares_the_ring() {
    let mut b = Board::new(5, 4, 4);
    let ok = b.generate_board(GenerationPolicy::StartExcluded, 1, 1, 100_000);
    assert!(ok);
    for x in 0..=2usize {
        for z in 0..=2usize {
            assert!(!b.fields[x][z].mine);
        }
    }
    let mines: usize = b.fields.iter().flatten().filter(|f| f.mine).count();
    assert_eq!(mines, 5);
}

#[test]
fn deduction_sweep_reaches_a_fixpoint_or_a_verdict() {
    // a freshly revealed ambiguous corner: stepping never flags or opens
    // anything the constraints do not force
    let mut b = corner_mine_board();
    b.open_field(0, 0);
    let mut solver = Solver::new(b);
    solver.solve_next_step();
    assert_eq!(solver.board.fields[0][1].field_state, FieldState::Closed);
    assert_eq!(solver.board.fields[1][0].field_state, FieldState::Closed);
    assert_eq!(solver.board.fields[1][1].field_state, FieldState::Closed);
    assert!(!solver.made_changes);
}
