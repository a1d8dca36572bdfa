use rand::Rng;
use vstd::prelude::*;

use crate::board::{adjacent, grid_count, ind, lemma_blank_region_reach, lemma_grid_count_cell_update,
    mine_pred, row_count, Board, GameState};
use crate::field::{Field, FieldState};
use crate::solver::Solver;

verus! {

/// How mines are laid out: drawn freely except on the start cell, drawn
/// outside the whole ring around the start cell, or drawn ring-free and then
/// kept only when the whole board can be solved without guessing.
#[derive(Clone, Copy, Debug, PartialEq, Eq, Structural)]
pub enum GenerationPolicy {
    Basic,
    StartExcluded,
    NoGuessing,
}

/// A board with no mines placed yet: everything closed and hint-free.
pub open spec fn blank(b: Board) -> bool {
    &&& b.wf()
    &&& b.game_state == GameState::PreGame
    &&& forall|i: int, j: int|
        b.in_bounds(i, j) ==> (#[trigger] b.cell(i, j)).value == 0 && !b.cell(i, j).mine && b.cell(
            i,
            j,
        ).field_state == FieldState::Closed
}

/// A board ready to play: consistent hints, exactly the promised number of
/// mines each carrying the mine sentinel, and every cell still closed.
pub open spec fn generated(b: Board) -> bool {
    &&& b.wf()
    &&& b.game_state == GameState::PreGame
    &&& b.hints_consistent()
    &&& b.mine_total() == b.mine_count
    &&& forall|i: int, j: int|
        b.in_bounds(i, j) ==> (#[trigger] b.cell(i, j)).field_state == FieldState::Closed && (
        b.cell(i, j).mine ==> b.cell(i, j).value == 9)
}

/// Relies on rand::thread_rng and rand::Rng::gen_range over `0..bound`: the
/// draw falls in the half-open range and the range is not empty, so the call
/// does not panic. Nothing more is assumed of the draw, since it depends on
/// the generator's state.
#[verifier::external_body]
fn random_below(bound: i32) -> (r: i32)
    requires
        bound > 0,
    ensures
        0 <= r < bound,
{
    rand::thread_rng().gen_range(0..bound)
}

/// Placing a mine raises every neighbor's true mine count by exactly one.
proof fn lemma_place_shifts_counts(b1: Board, b2: Board, x: int, z: int)
    requires
        b1.wf(),
        b2.wf(),
        b2.x_size == b1.x_size,
        b2.z_size == b1.z_size,
        b1.in_bounds(x, z),
        !b1.cell(x, z).mine,
        b2.cell(x, z).mine,
        forall|i: int, j: int|
            b1.in_bounds(i, j) && !(i == x && j == z) ==> #[trigger] b2.cell(i, j) == b1.cell(i, j),
    ensures
        forall|i: int, j: int|
            #![trigger b2.mine_neighbors(i, j)]
            b2.mine_neighbors(i, j) == b1.mine_neighbors(i, j) + ind(adjacent(i, j, x, z)),
{
    assert forall|a: int, c: int|
        ind(#[trigger] b2.mine_at(a, c)) == ind(b1.mine_at(a, c)) + ind(a == x && c == z) by {
        if b1.in_bounds(a, c) && !(a == x && c == z) {
            assert(b2.cell(a, c) == b1.cell(a, c));
        }
    }
}

/// A row on which a predicate holds nowhere counts none, and a row counting
/// none satisfies it nowhere.
proof fn lemma_row_count_zero(r: Seq<Field>, p: spec_fn(Field) -> bool)
    ensures
        (forall|k: int| 0 <= k < r.len() ==> !p(#[trigger] r[k])) <==> row_count(r, p) == 0,
    decreases r.len(),
{
    crate::board::lemma_row_count_nonneg(r, p);
    if r.len() != 0 {
        assert(forall|k: int| 0 <= k < r.len() - 1 ==> r.drop_last()[k] == r[k]);
        lemma_row_count_zero(r.drop_last(), p);
        crate::board::lemma_row_count_nonneg(r.drop_last(), p);
        assert(r.last() == r[r.len() - 1]);
        if row_count(r, p) == 0 {
            assert forall|k: int| 0 <= k < r.len() implies !p(#[trigger] r[k]) by {
                if k < r.len() - 1 {
                    assert(r.drop_last()[k] == r[k]);
                }
            }
        }
    }
}

/// The same both ways over a whole grid.
proof fn lemma_grid_count_zero(g: Seq<Vec<Field>>, p: spec_fn(Field) -> bool)
    ensures
        (forall|i: int, j: int| 0 <= i < g.len() && 0 <= j < g[i]@.len() ==> !p(#[trigger] g[i]@[j]))
            <==> grid_count(g, p) == 0,
    decreases g.len(),
{
    crate::board::lemma_grid_count_nonneg(g, p);
    if g.len() != 0 {
        let n = g.len() - 1;
        assert(forall|i: int| 0 <= i < n ==> g.drop_last()[i] == g[i]);
        lemma_grid_count_zero(g.drop_last(), p);
        crate::board::lemma_grid_count_nonneg(g.drop_last(), p);
        lemma_row_count_zero(g[n]@, p);
        crate::board::lemma_row_count_nonneg(g[n]@, p);
        assert(g.last() == g[n]);
        if grid_count(g, p) == 0 {
            assert forall|i: int, j: int|
                0 <= i < g.len() && 0 <= j < g[i]@.len() implies !p(#[trigger] g[i]@[j]) by {
                if i < n {
                    assert(g.drop_last()[i] == g[i]);
                } else {
                    assert(g[n]@[j] == g[i]@[j]);
                }
            }
        }
    }
}

/// Two boards of one shape with mines on the same cells hold the same total.
proof fn lemma_same_mines_total(b1: Board, b2: Board)
    requires
        b1.wf(),
        b2.wf(),
        b2.x_size == b1.x_size,
        b2.z_size == b1.z_size,
        forall|i: int, j: int|
            b1.in_bounds(i, j) ==> (#[trigger] b2.cell(i, j)).mine == b1.cell(i, j).mine,
    ensures
        b2.mine_total() == b1.mine_total(),
{
    assert forall|i: int, j: int|
        0 <= i < b2.fields@.len() && 0 <= j < b2.fields@[i]@.len() && mine_pred()(
            #[trigger] b2.fields@[i]@[j],
        ) implies mine_pred()(b1.fields@[i]@[j]) by {
        assert(b2.cell(i, j).mine == b1.cell(i, j).mine);
    }
    assert forall|i: int, j: int|
        0 <= i < b1.fields@.len() && 0 <= j < b1.fields@[i]@.len() && mine_pred()(
            #[trigger] b1.fields@[i]@[j],
        ) implies mine_pred()(b2.fields@[i]@[j]) by {
        assert(b2.cell(i, j).mine == b1.cell(i, j).mine);
    }
    crate::board::lemma_grid_count_mono2(b2.fields@, b1.fields@, mine_pred());
    crate::board::lemma_grid_count_mono2(b1.fields@, b2.fields@, mine_pred());
}

/// Two boards of one shape whose cells agree on mines and hints agree on
/// every true mine count, on the mine total, and on hint consistency.
proof fn lemma_same_layout(b1: Board, b2: Board)
    requires
        b1.wf(),
        b2.wf(),
        b2.x_size == b1.x_size,
        b2.z_size == b1.z_size,
        forall|i: int, j: int|
            b1.in_bounds(i, j) ==> (#[trigger] b2.cell(i, j)).mine == b1.cell(i, j).mine
                && b2.cell(i, j).value == b1.cell(i, j).value,
    ensures
        forall|i: int, j: int|
            #![trigger b2.mine_neighbors(i, j)]
            b2.mine_neighbors(i, j) == b1.mine_neighbors(i, j),
        b2.mine_total() == b1.mine_total(),
        b1.hints_consistent() ==> b2.hints_consistent(),
{
    assert forall|a: int, c: int| #[trigger] b2.mine_at(a, c) == b1.mine_at(a, c) by {
        if b1.in_bounds(a, c) {
            assert(b2.cell(a, c).mine == b1.cell(a, c).mine);
        }
    }
    assert forall|i: int, j: int|
        0 <= i < b2.fields@.len() && 0 <= j < b2.fields@[i]@.len() && mine_pred()(
            #[trigger] b2.fields@[i]@[j],
        ) implies mine_pred()(b1.fields@[i]@[j]) by {
        assert(b2.cell(i, j).mine == b1.cell(i, j).mine);
    }
    assert forall|i: int, j: int|
        0 <= i < b1.fields@.len() && 0 <= j < b1.fields@[i]@.len() && mine_pred()(
            #[trigger] b1.fields@[i]@[j],
        ) implies mine_pred()(b2.fields@[i]@[j]) by {
        assert(b2.cell(i, j).mine == b1.cell(i, j).mine);
    }
    crate::board::lemma_grid_count_mono2(b2.fields@, b1.fields@, mine_pred());
    crate::board::lemma_grid_count_mono2(b1.fields@, b2.fields@, mine_pred());
    if b1.hints_consistent() {
        assert forall|i: int, j: int|
            b2.in_bounds(i, j) && !(#[trigger] b2.cell(i, j)).mine implies b2.cell(i, j).value
            == b2.mine_neighbors(i, j) by {
            assert(!b1.cell(i, j).mine);
            assert(b1.cell(i, j).value == b1.mine_neighbors(i, j));
        }
    }
}

/// Writes each cell's own coordinates into it, leaving all else untouched.
pub fn set_cords(board: &mut Board)
    requires
        old(board).wf(),
    ensures
        final(board).wf(),
        final(board).x_size == old(board).x_size,
        final(board).z_size == old(board).z_size,
        final(board).mine_count == old(board).mine_count,
        final(board).game_state == old(board).game_state,
        forall|i: int, j: int|
            old(board).in_bounds(i, j) ==> #[trigger] final(board).cell(i, j) == (Field {
                x: i as usize,
                z: j as usize,
                ..old(board).cell(i, j)
            }),
    {
        let xs: usize = board.x_size as usize;
        let zs: usize = board.z_size as usize;
        let mut x: usize = 0;
        while x < xs
            invariant
                board.wf(),
                xs == board.x_size,
                zs == board.z_size,
                board.x_size == old(board).x_size,
                board.z_size == old(board).z_size,
                board.mine_count == old(board).mine_count,
                board.game_state == old(board).game_state,
                x <= xs,
                forall|i: int, j: int|
                    old(board).in_bounds(i, j) && i < x ==> #[trigger] board.cell(i, j) == (Field {
                        x: i as usize,
                        z: j as usize,
                        ..old(board).cell(i, j)
                    }),
                forall|i: int, j: int|
                    old(board).in_bounds(i, j) && i >= x ==> #[trigger] board.cell(i, j) == old(
                        board,
                    ).cell(i, j),
            decreases xs - x,
        {
            let mut z: usize = 0;
            while z < zs
                invariant
                    board.wf(),
                    xs == board.x_size,
                    zs == board.z_size,
                    board.x_size == old(board).x_size,
                    board.z_size == old(board).z_size,
                    board.mine_count == old(board).mine_count,
                    board.game_state == old(board).game_state,
                    x < xs,
                    z <= zs,
                    forall|i: int, j: int|
                        old(board).in_bounds(i, j) && i < x ==> #[trigger] board.cell(i, j) == (
                        Field { x: i as usize, z: j as usize, ..old(board).cell(i, j) }),
                    forall|j: int|
                        0 <= j < z ==> #[trigger] board.cell(x as int, j) == (Field {
                            x: x,
                            z: j as usize,
                            ..old(board).cell(x as int, j)
                        }),
                    forall|j: int|
                        z <= j < zs ==> #[trigger] board.cell(x as int, j) == old(board).cell(
                            x as int,
                            j,
                        ),
                    forall|i: int, j: int|
                        old(board).in_bounds(i, j) && i > x ==> #[trigger] board.cell(i, j) == old(
                            board,
                        ).cell(i, j),
                decreases zs - z,
            {
                let ghost pre = *board;
                let row: &mut Vec<Field> = &mut board.fields[x];
                let cell: &mut Field = &mut row[z];
                cell.x = x;
                cell.z = z;
                proof {
                    assert forall|i: int, j: int|
                        pre.in_bounds(i, j) && !(i == x as int && j == z as int)
                            implies #[trigger] board.cell(i, j) == pre.cell(i, j) by {}
                }
                z += 1;
            }
            x += 1;
        }
    }

/// Raises by one the hint of the cell at a position, if that position is on
/// the board and hides no mine.
fn bump_value(board: &mut Board, x: i32, z: i32)
    requires
        old(board).wf(),
        -1 <= x <= old(board).x_size,
        -1 <= z <= old(board).z_size,
        old(board).in_bounds(x as int, z as int) && !old(board).cell(x as int, z as int).mine
            ==> old(board).cell(x as int, z as int).value < 255,
    ensures
        final(board).wf(),
        final(board).x_size == old(board).x_size,
        final(board).z_size == old(board).z_size,
        final(board).mine_count == old(board).mine_count,
        final(board).game_state == old(board).game_state,
        forall|i: int, j: int|
            old(board).in_bounds(i, j) && !(i == x as int && j == z as int)
                ==> #[trigger] final(board).cell(i, j) == old(board).cell(i, j),
        old(board).in_bounds(x as int, z as int) ==> final(board).cell(x as int, z as int) == (
        Field {
            value: if old(board).cell(x as int, z as int).mine {
                old(board).cell(x as int, z as int).value
            } else {
                (old(board).cell(x as int, z as int).value + 1) as u8
            },
            ..old(board).cell(x as int, z as int)
        }),
{
    if x < 0 || x >= board.x_size || z < 0 || z >= board.z_size {
        return ;
    }
    let checked: &Vec<Field> = &board.fields[x as usize];
    if checked[z as usize].mine {
        return ;
    }
    let row: &mut Vec<Field> = &mut board.fields[x as usize];
    let cell: &mut Field = &mut row[z as usize];
    cell.value = cell.value + 1;
}

/// Recomputes the hints around a freshly placed mine: every neighbor that
/// hides no mine has its count of neighboring mines go up by one.
pub fn increment_values(board: &mut Board, x: i32, z: i32)
    requires
        old(board).wf(),
        old(board).in_bounds(x as int, z as int),
        forall|i: int, j: int|
            adjacent(i, j, x as int, z as int) && old(board).in_bounds(i, j) && !(
            #[trigger] old(board).cell(i, j)).mine ==> old(board).cell(i, j).value < 255,
    ensures
        final(board).wf(),
        final(board).x_size == old(board).x_size,
        final(board).z_size == old(board).z_size,
        final(board).mine_count == old(board).mine_count,
        final(board).game_state == old(board).game_state,
        forall|i: int, j: int|
            old(board).in_bounds(i, j) ==> #[trigger] final(board).cell(i, j) == (Field {
                value: if !old(board).cell(i, j).mine && adjacent(i, j, x as int, z as int) {
                    (old(board).cell(i, j).value + 1) as u8
                } else {
                    old(board).cell(i, j).value
                },
                ..old(board).cell(i, j)
            }),
{
    bump_value(board, x - 1, z - 1);
    bump_value(board, x - 1, z);
    bump_value(board, x - 1, z + 1);
    bump_value(board, x, z - 1);
    bump_value(board, x, z + 1);
    bump_value(board, x + 1, z - 1);
    bump_value(board, x + 1, z);
    bump_value(board, x + 1, z + 1);
}

/// Closes every cell again, keeping the mine layout and the hints.
fn reset_states(board: &mut Board)
    requires
        old(board).wf(),
    ensures
        final(board).wf(),
        final(board).x_size == old(board).x_size,
        final(board).z_size == old(board).z_size,
        final(board).mine_count == old(board).mine_count,
        final(board).game_state == GameState::PreGame,
        forall|i: int, j: int|
            old(board).in_bounds(i, j) ==> #[trigger] final(board).cell(i, j) == (Field {
                field_state: FieldState::Closed,
                ..old(board).cell(i, j)
            }),
{
    let xs: usize = board.x_size as usize;
    let zs: usize = board.z_size as usize;
    let mut x: usize = 0;
    while x < xs
        invariant
            board.wf(),
            xs == board.x_size,
            zs == board.z_size,
            board.x_size == old(board).x_size,
            board.z_size == old(board).z_size,
            board.mine_count == old(board).mine_count,
            x <= xs,
            forall|i: int, j: int|
                old(board).in_bounds(i, j) && i < x ==> #[trigger] board.cell(i, j) == (Field {
                    field_state: FieldState::Closed,
                    ..old(board).cell(i, j)
                }),
            forall|i: int, j: int|
                old(board).in_bounds(i, j) && i >= x ==> #[trigger] board.cell(i, j) == old(
                    board,
                ).cell(i, j),
        decreases xs - x,
    {
        let mut z: usize = 0;
        while z < zs
            invariant
                board.wf(),
                xs == board.x_size,
                zs == board.z_size,
                board.x_size == old(board).x_size,
                board.z_size == old(board).z_size,
                board.mine_count == old(board).mine_count,
                x < xs,
                z <= zs,
                forall|i: int, j: int|
                    old(board).in_bounds(i, j) && i < x ==> #[trigger] board.cell(i, j) == (Field {
                        field_state: FieldState::Closed,
                        ..old(board).cell(i, j)
                    }),
                forall|j: int|
                    0 <= j < z ==> #[trigger] board.cell(x as int, j) == (Field {
                        field_state: FieldState::Closed,
                        ..old(board).cell(x as int, j)
                    }),
                forall|j: int|
                    z <= j < zs ==> #[trigger] board.cell(x as int, j) == old(board).cell(
                        x as int,
                        j,
                    ),
                forall|i: int, j: int|
                    old(board).in_bounds(i, j) && i > x ==> #[trigger] board.cell(i, j) == old(
                        board,
                    ).cell(i, j),
            decreases zs - z,
        {
            let ghost pre = *board;
            let row: &mut Vec<Field> = &mut board.fields[x];
            let cell: &mut Field = &mut row[z];
            cell.field_state = FieldState::Closed;
            proof {
                assert forall|i: int, j: int|
                    pre.in_bounds(i, j) && !(i == x as int && j == z as int)
                        implies #[trigger] board.cell(i, j) == pre.cell(i, j) by {}
            }
            z += 1;
        }
        x += 1;
    }
    let ghost done = *board;
    board.game_state = GameState::PreGame;
    proof {
        assert forall|i: int, j: int| old(board).in_bounds(i, j) implies #[trigger] board.cell(
            i,
            j,
        ) == (Field { field_state: FieldState::Closed, ..old(board).cell(i, j) }) by {
            assert(done.cell(i, j) == (Field {
                field_state: FieldState::Closed,
                ..old(board).cell(i, j)
            }));
            assert(board.cell(i, j) == done.cell(i, j));
        }
    }
}

/// Strips the board back to a blank grid: no mines, no hints, all closed.
fn clear_board(board: &mut Board)
    requires
        old(board).wf(),
    ensures
        final(board).x_size == old(board).x_size,
        final(board).z_size == old(board).z_size,
        final(board).mine_count == old(board).mine_count,
        blank(*final(board)),
{
    let xs: usize = board.x_size as usize;
    let zs: usize = board.z_size as usize;
    let mut x: usize = 0;
    while x < xs
        invariant
            board.wf(),
            xs == board.x_size,
            zs == board.z_size,
            board.x_size == old(board).x_size,
            board.z_size == old(board).z_size,
            board.mine_count == old(board).mine_count,
            x <= xs,
            forall|i: int, j: int|
                board.in_bounds(i, j) && i < x ==> (#[trigger] board.cell(i, j)).value == 0
                    && !board.cell(i, j).mine && board.cell(i, j).field_state
                    == FieldState::Closed,
        decreases xs - x,
    {
        let mut z: usize = 0;
        while z < zs
            invariant
                board.wf(),
                xs == board.x_size,
                zs == board.z_size,
                board.x_size == old(board).x_size,
                board.z_size == old(board).z_size,
                board.mine_count == old(board).mine_count,
                x < xs,
                z <= zs,
                forall|i: int, j: int|
                    board.in_bounds(i, j) && i < x ==> (#[trigger] board.cell(i, j)).value == 0
                        && !board.cell(i, j).mine && board.cell(i, j).field_state
                        == FieldState::Closed,
                forall|j: int|
                    0 <= j < z ==> (#[trigger] board.cell(x as int, j)).value == 0 && !board.cell(
                        x as int,
                        j,
                    ).mine && board.cell(x as int, j).field_state == FieldState::Closed,
            decreases zs - z,
        {
            let ghost pre = *board;
            let row: &mut Vec<Field> = &mut board.fields[x];
            let cell: &mut Field = &mut row[z];
            cell.value = 0;
            cell.mine = false;
            cell.field_state = FieldState::Closed;
            proof {
                assert forall|i: int, j: int|
                    pre.in_bounds(i, j) && !(i == x as int && j == z as int)
                        implies #[trigger] board.cell(i, j) == pre.cell(i, j) by {}
            }
            z += 1;
        }
        x += 1;
    }
    let ghost done = *board;
    board.game_state = GameState::PreGame;
    proof {
        assert forall|i: int, j: int|
            board.in_bounds(i, j) implies (#[trigger] board.cell(i, j)).value == 0 && !board.cell(
            i,
            j,
        ).mine && board.cell(i, j).field_state == FieldState::Closed by {
            assert(done.cell(i, j).value == 0 && !done.cell(i, j).mine && done.cell(
                i,
                j,
            ).field_state == FieldState::Closed);
            assert(board.cell(i, j) == done.cell(i, j));
        }
    }
}

/// After a mine is planted and the hints around it recomputed, the hints are
/// exact again and the mine total has grown by one.
#[verifier::rlimit(100)]
proof fn lemma_place_hints(pre: Board, mid: Board, post: Board, x: int, z: int)
    requires
        pre.wf(),
        mid.wf(),
        post.wf(),
        mid.x_size == pre.x_size,
        mid.z_size == pre.z_size,
        post.x_size == pre.x_size,
        post.z_size == pre.z_size,
        pre.in_bounds(x, z),
        pre.hints_consistent(),
        !pre.cell(x, z).mine,
        forall|i: int, j: int|
            pre.in_bounds(i, j) && !(i == x && j == z) ==> #[trigger] mid.cell(i, j) == pre.cell(
                i,
                j,
            ),
        mid.cell(x, z).mine,
        mid.mine_total() == pre.mine_total() + 1,
        forall|i: int, j: int|
            mid.in_bounds(i, j) ==> #[trigger] post.cell(i, j) == (Field {
                value: if !mid.cell(i, j).mine && adjacent(i, j, x, z) {
                    (mid.cell(i, j).value + 1) as u8
                } else {
                    mid.cell(i, j).value
                },
                ..mid.cell(i, j)
            }),
        forall|i: int, j: int|
            adjacent(i, j, x, z) && pre.in_bounds(i, j) && !(#[trigger] pre.cell(i, j)).mine
                ==> pre.cell(i, j).value < 255,
    ensures
        post.hints_consistent(),
        post.mine_total() == pre.mine_total() + 1,
{
    lemma_place_shifts_counts(pre, mid, x, z);
    assert forall|a: int, c: int| #[trigger] post.mine_at(a, c) == mid.mine_at(a, c) by {
        if mid.in_bounds(a, c) {
            assert(post.cell(a, c).mine == mid.cell(a, c).mine);
        }
    }
    assert forall|i: int, j: int|
        #![trigger post.mine_neighbors(i, j)]
        post.mine_neighbors(i, j) == mid.mine_neighbors(i, j) by {}
    assert forall|i: int, j: int|
        post.in_bounds(i, j) && !(#[trigger] post.cell(i, j)).mine implies post.cell(i, j).value
        == post.mine_neighbors(i, j) by {
        assert(!(i == x && j == z));
        assert(mid.cell(i, j) == pre.cell(i, j));
        assert(pre.cell(i, j).value == pre.mine_neighbors(i, j));
        assert(post.mine_neighbors(i, j) == mid.mine_neighbors(i, j));
        assert(mid.mine_neighbors(i, j) == pre.mine_neighbors(i, j) + ind(adjacent(i, j, x, z)));
    }
    assert forall|i: int, j: int|
        mid.in_bounds(i, j) implies (#[trigger] post.cell(i, j)).mine == mid.cell(i, j).mine by {}
    lemma_same_mines_total(mid, post);
}

/// Plants one mine on a safe closed cell and recomputes the hints around it.
#[verifier::rlimit(100)]
#[verifier::spinoff_prover]
fn place_one_mine(board: &mut Board, x: i32, z: i32)
    requires
        old(board).wf(),
        old(board).in_bounds(x as int, z as int),
        !old(board).cell(x as int, z as int).mine,
        old(board).hints_consistent(),
        forall|i: int, j: int|
            old(board).in_bounds(i, j) ==> (#[trigger] old(board).cell(i, j)).field_state
                == FieldState::Closed && (old(board).cell(i, j).mine ==> old(board).cell(
                i,
                j,
            ).value == 9),
    ensures
        final(board).wf(),
        final(board).x_size == old(board).x_size,
        final(board).z_size == old(board).z_size,
        final(board).mine_count == old(board).mine_count,
        final(board).game_state == old(board).game_state,
        final(board).hints_consistent(),
        final(board).mine_total() == old(board).mine_total() + 1,
        forall|i: int, j: int|
            old(board).in_bounds(i, j) ==> (#[trigger] final(board).cell(i, j)).field_state
                == FieldState::Closed && (final(board).cell(i, j).mine ==> final(board).cell(
                i,
                j,
            ).value == 9),
        forall|i: int, j: int|
            old(board).in_bounds(i, j) && !(i == x as int && j == z as int)
                ==> (#[trigger] final(board).cell(i, j)).mine == old(board).cell(i, j).mine,
        final(board).cell(x as int, z as int).mine,
{
    let ghost pre = *board;
    let row: &mut Vec<Field> = &mut board.fields[x as usize];
    let cell: &mut Field = &mut row[z as usize];
    cell.mine = true;
    cell.value = 9;
    proof {
        let f = board.fields@[x as int]@[z as int];
        let newrow = board.fields@[x as int];
        assert(newrow@ == pre.fields@[x as int]@.update(z as int, f));
        assert(board.fields@ =~= pre.fields@.update(x as int, newrow));
        assert forall|i: int, j: int|
            pre.in_bounds(i, j) && !(i == x as int && j == z as int)
                implies #[trigger] board.cell(i, j) == pre.cell(i, j) by {}
        lemma_place_shifts_counts(pre, *board, x as int, z as int);
        lemma_grid_count_cell_update(pre.fields@, mine_pred(), x as int, z as int, newrow, f);
        assert(board.mine_total() == pre.mine_total() + 1);
        assert forall|i: int, j: int|
            adjacent(i, j, x as int, z as int) && board.in_bounds(i, j) && !(
            #[trigger] board.cell(i, j)).mine implies board.cell(i, j).value < 255 by {
            assert(board.cell(i, j) == pre.cell(i, j));
            assert(pre.cell(i, j).value == pre.mine_neighbors(i, j));
        }
    }
    let ghost mid = *board;
    increment_values(board, x, z);
    proof {
        lemma_place_hints(pre, mid, *board, x as int, z as int);
    }
}

/// Draws mines one at a time, rejecting occupied and protected positions,
/// until the wanted count stands or the budget of draws runs out. The hints
/// stay exact throughout: every safe cell counts its mine neighbors and
/// every mine carries the sentinel. A failed attempt leaves the board blank.
#[verifier::rlimit(100)]
fn place_mines(
    board: &mut Board,
    start_x: usize,
    start_z: usize,
    exclude_ring: bool,
    tries: u32,
) -> (ok: bool)
    requires
        blank(*old(board)),
        old(board).in_bounds(start_x as int, start_z as int),
    ensures
        final(board).x_size == old(board).x_size,
        final(board).z_size == old(board).z_size,
        final(board).mine_count == old(board).mine_count,
        ok ==> generated(*final(board)),
        ok ==> !final(board).cell(start_x as int, start_z as int).mine,
        ok && exclude_ring ==> forall|i: int, j: int|
            adjacent(i, j, start_x as int, start_z as int) && final(board).in_bounds(i, j) ==> !(
            #[trigger] final(board).cell(i, j)).mine,
        !ok ==> blank(*final(board)),
        // a board wanting no mines always succeeds: there is nothing to draw
        old(board).mine_count == 0 ==> ok,
        // every cell carries its own coordinates afterwards
        ok ==> forall|i: int, j: int|
            final(board).in_bounds(i, j) ==> (#[trigger] final(board).cell(i, j)).x == i
                && final(board).cell(i, j).z == j,
{
    let ghost b0 = *old(board);
    let sx: i32 = start_x as i32;
    let sz: i32 = start_z as i32;
    let mut placed: usize = 0;
    let mut tries_left: u32 = tries;
    proof {
        assert forall|i: int, j: int|
            board.in_bounds(i, j) && !(#[trigger] board.cell(i, j)).mine implies board.cell(
            i,
            j,
        ).value == board.mine_neighbors(i, j) by {
            assert(board.mine_neighbors(i, j) == 0);
        }
        assert(board.mine_total() == 0) by {
            assert forall|i: int, j: int|
                0 <= i < board.fields@.len() && 0 <= j < board.fields@[i]@.len() implies !(
                #[trigger] board.fields@[i]@[j]).mine by {
                assert(!board.cell(i, j).mine);
            }
            lemma_grid_count_zero(board.fields@, mine_pred());
        }
    }
    while placed < board.mine_count && tries_left > 0
        invariant
            board.wf(),
            board.x_size == b0.x_size,
            board.z_size == b0.z_size,
            board.mine_count == b0.mine_count,
            board.game_state == GameState::PreGame,
            b0.in_bounds(start_x as int, start_z as int),
            sx == start_x,
            sz == start_z,
            placed <= board.mine_count,
            placed == board.mine_total(),
            board.hints_consistent(),
            forall|i: int, j: int|
                board.in_bounds(i, j) ==> (#[trigger] board.cell(i, j)).field_state
                    == FieldState::Closed && (board.cell(i, j).mine ==> board.cell(i, j).value
                    == 9),
            !board.cell(start_x as int, start_z as int).mine,
            exclude_ring ==> forall|i: int, j: int|
                adjacent(i, j, start_x as int, start_z as int) && board.in_bounds(i, j) ==> !(
                #[trigger] board.cell(i, j)).mine,
        decreases tries_left,
    {
        tries_left = tries_left - 1;
        let x: i32 = random_below(board.x_size);
        let z: i32 = random_below(board.z_size);
        let occupied: bool = board.fields[x as usize][z as usize].mine;
        let excluded: bool = if exclude_ring {
            sx - 1 <= x && x <= sx + 1 && sz - 1 <= z && z <= sz + 1
        } else {
            x == sx && z == sz
        };
        if !occupied && !excluded {
            place_one_mine(board, x, z);
            placed = placed + 1;
        }
    }
    if placed == board.mine_count {
        let ghost bp = *board;
        set_cords(board);
        proof {
            lemma_same_layout(bp, *board);
        }
        true
    } else {
        clear_board(board);
        false
    }
}

/// One no-guess attempt: lays mines out around a safe start, opens the start
/// cell, and drives the solver to a verdict. A solvable layout is kept,
/// closed up again and reported; anything else is wiped back to blank.
#[verifier::rlimit(100)]
fn no_guess_attempt(board: &mut Board, start_x: usize, start_z: usize, attempts: u32) -> (ok: bool)
    requires
        blank(*old(board)),
        old(board).in_bounds(start_x as int, start_z as int),
    ensures
        final(board).x_size == old(board).x_size,
        final(board).z_size == old(board).z_size,
        final(board).mine_count == old(board).mine_count,
        ok ==> generated(*final(board)),
        ok ==> !final(board).cell(start_x as int, start_z as int).mine,
        ok ==> forall|i: int, j: int|
            adjacent(i, j, start_x as int, start_z as int) && final(board).in_bounds(i, j) ==> !(
            #[trigger] final(board).cell(i, j)).mine,
        ok ==> forall|i: int, j: int|
            final(board).in_bounds(i, j) ==> (#[trigger] final(board).cell(i, j)).x == i
                && final(board).cell(i, j).z == j,
        !ok ==> blank(*final(board)),
        // a board wanting no mines is solved by its first reveal alone
        old(board).mine_count == 0 ==> ok,
{
    let placed = place_mines(board, start_x, start_z, true, attempts);
    if placed {
        let ghost bpl = *board;
        board.open_field(start_x, start_z);
        proof {
            // a freshly generated board carries only closed cells,
            // so its marks are trivially sound, and the safe start
            // leaves the game running
            assert forall|i: int, j: int| bpl.in_bounds(i, j) implies {
                &&& ((#[trigger] bpl.cell(i, j)).field_state == FieldState::Flagged
                    ==> bpl.cell(i, j).mine)
                &&& (bpl.cell(i, j).field_state == FieldState::Open ==> !bpl.cell(
                    i,
                    j,
                ).mine)
            } by {}
            assert(bpl.marks_sound());
            crate::board::lemma_frame_preserves(bpl, *board);
            crate::board::lemma_reveal_to_solve_frame(bpl, *board);
            lemma_same_layout(bpl, *board);
            assert(board.game_state == GameState::Playing);
            if bpl.mine_count == 0 {
                // with no mines anywhere the whole board is one zero-hint
                // region: the first reveal opens everything
                lemma_grid_count_zero(bpl.fields@, mine_pred());
                assert forall|i: int, j: int| bpl.in_bounds(i, j) implies !(#[trigger] bpl.cell(
                    i,
                    j,
                )).mine && bpl.cell(i, j).value == 0 by {
                    assert(!bpl.fields@[i]@[j].mine);
                    assert forall|a: int, c: int| !(#[trigger] bpl.mine_at(a, c)) by {
                        if bpl.in_bounds(a, c) {
                            assert(!bpl.fields@[a]@[c].mine);
                        }
                    }
                    assert(bpl.mine_neighbors(i, j) == 0);
                }
                assert forall|i: int, j: int| board.in_bounds(i, j) implies (#[trigger] board.cell(
                    i,
                    j,
                )).field_state == FieldState::Open by {
                    lemma_blank_region_reach(bpl, start_x as int, start_z as int, i, j);
                }
                assert forall|i: int, j: int|
                    0 <= i < board.fields@.len() && 0 <= j
                        < board.fields@[i]@.len() implies !crate::board::flagged_pred()(
                    #[trigger] board.fields@[i]@[j],
                ) by {
                    assert(board.cell(i, j).field_state == FieldState::Open);
                }
                lemma_grid_count_zero(board.fields@, crate::board::flagged_pred());
                assert(board.flagged_total() == 0);
                assert(board.is_solved_spec());
            }
        }
        let mut tmp = Board::new(0, 0, 0);
        core::mem::swap(board, &mut tmp);
        let ghost bopen = tmp;
        let mut solver = Solver::new(tmp);
        while solver.board.game_state == GameState::Playing
            invariant
                solver.board.wf(),
                solver.board.hints_consistent(),
                solver.board.marks_sound(),
                solver.board.mine_total() == solver.board.mine_count,
                solver.reruns <= 3,
                bopen.wf(),
                bopen.solve_frame(solver.board),
                solver.board.game_state == GameState::Playing || solver.board.game_state
                    == GameState::GameoverSolved || solver.board.game_state
                    == GameState::GameoverFailed,
                bpl.mine_count == 0 ==> solver.board.is_solved_spec(),
                bpl.mine_count == 0 ==> solver.board.game_state != GameState::GameoverFailed,
            decreases
                    ind(solver.board.game_state == GameState::Playing),
                    solver.board.closed_total(),
                    ind(solver.made_changes),
                    ind(!solver.tried_tank),
                    3 - solver.reruns as int,
        {
            proof {
                crate::board::lemma_grid_count_nonneg(
                    solver.board.fields@,
                    crate::board::closed_pred(),
                );
            }
            let ghost pre = solver.board;
            solver.solve_next_step();
            proof {
                crate::board::lemma_grid_count_nonneg(
                    solver.board.fields@,
                    crate::board::closed_pred(),
                );
                crate::board::lemma_solve_frame_trans(bopen, pre, solver.board);
                if bpl.mine_count == 0 {
                    // nothing was closed, so the step changed no cell and the
                    // board stays solved
                    assert forall|i: int, j: int|
                        solver.board.in_bounds(i, j) implies #[trigger] solver.board.cell(i, j)
                        == pre.cell(i, j) by {
                        assert(pre.cell(i, j).field_state != FieldState::Closed);
                    }
                    assert forall|i: int, j: int|
                        0 <= i < solver.board.fields@.len() && 0 <= j
                            < solver.board.fields@[i]@.len() && crate::board::flagged_pred()(
                            #[trigger] solver.board.fields@[i]@[j],
                        ) implies crate::board::flagged_pred()(pre.fields@[i]@[j]) by {
                        assert(solver.board.cell(i, j) == pre.cell(i, j));
                    }
                    assert forall|i: int, j: int|
                        0 <= i < pre.fields@.len() && 0 <= j < pre.fields@[i]@.len()
                            && crate::board::flagged_pred()(
                            #[trigger] pre.fields@[i]@[j],
                        ) implies crate::board::flagged_pred()(solver.board.fields@[i]@[j]) by {
                        assert(solver.board.cell(i, j) == pre.cell(i, j));
                    }
                    crate::board::lemma_grid_count_mono2(
                        solver.board.fields@,
                        pre.fields@,
                        crate::board::flagged_pred(),
                    );
                    crate::board::lemma_grid_count_mono2(
                        pre.fields@,
                        solver.board.fields@,
                        crate::board::flagged_pred(),
                    );
                    assert(solver.board.is_solved_spec());
                }
            }
        }
        let solved: bool = solver.board.game_state == GameState::GameoverSolved;
        let mut back: Board = solver.board;
        core::mem::swap(board, &mut back);
        if solved {
            let ghost bdone = *board;
            reset_states(board);
            proof {
                assert forall|i: int, j: int|
                    bpl.in_bounds(i, j) implies (#[trigger] board.cell(i, j)).mine
                    == bpl.cell(i, j).mine && board.cell(i, j).value == bpl.cell(
                    i,
                    j,
                ).value && board.cell(i, j).x == bpl.cell(i, j).x && board.cell(i, j).z == bpl.cell(
                    i,
                    j,
                ).z && board.cell(i, j).field_state == FieldState::Closed by {
                    assert(board.cell(i, j) == (Field {
                        field_state: FieldState::Closed,
                        ..bdone.cell(i, j)
                    }));
                    assert(bdone.cell(i, j).mine == bopen.cell(i, j).mine);
                    assert(bdone.cell(i, j).value == bopen.cell(i, j).value);
                    assert(bdone.cell(i, j).x == bopen.cell(i, j).x);
                    assert(bdone.cell(i, j).z == bopen.cell(i, j).z);
                    assert(bopen.cell(i, j).mine == bpl.cell(i, j).mine);
                    assert(bopen.cell(i, j).value == bpl.cell(i, j).value);
                    assert(bopen.cell(i, j).x == bpl.cell(i, j).x);
                    assert(bopen.cell(i, j).z == bpl.cell(i, j).z);
                }
                lemma_same_layout(bpl, *board);
            }
            return true;
        } else {
            proof {
                // a mine-free board cannot have ended anywhere but solved
                if bpl.mine_count == 0 {
                    assert(false);
                }
            }
            clear_board(board);
        }
        return false;
    }
    false
}

/// Builds a board under a generation policy, within a budget of attempts.
/// The basic policies place mines once; the no-guess policy keeps a layout
/// only after driving the solver to a solved verdict from the start cell,
/// and otherwise discards it and draws again. A successful result is a fully
/// closed, consistently hinted board with the promised number of mines and
/// a safe start cell; failure hands back a blank board.
#[verifier::rlimit(100)]
pub fn generate_field(
    policy: GenerationPolicy,
    board: &mut Board,
    start_x: usize,
    start_z: usize,
    attempts: u32,
) -> (ok: bool)
    requires
        blank(*old(board)),
        old(board).in_bounds(start_x as int, start_z as int),
    ensures
        final(board).x_size == old(board).x_size,
        final(board).z_size == old(board).z_size,
        final(board).mine_count == old(board).mine_count,
        ok ==> generated(*final(board)),
        ok ==> !final(board).cell(start_x as int, start_z as int).mine,
        // the ring-sparing policies keep the whole ring around the start free
        ok && (policy == GenerationPolicy::StartExcluded || policy == GenerationPolicy::NoGuessing)
            ==> forall|i: int, j: int|
            adjacent(i, j, start_x as int, start_z as int) && final(board).in_bounds(i, j) ==> !(
            #[trigger] final(board).cell(i, j)).mine,
        // every cell of a generated board carries its own coordinates
        ok ==> forall|i: int, j: int|
            final(board).in_bounds(i, j) ==> (#[trigger] final(board).cell(i, j)).x == i
                && final(board).cell(i, j).z == j,
        // a board wanting no mines always comes out, budget permitting
        old(board).mine_count == 0 && (policy == GenerationPolicy::NoGuessing ==> attempts > 0)
            ==> ok,
        !ok ==> blank(*final(board)),
{
    let ghost b0 = *old(board);
    match policy {
        GenerationPolicy::Basic => place_mines(board, start_x, start_z, false, attempts),
        GenerationPolicy::StartExcluded => place_mines(board, start_x, start_z, true, attempts),
        GenerationPolicy::NoGuessing => {
            let mut rounds: u32 = attempts;
            while rounds > 0
                invariant
                    blank(*board),
                    b0 == *old(board),
                    old(board).mine_count == 0 ==> rounds == attempts,
                    board.x_size == b0.x_size,
                    board.z_size == b0.z_size,
                    board.mine_count == b0.mine_count,
                    b0.in_bounds(start_x as int, start_z as int),
                decreases rounds,
            {
                rounds = rounds - 1;
                let done = no_guess_attempt(board, start_x, start_z, attempts);
                if done {
                    return true;
                }
            }
            false
        },
    }
}

} // verus!
