use vstd::prelude::*;

use crate::field::{Field, FieldState};

verus! {

/// Phase of a game: not yet started, running, solved, or failed.
/// A failed game is one where a mine was revealed or where the solver
/// gave up without a guess being available.
#[derive(Clone, Copy, Debug, PartialEq, Eq, Structural)]
pub enum GameState {
    PreGame,
    Playing,
    GameoverSolved,
    GameoverFailed,
}

/// The playing grid: a rectangular array of cells, the number of mines
/// the grid is meant to hold, its dimensions, and the game phase.
#[derive(Clone, Debug)]
pub struct Board {
    pub fields: Vec<Vec<Field>>,
    pub mine_count: usize,
    pub x_size: i32,
    pub z_size: i32,
    pub game_state: GameState,
}

/// 1 for true, 0 for false: lets counts of cells be written as sums.
pub open spec fn ind(b: bool) -> int {
    if b {
        1
    } else {
        0
    }
}

/// The game phase after a reveal has been requested: a pregame board starts
/// playing; any other phase is kept.
pub open spec fn started(s: GameState) -> GameState {
    if s == GameState::PreGame {
        GameState::Playing
    } else {
        s
    }
}

/// Count of cells of a row satisfying a predicate.
pub open spec fn row_count(r: Seq<Field>, p: spec_fn(Field) -> bool) -> int
    decreases r.len(),
{
    if r.len() == 0 {
        0
    } else {
        row_count(r.drop_last(), p) + ind(p(r.last()))
    }
}

/// Count of cells of a whole grid satisfying a predicate.
pub open spec fn grid_count(g: Seq<Vec<Field>>, p: spec_fn(Field) -> bool) -> int
    decreases g.len(),
{
    if g.len() == 0 {
        0
    } else {
        grid_count(g.drop_last(), p) + row_count(g.last()@, p)
    }
}

pub proof fn lemma_row_count_update(r: Seq<Field>, p: spec_fn(Field) -> bool, i: int, f: Field)
    requires
        0 <= i < r.len(),
    ensures
        row_count(r.update(i, f), p) == row_count(r, p) - ind(p(r[i])) + ind(p(f)),
    decreases r.len(),
{
    let r2 = r.update(i, f);
    if i == r.len() - 1 {
        assert(r2.drop_last() =~= r.drop_last());
    } else {
        assert(r2.drop_last() =~= r.drop_last().update(i, f));
        assert(r2.last() == r.last());
        lemma_row_count_update(r.drop_last(), p, i, f);
    }
}

pub proof fn lemma_grid_count_update(
    g: Seq<Vec<Field>>,
    p: spec_fn(Field) -> bool,
    i: int,
    row: Vec<Field>,
)
    requires
        0 <= i < g.len(),
    ensures
        grid_count(g.update(i, row), p) == grid_count(g, p) - row_count(g[i]@, p) + row_count(
            row@,
            p,
        ),
    decreases g.len(),
{
    let g2 = g.update(i, row);
    if i == g.len() - 1 {
        assert(g2.drop_last() =~= g.drop_last());
    } else {
        assert(g2.drop_last() =~= g.drop_last().update(i, row));
        assert(g2.last() == g.last());
        lemma_grid_count_update(g.drop_last(), p, i, row);
    }
}

pub proof fn lemma_row_count_take_step(r: Seq<Field>, p: spec_fn(Field) -> bool, k: int)
    requires
        0 <= k < r.len(),
    ensures
        row_count(r.take(k + 1), p) == row_count(r.take(k), p) + ind(p(r[k])),
{
    assert(r.take(k + 1).drop_last() =~= r.take(k));
    assert(r.take(k + 1).last() == r[k]);
}

pub proof fn lemma_grid_count_take_step(g: Seq<Vec<Field>>, p: spec_fn(Field) -> bool, k: int)
    requires
        0 <= k < g.len(),
    ensures
        grid_count(g.take(k + 1), p) == grid_count(g.take(k), p) + row_count(g[k]@, p),
{
    assert(g.take(k + 1).drop_last() =~= g.take(k));
    assert(g.take(k + 1).last() == g[k]);
}

pub proof fn lemma_row_count_nonneg(r: Seq<Field>, p: spec_fn(Field) -> bool)
    ensures
        0 <= row_count(r, p) <= r.len(),
    decreases r.len(),
{
    if r.len() != 0 {
        lemma_row_count_nonneg(r.drop_last(), p);
    }
}

pub proof fn lemma_grid_count_nonneg(g: Seq<Vec<Field>>, p: spec_fn(Field) -> bool)
    ensures
        0 <= grid_count(g, p),
    decreases g.len(),
{
    if g.len() != 0 {
        lemma_grid_count_nonneg(g.drop_last(), p);
        lemma_row_count_nonneg(g.last()@, p);
    }
}

/// The predicate picking out closed cells, shared by all counts of them.
pub open spec fn closed_pred() -> spec_fn(Field) -> bool {
    |f: Field| f.field_state == FieldState::Closed
}

/// The predicate picking out flagged cells.
pub open spec fn flagged_pred() -> spec_fn(Field) -> bool {
    |f: Field| f.field_state == FieldState::Flagged
}

/// The predicate picking out mine-bearing cells.
pub open spec fn mine_pred() -> spec_fn(Field) -> bool {
    |f: Field| f.mine
}

/// How one full count changes when one cell of the grid changes.
pub proof fn lemma_grid_count_cell_update(
    g: Seq<Vec<Field>>,
    p: spec_fn(Field) -> bool,
    x: int,
    z: int,
    row: Vec<Field>,
    f: Field,
)
    requires
        0 <= x < g.len(),
        0 <= z < g[x]@.len(),
        row@ == g[x]@.update(z, f),
    ensures
        grid_count(g.update(x, row), p) == grid_count(g, p) - ind(p(g[x]@[z])) + ind(p(f)),
{
    lemma_row_count_update(g[x]@, p, z, f);
    lemma_grid_count_update(g, p, x, row);
}

/// Counting is monotone: a predicate implied pointwise by another counts no
/// higher, and when the two counts agree the implication reverses.
pub proof fn lemma_row_count_mono(r: Seq<Field>, p: spec_fn(Field) -> bool, q: spec_fn(Field) -> bool)
    requires
        forall|k: int| 0 <= k < r.len() && p(#[trigger] r[k]) ==> q(r[k]),
    ensures
        row_count(r, p) <= row_count(r, q),
        row_count(r, p) == row_count(r, q) ==> forall|k: int|
            0 <= k < r.len() && q(#[trigger] r[k]) ==> p(r[k]),
    decreases r.len(),
{
    if r.len() != 0 {
        assert(forall|k: int| 0 <= k < r.len() - 1 ==> r.drop_last()[k] == r[k]);
        lemma_row_count_mono(r.drop_last(), p, q);
        if row_count(r, p) == row_count(r, q) {
            assert forall|k: int| 0 <= k < r.len() && q(#[trigger] r[k]) implies p(r[k]) by {
                if k < r.len() - 1 {
                    assert(r.drop_last()[k] == r[k]);
                }
            }
        }
    }
}

/// The same monotonicity over a whole grid.
pub proof fn lemma_grid_count_mono(
    g: Seq<Vec<Field>>,
    p: spec_fn(Field) -> bool,
    q: spec_fn(Field) -> bool,
)
    requires
        forall|i: int, j: int|
            0 <= i < g.len() && 0 <= j < (#[trigger] g[i])@.len() && p(#[trigger] g[i]@[j]) ==> q(
                g[i]@[j],
            ),
    ensures
        grid_count(g, p) <= grid_count(g, q),
        grid_count(g, p) == grid_count(g, q) ==> forall|i: int, j: int|
            0 <= i < g.len() && 0 <= j < (#[trigger] g[i])@.len() && q(#[trigger] g[i]@[j]) ==> p(
                g[i]@[j],
            ),
    decreases g.len(),
{
    if g.len() != 0 {
        let n = g.len() - 1;
        assert(forall|i: int| 0 <= i < n ==> g.drop_last()[i] == g[i]);
        assert(forall|k: int| 0 <= k < g[n]@.len() ==> g.last()@[k] == g[n]@[k]);
        lemma_grid_count_mono(g.drop_last(), p, q);
        lemma_row_count_mono(g.last()@, p, q);
        if grid_count(g, p) == grid_count(g, q) {
            assert(grid_count(g.drop_last(), p) == grid_count(g.drop_last(), q));
            assert(row_count(g.last()@, p) == row_count(g.last()@, q));
            assert forall|i: int, j: int|
                0 <= i < g.len() && 0 <= j < (#[trigger] g[i])@.len() && q(
                    #[trigger] g[i]@[j],
                ) implies p(g[i]@[j]) by {
                if i < n {
                    assert(g.drop_last()[i] == g[i]);
                } else {
                    assert(g.last()@[j] == g[i]@[j]);
                }
            }
        }
    }
}

/// Two distinct grid positions within a king's move of one another.
pub open spec fn adjacent(x1: int, z1: int, x2: int, z2: int) -> bool {
    &&& !(x1 == x2 && z1 == z2)
    &&& -1 <= x1 - x2 <= 1
    &&& -1 <= z1 - z2 <= 1
}

/// Whether a position occurs on a reveal worklist.
pub open spec fn queued(td: Seq<(usize, usize)>, a: int, c: int) -> bool {
    exists|k: int| 0 <= k < td.len() && (#[trigger] td[k]).0 == a && td[k].1 == c
}

/// During a cascading reveal a position counts as handled once its cell is
/// no longer closed or it still waits on the worklist.
pub open spec fn handled(b: Board, td: Seq<(usize, usize)>, a: int, c: int) -> bool {
    b.cell(a, c).field_state != FieldState::Closed || queued(td, a, c)
}

/// Every neighbor of every zero-hint cell that the reveal has opened so far
/// is handled: the central invariant of the cascading reveal.
#[verifier::opaque]
pub open spec fn frontier_handled(b0: Board, b: Board, td: Seq<(usize, usize)>) -> bool {
    forall|i: int, j: int, a: int, c: int|
        b.in_bounds(i, j) && b.in_bounds(a, c) && b0.cell(i, j).field_state == FieldState::Closed
            && (#[trigger] b.cell(i, j)).field_state == FieldState::Open && b.cell(i, j).value == 0
            && adjacent(i, j, a, c) ==> #[trigger] handled(b, td, a, c)
}

/// A walk the cascading reveal can take: it starts and ends at the given
/// positions, stays in bounds on closed cells, moves between adjacent cells,
/// and every cell before the last has hint zero and hides no mine.
pub open spec fn zero_chain(
    b: Board,
    p: Seq<(int, int)>,
    sx: int,
    sz: int,
    tx: int,
    tz: int,
) -> bool {
    &&& p.len() >= 1
    &&& p[0] == (sx, sz)
    &&& p[p.len() - 1] == (tx, tz)
    &&& forall|k: int|
        0 <= k < p.len() ==> b.in_bounds((#[trigger] p[k]).0, p[k].1) && b.cell(
            p[k].0,
            p[k].1,
        ).field_state == FieldState::Closed
    &&& forall|k: int|
        0 <= k < p.len() - 1 ==> !b.cell((#[trigger] p[k]).0, p[k].1).mine && b.cell(
            p[k].0,
            p[k].1,
        ).value == 0 && adjacent(p[k].0, p[k].1, p[k + 1].0, p[k + 1].1)
}

/// A position the cascading reveal is owed to open: the end of some walk of
/// closed cells from the start through zero-hint cells.
pub open spec fn zero_reachable(b: Board, sx: int, sz: int, tx: int, tz: int) -> bool {
    exists|p: Seq<(int, int)>| zero_chain(b, p, sx, sz, tx, tz)
}

/// A reveal-frame step keeps the solver's knowledge intact: sound marks stay
/// sound and consistent hints stay consistent, since mines and hints never move.
pub proof fn lemma_frame_preserves(b0: Board, b1: Board)
    requires
        b0.wf(),
        b0.reveal_frame(b1),
    ensures
        b0.marks_sound() ==> b1.marks_sound(),
        b0.hints_consistent() ==> b1.hints_consistent(),
{
    assert forall|i: int, j: int| b1.mine_at(i, j) == b0.mine_at(i, j) by {
        if b0.in_bounds(i, j) {
            assert(b1.cell(i, j).mine == b0.cell(i, j).mine);
        }
    }
    assert forall|i: int, j: int| b1.mine_neighbors(i, j) == b0.mine_neighbors(i, j) by {}
    if b0.marks_sound() {
        assert forall|i: int, j: int| b1.in_bounds(i, j) implies {
            &&& ((#[trigger] b1.cell(i, j)).field_state == FieldState::Flagged ==> b1.cell(
                i,
                j,
            ).mine)
            &&& (b1.cell(i, j).field_state == FieldState::Open ==> !b1.cell(i, j).mine)
        } by {
            assert(b0.cell(i, j).field_state == FieldState::Flagged ==> b0.cell(i, j).mine);
            assert(b0.cell(i, j).field_state == FieldState::Open ==> !b0.cell(i, j).mine);
        }
    }
    if b0.hints_consistent() {
        assert forall|i: int, j: int|
            b1.in_bounds(i, j) && !(#[trigger] b1.cell(i, j)).mine implies b1.cell(i, j).value
            == b1.mine_neighbors(i, j) by {
            assert(!b0.cell(i, j).mine);
            assert(b0.cell(i, j).value == b0.mine_neighbors(i, j));
        }
    }
}

/// The running state of one cascading reveal from a closed safe start cell:
/// everything each step of the reveal keeps true.
spec fn reveal_inv(b0: Board, b: Board, td: Seq<(usize, usize)>, x: int, z: int) -> bool {
    &&& b0.wf()
    &&& b.wf()
    &&& b.x_size == b0.x_size
    &&& b.z_size == b0.z_size
    &&& b.mine_count == b0.mine_count
    &&& b0.in_bounds(x, z)
    &&& b0.cell(x, z).field_state == FieldState::Closed
    &&& !b0.cell(x, z).mine
    &&& b0.reveal_frame(b)
    &&& (b.game_state == started(b0.game_state) || b.game_state == GameState::GameoverFailed)
    &&& b.closed_total() <= b0.closed_total()
    &&& (b.cell(x, z).field_state == FieldState::Open ==> b.closed_total() < b0.closed_total())
    &&& forall|k: int|
        0 <= k < td.len() ==> b.in_bounds((#[trigger] td[k]).0 as int, td[k].1 as int)
    &&& handled(b, td, x, z)
    &&& forall|i: int, j: int|
        b.in_bounds(i, j) && b0.cell(i, j).field_state == FieldState::Closed && (#[trigger] b.cell(
            i,
            j,
        )).field_state == FieldState::Open ==> zero_reachable(b0, x, z, i, j)
    &&& forall|k: int|
        0 <= k < td.len() ==> (((#[trigger] td[k]).0 == x && td[k].1 == z) || (b0.cell(
            td[k].0 as int,
            td[k].1 as int,
        ).field_state == FieldState::Closed ==> zero_reachable(
            b0,
            x,
            z,
            td[k].0 as int,
            td[k].1 as int,
        )))
    &&& (b0.hints_consistent() ==> {
        &&& b.game_state == started(b0.game_state)
        &&& (forall|k: int|
            0 <= k < td.len() ==> !b0.cell((#[trigger] td[k]).0 as int, td[k].1 as int).mine)
        &&& frontier_handled(b0, b, td)
    })
}

/// A board is a reveal frame of itself.
pub proof fn lemma_frame_refl(b: Board)
    requires
        b.wf(),
    ensures
        b.reveal_frame(b),
{
}

/// A board is a solve frame of itself.
pub proof fn lemma_solve_frame_refl(b: Board)
    requires
        b.wf(),
    ensures
        b.solve_frame(b),
{
}

/// A reveal frame is a solve frame that happens to place no flags.
pub proof fn lemma_reveal_to_solve_frame(b0: Board, b1: Board)
    requires
        b0.wf(),
        b0.reveal_frame(b1),
    ensures
        b0.solve_frame(b1),
{
    assert forall|i: int, j: int| b0.in_bounds(i, j) implies {
        let oc = b0.cell(i, j);
        let nc = #[trigger] b1.cell(i, j);
        &&& nc.mine == oc.mine
        &&& nc.value == oc.value
        &&& nc.x == oc.x
        &&& nc.z == oc.z
        &&& (nc.field_state == oc.field_state || (oc.field_state == FieldState::Closed
            && (nc.field_state == FieldState::Open || nc.field_state == FieldState::Flagged)))
    } by {
        assert(b1.cell(i, j).mine == b0.cell(i, j).mine);
    }
}

/// Solve frames compose.
pub proof fn lemma_solve_frame_trans(b0: Board, b1: Board, b2: Board)
    requires
        b0.wf(),
        b0.solve_frame(b1),
        b1.solve_frame(b2),
    ensures
        b0.solve_frame(b2),
{
    assert forall|i: int, j: int| b0.in_bounds(i, j) implies {
        let oc = b0.cell(i, j);
        let nc = #[trigger] b2.cell(i, j);
        &&& nc.mine == oc.mine
        &&& nc.value == oc.value
        &&& nc.x == oc.x
        &&& nc.z == oc.z
        &&& (nc.field_state == oc.field_state || (oc.field_state == FieldState::Closed
            && (nc.field_state == FieldState::Open || nc.field_state == FieldState::Flagged)))
    } by {
        assert(b1.in_bounds(i, j));
        assert(b1.cell(i, j).mine == b0.cell(i, j).mine);
        assert(b2.cell(i, j).mine == b1.cell(i, j).mine);
    }
}

/// A solve frame never moves a mine or a hint, so consistent hints stay
/// consistent, and the total count of mines is kept.
pub proof fn lemma_solve_frame_preserves_hints(b0: Board, b1: Board)
    requires
        b0.wf(),
        b0.solve_frame(b1),
    ensures
        b0.hints_consistent() ==> b1.hints_consistent(),
        b1.mine_total() == b0.mine_total(),
{
    assert forall|i: int, j: int| b1.mine_at(i, j) == b0.mine_at(i, j) by {
        if b0.in_bounds(i, j) {
            assert(b1.cell(i, j).mine == b0.cell(i, j).mine);
        }
    }
    assert forall|i: int, j: int| b1.mine_neighbors(i, j) == b0.mine_neighbors(i, j) by {}
    if b0.hints_consistent() {
        assert forall|i: int, j: int|
            b1.in_bounds(i, j) && !(#[trigger] b1.cell(i, j)).mine implies b1.cell(i, j).value
            == b1.mine_neighbors(i, j) by {
            assert(!b0.cell(i, j).mine);
            assert(b0.cell(i, j).value == b0.mine_neighbors(i, j));
        }
    }
    assert forall|i: int, j: int|
        0 <= i < b1.fields@.len() && 0 <= j < (#[trigger] b1.fields@[i])@.len() && mine_pred()(
            #[trigger] b1.fields@[i]@[j],
        ) implies mine_pred()(b0.fields@[i]@[j]) by {
        assert(b1.cell(i, j).mine == b0.cell(i, j).mine);
    }
    assert forall|i: int, j: int|
        0 <= i < b0.fields@.len() && 0 <= j < (#[trigger] b0.fields@[i])@.len() && mine_pred()(
            #[trigger] b0.fields@[i]@[j],
        ) implies mine_pred()(b1.fields@[i]@[j]) by {
        assert(b1.cell(i, j).mine == b0.cell(i, j).mine);
    }
    lemma_grid_count_mono2(b1.fields@, b0.fields@, mine_pred());
    lemma_grid_count_mono2(b0.fields@, b1.fields@, mine_pred());
}

/// Counting one predicate over two grids of the same shape whose cells
/// satisfy it together gives counts related pointwise.
pub proof fn lemma_grid_count_mono2(g1: Seq<Vec<Field>>, g2: Seq<Vec<Field>>, p: spec_fn(Field) -> bool)
    requires
        g1.len() == g2.len(),
        forall|i: int| 0 <= i < g1.len() ==> (#[trigger] g1[i])@.len() == g2[i]@.len(),
        forall|i: int, j: int|
            0 <= i < g1.len() && 0 <= j < (#[trigger] g1[i])@.len() && p(#[trigger] g1[i]@[j]) ==> p(
                g2[i]@[j],
            ),
    ensures
        grid_count(g1, p) <= grid_count(g2, p),
    decreases g1.len(),
{
    if g1.len() != 0 {
        let n = g1.len() - 1;
        assert(forall|i: int| 0 <= i < n ==> g1.drop_last()[i] == g1[i]);
        assert(forall|i: int| 0 <= i < n ==> g2.drop_last()[i] == g2[i]);
        lemma_grid_count_mono2(g1.drop_last(), g2.drop_last(), p);
        lemma_row_count_mono2(g1[n]@, g2[n]@, p);
        assert(g1.last() == g1[n]);
        assert(g2.last() == g2[n]);
    }
}

pub proof fn lemma_row_count_mono2(r1: Seq<Field>, r2: Seq<Field>, p: spec_fn(Field) -> bool)
    requires
        r1.len() == r2.len(),
        forall|k: int| 0 <= k < r1.len() && p(#[trigger] r1[k]) ==> p(r2[k]),
    ensures
        row_count(r1, p) <= row_count(r2, p),
    decreases r1.len(),
{
    if r1.len() != 0 {
        assert(forall|k: int| 0 <= k < r1.len() - 1 ==> r1.drop_last()[k] == r1[k]);
        assert(forall|k: int| 0 <= k < r2.len() - 1 ==> r2.drop_last()[k] == r2[k]);
        lemma_row_count_mono2(r1.drop_last(), r2.drop_last(), p);
        assert(r1.last() == r1[r1.len() - 1]);
        assert(r2.last() == r2[r1.len() - 1]);
    }
}

/// Reveal frames compose: two reveals in a row still only open closed safe cells.
pub proof fn lemma_frame_trans(b0: Board, b1: Board, b2: Board)
    requires
        b0.wf(),
        b0.reveal_frame(b1),
        b1.reveal_frame(b2),
    ensures
        b0.reveal_frame(b2),
{
    assert forall|i: int, j: int| b0.in_bounds(i, j) implies {
        let oc = b0.cell(i, j);
        let nc = #[trigger] b2.cell(i, j);
        &&& nc.mine == oc.mine
        &&& nc.value == oc.value
        &&& nc.x == oc.x
        &&& nc.z == oc.z
        &&& (nc.field_state == oc.field_state || (oc.field_state == FieldState::Closed
            && nc.field_state == FieldState::Open && !oc.mine))
    } by {
        assert(b1.in_bounds(i, j));
        assert(b1.cell(i, j).mine == b0.cell(i, j).mine);
        assert(b2.cell(i, j).mine == b1.cell(i, j).mine);
    }
}

/// Opening one closed safe cell preserves the reveal frame from the board
/// the whole reveal started from.
proof fn lemma_frame_open_cell(b0: Board, pre: Board, post: Board, cx: int, cz: int)
    requires
        b0.wf(),
        b0.reveal_frame(pre),
        post.x_size == pre.x_size,
        post.z_size == pre.z_size,
        post.mine_count == pre.mine_count,
        post.wf(),
        pre.in_bounds(cx, cz),
        pre.cell(cx, cz).field_state == FieldState::Closed,
        !pre.cell(cx, cz).mine,
        post.cell(cx, cz) == (Field { field_state: FieldState::Open, ..pre.cell(cx, cz) }),
        forall|i: int, j: int|
            pre.in_bounds(i, j) && !(i == cx && j == cz) ==> #[trigger] post.cell(i, j) == pre.cell(
                i,
                j,
            ),
    ensures
        b0.reveal_frame(post),
{
    assert forall|i: int, j: int| b0.in_bounds(i, j) implies {
        let oc = b0.cell(i, j);
        let nc = #[trigger] post.cell(i, j);
        &&& nc.mine == oc.mine
        &&& nc.value == oc.value
        &&& nc.x == oc.x
        &&& nc.z == oc.z
        &&& (nc.field_state == oc.field_state || (oc.field_state == FieldState::Closed
            && nc.field_state == FieldState::Open && !oc.mine))
    } by {
        assert(pre.cell(i, j).mine == b0.cell(i, j).mine);
        if i == cx && j == cz {
            assert(pre.cell(i, j).field_state == FieldState::Closed);
            assert(b0.cell(i, j).field_state == FieldState::Closed);
        }
    }
}

/// A zero-hint safe cell has no mine anywhere around it.
proof fn lemma_zero_cell_ring_safe(b0: Board, cx: int, cz: int)
    requires
        b0.wf(),
        b0.hints_consistent(),
        b0.in_bounds(cx, cz),
        !b0.cell(cx, cz).mine,
        b0.cell(cx, cz).value == 0,
    ensures
        forall|a: int, c: int| adjacent(cx, cz, a, c) ==> !(#[trigger] b0.mine_at(a, c)),
{
    assert(b0.cell(cx, cz).value == b0.mine_neighbors(cx, cz));
    assert forall|a: int, c: int| adjacent(cx, cz, a, c) implies !(#[trigger] b0.mine_at(
        a,
        c,
    )) by {
        assert(b0.mine_neighbors(cx, cz) == 0);
    }
}

/// One reveal step keeps the frontier handled: the popped position is either
/// no longer closed or queued again, and a newly opened zero-hint cell has
/// all its neighbors queued.
proof fn lemma_frontier_step(
    b0: Board,
    pre: Board,
    post: Board,
    td: Seq<(usize, usize)>,
    tdf: Seq<(usize, usize)>,
    cu: (usize, usize),
)
    requires
        b0.wf(),
        pre.wf(),
        b0.reveal_frame(pre),
        pre.reveal_frame(post),
        frontier_handled(b0, pre, td),
        td.len() > 0,
        td[td.len() - 1] == cu,
        forall|i: int, j: int| queued(td.subrange(0, td.len() - 1), i, j) ==> queued(tdf, i, j),
        handled(post, tdf, cu.0 as int, cu.1 as int),
        forall|i: int, j: int|
            pre.in_bounds(i, j) && !(i == cu.0 as int && j == cu.1 as int)
                ==> #[trigger] post.cell(i, j) == pre.cell(i, j),
        pre.cell(cu.0 as int, cu.1 as int).field_state != FieldState::Closed ==> post.cell(
            cu.0 as int,
            cu.1 as int,
        ) == pre.cell(cu.0 as int, cu.1 as int),
        pre.cell(cu.0 as int, cu.1 as int).field_state == FieldState::Closed && post.cell(
            cu.0 as int,
            cu.1 as int,
        ).field_state == FieldState::Open && post.cell(cu.0 as int, cu.1 as int).value == 0
            ==> forall|a: int, c: int|
            adjacent(cu.0 as int, cu.1 as int, a, c) && post.in_bounds(a, c) ==> queued(tdf, a, c),
    ensures
        frontier_handled(b0, post, tdf),
{
    reveal(frontier_handled);
    assert forall|i: int, j: int, a: int, c: int|
        post.in_bounds(i, j) && post.in_bounds(a, c) && b0.cell(i, j).field_state
            == FieldState::Closed && (#[trigger] post.cell(i, j)).field_state == FieldState::Open
            && post.cell(i, j).value == 0 && adjacent(i, j, a, c) implies #[trigger] handled(
        post,
        tdf,
        a,
        c,
    ) by {
        if i == cu.0 as int && j == cu.1 as int && pre.cell(i, j).field_state
            == FieldState::Closed {
            assert(queued(tdf, a, c));
        } else {
            assert(pre.cell(i, j) == post.cell(i, j));
            assert(handled(pre, td, a, c));
            lemma_handled_step(pre, post, td, tdf, a, c);
        }
    }
}

/// A walk that reaches a zero-hint closed safe cell extends by one step to
/// any closed neighbor of that cell.
proof fn lemma_chain_step(b0: Board, sx: int, sz: int, cx: int, cz: int, nx: int, nz: int)
    requires
        b0.wf(),
        zero_reachable(b0, sx, sz, cx, cz),
        b0.in_bounds(cx, cz),
        b0.cell(cx, cz).field_state == FieldState::Closed,
        !b0.cell(cx, cz).mine,
        b0.cell(cx, cz).value == 0,
        adjacent(cx, cz, nx, nz),
        b0.in_bounds(nx, nz),
        b0.cell(nx, nz).field_state == FieldState::Closed,
    ensures
        zero_reachable(b0, sx, sz, nx, nz),
{
    let p = choose|p: Seq<(int, int)>| zero_chain(b0, p, sx, sz, cx, cz);
    let q = p.push((nx, nz));
    assert(q[q.len() - 1] == (nx, nz));
    assert(forall|k: int| 0 <= k < p.len() ==> #[trigger] q[k] == p[k]);
    assert(q[p.len() - 1] == (cx, cz));
    assert(zero_chain(b0, q, sx, sz, nx, nz));
}

/// On a board of nothing but closed, zero-hint, mine-free cells, the reveal
/// walk joins any two positions.
pub proof fn lemma_blank_region_reach(b: Board, sx: int, sz: int, tx: int, tz: int)
    requires
        b.wf(),
        b.in_bounds(sx, sz),
        b.in_bounds(tx, tz),
        forall|i: int, j: int|
            b.in_bounds(i, j) ==> (#[trigger] b.cell(i, j)).field_state == FieldState::Closed
                && !b.cell(i, j).mine && b.cell(i, j).value == 0,
    ensures
        zero_reachable(b, sx, sz, tx, tz),
    decreases (if sx <= tx {
            tx - sx
        } else {
            sx - tx
        }) + (if sz <= tz {
            tz - sz
        } else {
            sz - tz
        }),
{
    if sx == tx && sz == tz {
        let p = seq![(sx, sz)];
        assert(p[0] == (sx, sz));
        assert(zero_chain(b, p, sx, sz, tx, tz));
    } else {
        let px: int = if tx > sx {
            tx - 1
        } else if tx < sx {
            tx + 1
        } else {
            tx
        };
        let pz: int = if tz > sz {
            tz - 1
        } else if tz < sz {
            tz + 1
        } else {
            tz
        };
        assert(b.in_bounds(px, pz));
        lemma_blank_region_reach(b, sx, sz, px, pz);
        lemma_chain_step(b, sx, sz, px, pz, tx, tz);
    }
}

/// A handled position stays handled across one reveal step: the step pops the
/// last worklist entry, may open cells, and extends the worklist again.
proof fn lemma_handled_step(
    pre: Board,
    post: Board,
    td: Seq<(usize, usize)>,
    tdf: Seq<(usize, usize)>,
    a: int,
    c: int,
)
    requires
        pre.wf(),
        pre.reveal_frame(post),
        pre.in_bounds(a, c),
        handled(pre, td, a, c),
        td.len() > 0,
        forall|i: int, j: int| queued(td.subrange(0, td.len() - 1), i, j) ==> queued(tdf, i, j),
        handled(post, tdf, td[td.len() - 1].0 as int, td[td.len() - 1].1 as int),
    ensures
        handled(post, tdf, a, c),
{
    if pre.cell(a, c).field_state != FieldState::Closed {
        assert(post.cell(a, c).field_state != FieldState::Closed);
    } else if queued(td, a, c) {
        let k = choose|k: int| 0 <= k < td.len() && (#[trigger] td[k]).0 == a && td[k].1 == c;
        if k < td.len() - 1 {
            assert(td.subrange(0, td.len() - 1)[k] == td[k]);
            assert(queued(td.subrange(0, td.len() - 1), a, c));
        }
    }
}

/// Once the worklist has drained, every position a walk of zero-hint closed
/// cells can reach from an opened start stands open.
proof fn lemma_chain_opened(
    b0: Board,
    b1: Board,
    p: Seq<(int, int)>,
    sx: int,
    sz: int,
    tx: int,
    tz: int,
)
    requires
        b0.wf(),
        b0.reveal_frame(b1),
        zero_chain(b0, p, sx, sz, tx, tz),
        b1.cell(sx, sz).field_state == FieldState::Open,
        frontier_handled(b0, b1, Seq::<(usize, usize)>::empty()),
    ensures
        b1.cell(tx, tz).field_state == FieldState::Open,
    decreases p.len(),
{
    reveal(frontier_handled);
    if p.len() == 1 {
        assert(p[0] == (tx, tz));
    } else {
        let q = p.drop_last();
        let prev = p[p.len() - 2];
        assert(q.len() == p.len() - 1);
        assert(forall|k: int| 0 <= k < q.len() ==> q[k] == p[k]);
        lemma_chain_opened(b0, b1, q, sx, sz, prev.0, prev.1);
        // the cell before the target is an opened zero-hint cell, so the
        // target was handled; with the worklist empty it cannot be closed
        assert(b1.in_bounds(prev.0, prev.1));
        assert(b0.cell(prev.0, prev.1).field_state == FieldState::Closed);
        assert(b1.cell(prev.0, prev.1).value == 0);
        assert(adjacent(prev.0, prev.1, tx, tz));
        assert(b1.in_bounds(tx, tz));
        assert(handled(b1, Seq::<(usize, usize)>::empty(), tx, tz));
        assert(!queued(Seq::<(usize, usize)>::empty(), tx, tz));
        assert(b0.cell(tx, tz).field_state == FieldState::Closed);
    }
}

/// Appends one position to a reveal worklist, keeping every queued fact.
fn push_coord(todo: &mut Vec<(usize, usize)>, a: usize, b: usize)
    ensures
        final(todo)@ == old(todo)@.push((a, b)),
        queued(final(todo)@, a as int, b as int),
        forall|i: int, j: int| queued(old(todo)@, i, j) ==> queued(final(todo)@, i, j),
{
    todo.push((a, b));
    proof {
        assert(todo@[todo@.len() - 1] == (a, b));
        assert forall|i: int, j: int| queued(old(todo)@, i, j) implies queued(todo@, i, j) by {
            let k = choose|k: int|
                0 <= k < old(todo)@.len() && (#[trigger] old(todo)@[k]).0 == i && old(
                    todo,
                )@[k].1 == j;
            assert(todo@[k] == old(todo)@[k]);
        }
    }
}

/// Queues all neighbors of a freshly opened zero-hint cell: afterwards every
/// in-bounds neighbor is on the worklist, old entries and their facts are
/// kept, and every new entry is a neighbor carrying its walk from the start.
#[verifier::rlimit(100)]
fn queue_neighbors(
    board: &Board,
    todo: &mut Vec<(usize, usize)>,
    cx: usize,
    cz: usize,
    Ghost(b0): Ghost<Board>,
    Ghost(sx): Ghost<int>,
    Ghost(sz): Ghost<int>,
)
    requires
        board.wf(),
        b0.wf(),
        b0.x_size == board.x_size,
        b0.z_size == board.z_size,
        board.in_bounds(cx as int, cz as int),
        forall|k: int|
            0 <= k < old(todo)@.len() ==> board.in_bounds(
                (#[trigger] old(todo)@[k]).0 as int,
                old(todo)@[k].1 as int,
            ),
    ensures
        forall|i: int, j: int| queued(old(todo)@, i, j) ==> queued(final(todo)@, i, j),
        forall|a: int, c: int|
            adjacent(cx as int, cz as int, a, c) && board.in_bounds(a, c) ==> queued(
                final(todo)@,
                a,
                c,
            ),
        forall|k: int|
            0 <= k < final(todo)@.len() ==> board.in_bounds(
                (#[trigger] final(todo)@[k]).0 as int,
                final(todo)@[k].1 as int,
            ),
        forall|k: int|
            old(todo)@.len() <= k < final(todo)@.len() ==> adjacent(
                cx as int,
                cz as int,
                (#[trigger] final(todo)@[k]).0 as int,
                final(todo)@[k].1 as int,
            ),
        forall|k: int| 0 <= k < old(todo)@.len() ==> #[trigger] final(todo)@[k] == old(todo)@[k],
{
    let xs: usize = board.x_size as usize;
    let zs: usize = board.z_size as usize;
    if cx > 0 && cz > 0 {
        push_coord(todo, cx - 1, cz - 1);
    }
    if cx > 0 {
        push_coord(todo, cx - 1, cz);
    }
    if cx > 0 && cz + 1 < zs {
        push_coord(todo, cx - 1, cz + 1);
    }
    if cz > 0 {
        push_coord(todo, cx, cz - 1);
    }
    if cz + 1 < zs {
        push_coord(todo, cx, cz + 1);
    }
    if cx + 1 < xs && cz > 0 {
        push_coord(todo, cx + 1, cz - 1);
    }
    if cx + 1 < xs {
        push_coord(todo, cx + 1, cz);
    }
    if cx + 1 < xs && cz + 1 < zs {
        push_coord(todo, cx + 1, cz + 1);
    }
    proof {
        assert forall|a: int, c: int|
            adjacent(cx as int, cz as int, a, c) && board.in_bounds(a, c) implies queued(
            todo@,
            a,
            c,
        ) by {}
    }
}

/// One safe reveal step — skipping a cell that is no longer closed, or
/// opening a closed safe cell and queueing its ring when its hint is zero —
/// keeps the running state of the cascade intact.
#[verifier::rlimit(100)]
proof fn lemma_reveal_step_safe(
    b0: Board,
    pre: Board,
    post: Board,
    td: Seq<(usize, usize)>,
    tdf: Seq<(usize, usize)>,
    x: int,
    z: int,
    cur: (usize, usize),
)
    requires
        reveal_inv(b0, pre, td, x, z),
        td.len() > 0,
        td[td.len() - 1] == cur,
        !(pre.cell(cur.0 as int, cur.1 as int).field_state == FieldState::Closed && pre.cell(
            cur.0 as int,
            cur.1 as int,
        ).mine),
        pre.reveal_frame(post),
        post.game_state == pre.game_state,
        forall|i: int, j: int| queued(td.subrange(0, td.len() - 1), i, j) ==> queued(tdf, i, j),
        forall|k: int|
            0 <= k < tdf.len() ==> post.in_bounds((#[trigger] tdf[k]).0 as int, tdf[k].1 as int),
        forall|k: int|
            0 <= k < tdf.len() ==> ((0 <= k < td.len() - 1 && #[trigger] tdf[k] == td[k]) || (
            pre.cell(cur.0 as int, cur.1 as int).field_state == FieldState::Closed && post.cell(
                cur.0 as int,
                cur.1 as int,
            ).value == 0 && adjacent(cur.0 as int, cur.1 as int, tdf[k].0 as int, tdf[k].1 as int))),
        pre.cell(cur.0 as int, cur.1 as int).field_state == FieldState::Closed ==> {
            &&& post.cell(cur.0 as int, cur.1 as int) == (Field {
                field_state: FieldState::Open,
                ..pre.cell(cur.0 as int, cur.1 as int)
            })
            &&& post.closed_total() == pre.closed_total() - 1
            &&& forall|i: int, j: int|
                pre.in_bounds(i, j) && !(i == cur.0 as int && j == cur.1 as int)
                    ==> #[trigger] post.cell(i, j) == pre.cell(i, j)
            &&& (post.cell(cur.0 as int, cur.1 as int).value == 0 ==> forall|a: int, c: int|
                adjacent(cur.0 as int, cur.1 as int, a, c) && post.in_bounds(a, c) ==> queued(
                    tdf,
                    a,
                    c,
                ))
        },
        pre.cell(cur.0 as int, cur.1 as int).field_state != FieldState::Closed ==> post == pre
            && tdf == td.subrange(0, td.len() - 1),
    ensures
        reveal_inv(b0, post, tdf, x, z),
        post.closed_total() <= pre.closed_total(),
        post.closed_total() == pre.closed_total() ==> tdf.len() < td.len(),
{
    let ci = cur.0 as int;
    let cj = cur.1 as int;
    lemma_frame_trans(b0, pre, post);
    assert(handled(post, tdf, td[td.len() - 1].0 as int, td[td.len() - 1].1 as int));
    lemma_handled_step(pre, post, td, tdf, x, z);
    if pre.cell(ci, cj).field_state == FieldState::Closed {
        // the opened cell lies at the end of some walk: it is the start
        // itself or was queued from one
        assert(b0.cell(ci, cj).field_state == FieldState::Closed);
        if ci == x && cj == z {
            let w = seq![(x, z)];
            assert(w[0] == (x, z));
            assert(zero_chain(b0, w, x, z, x, z));
            assert(zero_reachable(b0, x, z, ci, cj));
        } else {
            assert(td[td.len() - 1] == cur);
            assert(zero_reachable(b0, x, z, ci, cj));
        }
        // and so does every closed neighbor it queues
        if post.cell(ci, cj).value == 0 {
            assert forall|a: int, c: int|
                adjacent(ci, cj, a, c) && b0.in_bounds(a, c) && b0.cell(a, c).field_state
                    == FieldState::Closed implies zero_reachable(b0, x, z, a, c) by {
                lemma_chain_step(b0, x, z, ci, cj, a, c);
            }
        }
    }
    // newly opened cells keep their walks
    assert forall|i: int, j: int|
        post.in_bounds(i, j) && b0.cell(i, j).field_state == FieldState::Closed && (
        #[trigger] post.cell(i, j)).field_state == FieldState::Open implies zero_reachable(
        b0,
        x,
        z,
        i,
        j,
    ) by {
        if !(i == ci && j == cj) {
            assert(post.cell(i, j) == pre.cell(i, j));
        }
    }
    // and so do the worklist entries
    assert forall|k: int|
        0 <= k < tdf.len() implies (((#[trigger] tdf[k]).0 == x && tdf[k].1 == z) || (b0.cell(
        tdf[k].0 as int,
        tdf[k].1 as int,
    ).field_state == FieldState::Closed ==> zero_reachable(
        b0,
        x,
        z,
        tdf[k].0 as int,
        tdf[k].1 as int,
    ))) by {
        if 0 <= k < td.len() - 1 && tdf[k] == td[k] {
            assert(((td[k].0 == x && td[k].1 == z) || (b0.cell(
                td[k].0 as int,
                td[k].1 as int,
            ).field_state == FieldState::Closed ==> zero_reachable(
                b0,
                x,
                z,
                td[k].0 as int,
                td[k].1 as int,
            ))));
        } else {
            assert(pre.cell(ci, cj).field_state == FieldState::Closed && post.cell(
                ci,
                cj,
            ).value == 0);
            assert(adjacent(ci, cj, tdf[k].0 as int, tdf[k].1 as int));
            assert(post.in_bounds(tdf[k].0 as int, tdf[k].1 as int));
            assert(b0.in_bounds(tdf[k].0 as int, tdf[k].1 as int));
            if b0.cell(tdf[k].0 as int, tdf[k].1 as int).field_state == FieldState::Closed {
                assert(zero_reachable(b0, x, z, tdf[k].0 as int, tdf[k].1 as int));
            }
        }
    }
    if b0.hints_consistent() {
        lemma_frontier_step(b0, pre, post, td, tdf, cur);
        if pre.cell(ci, cj).field_state == FieldState::Closed {
            assert(!b0.cell(ci, cj).mine);
            if post.cell(ci, cj).value == 0 {
                assert(b0.cell(ci, cj).value == 0);
                lemma_zero_cell_ring_safe(b0, ci, cj);
            }
        }
        // everything on the worklist still hides no mine
        assert forall|k: int| 0 <= k < tdf.len() implies !b0.cell(
            (#[trigger] tdf[k]).0 as int,
            tdf[k].1 as int,
        ).mine by {
            if 0 <= k < td.len() - 1 && tdf[k] == td[k] {
            } else {
                assert(pre.cell(ci, cj).field_state == FieldState::Closed && post.cell(
                    ci,
                    cj,
                ).value == 0);
                assert(adjacent(ci, cj, tdf[k].0 as int, tdf[k].1 as int));
                assert(!b0.mine_at(tdf[k].0 as int, tdf[k].1 as int));
            }
        }
    }
}

impl Board {
    /// Shape of a well-formed board: a rectangular grid of the stated size.
    pub open spec fn wf(self) -> bool {
        &&& 0 <= self.x_size
        &&& 0 <= self.z_size
        &&& self.x_size as int * self.z_size as int <= usize::MAX as int
        &&& self.fields@.len() == self.x_size
        &&& forall|i: int|
            0 <= i < self.x_size ==> (#[trigger] self.fields@[i])@.len() == self.z_size
    }

    /// The cell at a position (meaningful when in bounds).
    pub open spec fn cell(self, x: int, z: int) -> Field {
        self.fields@[x]@[z]
    }

    /// Whether a position lies on the grid.
    pub open spec fn in_bounds(self, x: int, z: int) -> bool {
        0 <= x < self.x_size && 0 <= z < self.z_size
    }

    /// Whether the cell at a position is a mine (false off the grid).
    pub open spec fn mine_at(self, x: int, z: int) -> bool {
        self.in_bounds(x, z) && self.cell(x, z).mine
    }

    /// Whether the cell at a position has the given reveal state (false off the grid).
    pub open spec fn state_at(self, x: int, z: int, s: FieldState) -> bool {
        self.in_bounds(x, z) && self.cell(x, z).field_state == s
    }

    /// Count of mines among the up-to-eight neighbors of a position.
    pub open spec fn mine_neighbors(self, x: int, z: int) -> int {
        ind(self.mine_at(x - 1, z - 1)) + ind(self.mine_at(x - 1, z)) + ind(
            self.mine_at(x - 1, z + 1),
        ) + ind(self.mine_at(x, z - 1)) + ind(self.mine_at(x, z + 1)) + ind(
            self.mine_at(x + 1, z - 1),
        ) + ind(self.mine_at(x + 1, z)) + ind(self.mine_at(x + 1, z + 1))
    }

    /// Count of neighbors of a position in a given reveal state.
    pub open spec fn state_neighbors(self, x: int, z: int, s: FieldState) -> int {
        ind(self.state_at(x - 1, z - 1, s)) + ind(self.state_at(x - 1, z, s)) + ind(
            self.state_at(x - 1, z + 1, s),
        ) + ind(self.state_at(x, z - 1, s)) + ind(self.state_at(x, z + 1, s)) + ind(
            self.state_at(x + 1, z - 1, s),
        ) + ind(self.state_at(x + 1, z, s)) + ind(self.state_at(x + 1, z + 1, s))
    }

    /// Every open cell carries the exact count of its mine neighbors.
    /// Established at generation time and preserved by all reveal-state changes.
    pub open spec fn hints_consistent(self) -> bool {
        forall|i: int, j: int|
            self.in_bounds(i, j) && !(#[trigger] self.cell(i, j)).mine ==> self.cell(i, j).value
                == self.mine_neighbors(i, j)
    }

    /// The knowledge the solver may rely on: flags sit only on mines,
    /// and no mine has been opened.
    pub open spec fn marks_sound(self) -> bool {
        forall|i: int, j: int|
            self.in_bounds(i, j) ==> {
                &&& ((#[trigger] self.cell(i, j)).field_state == FieldState::Flagged ==> self.cell(
                    i,
                    j,
                ).mine)
                &&& (self.cell(i, j).field_state == FieldState::Open ==> !self.cell(i, j).mine)
            }
    }

    /// Count of closed cells of the whole board.
    pub open spec fn closed_total(self) -> int {
        grid_count(self.fields@, closed_pred())
    }

    /// Count of flagged cells of the whole board.
    pub open spec fn flagged_total(self) -> int {
        grid_count(self.fields@, flagged_pred())
    }

    /// Count of mines of the whole board.
    pub open spec fn mine_total(self) -> int {
        grid_count(self.fields@, mine_pred())
    }

    /// A board on which the solver is finished: nothing is left closed and
    /// the flag count matches the number of mines the board was made for.
    pub open spec fn is_solved_spec(self) -> bool {
        &&& forall|i: int, j: int|
            self.in_bounds(i, j) ==> (#[trigger] self.cell(i, j)).field_state != FieldState::Closed
        &&& self.flagged_total() == self.mine_count
    }

    /// No cell without a mine is left closed.
    pub open spec fn all_safe_revealed(self) -> bool {
        forall|i: int, j: int|
            self.in_bounds(i, j) && !(#[trigger] self.cell(i, j)).mine ==> self.cell(
                i,
                j,
            ).field_state != FieldState::Closed
    }

    /// Count of the cell at a position together with its neighbors that are
    /// in a given reveal state: what one deduction sweep counts around a cell.
    pub open spec fn surrounding_count(self, x: int, z: int, s: FieldState) -> int {
        self.state_neighbors(x, z, s) + ind(self.state_at(x, z, s))
    }

    /// What a solving step may do to the cells: dimensions, mines, hints and
    /// coordinates are untouched, and the only reveal-state change is that a
    /// closed cell may come open or be flagged.
    pub open spec fn solve_frame(self, later: Board) -> bool {
        &&& later.wf()
        &&& later.x_size == self.x_size
        &&& later.z_size == self.z_size
        &&& later.mine_count == self.mine_count
        &&& forall|i: int, j: int|
            self.in_bounds(i, j) ==> {
                let oc = self.cell(i, j);
                let nc = #[trigger] later.cell(i, j);
                &&& nc.mine == oc.mine
                &&& nc.value == oc.value
                &&& nc.x == oc.x
                &&& nc.z == oc.z
                &&& (nc.field_state == oc.field_state || (oc.field_state == FieldState::Closed
                    && (nc.field_state == FieldState::Open || nc.field_state
                    == FieldState::Flagged)))
            }
    }

    /// What a reveal may do to the cells: dimensions, mines, hints and
    /// coordinates are untouched, and the only reveal-state change is that
    /// a closed cell without a mine may become open.
    pub open spec fn reveal_frame(self, later: Board) -> bool {
        &&& later.wf()
        &&& later.x_size == self.x_size
        &&& later.z_size == self.z_size
        &&& later.mine_count == self.mine_count
        &&& forall|i: int, j: int|
            self.in_bounds(i, j) ==> {
                let oc = self.cell(i, j);
                let nc = #[trigger] later.cell(i, j);
                &&& nc.mine == oc.mine
                &&& nc.value == oc.value
                &&& nc.x == oc.x
                &&& nc.z == oc.z
                &&& (nc.field_state == oc.field_state || (oc.field_state == FieldState::Closed
                    && nc.field_state == FieldState::Open && !oc.mine))
            }
    }

    /// A fresh board: all cells closed, no mines placed, game not started.
    pub fn new(mine_count: usize, x_size: i32, z_size: i32) -> (b: Board)
        requires
            0 <= x_size,
            0 <= z_size,
            x_size as int * z_size as int <= usize::MAX as int,
        ensures
            b.wf(),
            b.mine_count == mine_count,
            b.x_size == x_size,
            b.z_size == z_size,
            b.game_state == GameState::PreGame,
            forall|i: int, j: int|
                b.in_bounds(i, j) ==> #[trigger] b.cell(i, j) == (Field {
                    value: 0,
                    field_state: FieldState::Closed,
                    mine: false,
                    x: 0,
                    z: 0,
                }),
    {
        let mut fields: Vec<Vec<Field>> = Vec::new();
        let mut x: usize = 0;
        while x < x_size as usize
            invariant
                fields@.len() == x,
                x <= x_size as usize,
                forall|i: int|
                    0 <= i < x ==> (#[trigger] fields@[i])@.len() == z_size as usize,
                forall|i: int, j: int|
                    0 <= i < x && 0 <= j < z_size ==> #[trigger] fields@[i]@[j] == (Field {
                        value: 0,
                        field_state: FieldState::Closed,
                        mine: false,
                        x: 0,
                        z: 0,
                    }),
            decreases x_size as usize - x,
        {
            let mut row: Vec<Field> = Vec::new();
            let mut z: usize = 0;
            while z < z_size as usize
                invariant
                    row@.len() == z,
                    z <= z_size as usize,
                    forall|j: int|
                        0 <= j < z ==> #[trigger] row@[j] == (Field {
                            value: 0,
                            field_state: FieldState::Closed,
                            mine: false,
                            x: 0,
                            z: 0,
                        }),
                decreases z_size as usize - z,
            {
                row.push(Field::new());
                z += 1;
            }
            fields.push(row);
            x += 1;
        }
        Board { fields, mine_count, x_size, z_size, game_state: GameState::PreGame }
    }

    /// Reveals the cell at a position. A cell that is not closed is left
    /// alone; a closed mine fails the game; a closed safe cell opens, and a
    /// zero-hint cell floods its whole closed zero-hint region together with
    /// the ring of cells around it. The first reveal starts the game.
    #[verifier::rlimit(100)]
    pub fn open_field(&mut self, x: usize, z: usize)
        requires
            old(self).wf(),
            old(self).in_bounds(x as int, z as int),
        ensures
            old(self).reveal_frame(*final(self)),
            final(self).game_state == started(old(self).game_state) || final(self).game_state
                == GameState::GameoverFailed,
            final(self).closed_total() <= old(self).closed_total(),
            old(self).marks_sound() ==> final(self).marks_sound(),
            old(self).hints_consistent() ==> final(self).hints_consistent(),
            // an open or flagged target leaves every cell alone
            old(self).cell(x as int, z as int).field_state != FieldState::Closed
                ==> final(self).fields == old(self).fields
                && final(self).game_state == started(old(self).game_state),
            // a closed mine fails the game and leaves every cell alone
            old(self).cell(x as int, z as int).field_state == FieldState::Closed
                && old(self).cell(x as int, z as int).mine
                ==> final(self).fields == old(self).fields
                && final(self).game_state == GameState::GameoverFailed,
            // a closed safe target opens
            old(self).cell(x as int, z as int).field_state == FieldState::Closed
                && !old(self).cell(x as int, z as int).mine
                ==> final(self).cell(x as int, z as int).field_state == FieldState::Open
                && final(self).closed_total() < old(self).closed_total(),
            // with consistent hints a safe reveal cannot fail the game
            old(self).cell(x as int, z as int).field_state == FieldState::Closed
                && !old(self).cell(x as int, z as int).mine
                && old(self).hints_consistent()
                ==> final(self).game_state == started(old(self).game_state),
            // the whole reachable zero-hint region and its ring come open
            old(self).cell(x as int, z as int).field_state == FieldState::Closed
                && !old(self).cell(x as int, z as int).mine
                && old(self).hints_consistent()
                ==> forall|tx: int, tz: int|
                    zero_reachable(*old(self), x as int, z as int, tx, tz)
                        ==> final(self).cell(tx, tz).field_state == FieldState::Open,
            // and nothing else comes open: every newly opened cell lies at
            // the end of such a walk from the target
            forall|tx: int, tz: int|
                old(self).in_bounds(tx, tz) && old(self).cell(tx, tz).field_state
                    == FieldState::Closed && (#[trigger] final(self).cell(tx, tz)).field_state
                    == FieldState::Open ==> zero_reachable(*old(self), x as int, z as int, tx, tz),
    {
        let ghost b0 = *old(self);
        if self.game_state == GameState::PreGame {
            self.game_state = GameState::Playing;
        }
        if self.fields[x][z].field_state != FieldState::Closed {
            proof {
                lemma_frame_preserves(b0, *self);
            }
            return ;
        }
        if self.fields[x][z].mine {
            self.game_state = GameState::GameoverFailed;
            proof {
                lemma_frame_preserves(b0, *self);
            }
            return ;
        }
        let mut todo: Vec<(usize, usize)> = Vec::new();
        push_coord(&mut todo, x, z);
        proof {
            // nothing has opened yet, so the frontier is trivially handled
            assert(frontier_handled(b0, *self, todo@)) by {
                reveal(frontier_handled);
            }
        }
        while todo.len() != 0
            invariant
                reveal_inv(b0, *self, todo@, x as int, z as int),
            decreases self.closed_total(), todo@.len(),
        {
            proof {
                lemma_grid_count_nonneg(self.fields@, closed_pred());
            }
            self.reveal_step(&mut todo, Ghost(b0), x, z);
            proof {
                lemma_grid_count_nonneg(self.fields@, closed_pred());
            }
        }
        proof {
            // the start cell is open, and with it the whole reachable region
            assert(!queued(todo@, x as int, z as int));
            assert(self.cell(x as int, z as int).field_state == FieldState::Open);
            lemma_frame_preserves(b0, *self);
            if b0.hints_consistent() {
                assert forall|tx: int, tz: int|
                    zero_reachable(b0, x as int, z as int, tx, tz) implies self.cell(
                    tx,
                    tz,
                ).field_state == FieldState::Open by {
                    let p = choose|p: Seq<(int, int)>|
                        zero_chain(b0, p, x as int, z as int, tx, tz);
                    assert(frontier_handled(b0, *self, Seq::<(usize, usize)>::empty())) by {
                        reveal(frontier_handled);
                        assert forall|i: int, j: int, a: int, c: int|
                            self.in_bounds(i, j) && self.in_bounds(a, c) && b0.cell(
                                i,
                                j,
                            ).field_state == FieldState::Closed && (#[trigger] self.cell(
                                i,
                                j,
                            )).field_state == FieldState::Open && self.cell(i, j).value == 0
                                && adjacent(i, j, a, c) implies #[trigger] handled(
                            *self,
                            Seq::<(usize, usize)>::empty(),
                            a,
                            c,
                        ) by {
                            assert(handled(*self, todo@, a, c));
                            assert(!queued(todo@, a, c));
                        }
                    }
                    lemma_chain_opened(b0, *self, p, x as int, z as int, tx, tz);
                }
            }
        }
    }

    /// Opens one closed safe cell, returning its hint.
    #[verifier::rlimit(100)]
    fn open_cell_step(&mut self, cx: usize, cz: usize, Ghost(b0): Ghost<Board>) -> (v: u8)
        requires
            old(self).wf(),
            b0.wf(),
            b0.reveal_frame(*old(self)),
            old(self).in_bounds(cx as int, cz as int),
            old(self).cell(cx as int, cz as int).field_state == FieldState::Closed,
            !old(self).cell(cx as int, cz as int).mine,
        ensures
            final(self).wf(),
            final(self).x_size == old(self).x_size,
            final(self).z_size == old(self).z_size,
            final(self).mine_count == old(self).mine_count,
            final(self).game_state == old(self).game_state,
            v == old(self).cell(cx as int, cz as int).value,
            final(self).cell(cx as int, cz as int) == (Field {
                field_state: FieldState::Open,
                ..old(self).cell(cx as int, cz as int)
            }),
            forall|i: int, j: int|
                old(self).in_bounds(i, j) && !(i == cx as int && j == cz as int)
                    ==> #[trigger] final(self).cell(i, j) == old(self).cell(i, j),
            final(self).closed_total() == old(self).closed_total() - 1,
            b0.reveal_frame(*final(self)),
            old(self).reveal_frame(*final(self)),
    {
        let ghost pre = *old(self);
        let v: u8 = self.fields[cx][cz].value;
        let row: &mut Vec<Field> = &mut self.fields[cx];
        let cell: &mut Field = &mut row[cz];
        cell.field_state = FieldState::Open;
        proof {
            let f = self.fields@[cx as int]@[cz as int];
            let newrow = self.fields@[cx as int];
            assert(newrow@ == pre.fields@[cx as int]@.update(cz as int, f));
            assert(self.fields@ =~= pre.fields@.update(cx as int, newrow));
            lemma_grid_count_cell_update(
                pre.fields@,
                closed_pred(),
                cx as int,
                cz as int,
                newrow,
                f,
            );
            assert(self.closed_total() == pre.closed_total() - 1);
            assert(f == (Field { field_state: FieldState::Open, ..pre.cell(cx as int, cz as int) }));
            assert forall|i: int, j: int|
                pre.in_bounds(i, j) && !(i == cx as int && j == cz as int)
                    implies #[trigger] self.cell(i, j) == pre.cell(i, j) by {}
            assert(self.wf());
            lemma_frame_open_cell(b0, pre, *self, cx as int, cz as int);
            lemma_frame_refl(pre);
            lemma_frame_open_cell(pre, pre, *self, cx as int, cz as int);
        }
        v
    }

    /// One step of the cascading reveal: pops the next worklist position,
    /// opens it if it is a closed safe cell, and queues its neighbors when
    /// its hint is zero.
    #[verifier::rlimit(100)]
    fn reveal_step(
        &mut self,
        todo: &mut Vec<(usize, usize)>,
        Ghost(b0): Ghost<Board>,
        x: usize,
        z: usize,
    )
        requires
            reveal_inv(b0, *old(self), old(todo)@, x as int, z as int),
            old(todo)@.len() > 0,
        ensures
            reveal_inv(b0, *final(self), final(todo)@, x as int, z as int),
            final(self).closed_total() <= old(self).closed_total(),
            final(self).closed_total() == old(self).closed_total() ==> final(todo)@.len() < old(
                todo,
            )@.len(),
    {
        let xs: usize = self.x_size as usize;
        let zs: usize = self.z_size as usize;
        let ghost pre = *self;
        let ghost td = todo@;
        let cur: (usize, usize) = todo.pop().unwrap();
        let cx: usize = cur.0;
        let cz: usize = cur.1;
        proof {
            assert(td[td.len() - 1] == cur);
        }
        let st = self.fields[cx][cz].field_state;
        if st == FieldState::Closed {
            if self.fields[cx][cz].mine {
                // only an inconsistent board can push a mine here
                self.game_state = GameState::GameoverFailed;
                proof {
                    if b0.hints_consistent() {
                        assert(!b0.cell(cx as int, cz as int).mine);
                        assert(false);
                    }
                    // the start is not this mine, so it stays handled
                    if pre.cell(x as int, z as int).field_state == FieldState::Closed {
                        let k = choose|k: int|
                            0 <= k < td.len() && (#[trigger] td[k]).0 == x && td[k].1 == z;
                        assert(!b0.cell(x as int, z as int).mine);
                        assert(k < td.len() - 1);
                        assert(todo@[k] == td[k]);
                        assert(queued(todo@, x as int, z as int));
                    }
                }
            } else {
                let v: u8 = self.open_cell_step(cx, cz, Ghost(b0));
                if v == 0 {
                    queue_neighbors(
                        self,
                        todo,
                        cx,
                        cz,
                        Ghost(b0),
                        Ghost(x as int),
                        Ghost(z as int),
                    );
                }
                proof {
                    if b0.hints_consistent() && v == 0 {
                        lemma_zero_cell_ring_safe(b0, cx as int, cz as int);
                    }
                }
            }
        }
        proof {
            let hit_mine = pre.cell(cx as int, cz as int).field_state == FieldState::Closed
                && pre.cell(cx as int, cz as int).mine;
            // every handled position stays handled across this step
            assert forall|i: int, j: int|
                queued(td.subrange(0, td.len() - 1), i, j) implies queued(todo@, i, j) by {
                let k = choose|k: int|
                    0 <= k < td.len() - 1 && (#[trigger] td.subrange(0, td.len() - 1)[k]).0 == i
                        && td.subrange(0, td.len() - 1)[k].1 == j;
                assert(td.subrange(0, td.len() - 1)[k] == td[k]);
                assert(queued(td.subrange(0, td.len() - 1), i, j));
            };
            if !hit_mine {
                if pre.cell(cx as int, cz as int).field_state != FieldState::Closed {
                    lemma_frame_refl(pre);
                    assert(todo@ == td.subrange(0, td.len() - 1));
                }
                assert(pre.reveal_frame(*self));
                lemma_reveal_step_safe(b0, pre, *self, td, todo@, x as int, z as int, cur);
            } else {
                assert(self.fields == pre.fields);
                lemma_frame_refl(pre);
                assert(pre.reveal_frame(*self));
                lemma_frame_trans(b0, pre, *self);
                if b0.hints_consistent() {
                    assert(!b0.cell(cx as int, cz as int).mine);
                    assert(false);
                }
            }
        }
    }


    /// Flags the cell at a position if it is closed; otherwise a no-op.
    pub fn flag_field(&mut self, x: usize, z: usize)
        requires
            old(self).wf(),
            old(self).in_bounds(x as int, z as int),
        ensures
            final(self).wf(),
            final(self).x_size == old(self).x_size,
            final(self).z_size == old(self).z_size,
            final(self).mine_count == old(self).mine_count,
            final(self).game_state == old(self).game_state,
            forall|i: int, j: int|
                old(self).in_bounds(i, j) && !(i == x as int && j == z as int)
                    ==> #[trigger] final(self).cell(i, j) == old(self).cell(i, j),
            old(self).cell(x as int, z as int).field_state == FieldState::Closed
                ==> final(self).cell(x as int, z as int) == (Field {
                field_state: FieldState::Flagged,
                ..old(self).cell(x as int, z as int)
            }),
            old(self).cell(x as int, z as int).field_state != FieldState::Closed
                ==> final(self).cell(x as int, z as int) == old(self).cell(x as int, z as int),
            final(self).closed_total() == old(self).closed_total() - ind(
                old(self).cell(x as int, z as int).field_state == FieldState::Closed,
            ),
            final(self).flagged_total() == old(self).flagged_total() + ind(
                old(self).cell(x as int, z as int).field_state == FieldState::Closed,
            ),
    {
        let ghost b0 = *old(self);
        if self.fields[x][z].field_state == FieldState::Closed {
            let row: &mut Vec<Field> = &mut self.fields[x];
            let cell: &mut Field = &mut row[z];
            cell.field_state = FieldState::Flagged;
            proof {
                let f = self.fields@[x as int]@[z as int];
                let newrow = self.fields@[x as int];
                assert(newrow@ == b0.fields@[x as int]@.update(z as int, f));
                assert(self.fields@ =~= b0.fields@.update(x as int, newrow));
                lemma_grid_count_cell_update(b0.fields@, closed_pred(), x as int, z as int, newrow, f);
                lemma_grid_count_cell_update(b0.fields@, flagged_pred(), x as int, z as int, newrow, f);
            }
        }
    }

    /// The text a cell is rendered as: its hint digit when open, an
    /// underscore when closed, and a flag marker when flagged.
    pub open spec fn field_text(f: Field) -> Seq<char> {
        match f.field_state {
            FieldState::Closed => "_"@,
            FieldState::Flagged => "F"@,
            FieldState::Open => if f.value == 0 {
                "0"@
            } else if f.value == 1 {
                "1"@
            } else if f.value == 2 {
                "2"@
            } else if f.value == 3 {
                "3"@
            } else if f.value == 4 {
                "4"@
            } else if f.value == 5 {
                "5"@
            } else if f.value == 6 {
                "6"@
            } else if f.value == 7 {
                "7"@
            } else if f.value == 8 {
                "8"@
            } else {
                "9"@
            },
        }
    }

    /// Renders one cell as text.
    pub fn get_field_text(field: &Field) -> (r: String)
        requires
            field.value <= 9,
        ensures
            r@ == Self::field_text(*field),
    {
        match field.field_state {
            FieldState::Closed => "_".to_owned(),
            FieldState::Flagged => "F".to_owned(),
            FieldState::Open => {
                if field.value == 0 {
                    "0".to_owned()
                } else if field.value == 1 {
                    "1".to_owned()
                } else if field.value == 2 {
                    "2".to_owned()
                } else if field.value == 3 {
                    "3".to_owned()
                } else if field.value == 4 {
                    "4".to_owned()
                } else if field.value == 5 {
                    "5".to_owned()
                } else if field.value == 6 {
                    "6".to_owned()
                } else if field.value == 7 {
                    "7".to_owned()
                } else if field.value == 8 {
                    "8".to_owned()
                } else {
                    "9".to_owned()
                }
            },
        }
    }

    /// Lays out this board's mines under a generation policy, within a
    /// budget of attempts; success leaves a fully closed, consistently
    /// hinted board with a safe start cell.
    pub fn generate_board(
        &mut self,
        generator: crate::generator::GenerationPolicy,
        start_x: usize,
        start_z: usize,
        attempts: u32,
    ) -> (ok: bool)
        requires
            crate::generator::blank(*old(self)),
            old(self).in_bounds(start_x as int, start_z as int),
        ensures
            final(self).x_size == old(self).x_size,
            final(self).z_size == old(self).z_size,
            final(self).mine_count == old(self).mine_count,
            ok ==> crate::generator::generated(*final(self)),
            ok ==> !final(self).cell(start_x as int, start_z as int).mine,
            ok && (generator == crate::generator::GenerationPolicy::StartExcluded || generator
                == crate::generator::GenerationPolicy::NoGuessing) ==> forall|i: int, j: int|
                adjacent(i, j, start_x as int, start_z as int) && final(self).in_bounds(i, j)
                    ==> !(#[trigger] final(self).cell(i, j)).mine,
            ok ==> forall|i: int, j: int|
                final(self).in_bounds(i, j) ==> (#[trigger] final(self).cell(i, j)).x == i
                    && final(self).cell(i, j).z == j,
            old(self).mine_count == 0 && (generator == crate::generator::GenerationPolicy::NoGuessing
                ==> attempts > 0) ==> ok,
            !ok ==> crate::generator::blank(*final(self)),
    {
        crate::generator::generate_field(generator, self, start_x, start_z, attempts)
    }

    /// Whether a coordinate pair lies off the grid.
    pub fn is_out_of_bounds(&self, x: i32, z: i32) -> (r: bool)
        ensures
            r == !self.in_bounds(x as int, z as int),
    {
        x < 0 || x >= self.x_size || z < 0 || z >= self.z_size
    }
}

} // verus!
