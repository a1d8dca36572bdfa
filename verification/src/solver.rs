use vstd::prelude::*;

use crate::board::{
    adjacent, flagged_pred, grid_count, ind, lemma_grid_count_nonneg, lemma_grid_count_take_step,
    lemma_reveal_to_solve_frame, lemma_row_count_nonneg, lemma_row_count_take_step,
    lemma_solve_frame_preserves_hints, lemma_solve_frame_refl, lemma_solve_frame_trans, mine_pred, row_count,
    started, Board, GameState,
};
use crate::field::{Field, FieldState};

verus! {

/// The solving engine: it owns the board it works on together with the
/// scratch state of one solving run — the deduction bookkeeping and the
/// backtracking search's knowledge arrays and recorded solutions.
pub struct Solver {
    pub board: Board,
    pub tank_board: Vec<Vec<Field>>,
    pub made_changes: bool,
    pub tried_tank: bool,
    pub reruns: usize,
    pub border_optimization: bool,
    pub known_mines: Vec<Vec<bool>>,
    pub known_empty: Vec<Vec<bool>>,
    pub tank_solutions: Vec<Vec<bool>>,
}

/// What a deduction sweep does to the cells around a numbered cell.
#[derive(Clone, Copy, Debug, PartialEq, Eq, Structural)]
pub enum InteractAction {
    Open,
    Flag,
}

/// Whether a grid of marks holds a mark at a position (false off the grid).
pub open spec fn marked_at(g: Seq<Vec<bool>>, x: int, z: int) -> bool {
    0 <= x < g.len() && 0 <= z < g[x]@.len() && g[x]@[z]
}

/// Count of marks among the up-to-eight neighbors of a position.
pub open spec fn marked_neighbors(g: Seq<Vec<bool>>, x: int, z: int) -> int {
    ind(marked_at(g, x - 1, z - 1)) + ind(marked_at(g, x - 1, z)) + ind(marked_at(g, x - 1, z + 1))
        + ind(marked_at(g, x, z - 1)) + ind(marked_at(g, x, z + 1)) + ind(
        marked_at(g, x + 1, z - 1),
    ) + ind(marked_at(g, x + 1, z)) + ind(marked_at(g, x + 1, z + 1))
}

/// A closed cell pressed against the revealed part of the board: one with at
/// least one open neighbor, and so one some constraint speaks about.
pub open spec fn boundary_cell(b: Board, x: int, z: int) -> bool {
    &&& b.cell(x, z).field_state == FieldState::Closed
    &&& exists|a: int, c: int| adjacent(x, z, a, c) && b.state_at(a, c, FieldState::Open)
}

/// A count of neighbors in a state is positive exactly when such a neighbor
/// exists.
pub proof fn lemma_state_neighbors_exists(b: Board, x: int, z: int, s: FieldState)
    ensures
        (b.state_neighbors(x, z, s) > 0) <==> (exists|a: int, c: int|
            adjacent(x, z, a, c) && b.state_at(a, c, s)),
{
    if b.state_neighbors(x, z, s) > 0 {
        if b.state_at(x - 1, z - 1, s) {
            assert(adjacent(x, z, x - 1, z - 1) && b.state_at(x - 1, z - 1, s));
        } else if b.state_at(x - 1, z, s) {
            assert(adjacent(x, z, x - 1, z) && b.state_at(x - 1, z, s));
        } else if b.state_at(x - 1, z + 1, s) {
            assert(adjacent(x, z, x - 1, z + 1) && b.state_at(x - 1, z + 1, s));
        } else if b.state_at(x, z - 1, s) {
            assert(adjacent(x, z, x, z - 1) && b.state_at(x, z - 1, s));
        } else if b.state_at(x, z + 1, s) {
            assert(adjacent(x, z, x, z + 1) && b.state_at(x, z + 1, s));
        } else if b.state_at(x + 1, z - 1, s) {
            assert(adjacent(x, z, x + 1, z - 1) && b.state_at(x + 1, z - 1, s));
        } else if b.state_at(x + 1, z, s) {
            assert(adjacent(x, z, x + 1, z) && b.state_at(x + 1, z, s));
        } else {
            assert(b.state_at(x + 1, z + 1, s));
            assert(adjacent(x, z, x + 1, z + 1) && b.state_at(x + 1, z + 1, s));
        }
    }
    if exists|a: int, c: int| adjacent(x, z, a, c) && b.state_at(a, c, s) {
        let (a, c) = choose|a: int, c: int| adjacent(x, z, a, c) && b.state_at(a, c, s);
        assert(b.state_neighbors(x, z, s) > 0);
    }
}
/// Count of marks in one row of a mark grid.
pub open spec fn brow_count(r: Seq<bool>) -> int
    decreases r.len(),
{
    if r.len() == 0 {
        0
    } else {
        brow_count(r.drop_last()) + ind(r.last())
    }
}

/// Count of marks in a whole mark grid.
pub open spec fn bgrid_count(g: Seq<Vec<bool>>) -> int
    decreases g.len(),
{
    if g.len() == 0 {
        0
    } else {
        bgrid_count(g.drop_last()) + brow_count(g.last()@)
    }
}

pub proof fn lemma_brow_count_nonneg(r: Seq<bool>)
    ensures
        0 <= brow_count(r) <= r.len(),
    decreases r.len(),
{
    if r.len() != 0 {
        lemma_brow_count_nonneg(r.drop_last());
    }
}

pub proof fn lemma_brow_count_take_step(r: Seq<bool>, k: int)
    requires
        0 <= k < r.len(),
    ensures
        brow_count(r.take(k + 1)) == brow_count(r.take(k)) + ind(r[k]),
{
    assert(r.take(k + 1).drop_last() =~= r.take(k));
    assert(r.take(k + 1).last() == r[k]);
}

pub proof fn lemma_bgrid_count_take_step(g: Seq<Vec<bool>>, k: int)
    requires
        0 <= k < g.len(),
    ensures
        bgrid_count(g.take(k + 1)) == bgrid_count(g.take(k)) + brow_count(g[k]@),
{
    assert(g.take(k + 1).drop_last() =~= g.take(k));
    assert(g.take(k + 1).last() == g[k]);
}

/// A mark grid whose marks all sit on mines counts no more marks than the
/// board counts mines.
pub proof fn lemma_bcount_le_mines(g: Seq<Vec<bool>>, f: Seq<Vec<Field>>)
    requires
        g.len() == f.len(),
        forall|i: int| 0 <= i < g.len() ==> (#[trigger] g[i])@.len() == f[i]@.len(),
        forall|i: int, j: int|
            0 <= i < g.len() && 0 <= j < g[i]@.len() && (#[trigger] g[i]@[j]) ==> f[i]@[j].mine,
    ensures
        bgrid_count(g) <= grid_count(f, crate::board::mine_pred()),
    decreases g.len(),
{
    if g.len() != 0 {
        let n = g.len() - 1;
        assert(forall|i: int| 0 <= i < n ==> g.drop_last()[i] == g[i]);
        assert(forall|i: int| 0 <= i < n ==> f.drop_last()[i] == f[i]);
        lemma_bcount_le_mines(g.drop_last(), f.drop_last());
        lemma_brow_le_mines(g[n]@, f[n]@);
        assert(g.last() == g[n]);
        assert(f.last() == f[n]);
    }
}

proof fn lemma_brow_le_mines(r: Seq<bool>, s: Seq<Field>)
    requires
        r.len() == s.len(),
        forall|k: int| 0 <= k < r.len() && (#[trigger] r[k]) ==> s[k].mine,
    ensures
        brow_count(r) <= row_count(s, crate::board::mine_pred()),
    decreases r.len(),
{
    if r.len() != 0 {
        assert(forall|k: int| 0 <= k < r.len() - 1 ==> r.drop_last()[k] == r[k]);
        assert(forall|k: int| 0 <= k < s.len() - 1 ==> s.drop_last()[k] == s[k]);
        lemma_brow_le_mines(r.drop_last(), s.drop_last());
        assert(r.last() == r[r.len() - 1]);
        assert(s.last() == s[r.len() - 1]);
    }
}

/// A board every one of whose mines carries a mark counts no more mines than
/// the mark grid counts marks.
pub proof fn lemma_mines_le_bcount(g: Seq<Vec<bool>>, f: Seq<Vec<Field>>)
    requires
        g.len() == f.len(),
        forall|i: int| 0 <= i < g.len() ==> (#[trigger] g[i])@.len() == f[i]@.len(),
        forall|i: int, j: int|
            0 <= i < g.len() && 0 <= j < g[i]@.len() && (#[trigger] f[i]@[j]).mine ==> g[i]@[j],
    ensures
        grid_count(f, crate::board::mine_pred()) <= bgrid_count(g),
    decreases g.len(),
{
    if g.len() != 0 {
        let n = g.len() - 1;
        assert(forall|i: int| 0 <= i < n ==> g.drop_last()[i] == g[i]);
        assert(forall|i: int| 0 <= i < n ==> f.drop_last()[i] == f[i]);
        lemma_mines_le_bcount(g.drop_last(), f.drop_last());
        lemma_mines_row_le_bcount(g[n]@, f[n]@);
        assert(g.last() == g[n]);
        assert(f.last() == f[n]);
    }
}

proof fn lemma_mines_row_le_bcount(r: Seq<bool>, s: Seq<Field>)
    requires
        r.len() == s.len(),
        forall|k: int| 0 <= k < r.len() && (#[trigger] s[k]).mine ==> r[k],
    ensures
        row_count(s, crate::board::mine_pred()) <= brow_count(r),
    decreases r.len(),
{
    if r.len() != 0 {
        assert(forall|k: int| 0 <= k < r.len() - 1 ==> r.drop_last()[k] == r[k]);
        assert(forall|k: int| 0 <= k < s.len() - 1 ==> s.drop_last()[k] == s[k]);
        lemma_mines_row_le_bcount(r.drop_last(), s.drop_last());
        assert(r.last() == r[r.len() - 1]);
        assert(s.last() == s[r.len() - 1]);
    }
}
/// Which neighbor offsets a sweep over the ring has already handled, in the
/// order the sweep walks them.
pub open spec fn offset_done(m: int, di: int, dj: int) -> bool {
    -1 <= di <= 1 && -1 <= dj <= 1 && (di + 1) * 3 + (dj + 1) < m
}

/// A row of marks lying under a layout counts no more marks than the layout
/// counts mines on that row; marks matching it exactly count the same.
proof fn lemma_brow_vs_layout(r: Seq<bool>, m: spec_fn(int, int) -> bool, i: int, n: int)
    requires
        r.len() == n,
        forall|k: int| 0 <= k < n && #[trigger] r[k] ==> m(i, k),
    ensures
        brow_count(r) <= layout_row_total(m, i, n),
        (forall|k: int| 0 <= k < n ==> #[trigger] r[k] == m(i, k)) ==> brow_count(r)
            == layout_row_total(m, i, n),
    decreases n,
{
    if n > 0 {
        assert(forall|k: int| 0 <= k < n - 1 ==> r.drop_last()[k] == r[k]);
        lemma_brow_vs_layout(r.drop_last(), m, i, n - 1);
        assert(r.last() == r[n - 1]);
    }
}

/// The same comparison over a whole grid of marks.
proof fn lemma_bgrid_vs_layout(g: Seq<Vec<bool>>, m: spec_fn(int, int) -> bool, n: int, zs: int)
    requires
        g.len() == n,
        forall|i: int| 0 <= i < n ==> (#[trigger] g[i])@.len() == zs,
        forall|i: int, j: int|
            0 <= i < n && 0 <= j < zs && (#[trigger] g[i]@[j]) ==> m(i, j),
    ensures
        bgrid_count(g) <= layout_rows_total(m, n, zs),
        (forall|i: int, j: int| 0 <= i < n && 0 <= j < zs ==> #[trigger] g[i]@[j] == m(i, j))
            ==> bgrid_count(g) == layout_rows_total(m, n, zs),
    decreases n,
{
    if n > 0 {
        assert(forall|i: int| 0 <= i < n - 1 ==> g.drop_last()[i] == g[i]);
        lemma_bgrid_vs_layout(g.drop_last(), m, n - 1, zs);
        assert(g.last() == g[n - 1]);
        lemma_brow_vs_layout(g[n - 1]@, m, n - 1, zs);
        if forall|i: int, j: int| 0 <= i < n && 0 <= j < zs ==> #[trigger] g[i]@[j] == m(i, j) {
            assert(forall|i: int, j: int|
                0 <= i < n - 1 && 0 <= j < zs ==> #[trigger] g.drop_last()[i]@[j] == m(i, j));
            assert(forall|k: int| 0 <= k < zs ==> #[trigger] g[n - 1]@[k] == m(n - 1, k));
        }
    }
}

/// Mine marks that only repeat a layout never outnumber an open cell's hint
/// under that layout.
#[verifier::rlimit(100)]
proof fn lemma_layout_no_overflag(
    b: Board,
    km: Seq<Vec<bool>>,
    m: spec_fn(int, int) -> bool,
    x: int,
    z: int,
)
    requires
        b.wf(),
        b.in_bounds(x, z),
        grid_shaped(km, b),
        forall|i: int, j: int| marked_at(km, i, j) ==> layout_at(b, m, i, j),
        b.cell(x, z).field_state == FieldState::Open,
        b.cell(x, z).value == layout_neighbors(b, m, x, z),
    ensures
        marked_neighbors(km, x, z) <= b.cell(x, z).value,
{
    assert(ind(marked_at(km, x - 1, z - 1)) <= ind(layout_at(b, m, x - 1, z - 1)));
    assert(ind(marked_at(km, x - 1, z)) <= ind(layout_at(b, m, x - 1, z)));
    assert(ind(marked_at(km, x - 1, z + 1)) <= ind(layout_at(b, m, x - 1, z + 1)));
    assert(ind(marked_at(km, x, z - 1)) <= ind(layout_at(b, m, x, z - 1)));
    assert(ind(marked_at(km, x, z + 1)) <= ind(layout_at(b, m, x, z + 1)));
    assert(ind(marked_at(km, x + 1, z - 1)) <= ind(layout_at(b, m, x + 1, z - 1)));
    assert(ind(marked_at(km, x + 1, z)) <= ind(layout_at(b, m, x + 1, z)));
    assert(ind(marked_at(km, x + 1, z + 1)) <= ind(layout_at(b, m, x + 1, z + 1)));
}

/// Safe marks that only repeat a layout never eat into the capacity an open
/// cell's hint needs under that layout.
#[verifier::rlimit(100)]
proof fn lemma_layout_capacity(
    b: Board,
    ke: Seq<Vec<bool>>,
    m: spec_fn(int, int) -> bool,
    x: int,
    z: int,
)
    requires
        b.wf(),
        b.in_bounds(x, z),
        grid_shaped(ke, b),
        forall|i: int, j: int| marked_at(ke, i, j) ==> b.in_bounds(i, j) && !m(i, j),
        b.cell(x, z).field_state == FieldState::Open,
        b.cell(x, z).value == layout_neighbors(b, m, x, z),
    ensures
        b.cell(x, z).value + marked_neighbors(ke, x, z) <= nbr_total(b, x, z),
{
    assert(ind(layout_at(b, m, x - 1, z - 1)) + ind(marked_at(ke, x - 1, z - 1)) <= ind(
        b.in_bounds(x - 1, z - 1),
    ));
    assert(ind(layout_at(b, m, x - 1, z)) + ind(marked_at(ke, x - 1, z)) <= ind(
        b.in_bounds(x - 1, z),
    ));
    assert(ind(layout_at(b, m, x - 1, z + 1)) + ind(marked_at(ke, x - 1, z + 1)) <= ind(
        b.in_bounds(x - 1, z + 1),
    ));
    assert(ind(layout_at(b, m, x, z - 1)) + ind(marked_at(ke, x, z - 1)) <= ind(
        b.in_bounds(x, z - 1),
    ));
    assert(ind(layout_at(b, m, x, z + 1)) + ind(marked_at(ke, x, z + 1)) <= ind(
        b.in_bounds(x, z + 1),
    ));
    assert(ind(layout_at(b, m, x + 1, z - 1)) + ind(marked_at(ke, x + 1, z - 1)) <= ind(
        b.in_bounds(x + 1, z - 1),
    ));
    assert(ind(layout_at(b, m, x + 1, z)) + ind(marked_at(ke, x + 1, z)) <= ind(
        b.in_bounds(x + 1, z),
    ));
    assert(ind(layout_at(b, m, x + 1, z + 1)) + ind(marked_at(ke, x + 1, z + 1)) <= ind(
        b.in_bounds(x + 1, z + 1),
    ));
}

/// No hypothesis bundle — for the real layout or any admitted one — survives
/// an open cell with more mine marks around it than its hint.
proof fn lemma_prune_overflag(s0: Solver, tiles: Seq<(usize, usize)>, d: int, x: int, z: int)
    requires
        tank_env(s0),
        s0.board.hints_consistent(),
        s0.board.marks_sound(),
        s0.board.in_bounds(x, z),
        s0.board.cell(x, z).field_state == FieldState::Open,
        marked_neighbors(s0.known_mines@, x, z) > s0.board.cell(x, z).value,
    ensures
        !tank_hyp(s0, tiles, d),
        forall|m: spec_fn(int, int) -> bool| !(#[trigger] tank_hyp_layout(s0, tiles, d, m)),
{
    if tank_hyp(s0, tiles, d) {
        lemma_truth_no_overflag(s0.board, s0.known_mines@, x, z);
        assert(false);
    }
    assert forall|m: spec_fn(int, int) -> bool| !(#[trigger] tank_hyp_layout(s0, tiles, d, m)) by {
        if tank_hyp_layout(s0, tiles, d, m) {
            lemma_layout_no_overflag(s0.board, s0.known_mines@, m, x, z);
            assert(false);
        }
    }
}

/// No hypothesis bundle survives an open cell whose hint no longer fits in
/// the capacity its neighborhood has left.
proof fn lemma_prune_capacity(
    s0: Solver,
    tiles: Seq<(usize, usize)>,
    d: int,
    x: int,
    z: int,
    bd: int,
)
    requires
        tank_env(s0),
        s0.board.hints_consistent(),
        s0.board.marks_sound(),
        s0.board.in_bounds(x, z),
        s0.board.cell(x, z).field_state == FieldState::Open,
        nbr_total(s0.board, x, z) <= bd,
        bd - marked_neighbors(s0.known_empty@, x, z) < s0.board.cell(x, z).value,
    ensures
        !tank_hyp(s0, tiles, d),
        forall|m: spec_fn(int, int) -> bool| !(#[trigger] tank_hyp_layout(s0, tiles, d, m)),
{
    if tank_hyp(s0, tiles, d) {
        lemma_truth_capacity(s0.board, s0.known_empty@, x, z);
        assert(false);
    }
    assert forall|m: spec_fn(int, int) -> bool| !(#[trigger] tank_hyp_layout(s0, tiles, d, m)) by {
        if tank_hyp_layout(s0, tiles, d, m) {
            lemma_layout_capacity(s0.board, s0.known_empty@, m, x, z);
            assert(false);
        }
    }
}

/// What sound marks say of one position: a flag implies a mine there, a mine
/// is never open, and a cell is in at most one of the two unrevealed states.
proof fn lemma_nbr_knowledge(b: Board, a: int, c: int)
    requires
        b.wf(),
        b.marks_sound(),
    ensures
        ind(b.state_at(a, c, FieldState::Flagged)) <= ind(b.mine_at(a, c)),
        ind(b.mine_at(a, c)) <= ind(b.state_at(a, c, FieldState::Flagged)) + ind(
            b.state_at(a, c, FieldState::Closed),
        ),
        ind(b.state_at(a, c, FieldState::Flagged)) + ind(b.state_at(a, c, FieldState::Closed))
            <= 1,
{
    if b.in_bounds(a, c) {
        let f = b.cell(a, c);
        assert(f.field_state == FieldState::Flagged ==> f.mine);
        assert(f.field_state == FieldState::Open ==> !f.mine);
    }
}

/// The flagging rule of the deduction pass is sound: when an open cell's hint
/// equals its flagged plus closed neighbors, every closed neighbor hides a mine.
#[verifier::rlimit(100)]
#[verifier::spinoff_prover]
pub proof fn lemma_deduction_flag(b: Board, x: int, z: int)
    requires
        b.wf(),
        b.in_bounds(x, z),
        b.hints_consistent(),
        b.marks_sound(),
        b.cell(x, z).field_state == FieldState::Open,
        b.cell(x, z).value == b.state_neighbors(x, z, FieldState::Flagged) + b.state_neighbors(
            x,
            z,
            FieldState::Closed,
        ),
    ensures
        forall|a: int, c: int|
            adjacent(x, z, a, c) && b.in_bounds(a, c) && (#[trigger] b.cell(a, c)).field_state
                == FieldState::Closed ==> b.cell(a, c).mine,
{
    assert(!b.cell(x, z).mine);
    assert(b.cell(x, z).value == b.mine_neighbors(x, z));
    lemma_nbr_knowledge(b, x - 1, z - 1);
    lemma_nbr_knowledge(b, x - 1, z);
    lemma_nbr_knowledge(b, x - 1, z + 1);
    lemma_nbr_knowledge(b, x, z - 1);
    lemma_nbr_knowledge(b, x, z + 1);
    lemma_nbr_knowledge(b, x + 1, z - 1);
    lemma_nbr_knowledge(b, x + 1, z);
    lemma_nbr_knowledge(b, x + 1, z + 1);
    assert(ind(b.mine_at(x - 1, z - 1)) == ind(b.state_at(x - 1, z - 1, FieldState::Flagged)) + ind(
        b.state_at(x - 1, z - 1, FieldState::Closed),
    ));
    assert(ind(b.mine_at(x - 1, z)) == ind(b.state_at(x - 1, z, FieldState::Flagged)) + ind(
        b.state_at(x - 1, z, FieldState::Closed),
    ));
    assert(ind(b.mine_at(x - 1, z + 1)) == ind(b.state_at(x - 1, z + 1, FieldState::Flagged)) + ind(
        b.state_at(x - 1, z + 1, FieldState::Closed),
    ));
    assert(ind(b.mine_at(x, z - 1)) == ind(b.state_at(x, z - 1, FieldState::Flagged)) + ind(
        b.state_at(x, z - 1, FieldState::Closed),
    ));
    assert(ind(b.mine_at(x, z + 1)) == ind(b.state_at(x, z + 1, FieldState::Flagged)) + ind(
        b.state_at(x, z + 1, FieldState::Closed),
    ));
    assert(ind(b.mine_at(x + 1, z - 1)) == ind(b.state_at(x + 1, z - 1, FieldState::Flagged)) + ind(
        b.state_at(x + 1, z - 1, FieldState::Closed),
    ));
    assert(ind(b.mine_at(x + 1, z)) == ind(b.state_at(x + 1, z, FieldState::Flagged)) + ind(
        b.state_at(x + 1, z, FieldState::Closed),
    ));
    assert(ind(b.mine_at(x + 1, z + 1)) == ind(b.state_at(x + 1, z + 1, FieldState::Flagged)) + ind(
        b.state_at(x + 1, z + 1, FieldState::Closed),
    ));
    assert forall|a: int, c: int|
        adjacent(x, z, a, c) && b.in_bounds(a, c) && (#[trigger] b.cell(a, c)).field_state
            == FieldState::Closed implies b.cell(a, c).mine by {
        assert(b.state_at(a, c, FieldState::Closed));
        assert(ind(b.mine_at(a, c)) == 1);
    }
}

/// The opening rule of the deduction pass is sound: when an open cell's hint
/// already equals its flagged neighbors, every closed neighbor is safe.
#[verifier::rlimit(100)]
#[verifier::spinoff_prover]
pub proof fn lemma_deduction_open(b: Board, x: int, z: int)
    requires
        b.wf(),
        b.in_bounds(x, z),
        b.hints_consistent(),
        b.marks_sound(),
        b.cell(x, z).field_state == FieldState::Open,
        b.cell(x, z).value == b.state_neighbors(x, z, FieldState::Flagged),
    ensures
        forall|a: int, c: int|
            adjacent(x, z, a, c) && b.in_bounds(a, c) && (#[trigger] b.cell(a, c)).field_state
                == FieldState::Closed ==> !b.cell(a, c).mine,
{
    assert(!b.cell(x, z).mine);
    assert(b.cell(x, z).value == b.mine_neighbors(x, z));
    lemma_nbr_knowledge(b, x - 1, z - 1);
    lemma_nbr_knowledge(b, x - 1, z);
    lemma_nbr_knowledge(b, x - 1, z + 1);
    lemma_nbr_knowledge(b, x, z - 1);
    lemma_nbr_knowledge(b, x, z + 1);
    lemma_nbr_knowledge(b, x + 1, z - 1);
    lemma_nbr_knowledge(b, x + 1, z);
    lemma_nbr_knowledge(b, x + 1, z + 1);
    assert forall|a: int, c: int|
        adjacent(x, z, a, c) && b.in_bounds(a, c) && (#[trigger] b.cell(a, c)).field_state
            == FieldState::Closed implies !b.cell(a, c).mine by {
        assert(b.state_at(a, c, FieldState::Closed));
        assert(ind(b.mine_at(a, c)) == 0);
    }
}

/// A mark grid shaped like a board.
pub open spec fn grid_shaped(g: Seq<Vec<bool>>, b: Board) -> bool {
    &&& g.len() == b.x_size
    &&& forall|i: int| 0 <= i < g.len() ==> (#[trigger] g[i])@.len() == b.z_size
}

/// The knowledge arrays only state truths about the board: a mine mark sits
/// on a mine, a safe mark sits on a safe cell.
pub open spec fn truth_compatible(b: Board, km: Seq<Vec<bool>>, ke: Seq<Vec<bool>>) -> bool {
    &&& forall|i: int, j: int| marked_at(km, i, j) ==> b.mine_at(i, j)
    &&& forall|i: int, j: int|
        marked_at(ke, i, j) ==> b.in_bounds(i, j) && !b.cell(i, j).mine
}

/// The first `d` candidate cells carry knowledge that settles them exactly as
/// the board's real mines do.
pub open spec fn decided_prefix(
    b: Board,
    km: Seq<Vec<bool>>,
    ke: Seq<Vec<bool>>,
    tiles: Seq<(usize, usize)>,
    d: int,
) -> bool {
    forall|k: int|
        0 <= k < d ==> {
            let t = #[trigger] tiles[k];
            &&& marked_at(km, t.0 as int, t.1 as int) == b.cell(t.0 as int, t.1 as int).mine
            &&& marked_at(ke, t.0 as int, t.1 as int) == !b.cell(t.0 as int, t.1 as int).mine
        }
}

/// The assignment the board's real mine layout gives to the candidate cells.
pub open spec fn truth_vec(b: Board, tiles: Seq<(usize, usize)>) -> Seq<bool> {
    Seq::new(tiles.len(), |k: int| b.cell(tiles[k].0 as int, tiles[k].1 as int).mine)
}

/// No candidate cell occurs twice.
pub open spec fn tiles_distinct(tiles: Seq<(usize, usize)>) -> bool {
    forall|k1: int, k2: int|
        0 <= k1 < k2 < tiles.len() ==> #[trigger] tiles[k1] != #[trigger] tiles[k2]
}

/// Every candidate cell lies on the board.
pub open spec fn tiles_in_bounds(b: Board, tiles: Seq<(usize, usize)>) -> bool {
    forall|k: int|
        0 <= k < tiles.len() ==> b.in_bounds((#[trigger] tiles[k]).0 as int, tiles[k].1 as int)
}

/// Whether a position is one of the candidate cells.
pub open spec fn tile_of(tiles: Seq<(usize, usize)>, i: int, j: int) -> bool {
    exists|k: int| 0 <= k < tiles.len() && (#[trigger] tiles[k]).0 == i && tiles[k].1 == j
}

/// The scratch state the backtracking search runs in: the snapshot agrees
/// with the board and the knowledge arrays are shaped like it.
pub open spec fn tank_env(s: Solver) -> bool {
    &&& s.board.wf()
    &&& grid_shaped(s.known_mines@, s.board)
    &&& grid_shaped(s.known_empty@, s.board)
    &&& s.tank_board@.len() == s.board.x_size
    &&& forall|i: int|
        0 <= i < s.tank_board@.len() ==> (#[trigger] s.tank_board@[i])@.len() == s.board.z_size
    &&& forall|i: int, j: int|
        s.board.in_bounds(i, j) ==> #[trigger] s.tank_board@[i]@[j] == s.board.cell(i, j)
}

/// What the completeness of the backtracking search rests on at one call:
/// true knowledge decided exactly on the prefix, a small enough component,
/// the true mine total, and — when the global mine budget is in play —
/// candidates that cover every closed cell, marks on every flagged cell,
/// and candidates all still closed.
pub open spec fn tank_hyp(s: Solver, tiles: Seq<(usize, usize)>, d: int) -> bool {
    &&& truth_compatible(s.board, s.known_mines@, s.known_empty@)
    &&& decided_prefix(s.board, s.known_mines@, s.known_empty@, tiles, d)
    &&& tiles.len() <= 25
    &&& s.board.mine_total() == s.board.mine_count
    &&& (!s.border_optimization ==> {
        &&& forall|i: int, j: int|
            s.board.in_bounds(i, j) && (#[trigger] s.board.cell(i, j)).field_state
                == FieldState::Closed ==> tile_of(tiles, i, j)
        &&& forall|i: int, j: int|
            s.board.in_bounds(i, j) && (#[trigger] s.board.cell(i, j)).field_state
                == FieldState::Flagged ==> marked_at(s.known_mines@, i, j)
        &&& forall|k: int|
            0 <= k < tiles.len() ==> s.board.cell(
                (#[trigger] tiles[k]).0 as int,
                tiles[k].1 as int,
            ).field_state == FieldState::Closed
    })
}

/// Whether a hypothetical mine layout places a mine at a board position.
pub open spec fn layout_at(b: Board, m: spec_fn(int, int) -> bool, i: int, j: int) -> bool {
    b.in_bounds(i, j) && m(i, j)
}

/// Count of a layout's mines among the up-to-eight neighbors of a position.
pub open spec fn layout_neighbors(b: Board, m: spec_fn(int, int) -> bool, x: int, z: int) -> int {
    ind(layout_at(b, m, x - 1, z - 1)) + ind(layout_at(b, m, x - 1, z)) + ind(
        layout_at(b, m, x - 1, z + 1),
    ) + ind(layout_at(b, m, x, z - 1)) + ind(layout_at(b, m, x, z + 1)) + ind(
        layout_at(b, m, x + 1, z - 1),
    ) + ind(layout_at(b, m, x + 1, z)) + ind(layout_at(b, m, x + 1, z + 1))
}

/// Count of a layout's mines in row `i`, over the first `n` columns.
pub open spec fn layout_row_total(m: spec_fn(int, int) -> bool, i: int, n: int) -> int
    decreases n,
{
    if n <= 0 {
        0
    } else {
        layout_row_total(m, i, n - 1) + ind(m(i, n - 1))
    }
}

/// Count of a layout's mines over the first `n` rows of `zs` columns each.
pub open spec fn layout_rows_total(m: spec_fn(int, int) -> bool, n: int, zs: int) -> int
    decreases n,
{
    if n <= 0 {
        0
    } else {
        layout_rows_total(m, n - 1, zs) + layout_row_total(m, n - 1, zs)
    }
}

/// Count of a layout's mines over the whole board.
pub open spec fn layout_total(b: Board, m: spec_fn(int, int) -> bool) -> int {
    layout_rows_total(m, b.x_size as int, b.z_size as int)
}

/// A mine layout the board's visible face admits: flags sit on its mines and
/// open cells do not, every open cell's hint counts exactly its mines, it
/// places nothing off the board, and it places exactly the promised number.
/// The board's real layout is one of these; a cell on which they all agree
/// is decided without guessing, and one on which they differ is not.
pub open spec fn consistent_layout(b: Board, m: spec_fn(int, int) -> bool) -> bool {
    &&& forall|i: int, j: int|
        b.in_bounds(i, j) && (#[trigger] b.cell(i, j)).field_state == FieldState::Flagged ==> m(
            i,
            j,
        )
    &&& forall|i: int, j: int|
        b.in_bounds(i, j) && (#[trigger] b.cell(i, j)).field_state == FieldState::Open ==> !m(i, j)
    &&& forall|i: int, j: int|
        b.in_bounds(i, j) && (#[trigger] b.cell(i, j)).field_state == FieldState::Open ==> b.cell(
            i,
            j,
        ).value == layout_neighbors(b, m, i, j)
    &&& forall|i: int, j: int| !b.in_bounds(i, j) ==> !(#[trigger] m(i, j))
    &&& layout_total(b, m) == b.mine_count
}

/// The assignment a layout gives to the candidate cells.
pub open spec fn layout_vec(m: spec_fn(int, int) -> bool, tiles: Seq<(usize, usize)>) -> Seq<
    bool,
> {
    Seq::new(tiles.len(), |k: int| m(tiles[k].0 as int, tiles[k].1 as int))
}

/// Whether a position is one of the candidate cells from index `d` on.
pub open spec fn suffix_tile(tiles: Seq<(usize, usize)>, d: int, i: int, j: int) -> bool {
    exists|k: int| d <= k < tiles.len() && (#[trigger] tiles[k]).0 == i && tiles[k].1 == j
}

/// How a knowledge array may change across a backtracking call: any mark is
/// kept, or cleared at a candidate cell from index `d` on.
pub open spec fn marks_shrunk(
    g1: Seq<Vec<bool>>,
    g2: Seq<Vec<bool>>,
    tiles: Seq<(usize, usize)>,
    d: int,
) -> bool {
    &&& g2.len() == g1.len()
    &&& forall|i: int| 0 <= i < g1.len() ==> (#[trigger] g2[i])@.len() == g1[i]@.len()
    &&& forall|i: int, j: int|
        #![trigger marked_at(g2, i, j)]
        marked_at(g2, i, j) == marked_at(g1, i, j) || (!marked_at(g2, i, j) && suffix_tile(
            tiles,
            d,
            i,
            j,
        ))
}

/// What the completeness of the backtracking search rests on for one layout
/// at one call: the knowledge arrays only state what the layout says, the
/// first candidates are settled exactly as the layout settles them, the
/// component is small enough, the layout is one the board admits, and — when
/// the global mine budget is in play — the candidates cover every closed
/// cell, every flag is marked, and the candidates are all still closed.
pub open spec fn tank_hyp_layout(
    s: Solver,
    tiles: Seq<(usize, usize)>,
    d: int,
    m: spec_fn(int, int) -> bool,
) -> bool {
    &&& forall|i: int, j: int| marked_at(s.known_mines@, i, j) ==> layout_at(s.board, m, i, j)
    &&& forall|i: int, j: int|
        marked_at(s.known_empty@, i, j) ==> s.board.in_bounds(i, j) && !m(i, j)
    &&& forall|k: int|
        0 <= k < d ==> {
            let t = #[trigger] tiles[k];
            &&& marked_at(s.known_mines@, t.0 as int, t.1 as int) == m(t.0 as int, t.1 as int)
            &&& marked_at(s.known_empty@, t.0 as int, t.1 as int) == !m(t.0 as int, t.1 as int)
        }
    &&& tiles.len() <= 25
    &&& consistent_layout(s.board, m)
    &&& (!s.border_optimization ==> {
        &&& forall|i: int, j: int|
            s.board.in_bounds(i, j) && (#[trigger] s.board.cell(i, j)).field_state
                == FieldState::Closed ==> tile_of(tiles, i, j)
        &&& forall|i: int, j: int|
            s.board.in_bounds(i, j) && (#[trigger] s.board.cell(i, j)).field_state
                == FieldState::Flagged ==> marked_at(s.known_mines@, i, j)
        &&& forall|k: int|
            0 <= k < tiles.len() ==> s.board.cell(
                (#[trigger] tiles[k]).0 as int,
                tiles[k].1 as int,
            ).field_state == FieldState::Closed
    })
}

/// Count of board positions among the up-to-eight neighbors of a position.
pub open spec fn nbr_total(b: Board, x: int, z: int) -> int {
    ind(b.in_bounds(x - 1, z - 1)) + ind(b.in_bounds(x - 1, z)) + ind(b.in_bounds(x - 1, z + 1))
        + ind(b.in_bounds(x, z - 1)) + ind(b.in_bounds(x, z + 1)) + ind(
        b.in_bounds(x + 1, z - 1),
    ) + ind(b.in_bounds(x + 1, z)) + ind(b.in_bounds(x + 1, z + 1))
}

/// Truthful mine marks never outnumber an open cell's hint.
#[verifier::rlimit(100)]
proof fn lemma_truth_no_overflag(b: Board, km: Seq<Vec<bool>>, x: int, z: int)
    requires
        b.wf(),
        b.in_bounds(x, z),
        b.hints_consistent(),
        b.marks_sound(),
        grid_shaped(km, b),
        forall|i: int, j: int| marked_at(km, i, j) ==> b.mine_at(i, j),
        b.cell(x, z).field_state == FieldState::Open,
    ensures
        marked_neighbors(km, x, z) <= b.cell(x, z).value,
{
    assert(!b.cell(x, z).mine);
    assert(b.cell(x, z).value == b.mine_neighbors(x, z));
    assert(ind(marked_at(km, x - 1, z - 1)) <= ind(b.mine_at(x - 1, z - 1)));
    assert(ind(marked_at(km, x - 1, z)) <= ind(b.mine_at(x - 1, z)));
    assert(ind(marked_at(km, x - 1, z + 1)) <= ind(b.mine_at(x - 1, z + 1)));
    assert(ind(marked_at(km, x, z - 1)) <= ind(b.mine_at(x, z - 1)));
    assert(ind(marked_at(km, x, z + 1)) <= ind(b.mine_at(x, z + 1)));
    assert(ind(marked_at(km, x + 1, z - 1)) <= ind(b.mine_at(x + 1, z - 1)));
    assert(ind(marked_at(km, x + 1, z)) <= ind(b.mine_at(x + 1, z)));
    assert(ind(marked_at(km, x + 1, z + 1)) <= ind(b.mine_at(x + 1, z + 1)));
}

/// Truthful safe marks never eat into the capacity an open cell's hint needs:
/// the hint fits in the neighbors that are not safely marked.
#[verifier::rlimit(100)]
proof fn lemma_truth_capacity(b: Board, ke: Seq<Vec<bool>>, x: int, z: int)
    requires
        b.wf(),
        b.in_bounds(x, z),
        b.hints_consistent(),
        b.marks_sound(),
        grid_shaped(ke, b),
        forall|i: int, j: int| marked_at(ke, i, j) ==> b.in_bounds(i, j) && !b.cell(i, j).mine,
        b.cell(x, z).field_state == FieldState::Open,
    ensures
        b.cell(x, z).value + marked_neighbors(ke, x, z) <= nbr_total(b, x, z),
{
    assert(!b.cell(x, z).mine);
    assert(b.cell(x, z).value == b.mine_neighbors(x, z));
    assert(ind(b.mine_at(x - 1, z - 1)) + ind(marked_at(ke, x - 1, z - 1)) <= ind(
        b.in_bounds(x - 1, z - 1),
    ));
    assert(ind(b.mine_at(x - 1, z)) + ind(marked_at(ke, x - 1, z)) <= ind(b.in_bounds(x - 1, z)));
    assert(ind(b.mine_at(x - 1, z + 1)) + ind(marked_at(ke, x - 1, z + 1)) <= ind(
        b.in_bounds(x - 1, z + 1),
    ));
    assert(ind(b.mine_at(x, z - 1)) + ind(marked_at(ke, x, z - 1)) <= ind(b.in_bounds(x, z - 1)));
    assert(ind(b.mine_at(x, z + 1)) + ind(marked_at(ke, x, z + 1)) <= ind(b.in_bounds(x, z + 1)));
    assert(ind(b.mine_at(x + 1, z - 1)) + ind(marked_at(ke, x + 1, z - 1)) <= ind(
        b.in_bounds(x + 1, z - 1),
    ));
    assert(ind(b.mine_at(x + 1, z)) + ind(marked_at(ke, x + 1, z)) <= ind(b.in_bounds(x + 1, z)));
    assert(ind(b.mine_at(x + 1, z + 1)) + ind(marked_at(ke, x + 1, z + 1)) <= ind(
        b.in_bounds(x + 1, z + 1),
    ));
}

/// Two border cells subject to a common constraint: some open numbered cell
/// lies within a king's move of both.
pub open spec fn linked(b: Board, p: (usize, usize), q: (usize, usize)) -> bool {
    exists|i: int, j: int|
        b.in_bounds(i, j) && field_value(#[trigger] b.cell(i, j)) > 0 && -1 <= p.0 as int - i <= 1
            && -1 <= p.1 as int - j <= 1 && -1 <= q.0 as int - i <= 1 && -1 <= q.1 as int - j <= 1
}

/// Sharing a constraint does not depend on the order of the two cells.
pub proof fn lemma_linked_sym(b: Board, p: (usize, usize), q: (usize, usize))
    ensures
        linked(b, p, q) == linked(b, q, p),
{
    if linked(b, p, q) {
        let (i, j) = choose|i: int, j: int|
            b.in_bounds(i, j) && field_value(#[trigger] b.cell(i, j)) > 0 && -1 <= p.0 as int - i
                <= 1 && -1 <= p.1 as int - j <= 1 && -1 <= q.0 as int - i <= 1 && -1 <= q.1 as int
                - j <= 1;
        assert(linked(b, q, p));
    }
    if linked(b, q, p) {
        let (i, j) = choose|i: int, j: int|
            b.in_bounds(i, j) && field_value(#[trigger] b.cell(i, j)) > 0 && -1 <= q.0 as int - i
                <= 1 && -1 <= q.1 as int - j <= 1 && -1 <= p.0 as int - i <= 1 && -1 <= p.1 as int
                - j <= 1;
        assert(linked(b, p, q));
    }
}

/// Cells sharing a constraint lie within two steps of one another.
pub proof fn lemma_linked_near(b: Board, p: (usize, usize), q: (usize, usize))
    requires
        linked(b, p, q),
    ensures
        -2 <= p.0 as int - q.0 as int <= 2,
        -2 <= p.1 as int - q.1 as int <= 2,
{
    let (i, j) = choose|i: int, j: int|
        b.in_bounds(i, j) && field_value(#[trigger] b.cell(i, j)) > 0 && -1 <= p.0 as int - i <= 1
            && -1 <= p.1 as int - j <= 1 && -1 <= q.0 as int - i <= 1 && -1 <= q.1 as int - j <= 1;
}

/// Count of the given blocks that sit neither among the finished nor among
/// the queued positions: what the breadth-first traversal still owes.
pub open spec fn free_count(
    blocks: Seq<(usize, usize)>,
    fin: Seq<(usize, usize)>,
    q: Seq<(usize, usize)>,
) -> int
    decreases blocks.len(),
{
    if blocks.len() == 0 {
        0
    } else {
        free_count(blocks.drop_last(), fin, q) + ind(
            !fin.contains(blocks.last()) && !q.contains(blocks.last()),
        )
    }
}

pub proof fn lemma_free_count_nonneg(
    blocks: Seq<(usize, usize)>,
    fin: Seq<(usize, usize)>,
    q: Seq<(usize, usize)>,
)
    ensures
        0 <= free_count(blocks, fin, q) <= blocks.len(),
    decreases blocks.len(),
{
    if blocks.len() != 0 {
        lemma_free_count_nonneg(blocks.drop_last(), fin, q);
    }
}

/// Covering more positions leaves no more blocks free; covering a block that
/// was free leaves strictly fewer.
pub proof fn lemma_free_count_mono(
    blocks: Seq<(usize, usize)>,
    fin1: Seq<(usize, usize)>,
    q1: Seq<(usize, usize)>,
    fin2: Seq<(usize, usize)>,
    q2: Seq<(usize, usize)>,
)
    requires
        forall|c: (usize, usize)|
            fin1.contains(c) || q1.contains(c) ==> fin2.contains(c) || #[trigger] q2.contains(c),
    ensures
        free_count(blocks, fin2, q2) <= free_count(blocks, fin1, q1),
    decreases blocks.len(),
{
    if blocks.len() != 0 {
        lemma_free_count_mono(blocks.drop_last(), fin1, q1, fin2, q2);
    }
}

pub proof fn lemma_free_count_strict(
    blocks: Seq<(usize, usize)>,
    fin1: Seq<(usize, usize)>,
    q1: Seq<(usize, usize)>,
    fin2: Seq<(usize, usize)>,
    q2: Seq<(usize, usize)>,
    m0: int,
)
    requires
        forall|c: (usize, usize)|
            fin1.contains(c) || q1.contains(c) ==> fin2.contains(c) || #[trigger] q2.contains(c),
        0 <= m0 < blocks.len(),
        !fin1.contains(blocks[m0]) && !q1.contains(blocks[m0]),
        fin2.contains(blocks[m0]) || q2.contains(blocks[m0]),
    ensures
        free_count(blocks, fin2, q2) < free_count(blocks, fin1, q1),
    decreases blocks.len(),
{
    if m0 == blocks.len() - 1 {
        lemma_free_count_mono(blocks.drop_last(), fin1, q1, fin2, q2);
        assert(blocks.last() == blocks[m0]);
    } else {
        lemma_free_count_strict(blocks.drop_last(), fin1, q1, fin2, q2, m0);
        assert(blocks.drop_last()[m0] == blocks[m0]);
    }
}

/// Whether a position sits in one of the regions.
pub open spec fn in_some_region(regions: Seq<Vec<(usize, usize)>>, c: (usize, usize)) -> bool {
    exists|r: int| 0 <= r < regions.len() && (#[trigger] regions[r])@.contains(c)
}

/// Membership across appending one position.
proof fn lemma_contains_push(v: Seq<(usize, usize)>, e: (usize, usize))
    ensures
        forall|c: (usize, usize)| #[trigger] v.push(e).contains(c) <==> v.contains(c) || c == e,
{
    assert forall|c: (usize, usize)| #[trigger] v.push(e).contains(c) implies v.contains(c) || c
        == e by {
        let k = choose|k: int| 0 <= k < v.push(e).len() && v.push(e)[k] == c;
        if k < v.len() {
            assert(v[k] == c);
        }
    }
    assert forall|c: (usize, usize)| v.contains(c) || c == e implies #[trigger] v.push(e).contains(
        c,
    ) by {
        if v.contains(c) {
            let k = choose|k: int| 0 <= k < v.len() && v[k] == c;
            assert(v.push(e)[k] == c);
        } else {
            assert(v.push(e)[v.len() as int] == c);
        }
    }
}

/// Membership across removing the head of a duplicate-free list.
proof fn lemma_remove_first(q: Seq<(usize, usize)>)
    requires
        q.len() > 0,
        tiles_distinct(q),
    ensures
        forall|c: (usize, usize)| #[trigger] q.contains(c) <==> (c == q[0] || q.remove(0).contains(
            c,
        )),
        tiles_distinct(q.remove(0)),
        !q.remove(0).contains(q[0]),
{
    let q2 = q.remove(0);
    assert(forall|k: int| 0 <= k < q2.len() ==> #[trigger] q2[k] == q[k + 1]);
    assert forall|c: (usize, usize)| #[trigger] q.contains(c) implies (c == q[0] || q2.contains(
        c,
    )) by {
        let k = choose|k: int| 0 <= k < q.len() && q[k] == c;
        if k > 0 {
            assert(q2[k - 1] == c);
        }
    }
    assert forall|c: (usize, usize)| (c == q[0] || q2.contains(c)) implies #[trigger] q.contains(
        c,
    ) by {
        if c == q[0] {
            assert(q[0] == c);
        } else {
            let k = choose|k: int| 0 <= k < q2.len() && q2[k] == c;
            assert(q[k + 1] == c);
        }
    }
    if q2.contains(q[0]) {
        let k = choose|k: int| 0 <= k < q2.len() && q2[k] == q[0];
        assert(q[k + 1] == q[0]);
        assert(false);
    }
}

/// What segregation maintains while it carves out regions: covered positions
/// are exactly the region members, regions hold only given blocks without
/// repetition or overlap, and each region already swallowed every block that
/// shares a constraint with one of its members.
pub open spec fn segregate_inv(
    b: Board,
    blocks: Seq<(usize, usize)>,
    regions: Seq<Vec<(usize, usize)>>,
    covered: Seq<(usize, usize)>,
) -> bool {
    &&& forall|c: (usize, usize)| #[trigger] covered.contains(c) ==> in_some_region(regions, c)
    &&& forall|c: (usize, usize)| #[trigger] in_some_region(regions, c) ==> covered.contains(c)
    &&& forall|r: int, k: int|
        #![trigger regions[r]@[k]]
        0 <= r < regions.len() && 0 <= k < regions[r]@.len() ==> blocks.contains(regions[r]@[k])
    &&& forall|r: int| 0 <= r < regions.len() ==> tiles_distinct((#[trigger] regions[r])@)
    &&& forall|r1: int, r2: int, k1: int, k2: int|
        #![trigger regions[r1]@[k1], regions[r2]@[k2]]
        0 <= r1 < regions.len() && 0 <= r2 < regions.len() && r1 != r2 && 0 <= k1
            < regions[r1]@.len() && 0 <= k2 < regions[r2]@.len() ==> regions[r1]@[k1]
            != regions[r2]@[k2]
    &&& forall|r: int, k: int, m: int|
        #![trigger regions[r]@[k], blocks[m]]
        0 <= r < regions.len() && 0 <= k < regions[r]@.len() && 0 <= m < blocks.len() && linked(
            b,
            regions[r]@[k],
            blocks[m],
        ) ==> regions[r]@.contains(blocks[m])
}

/// Two mark grids of one shape that agree everywhere but possibly at one
/// position.
pub open spec fn eq_except(g1: Seq<Vec<bool>>, g2: Seq<Vec<bool>>, fi: int, fj: int) -> bool {
    &&& g2.len() == g1.len()
    &&& forall|i: int| 0 <= i < g1.len() ==> (#[trigger] g2[i])@.len() == g1[i]@.len()
    &&& forall|i: int, j: int|
        #![trigger marked_at(g2, i, j)]
        !(i == fi && j == fj) ==> marked_at(g2, i, j) == marked_at(g1, i, j)
}

/// One backtracking level seen from outside: a hypothesis is set at the
/// level's own candidate, each branch shrinks only deeper candidates, and the
/// hypothesis is withdrawn; together the level shrinks only candidates from
/// its own index on.
proof fn lemma_marks_chain(
    a: Seq<Vec<bool>>,
    b: Seq<Vec<bool>>,
    c: Seq<Vec<bool>>,
    e: Seq<Vec<bool>>,
    g: Seq<Vec<bool>>,
    h: Seq<Vec<bool>>,
    tiles: Seq<(usize, usize)>,
    d: int,
    f: (usize, usize),
)
    requires
        0 <= d < tiles.len(),
        tiles[d] == f,
        eq_except(a, b, f.0 as int, f.1 as int),
        marks_shrunk(b, c, tiles, d + 1),
        eq_except(c, e, f.0 as int, f.1 as int),
        marks_shrunk(e, g, tiles, d + 1),
        eq_except(g, h, f.0 as int, f.1 as int),
        !marked_at(h, f.0 as int, f.1 as int),
    ensures
        marks_shrunk(a, h, tiles, d),
{
    assert forall|i: int, j: int|
        #![trigger marked_at(h, i, j)]
        marked_at(h, i, j) == marked_at(a, i, j) || (!marked_at(h, i, j) && suffix_tile(
            tiles,
            d,
            i,
            j,
        )) by {
        if i == f.0 as int && j == f.1 as int {
            assert(suffix_tile(tiles, d, i, j));
        } else {
            assert(marked_at(h, i, j) == marked_at(g, i, j));
            assert(marked_at(e, i, j) == marked_at(c, i, j));
            assert(marked_at(b, i, j) == marked_at(a, i, j));
            if marked_at(h, i, j) != marked_at(a, i, j) {
                assert(suffix_tile(tiles, d + 1, i, j));
                let k = choose|k: int|
                    d + 1 <= k < tiles.len() && (#[trigger] tiles[k]).0 == i && tiles[k].1 == j;
                assert(suffix_tile(tiles, d, i, j));
            }
        }
    }
}

/// Setting the level's candidate to "mine" keeps the search hypotheses exact
/// when that candidate really hides a mine.
proof fn lemma_hyp_mine_branch(s0: Solver, s1: Solver, tiles: Seq<(usize, usize)>, d: int)
    requires
        tank_env(s0),
        s0.board.marks_sound(),
        tiles_distinct(tiles),
        tiles_in_bounds(s0.board, tiles),
        0 <= d < tiles.len(),
        tank_hyp(s0, tiles, d),
        s0.board.cell(tiles[d].0 as int, tiles[d].1 as int).mine,
        s1.board == s0.board,
        s1.border_optimization == s0.border_optimization,
        s1.known_empty == s0.known_empty,
        eq_except(s0.known_mines@, s1.known_mines@, tiles[d].0 as int, tiles[d].1 as int),
        marked_at(s1.known_mines@, tiles[d].0 as int, tiles[d].1 as int),
    ensures
        tank_hyp(s1, tiles, d + 1),
{
    let f = tiles[d];
    let fi = f.0 as int;
    let fj = f.1 as int;
    let b = s0.board;
    assert forall|i: int, j: int| marked_at(s1.known_mines@, i, j) implies b.mine_at(i, j) by {
        if i == fi && j == fj {
            assert(b.in_bounds(i, j));
        } else {
            assert(marked_at(s0.known_mines@, i, j));
        }
    }
    assert forall|k: int| 0 <= k < d + 1 implies {
        let t = #[trigger] tiles[k];
        &&& marked_at(s1.known_mines@, t.0 as int, t.1 as int) == b.cell(
            t.0 as int,
            t.1 as int,
        ).mine
        &&& marked_at(s1.known_empty@, t.0 as int, t.1 as int) == !b.cell(
            t.0 as int,
            t.1 as int,
        ).mine
    } by {
        if k < d {
            assert(tiles[k] != f);
            assert(marked_at(s1.known_mines@, tiles[k].0 as int, tiles[k].1 as int) == marked_at(
                s0.known_mines@,
                tiles[k].0 as int,
                tiles[k].1 as int,
            ));
        } else {
            assert(!marked_at(s0.known_empty@, fi, fj));
        }
    }
    if !s1.border_optimization {
        assert forall|i: int, j: int|
            b.in_bounds(i, j) && (#[trigger] b.cell(i, j)).field_state
                == FieldState::Flagged implies marked_at(s1.known_mines@, i, j) by {
            if !(i == fi && j == fj) {
                assert(marked_at(s0.known_mines@, i, j));
            }
        }
    }
}

/// Setting the level's candidate to "safe" — after the mine branch came back,
/// having only withdrawn deeper hypotheses — keeps the search hypotheses
/// exact when that candidate really is safe.
proof fn lemma_hyp_safe_branch(s0: Solver, s4: Solver, tiles: Seq<(usize, usize)>, d: int)
    requires
        tank_env(s0),
        tank_env(s4),
        s0.board.marks_sound(),
        tiles_distinct(tiles),
        tiles_in_bounds(s0.board, tiles),
        0 <= d < tiles.len(),
        tank_hyp(s0, tiles, d),
        !s0.board.cell(tiles[d].0 as int, tiles[d].1 as int).mine,
        s4.board == s0.board,
        s4.border_optimization == s0.border_optimization,
        forall|i: int, j: int|
            #![trigger marked_at(s4.known_mines@, i, j)]
            !(i == tiles[d].0 as int && j == tiles[d].1 as int) ==> marked_at(s4.known_mines@, i, j)
                == marked_at(s0.known_mines@, i, j) || (!marked_at(s4.known_mines@, i, j)
                && suffix_tile(tiles, d + 1, i, j)),
        !marked_at(s4.known_mines@, tiles[d].0 as int, tiles[d].1 as int),
        forall|i: int, j: int|
            #![trigger marked_at(s4.known_empty@, i, j)]
            !(i == tiles[d].0 as int && j == tiles[d].1 as int) ==> marked_at(s4.known_empty@, i, j)
                == marked_at(s0.known_empty@, i, j) || (!marked_at(s4.known_empty@, i, j)
                && suffix_tile(tiles, d + 1, i, j)),
        marked_at(s4.known_empty@, tiles[d].0 as int, tiles[d].1 as int),
    ensures
        tank_hyp(s4, tiles, d + 1),
{
    let f = tiles[d];
    let fi = f.0 as int;
    let fj = f.1 as int;
    let b = s0.board;
    assert forall|i: int, j: int| marked_at(s4.known_mines@, i, j) implies b.mine_at(i, j) by {
        if !(i == fi && j == fj) {
            assert(marked_at(s0.known_mines@, i, j));
        }
    }
    assert forall|i: int, j: int| marked_at(s4.known_empty@, i, j) implies b.in_bounds(i, j)
        && !b.cell(i, j).mine by {
        if i == fi && j == fj {
            assert(b.in_bounds(i, j));
        } else {
            assert(marked_at(s0.known_empty@, i, j));
        }
    }
    assert forall|k: int| 0 <= k < d + 1 implies {
        let t = #[trigger] tiles[k];
        &&& marked_at(s4.known_mines@, t.0 as int, t.1 as int) == b.cell(
            t.0 as int,
            t.1 as int,
        ).mine
        &&& marked_at(s4.known_empty@, t.0 as int, t.1 as int) == !b.cell(
            t.0 as int,
            t.1 as int,
        ).mine
    } by {
        if k < d {
            assert(tiles[k] != f);
            let ti = tiles[k].0 as int;
            let tj = tiles[k].1 as int;
            if marked_at(s4.known_mines@, ti, tj) != marked_at(s0.known_mines@, ti, tj) {
                assert(suffix_tile(tiles, d + 1, ti, tj));
                let k2 = choose|k2: int|
                    d + 1 <= k2 < tiles.len() && (#[trigger] tiles[k2]).0 == tiles[k].0
                        && tiles[k2].1 == tiles[k].1;
                assert(tiles[k2] == tiles[k]);
                assert(false);
            }
            if marked_at(s4.known_empty@, ti, tj) != marked_at(s0.known_empty@, ti, tj) {
                assert(suffix_tile(tiles, d + 1, ti, tj));
                let k2 = choose|k2: int|
                    d + 1 <= k2 < tiles.len() && (#[trigger] tiles[k2]).0 == tiles[k].0
                        && tiles[k2].1 == tiles[k].1;
                assert(tiles[k2] == tiles[k]);
                assert(false);
            }
        }
    }
    if !s4.border_optimization {
        assert forall|i: int, j: int|
            b.in_bounds(i, j) && (#[trigger] b.cell(i, j)).field_state
                == FieldState::Flagged implies marked_at(s4.known_mines@, i, j) by {
            assert(marked_at(s0.known_mines@, i, j));
            assert(b.cell(i, j).field_state != FieldState::Closed);
            if i == fi && j == fj {
                // the candidate is closed, a flagged cell is not
                assert(b.cell(fi, fj).field_state == FieldState::Closed);
                assert(false);
            }
            if marked_at(s4.known_mines@, i, j) != marked_at(s0.known_mines@, i, j) {
                assert(suffix_tile(tiles, d + 1, i, j));
                let k2 = choose|k2: int|
                    d + 1 <= k2 < tiles.len() && (#[trigger] tiles[k2]).0 == i && tiles[k2].1 == j;
                assert(b.cell(i, j).field_state == FieldState::Closed);
                assert(false);
            }
        }
    }
}

/// Setting the level's candidate to "mine" keeps the search hypotheses exact
/// for every admissible layout that places a mine there.
proof fn lemma_hyp_layout_mine(
    s0: Solver,
    s1: Solver,
    tiles: Seq<(usize, usize)>,
    d: int,
    m: spec_fn(int, int) -> bool,
)
    requires
        tank_env(s0),
        tiles_distinct(tiles),
        tiles_in_bounds(s0.board, tiles),
        0 <= d < tiles.len(),
        tank_hyp_layout(s0, tiles, d, m),
        m(tiles[d].0 as int, tiles[d].1 as int),
        s1.board == s0.board,
        s1.border_optimization == s0.border_optimization,
        s1.known_empty == s0.known_empty,
        eq_except(s0.known_mines@, s1.known_mines@, tiles[d].0 as int, tiles[d].1 as int),
        marked_at(s1.known_mines@, tiles[d].0 as int, tiles[d].1 as int),
    ensures
        tank_hyp_layout(s1, tiles, d + 1, m),
{
    let f = tiles[d];
    let fi = f.0 as int;
    let fj = f.1 as int;
    let b = s0.board;
    assert forall|i: int, j: int| marked_at(s1.known_mines@, i, j) implies layout_at(
        b,
        m,
        i,
        j,
    ) by {
        if i == fi && j == fj {
            assert(b.in_bounds(i, j));
        } else {
            assert(marked_at(s0.known_mines@, i, j));
        }
    }
    assert forall|k: int| 0 <= k < d + 1 implies {
        let t = #[trigger] tiles[k];
        &&& marked_at(s1.known_mines@, t.0 as int, t.1 as int) == m(t.0 as int, t.1 as int)
        &&& marked_at(s1.known_empty@, t.0 as int, t.1 as int) == !m(t.0 as int, t.1 as int)
    } by {
        if k < d {
            assert(tiles[k] != f);
            assert(marked_at(s1.known_mines@, tiles[k].0 as int, tiles[k].1 as int) == marked_at(
                s0.known_mines@,
                tiles[k].0 as int,
                tiles[k].1 as int,
            ));
        } else {
            assert(!marked_at(s0.known_empty@, fi, fj));
        }
    }
    if !s1.border_optimization {
        assert forall|i: int, j: int|
            b.in_bounds(i, j) && (#[trigger] b.cell(i, j)).field_state
                == FieldState::Flagged implies marked_at(s1.known_mines@, i, j) by {
            if !(i == fi && j == fj) {
                assert(marked_at(s0.known_mines@, i, j));
            }
        }
    }
}

/// Setting the level's candidate to "safe" — after the mine branch came back,
/// having only withdrawn deeper hypotheses — keeps the search hypotheses
/// exact for every admissible layout that leaves that candidate free.
#[verifier::rlimit(100)]
proof fn lemma_hyp_layout_safe(
    s0: Solver,
    s4: Solver,
    tiles: Seq<(usize, usize)>,
    d: int,
    m: spec_fn(int, int) -> bool,
)
    requires
        tank_env(s0),
        tank_env(s4),
        tiles_distinct(tiles),
        tiles_in_bounds(s0.board, tiles),
        0 <= d < tiles.len(),
        tank_hyp_layout(s0, tiles, d, m),
        !m(tiles[d].0 as int, tiles[d].1 as int),
        s4.board == s0.board,
        s4.border_optimization == s0.border_optimization,
        forall|i: int, j: int|
            #![trigger marked_at(s4.known_mines@, i, j)]
            !(i == tiles[d].0 as int && j == tiles[d].1 as int) ==> marked_at(s4.known_mines@, i, j)
                == marked_at(s0.known_mines@, i, j) || (!marked_at(s4.known_mines@, i, j)
                && suffix_tile(tiles, d + 1, i, j)),
        !marked_at(s4.known_mines@, tiles[d].0 as int, tiles[d].1 as int),
        forall|i: int, j: int|
            #![trigger marked_at(s4.known_empty@, i, j)]
            !(i == tiles[d].0 as int && j == tiles[d].1 as int) ==> marked_at(s4.known_empty@, i, j)
                == marked_at(s0.known_empty@, i, j) || (!marked_at(s4.known_empty@, i, j)
                && suffix_tile(tiles, d + 1, i, j)),
        marked_at(s4.known_empty@, tiles[d].0 as int, tiles[d].1 as int),
    ensures
        tank_hyp_layout(s4, tiles, d + 1, m),
{
    let f = tiles[d];
    let fi = f.0 as int;
    let fj = f.1 as int;
    let b = s0.board;
    assert forall|i: int, j: int| marked_at(s4.known_mines@, i, j) implies layout_at(
        b,
        m,
        i,
        j,
    ) by {
        if !(i == fi && j == fj) {
            assert(marked_at(s0.known_mines@, i, j));
        }
    }
    assert forall|i: int, j: int| marked_at(s4.known_empty@, i, j) implies b.in_bounds(i, j) && !m(
        i,
        j,
    ) by {
        if i == fi && j == fj {
            assert(b.in_bounds(i, j));
        } else {
            assert(marked_at(s0.known_empty@, i, j));
        }
    }
    assert forall|k: int| 0 <= k < d + 1 implies {
        let t = #[trigger] tiles[k];
        &&& marked_at(s4.known_mines@, t.0 as int, t.1 as int) == m(t.0 as int, t.1 as int)
        &&& marked_at(s4.known_empty@, t.0 as int, t.1 as int) == !m(t.0 as int, t.1 as int)
    } by {
        if k < d {
            assert(tiles[k] != f);
            let ti = tiles[k].0 as int;
            let tj = tiles[k].1 as int;
            if marked_at(s4.known_mines@, ti, tj) != marked_at(s0.known_mines@, ti, tj) {
                assert(suffix_tile(tiles, d + 1, ti, tj));
                let k2 = choose|k2: int|
                    d + 1 <= k2 < tiles.len() && (#[trigger] tiles[k2]).0 == tiles[k].0
                        && tiles[k2].1 == tiles[k].1;
                assert(tiles[k2] == tiles[k]);
                assert(false);
            }
            if marked_at(s4.known_empty@, ti, tj) != marked_at(s0.known_empty@, ti, tj) {
                assert(suffix_tile(tiles, d + 1, ti, tj));
                let k2 = choose|k2: int|
                    d + 1 <= k2 < tiles.len() && (#[trigger] tiles[k2]).0 == tiles[k].0
                        && tiles[k2].1 == tiles[k].1;
                assert(tiles[k2] == tiles[k]);
                assert(false);
            }
        }
    }
    if !s4.border_optimization {
        assert forall|i: int, j: int|
            b.in_bounds(i, j) && (#[trigger] b.cell(i, j)).field_state
                == FieldState::Flagged implies marked_at(s4.known_mines@, i, j) by {
            assert(marked_at(s0.known_mines@, i, j));
            assert(b.cell(i, j).field_state != FieldState::Closed);
            if i == fi && j == fj {
                assert(b.cell(fi, fj).field_state == FieldState::Closed);
                assert(false);
            }
            if marked_at(s4.known_mines@, i, j) != marked_at(s0.known_mines@, i, j) {
                assert(suffix_tile(tiles, d + 1, i, j));
                let k2 = choose|k2: int|
                    d + 1 <= k2 < tiles.len() && (#[trigger] tiles[k2]).0 == i && tiles[k2].1 == j;
                assert(b.cell(i, j).field_state == FieldState::Closed);
                assert(false);
            }
        }
    }
}

/// The capacity the original bounds a cell's neighborhood with never falls
/// below the true number of its neighbors.
proof fn lemma_bordering_bound(b: Board, x: int, z: int, bd: int)
    requires
        b.wf(),
        b.in_bounds(x, z),
        bd == if (x == 0 && z == 0) || (x == b.x_size - 1 && z == b.z_size - 1) {
            3int
        } else if x == 0 || z == 0 || x == b.x_size - 1 || z == b.z_size - 1 {
            5int
        } else {
            8int
        },
    ensures
        nbr_total(b, x, z) <= bd,
{
}

/// Sets one mark of a knowledge array, leaving every other entry alone.
fn set_mark(g: &mut Vec<Vec<bool>>, x: usize, z: usize, v: bool)
    requires
        x < old(g)@.len(),
        z < old(g)@[x as int]@.len(),
    ensures
        final(g)@.len() == old(g)@.len(),
        forall|i: int| 0 <= i < old(g)@.len() ==> (#[trigger] final(g)@[i])@.len()
            == old(g)@[i]@.len(),
        forall|i: int, j: int|
            #![trigger marked_at(final(g)@, i, j)]
            !(i == x as int && j == z as int) ==> marked_at(final(g)@, i, j) == marked_at(
                old(g)@,
                i,
                j,
            ),
        marked_at(final(g)@, x as int, z as int) == v,
{
    let row: &mut Vec<bool> = &mut g[x];
    let e: &mut bool = &mut row[z];
    *e = v;
    proof {
        assert(g@[x as int]@ == old(g)@[x as int]@.update(z as int, v));
        assert forall|i: int, j: int|
            #![trigger marked_at(g@, i, j)]
            !(i == x as int && j == z as int) implies marked_at(g@, i, j) == marked_at(
            old(g)@,
            i,
            j,
        ) by {
            if 0 <= i < g@.len() {
                if i != x as int {
                    assert(g@[i] == old(g)@[i]);
                } else {
                    if 0 <= j < g@[i]@.len() && j != z as int {
                        assert(g@[i]@[j] == old(g)@[i]@[j]);
                    }
                }
            }
        }
    }
}

/// Whether one of the two local deduction rules has work at a cell: some
/// surrounding cell is still closed, and the cell's reading equals either its
/// flagged-plus-closed surroundings or its flagged surroundings alone.
pub open spec fn deduction_applies(b: Board, x: int, z: int) -> bool {
    b.surrounding_count(x, z, FieldState::Closed) > 0 && (field_value(b.cell(x, z))
        == b.surrounding_count(x, z, FieldState::Flagged) + b.surrounding_count(
        x,
        z,
        FieldState::Closed,
    ) || field_value(b.cell(x, z)) == b.surrounding_count(x, z, FieldState::Flagged))
}

/// The solved condition as the interface states it — no safe cell left
/// closed and flags matching the mine count — coincides with the condition
/// the solver checks, which also rules out closed mines, on every board
/// whose marks are sound and whose mines number exactly what it promises:
/// there the matching flags must sit on all the mines, so no mine is closed.
pub proof fn lemma_solved_forms_agree(b: Board)
    requires
        b.wf(),
        b.marks_sound(),
        b.mine_total() == b.mine_count,
    ensures
        b.is_solved_spec() <==> (b.all_safe_revealed() && b.flagged_total() == b.mine_count),
{
    if b.all_safe_revealed() && b.flagged_total() == b.mine_count {
        let g = b.fields@;
        assert forall|i: int, j: int|
            0 <= i < g.len() && 0 <= j < (#[trigger] g[i])@.len() && flagged_pred()(
                #[trigger] g[i]@[j],
            ) implies mine_pred()(g[i]@[j]) by {
            assert(b.in_bounds(i, j));
            assert(b.cell(i, j).field_state == FieldState::Flagged ==> b.cell(i, j).mine);
        }
        crate::board::lemma_grid_count_mono(g, flagged_pred(), mine_pred());
        assert(grid_count(g, flagged_pred()) == grid_count(g, mine_pred()));
        assert forall|i: int, j: int| b.in_bounds(i, j) implies (#[trigger] b.cell(
            i,
            j,
        )).field_state != FieldState::Closed by {
            if b.cell(i, j).mine {
                assert(mine_pred()(g[i]@[j]));
                assert(flagged_pred()(g[i]@[j]));
            }
        }
    }
}

/// A solved verdict is exact: on a board with sound marks and the right
/// number of mines where nothing is left closed and the flags match the
/// mine count, the flags sit exactly on the mines and all else is open.
pub proof fn lemma_solved_exact(b: Board)
    requires
        b.wf(),
        b.marks_sound(),
        b.mine_total() == b.mine_count,
        b.is_solved_spec(),
    ensures
        forall|i: int, j: int|
            b.in_bounds(i, j) ==> ((#[trigger] b.cell(i, j)).mine <==> b.cell(i, j).field_state
                == FieldState::Flagged),
        forall|i: int, j: int|
            b.in_bounds(i, j) && !(#[trigger] b.cell(i, j)).mine ==> b.cell(i, j).field_state
                == FieldState::Open,
{
    let g = b.fields@;
    assert forall|i: int, j: int|
        0 <= i < g.len() && 0 <= j < (#[trigger] g[i])@.len() && flagged_pred()(
            #[trigger] g[i]@[j],
        ) implies mine_pred()(g[i]@[j]) by {
        assert(b.in_bounds(i, j));
        assert(b.cell(i, j).field_state == FieldState::Flagged ==> b.cell(i, j).mine);
    }
    crate::board::lemma_grid_count_mono(g, flagged_pred(), mine_pred());
    assert(grid_count(g, flagged_pred()) == grid_count(g, mine_pred()));
    assert forall|i: int, j: int| b.in_bounds(i, j) implies ((#[trigger] b.cell(i, j)).mine
        <==> b.cell(i, j).field_state == FieldState::Flagged) by {
        if b.cell(i, j).mine {
            assert(mine_pred()(g[i]@[j]));
            assert(flagged_pred()(g[i]@[j]));
        }
    }
    assert forall|i: int, j: int|
        b.in_bounds(i, j) && !(#[trigger] b.cell(i, j)).mine implies b.cell(i, j).field_state
        == FieldState::Open by {
        assert(b.cell(i, j).field_state != FieldState::Closed);
        assert(b.cell(i, j).field_state != FieldState::Flagged);
    }
}

/// The number a cell reads as to the solver: its hint when open, and a
/// sentinel below zero otherwise.
pub open spec fn field_value(f: Field) -> int {
    match f.field_state {
        FieldState::Open => f.value as int,
        FieldState::Closed => -2,
        FieldState::Flagged => -1,
    }
}

impl Solver {
    /// A fresh solver for a board: no progress made yet, no scratch state.
    pub fn new(board: Board) -> (s: Solver)
        ensures
            s.board == board,
            !s.made_changes,
            !s.tried_tank,
            s.reruns == 0,
            !s.border_optimization,
            s.tank_board@ == Seq::<Vec<Field>>::empty(),
            s.known_mines@ == Seq::<Vec<bool>>::empty(),
            s.known_empty@ == Seq::<Vec<bool>>::empty(),
            s.tank_solutions@ == Seq::<Vec<bool>>::empty(),
    {
        Solver {
            board,
            made_changes: false,
            tried_tank: false,
            border_optimization: false,
            tank_board: Vec::new(),
            reruns: 0,
            known_mines: Vec::new(),
            known_empty: Vec::new(),
            tank_solutions: Vec::new(),
        }
    }

    /// Whether a coordinate pair lies off the solver's board.
    pub fn is_out_of_bounds(&self, x: i32, z: i32) -> (r: bool)
        ensures
            r == !self.board.in_bounds(x as int, z as int),
    {
        x < 0 || x >= self.board.x_size || z < 0 || z >= self.board.z_size
    }

    /// The number a cell reads as: its hint when open, a sentinel otherwise.
    pub fn get_field_value(fields: &Vec<Vec<Field>>, x: i32, z: i32) -> (r: i32)
        requires
            0 <= x < fields@.len(),
            0 <= z < fields@[x as int]@.len(),
        ensures
            r == field_value(fields@[x as int]@[z as int]),
    {
        let field = &fields[x as usize][z as usize];
        match field.field_state {
            FieldState::Open => field.value as i32,
            FieldState::Closed => -2,
            FieldState::Flagged => -1,
        }
    }

    /// One when the cell at a position is on the board and in the given
    /// reveal state, zero otherwise.
    fn state_ind(&self, x: i32, z: i32, s: FieldState) -> (r: i32)
        requires
            self.board.wf(),
            -1 <= x <= self.board.x_size,
            -1 <= z <= self.board.z_size,
        ensures
            r == ind(self.board.state_at(x as int, z as int, s)),
    {
        if x < 0 || x >= self.board.x_size || z < 0 || z >= self.board.z_size {
            0
        } else if self.board.fields[x as usize][z as usize].field_state == s {
            1
        } else {
            0
        }
    }

    /// One when a grid of marks holds a mark at a position, zero otherwise.
    fn bool_ind(board: &Vec<Vec<bool>>, x: i32, z: i32) -> (r: i32)
        ensures
            r == ind(marked_at(board@, x as int, z as int)),
    {
        if x < 0 || (x as usize) >= board.len() {
            0
        } else {
            let row: &Vec<bool> = &board[x as usize];
            if z < 0 || (z as usize) >= row.len() {
                0
            } else if row[z as usize] {
                1
            } else {
                0
            }
        }
    }

    /// Counts the marks among the neighbors of a position of a mark grid.
    pub fn count_in_field(&self, board: &Vec<Vec<bool>>, x: usize, z: usize) -> (hits: i32)
        requires
            x < board@.len(),
            z < board@[x as int]@.len(),
            board@.len() <= i32::MAX,
            board@[x as int]@.len() <= i32::MAX,
        ensures
            hits == marked_neighbors(board@, x as int, z as int),
            0 <= hits <= 8,
    {
        let xi: i32 = x as i32;
        let zi: i32 = z as i32;
        let hits: i32 = Self::bool_ind(board, xi - 1, zi - 1) + Self::bool_ind(board, xi - 1, zi)
            + Self::bool_ind(board, xi - 1, zi + 1) + Self::bool_ind(board, xi, zi - 1)
            + Self::bool_ind(board, xi, zi + 1) + Self::bool_ind(board, xi + 1, zi - 1)
            + Self::bool_ind(board, xi + 1, zi) + Self::bool_ind(board, xi + 1, zi + 1);
        hits
    }

    /// Whether the cell at a position is a border cell: closed, with at
    /// least one open neighbor.
    pub fn is_boundary(&self, x: i32, z: i32) -> (r: bool)
        requires
            self.board.wf(),
            self.board.in_bounds(x as int, z as int),
        ensures
            r == boundary_cell(self.board, x as int, z as int),
    {
        if self.board.fields[x as usize][z as usize].field_state != FieldState::Closed {
            proof {
                lemma_state_neighbors_exists(self.board, x as int, z as int, FieldState::Open);
            }
            return false;
        }
        let open_neighbors = self.count_surrounding_by_type(x, z, FieldState::Open);
        proof {
            lemma_state_neighbors_exists(self.board, x as int, z as int, FieldState::Open);
        }
        open_neighbors > 0
    }

    /// Whether a list of positions holds a given one.
    fn contains_coord(v: &Vec<(usize, usize)>, c: (usize, usize)) -> (r: bool)
        ensures
            r == v@.contains(c),
    {
        let mut k: usize = 0;
        while k < v.len()
            invariant
                k <= v@.len(),
                forall|m: int| 0 <= m < k ==> v@[m] != c,
            decreases v@.len() - k,
        {
            if v[k].0 == c.0 && v[k].1 == c.1 {
                proof {
                    assert(v@[k as int] == c);
                }
                return true;
            }
            k += 1;
        }
        false
    }

    /// Whether two positions share a constraint: scans the whole board for an
    /// open numbered cell within a king's move of both.
    fn is_linked(&self, p: (usize, usize), q: (usize, usize)) -> (r: bool)
        requires
            self.board.wf(),
            self.board.in_bounds(p.0 as int, p.1 as int),
            self.board.in_bounds(q.0 as int, q.1 as int),
        ensures
            r == linked(self.board, p, q),
    {
        let xs: usize = self.board.x_size as usize;
        let zs: usize = self.board.z_size as usize;
        let pi: i64 = p.0 as i64;
        let pj: i64 = p.1 as i64;
        let qi: i64 = q.0 as i64;
        let qj: i64 = q.1 as i64;
        let mut x: usize = 0;
        while x < xs
            invariant
                self.board.wf(),
                xs == self.board.x_size,
                zs == self.board.z_size,
                pi == p.0,
                pj == p.1,
                qi == q.0,
                qj == q.1,
                x <= xs,
                forall|i: int, j: int|
                    0 <= i < x && 0 <= j < zs ==> !(field_value(#[trigger] self.board.cell(i, j))
                        > 0 && -1 <= p.0 as int - i <= 1 && -1 <= p.1 as int - j <= 1 && -1
                        <= q.0 as int - i <= 1 && -1 <= q.1 as int - j <= 1),
            decreases xs - x,
        {
            let mut z: usize = 0;
            while z < zs
                invariant
                    self.board.wf(),
                    xs == self.board.x_size,
                    zs == self.board.z_size,
                    pi == p.0,
                    pj == p.1,
                    qi == q.0,
                    qj == q.1,
                    x < xs,
                    z <= zs,
                    forall|i: int, j: int|
                        0 <= i < x && 0 <= j < zs ==> !(field_value(
                            #[trigger] self.board.cell(i, j),
                        ) > 0 && -1 <= p.0 as int - i <= 1 && -1 <= p.1 as int - j <= 1 && -1
                            <= q.0 as int - i <= 1 && -1 <= q.1 as int - j <= 1),
                    forall|j: int|
                        0 <= j < z ==> !(field_value(#[trigger] self.board.cell(x as int, j)) > 0
                            && -1 <= p.0 as int - x <= 1 && -1 <= p.1 as int - j <= 1 && -1
                            <= q.0 as int - x <= 1 && -1 <= q.1 as int - j <= 1),
                decreases zs - z,
            {
                let v = Self::get_field_value(&self.board.fields, x as i32, z as i32);
                let xi: i64 = x as i64;
                let zj: i64 = z as i64;
                if v > 0 && pi - 1 <= xi && xi <= pi + 1 && pj - 1 <= zj && zj <= pj + 1 && qi - 1
                    <= xi && xi <= qi + 1 && qj - 1 <= zj && zj <= qj + 1 {
                    proof {
                        assert(self.board.in_bounds(x as int, z as int) && field_value(
                            self.board.cell(x as int, z as int),
                        ) > 0 && -1 <= p.0 as int - x as int <= 1 && -1 <= p.1 as int - z as int
                            <= 1 && -1 <= q.0 as int - x as int <= 1 && -1 <= q.1 as int - z as int
                            <= 1);
                        assert(linked(self.board, p, q));
                    }
                    return true;
                }
                z += 1;
            }
            x += 1;
        }
        proof {
            if linked(self.board, p, q) {
                let (i, j) = choose|i: int, j: int|
                    self.board.in_bounds(i, j) && field_value(#[trigger] self.board.cell(i, j)) > 0
                        && -1 <= p.0 as int - i <= 1 && -1 <= p.1 as int - j <= 1 && -1
                        <= q.0 as int - i <= 1 && -1 <= q.1 as int - j <= 1;
                assert(false);
            }
        }
        false
    }

    /// Splits the border cells into regions along shared constraints. Every
    /// block lands in exactly one region — the regions are disjoint and free
    /// of repeats — and a region holds every block any of its members shares
    /// a constraint with, so no constraint ever crosses regions and each
    /// region can be searched on its own. Only this closure direction is
    /// claimed: the contract does not state that two cells of one region are
    /// always joined by a chain of constraints.
    #[verifier::rlimit(100)]
    pub fn tank_segregate(&self, border_blocks: &Vec<(usize, usize)>) -> (all_regions: Vec<
        Vec<(usize, usize)>,
    >)
        requires
            self.board.wf(),
            tiles_in_bounds(self.board, border_blocks@),
        ensures
            forall|r: int, k: int|
                #![trigger all_regions@[r]@[k]]
                0 <= r < all_regions@.len() && 0 <= k < all_regions@[r]@.len()
                    ==> border_blocks@.contains(all_regions@[r]@[k]),
            forall|r: int|
                0 <= r < all_regions@.len() ==> tiles_distinct((#[trigger] all_regions@[r])@),
            forall|m: int|
                0 <= m < border_blocks@.len() ==> in_some_region(
                    all_regions@,
                    #[trigger] border_blocks@[m],
                ),
            forall|r: int, k: int, m: int|
                #![trigger all_regions@[r]@[k], border_blocks@[m]]
                0 <= r < all_regions@.len() && 0 <= k < all_regions@[r]@.len() && 0 <= m
                    < border_blocks@.len() && linked(
                    self.board,
                    all_regions@[r]@[k],
                    border_blocks@[m],
                ) ==> all_regions@[r]@.contains(border_blocks@[m]),
            forall|r1: int, r2: int, k1: int, k2: int|
                #![trigger all_regions@[r1]@[k1], all_regions@[r2]@[k2]]
                0 <= r1 < all_regions@.len() && 0 <= r2 < all_regions@.len() && 0 <= k1
                    < all_regions@[r1]@.len() && 0 <= k2 < all_regions@[r2]@.len() && linked(
                    self.board,
                    all_regions@[r1]@[k1],
                    all_regions@[r2]@[k2],
                ) ==> r1 == r2,
            forall|r1: int, r2: int, k1: int, k2: int|
                #![trigger all_regions@[r1]@[k1], all_regions@[r2]@[k2]]
                0 <= r1 < all_regions@.len() && 0 <= r2 < all_regions@.len() && r1 != r2 && 0 <= k1
                    < all_regions@[r1]@.len() && 0 <= k2 < all_regions@[r2]@.len()
                    ==> all_regions@[r1]@[k1] != all_regions@[r2]@[k2],
    {
        let ghost blocks = border_blocks@;
        let mut all_regions: Vec<Vec<(usize, usize)>> = Vec::new();
        let mut covered: Vec<(usize, usize)> = Vec::new();
        loop
            invariant
                self.board.wf(),
                tiles_in_bounds(self.board, blocks),
                blocks == border_blocks@,
                segregate_inv(self.board, blocks, all_regions@, covered@),
            ensures
                segregate_inv(self.board, blocks, all_regions@, covered@),
                forall|m: int| 0 <= m < blocks.len() ==> covered@.contains(#[trigger] blocks[m]),
            decreases free_count(blocks, covered@, Seq::<(usize, usize)>::empty()),
        {
            let ghost cov0 = covered@;
            let ghost regions0 = all_regions@;
            proof {
                lemma_free_count_nonneg(blocks, cov0, Seq::<(usize, usize)>::empty());
            }
            // the first block not yet covered seeds a new region
            let mut queue: Vec<(usize, usize)> = Vec::new();
            let mut k: usize = 0;
            while k < border_blocks.len()
                invariant_except_break
                    queue@.len() == 0,
                    k <= blocks.len(),
                    blocks == border_blocks@,
                    covered@ == cov0,
                    forall|m: int| 0 <= m < k ==> covered@.contains(#[trigger] blocks[m]),
                ensures
                    blocks == border_blocks@,
                    covered@ == cov0,
                    queue@.len() <= 1,
                    queue@.len() == 0 ==> forall|m: int|
                        0 <= m < blocks.len() ==> covered@.contains(#[trigger] blocks[m]),
                    queue@.len() == 1 ==> blocks.contains(queue@[0]) && !cov0.contains(queue@[0]),
                decreases blocks.len() - k,
            {
                let c = border_blocks[k];
                if !Self::contains_coord(&covered, c) {
                    queue.push(c);
                    proof {
                        assert(blocks[k as int] == c);
                        assert(blocks.contains(c));
                    }
                    break ;
                }
                k += 1;
            }
            if queue.len() == 0 {
                break ;
            }
            let ghost seed = queue@[0];
            let mut finished_region: Vec<(usize, usize)> = Vec::new();
            proof {
                lemma_free_count_nonneg(blocks, finished_region@, queue@);
            }
            while queue.len() != 0
                invariant
                    self.board.wf(),
                    tiles_in_bounds(self.board, blocks),
                    blocks == border_blocks@,
                    all_regions@ == regions0,
                    segregate_inv(self.board, blocks, regions0, cov0),
                    forall|c: (usize, usize)|
                        #[trigger] covered@.contains(c) <==> cov0.contains(c)
                            || finished_region@.contains(c),
                    forall|k2: int|
                        0 <= k2 < queue@.len() ==> blocks.contains(#[trigger] queue@[k2]),
                    forall|k2: int|
                        0 <= k2 < finished_region@.len() ==> blocks.contains(
                            #[trigger] finished_region@[k2],
                        ),
                    tiles_distinct(queue@),
                    tiles_distinct(finished_region@),
                    forall|k1: int, k2: int|
                        0 <= k1 < queue@.len() && 0 <= k2 < finished_region@.len()
                            ==> #[trigger] queue@[k1] != #[trigger] finished_region@[k2],
                    forall|k2: int| 0 <= k2 < queue@.len() ==> !cov0.contains(#[trigger] queue@[k2]),
                    forall|k2: int|
                        0 <= k2 < finished_region@.len() ==> !cov0.contains(
                            #[trigger] finished_region@[k2],
                        ),
                    forall|k2: int, m: int|
                        #![trigger finished_region@[k2], blocks[m]]
                        0 <= k2 < finished_region@.len() && 0 <= m < blocks.len() && linked(
                            self.board,
                            finished_region@[k2],
                            blocks[m],
                        ) ==> finished_region@.contains(blocks[m]) || queue@.contains(blocks[m]),
                    finished_region@.contains(seed) || queue@.contains(seed),
                    blocks.contains(seed),
                    !cov0.contains(seed),
                decreases 2 * free_count(blocks, finished_region@, queue@) + queue@.len(),
            {
                let ghost q0 = queue@;
                let ghost fin0 = finished_region@;
                proof {
                    lemma_free_count_nonneg(blocks, fin0, q0);
                    lemma_remove_first(q0);
                }
                let field: (usize, usize) = queue.remove(0);
                finished_region.push(field);
                let ghost covpre = covered@;
                covered.push(field);
                proof {
                    lemma_contains_push(fin0, field);
                    assert(q0[0] == field);
                    assert(blocks.contains(field));
                    assert(self.board.in_bounds(field.0 as int, field.1 as int)) by {
                        let kf = choose|kf: int|
                            0 <= kf < blocks.len() && #[trigger] blocks[kf] == field;
                    }
                    assert forall|c: (usize, usize)| #[trigger]
                        covered@.contains(c) <==> cov0.contains(c)
                            || finished_region@.contains(c) by {
                        lemma_contains_push(covpre, field);
                    }
                    // the move keeps the set of reached blocks, so the
                    // measure falls with the queue
                    assert forall|c: (usize, usize)|
                        fin0.contains(c) || q0.contains(c) <==> finished_region@.contains(c)
                            || #[trigger] queue@.contains(c) by {}
                    lemma_free_count_mono(blocks, fin0, q0, finished_region@, queue@);
                    lemma_free_count_mono(blocks, finished_region@, queue@, fin0, q0);
                }
                let ghost qpop = queue@;
                let ghost finp = finished_region@;
                let mut m: usize = 0;
                while m < border_blocks.len()
                    invariant
                        self.board.wf(),
                        tiles_in_bounds(self.board, blocks),
                        blocks == border_blocks@,
                        all_regions@ == regions0,
                        segregate_inv(self.board, blocks, regions0, cov0),
                        m <= blocks.len(),
                        finished_region@ == finp,
                        finp == fin0.push(field),
                        blocks.contains(field),
                        self.board.in_bounds(field.0 as int, field.1 as int),
                        forall|c: (usize, usize)|
                            #[trigger] covered@.contains(c) <==> cov0.contains(c)
                                || finished_region@.contains(c),
                        forall|k2: int|
                            0 <= k2 < queue@.len() ==> blocks.contains(#[trigger] queue@[k2]),
                        forall|k2: int|
                            0 <= k2 < finished_region@.len() ==> blocks.contains(
                                #[trigger] finished_region@[k2],
                            ),
                        tiles_distinct(queue@),
                        tiles_distinct(finished_region@),
                        forall|k1: int, k2: int|
                            0 <= k1 < queue@.len() && 0 <= k2 < finished_region@.len()
                                ==> #[trigger] queue@[k1] != #[trigger] finished_region@[k2],
                        forall|k2: int|
                            0 <= k2 < queue@.len() ==> !cov0.contains(#[trigger] queue@[k2]),
                        forall|k2: int|
                            0 <= k2 < finished_region@.len() ==> !cov0.contains(
                                #[trigger] finished_region@[k2],
                            ),
                        forall|k2: int, m2: int|
                            #![trigger fin0[k2], blocks[m2]]
                            0 <= k2 < fin0.len() && 0 <= m2 < blocks.len() && linked(
                                self.board,
                                fin0[k2],
                                blocks[m2],
                            ) ==> finished_region@.contains(blocks[m2]) || queue@.contains(
                                blocks[m2],
                            ),
                        forall|m2: int|
                            0 <= m2 < m && linked(self.board, field, #[trigger] blocks[m2])
                                ==> finished_region@.contains(blocks[m2]) || queue@.contains(
                                blocks[m2],
                            ),
                        forall|c: (usize, usize)|
                            #[trigger] qpop.contains(c) ==> queue@.contains(c),
                        finished_region@.contains(seed) || queue@.contains(seed),
                        blocks.contains(seed),
                        !cov0.contains(seed),
                        2 * free_count(blocks, finished_region@, queue@) + queue@.len() <= 2
                            * free_count(blocks, fin0, q0) + q0.len() - 1,
                    decreases blocks.len() - m,
                {
                    let cf = border_blocks[m];
                    if !Self::contains_coord(&finished_region, cf) {
                        let fi: i64 = field.0 as i64;
                        let fj: i64 = field.1 as i64;
                        let ci: i64 = cf.0 as i64;
                        let cj: i64 = cf.1 as i64;
                        proof {
                            assert(blocks[m as int] == cf);
                            assert(self.board.in_bounds(cf.0 as int, cf.1 as int));
                        }
                        if fi - ci <= 2 && ci - fi <= 2 && fj - cj <= 2 && cj - fj <= 2 {
                            if self.is_linked(field, cf) {
                                if !Self::contains_coord(&queue, cf) {
                                    let ghost qpre = queue@;
                                    queue.push(cf);
                                    proof {
                                        lemma_contains_push(qpre, cf);
                                        // a block linked to this region cannot
                                        // already lie in an earlier region
                                        if cov0.contains(cf) {
                                            assert(in_some_region(regions0, cf));
                                            let r = choose|r: int|
                                                0 <= r < regions0.len() && (
                                                #[trigger] regions0[r])@.contains(cf);
                                            let kr = choose|kr: int|
                                                0 <= kr < regions0[r]@.len()
                                                    && #[trigger] regions0[r]@[kr] == cf;
                                            lemma_linked_sym(self.board, field, cf);
                                            let kf = choose|kf: int|
                                                0 <= kf < blocks.len() && #[trigger] blocks[kf]
                                                    == field;
                                            assert(linked(self.board, regions0[r]@[kr], blocks[kf]));
                                            assert(regions0[r]@.contains(field));
                                            assert(in_some_region(regions0, field));
                                            assert(cov0.contains(field));
                                            assert(finished_region@[fin0.len() as int] == field);
                                            assert(!cov0.contains(field));
                                            assert(false);
                                        }
                                        // the measure falls: a free block
                                        // joined the queue
                                        let m0 = m as int;
                                        assert(blocks[m0] == cf);
                                        lemma_free_count_mono(
                                            blocks,
                                            finished_region@,
                                            qpre,
                                            finished_region@,
                                            queue@,
                                        );
                                        lemma_free_count_strict(
                                            blocks,
                                            finished_region@,
                                            qpre,
                                            finished_region@,
                                            queue@,
                                            m0,
                                        );
                                    }
                                }
                            } else {
                                proof {
                                    lemma_linked_sym(self.board, field, cf);
                                }
                            }
                        } else {
                            proof {
                                if linked(self.board, field, cf) {
                                    lemma_linked_near(self.board, field, cf);
                                    assert(false);
                                }
                            }
                        }
                    } else {
                        proof {
                            lemma_contains_push(fin0, field);
                        }
                    }
                    m += 1;
                }
                proof {
                    lemma_free_count_nonneg(blocks, finished_region@, queue@);
                }
            }
            let ghost fin = finished_region@;
            all_regions.push(finished_region);
            proof {
                let regions1 = all_regions@;
                assert(regions1 == regions0.push(all_regions@.last()));
                assert(regions1[regions0.len() as int]@ == fin);
                assert(forall|r: int| 0 <= r < regions0.len() ==> regions1[r] == regions0[r]);
                // the new region's members were uncovered, so regions stay
                // disjoint, and coverage now includes them
                assert forall|c: (usize, usize)| #[trigger]
                    covered@.contains(c) implies in_some_region(regions1, c) by {
                    if cov0.contains(c) {
                        let r = choose|r: int|
                            0 <= r < regions0.len() && (#[trigger] regions0[r])@.contains(c);
                        assert(regions1[r]@.contains(c));
                        assert(in_some_region(regions1, c));
                    } else {
                        assert(fin.contains(c));
                        assert(regions1[regions0.len() as int]@.contains(c));
                        assert(in_some_region(regions1, c));
                    }
                }
                assert forall|c: (usize, usize)| #[trigger]
                    in_some_region(regions1, c) implies covered@.contains(c) by {
                    let r = choose|r: int|
                        0 <= r < regions1.len() && (#[trigger] regions1[r])@.contains(c);
                    if r < regions0.len() {
                        assert(regions0[r]@.contains(c));
                        assert(in_some_region(regions0, c));
                    }
                }
                assert forall|r1: int, r2: int, k1: int, k2: int|
                    #![trigger regions1[r1]@[k1], regions1[r2]@[k2]]
                    0 <= r1 < regions1.len() && 0 <= r2 < regions1.len() && r1 != r2 && 0 <= k1
                        < regions1[r1]@.len() && 0 <= k2
                        < regions1[r2]@.len() implies regions1[r1]@[k1] != regions1[r2]@[k2] by {
                    if r1 == regions0.len() && r2 < regions0.len() {
                        if regions1[r1]@[k1] == regions1[r2]@[k2] {
                            assert(regions0[r2]@.contains(regions1[r1]@[k1]));
                            assert(in_some_region(regions0, fin[k1]));
                            assert(cov0.contains(fin[k1]));
                            assert(false);
                        }
                    } else if r2 == regions0.len() && r1 < regions0.len() {
                        if regions1[r1]@[k1] == regions1[r2]@[k2] {
                            assert(regions0[r1]@.contains(regions1[r2]@[k2]));
                            assert(in_some_region(regions0, fin[k2]));
                            assert(cov0.contains(fin[k2]));
                            assert(false);
                        }
                    }
                }
                // the outer measure falls: the seed got covered
                assert(fin.contains(seed));
                let ms = choose|ms: int| 0 <= ms < blocks.len() && #[trigger] blocks[ms] == seed;
                lemma_free_count_strict(
                    blocks,
                    cov0,
                    Seq::<(usize, usize)>::empty(),
                    covered@,
                    Seq::<(usize, usize)>::empty(),
                    ms,
                );
                lemma_free_count_nonneg(blocks, covered@, Seq::<(usize, usize)>::empty());
            }
        }
        proof {
            // linked blocks never land in different regions: the one's region
            // already swallowed the other
            assert forall|r1: int, r2: int, k1: int, k2: int|
                #![trigger all_regions@[r1]@[k1], all_regions@[r2]@[k2]]
                0 <= r1 < all_regions@.len() && 0 <= r2 < all_regions@.len() && 0 <= k1
                    < all_regions@[r1]@.len() && 0 <= k2 < all_regions@[r2]@.len() && linked(
                    self.board,
                    all_regions@[r1]@[k1],
                    all_regions@[r2]@[k2],
                ) implies r1 == r2 by {
                if r1 != r2 {
                    let e2 = all_regions@[r2]@[k2];
                    assert(blocks.contains(e2));
                    let me = choose|me: int| 0 <= me < blocks.len() && #[trigger] blocks[me] == e2;
                    assert(all_regions@[r1]@.contains(e2));
                    let ke = choose|ke: int|
                        0 <= ke < all_regions@[r1]@.len() && #[trigger] all_regions@[r1]@[ke] == e2;
                    assert(false);
                }
            }
        }
        all_regions
    }

    /// A cell-for-cell copy of the grid, snapshotting it for the search.
    fn clone_fields(fields: &Vec<Vec<Field>>) -> (r: Vec<Vec<Field>>)
        ensures
            r@.len() == fields@.len(),
            forall|i: int| 0 <= i < fields@.len() ==> (#[trigger] r@[i])@ == fields@[i]@,
    {
        let mut r: Vec<Vec<Field>> = Vec::new();
        let mut x: usize = 0;
        while x < fields.len()
            invariant
                x <= fields@.len(),
                r@.len() == x,
                forall|i: int| 0 <= i < x ==> (#[trigger] r@[i])@ == fields@[i]@,
            decreases fields@.len() - x,
        {
            let row: &Vec<Field> = &fields[x];
            let mut nrow: Vec<Field> = Vec::new();
            let mut z: usize = 0;
            while z < row.len()
                invariant
                    z <= row@.len(),
                    nrow@.len() == z,
                    forall|j: int| 0 <= j < z ==> #[trigger] nrow@[j] == row@[j],
                decreases row@.len() - z,
            {
                nrow.push(row[z]);
                z += 1;
            }
            proof {
                assert(nrow@ =~= row@);
            }
            r.push(nrow);
            x += 1;
        }
        r
    }

    /// A grid of marks showing which cells currently sit in a reveal state.
    fn state_marks(&self, s: FieldState) -> (g: Vec<Vec<bool>>)
        requires
            self.board.wf(),
        ensures
            grid_shaped(g@, self.board),
            forall|i: int, j: int|
                self.board.in_bounds(i, j) ==> #[trigger] g@[i]@[j] == (self.board.cell(
                    i,
                    j,
                ).field_state == s),
    {
        let xs: usize = self.board.x_size as usize;
        let zs: usize = self.board.z_size as usize;
        let mut g: Vec<Vec<bool>> = Vec::new();
        let mut x: usize = 0;
        while x < xs
            invariant
                self.board.wf(),
                xs == self.board.x_size,
                zs == self.board.z_size,
                x <= xs,
                g@.len() == x,
                forall|i: int| 0 <= i < x ==> (#[trigger] g@[i])@.len() == zs,
                forall|i: int, j: int|
                    0 <= i < x && 0 <= j < zs ==> #[trigger] g@[i]@[j] == (self.board.cell(
                        i,
                        j,
                    ).field_state == s),
            decreases xs - x,
        {
            let mut row: Vec<bool> = Vec::new();
            let mut z: usize = 0;
            while z < zs
                invariant
                    self.board.wf(),
                    xs == self.board.x_size,
                    zs == self.board.z_size,
                    x < xs,
                    z <= zs,
                    row@.len() == z,
                    forall|j: int|
                        0 <= j < z ==> #[trigger] row@[j] == (self.board.cell(
                            x as int,
                            j,
                        ).field_state == s),
                decreases zs - z,
            {
                row.push(self.board.fields[x][z].field_state == s);
                z += 1;
            }
            g.push(row);
            x += 1;
        }
        g
    }

    /// Acts on one cell for a deduction step: opens or flags it if it is a
    /// closed cell on the board, and records that a change was made.
    /// The caller warrants the action sound: a flagged cell hides a mine and
    /// an opened cell does not.
    fn interact_one(&mut self, a: i32, c: i32, action: InteractAction, Ghost(b0): Ghost<Board>)
        requires
            b0.wf(),
            b0.solve_frame(old(self).board),
            old(self).board.hints_consistent(),
            old(self).board.marks_sound(),
            -1 <= a <= old(self).board.x_size,
            -1 <= c <= old(self).board.z_size,
            action == InteractAction::Flag && old(self).board.in_bounds(a as int, c as int)
                && old(self).board.cell(a as int, c as int).field_state == FieldState::Closed
                ==> old(self).board.cell(a as int, c as int).mine,
            action == InteractAction::Open && old(self).board.in_bounds(a as int, c as int)
                && old(self).board.cell(a as int, c as int).field_state == FieldState::Closed
                ==> !old(self).board.cell(a as int, c as int).mine,
        ensures
            old(self).board.solve_frame(final(self).board),
            b0.solve_frame(final(self).board),
            final(self).board.hints_consistent(),
            final(self).board.marks_sound(),
            final(self).board.game_state == old(self).board.game_state || final(self).board.game_state
                == started(old(self).board.game_state),
            final(self).board.closed_total() <= old(self).board.closed_total(),
            !final(self).made_changes ==> final(self).board.fields == old(self).board.fields
                && final(self).made_changes == old(self).made_changes
                && final(self).board.game_state == old(self).board.game_state,
            final(self).made_changes && !old(self).made_changes ==> final(self).board.closed_total()
                < old(self).board.closed_total(),
            old(self).made_changes ==> final(self).made_changes,
            forall|i: int, j: int|
                old(self).board.in_bounds(i, j) && (#[trigger] final(self).board.cell(
                    i,
                    j,
                )).field_state == FieldState::Flagged && old(self).board.cell(i, j).field_state
                    != FieldState::Flagged ==> final(self).board.cell(i, j).mine,
            // the action lands: a closed target is flagged or opened
            action == InteractAction::Flag && old(self).board.in_bounds(a as int, c as int) && old(
                self,
            ).board.cell(a as int, c as int).field_state == FieldState::Closed
                ==> final(self).board.cell(a as int, c as int).field_state == FieldState::Flagged,
            action == InteractAction::Open && old(self).board.in_bounds(a as int, c as int) && old(
                self,
            ).board.cell(a as int, c as int).field_state == FieldState::Closed
                ==> final(self).board.cell(a as int, c as int).field_state == FieldState::Open,
            // flagging touches no other cell; opening never flags
            action == InteractAction::Flag ==> forall|i: int, j: int|
                old(self).board.in_bounds(i, j) && !(i == a as int && j == c as int)
                    ==> #[trigger] final(self).board.cell(i, j) == old(self).board.cell(i, j),
            action == InteractAction::Open ==> old(self).board.reveal_frame(final(self).board),
            final(self).tank_board == old(self).tank_board,
            final(self).tried_tank == old(self).tried_tank,
            final(self).reruns == old(self).reruns,
            final(self).border_optimization == old(self).border_optimization,
            final(self).known_mines == old(self).known_mines,
            final(self).known_empty == old(self).known_empty,
            final(self).tank_solutions == old(self).tank_solutions,
    {
        let ghost pre = old(self).board;
        if self.is_out_of_bounds(a, c) {
            proof {
                lemma_solve_frame_refl(pre);
                crate::board::lemma_frame_refl(pre);
            }
            return ;
        }
        let au: usize = a as usize;
        let cu: usize = c as usize;
        if action == InteractAction::Open {
            if self.board.fields[au][cu].field_state == FieldState::Closed {
                self.board.open_field(au, cu);
                self.made_changes = true;
                proof {
                    lemma_reveal_to_solve_frame(pre, self.board);
                    lemma_solve_frame_trans(b0, pre, self.board);
                    assert forall|i: int, j: int|
                        pre.in_bounds(i, j) && (#[trigger] self.board.cell(i, j)).field_state
                            == FieldState::Flagged && pre.cell(i, j).field_state
                            != FieldState::Flagged implies self.board.cell(i, j).mine by {
                        assert(self.board.cell(i, j).field_state == pre.cell(i, j).field_state);
                    }
                }
            } else {
                proof {
                    lemma_solve_frame_refl(pre);
                    crate::board::lemma_frame_refl(pre);
                }
            }
        } else {
            if self.board.fields[au][cu].field_state == FieldState::Closed {
                self.board.flag_field(au, cu);
                self.made_changes = true;
                proof {
                    assert forall|i: int, j: int| pre.in_bounds(i, j) implies {
                        let oc = pre.cell(i, j);
                        let nc = #[trigger] self.board.cell(i, j);
                        &&& nc.mine == oc.mine
                        &&& nc.value == oc.value
                        &&& nc.x == oc.x
                        &&& nc.z == oc.z
                        &&& (nc.field_state == oc.field_state || (oc.field_state
                            == FieldState::Closed && (nc.field_state == FieldState::Open
                            || nc.field_state == FieldState::Flagged)))
                    } by {
                        if !(i == a as int && j == c as int) {
                            assert(self.board.cell(i, j) == pre.cell(i, j));
                        }
                    }
                    assert(pre.solve_frame(self.board));
                    lemma_solve_frame_trans(b0, pre, self.board);
                    lemma_solve_frame_preserves_hints(pre, self.board);
                    assert forall|i: int, j: int| self.board.in_bounds(i, j) implies {
                        &&& ((#[trigger] self.board.cell(i, j)).field_state == FieldState::Flagged
                            ==> self.board.cell(i, j).mine)
                        &&& (self.board.cell(i, j).field_state == FieldState::Open
                            ==> !self.board.cell(i, j).mine)
                    } by {
                        if !(i == a as int && j == c as int) {
                            assert(self.board.cell(i, j) == pre.cell(i, j));
                            assert(pre.cell(i, j).field_state == FieldState::Flagged ==> pre.cell(
                                i,
                                j,
                            ).mine);
                            assert(pre.cell(i, j).field_state == FieldState::Open ==> !pre.cell(
                                i,
                                j,
                            ).mine);
                        }
                    }
                }
            } else {
                proof {
                    lemma_solve_frame_refl(pre);
                }
            }
        }
    }

    /// Acts on every closed neighbor of a numbered cell: flags them all or
    /// opens them all. The caller warrants the action sound for every closed
    /// neighbor, as the two deduction rules do.
    #[verifier::rlimit(100)]
    #[verifier::spinoff_prover]
    pub fn interact_surrounding_fields(&mut self, x: i32, z: i32, action: InteractAction)
        requires
            old(self).board.wf(),
            old(self).board.in_bounds(x as int, z as int),
            old(self).board.hints_consistent(),
            old(self).board.marks_sound(),
            action == InteractAction::Flag ==> forall|a: int, c: int|
                adjacent(x as int, z as int, a, c) && old(self).board.in_bounds(a, c) && (
                #[trigger] old(self).board.cell(a, c)).field_state == FieldState::Closed
                    ==> old(self).board.cell(a, c).mine,
            action == InteractAction::Open ==> forall|a: int, c: int|
                adjacent(x as int, z as int, a, c) && old(self).board.in_bounds(a, c) && (
                #[trigger] old(self).board.cell(a, c)).field_state == FieldState::Closed
                    ==> !old(self).board.cell(a, c).mine,
        ensures
            old(self).board.solve_frame(final(self).board),
            final(self).board.hints_consistent(),
            final(self).board.marks_sound(),
            final(self).board.game_state == old(self).board.game_state
                || final(self).board.game_state == started(old(self).board.game_state),
            final(self).board.closed_total() <= old(self).board.closed_total(),
            !final(self).made_changes ==> final(self).board.fields == old(self).board.fields
                && final(self).made_changes == old(self).made_changes
                && final(self).board.game_state == old(self).board.game_state,
            final(self).made_changes && !old(self).made_changes
                ==> final(self).board.closed_total() < old(self).board.closed_total(),
            old(self).made_changes ==> final(self).made_changes,
            forall|i: int, j: int|
                old(self).board.in_bounds(i, j) && (#[trigger] final(self).board.cell(
                    i,
                    j,
                )).field_state == FieldState::Flagged && old(self).board.cell(i, j).field_state
                    != FieldState::Flagged ==> final(self).board.cell(i, j).mine,
            // the action lands on every closed neighbor
            action == InteractAction::Flag ==> forall|a: int, c: int|
                adjacent(x as int, z as int, a, c) && old(self).board.in_bounds(a, c) && (
                #[trigger] old(self).board.cell(a, c)).field_state == FieldState::Closed
                    ==> final(self).board.cell(a, c).field_state == FieldState::Flagged,
            action == InteractAction::Open ==> forall|a: int, c: int|
                adjacent(x as int, z as int, a, c) && old(self).board.in_bounds(a, c) && (
                #[trigger] old(self).board.cell(a, c)).field_state == FieldState::Closed
                    ==> final(self).board.cell(a, c).field_state == FieldState::Open,
            // flagging touches only the neighbors; opening never flags
            action == InteractAction::Flag ==> forall|i: int, j: int|
                old(self).board.in_bounds(i, j) && !adjacent(x as int, z as int, i, j)
                    ==> #[trigger] final(self).board.cell(i, j) == old(self).board.cell(i, j),
            action == InteractAction::Open ==> old(self).board.reveal_frame(final(self).board),
            final(self).tank_board == old(self).tank_board,
            final(self).tried_tank == old(self).tried_tank,
            final(self).reruns == old(self).reruns,
            final(self).border_optimization == old(self).border_optimization,
            final(self).known_mines == old(self).known_mines,
            final(self).known_empty == old(self).known_empty,
            final(self).tank_solutions == old(self).tank_solutions,
    {
        let ghost b0 = old(self).board;
        proof {
            lemma_solve_frame_refl(b0);
            crate::board::lemma_frame_refl(b0);
        }
        let mut m: usize = 0;
        while m < 9
            invariant
                b0 == old(self).board,
                b0.wf(),
                b0.in_bounds(x as int, z as int),
                b0.hints_consistent(),
                b0.marks_sound(),
                m <= 9,
                action == InteractAction::Flag ==> forall|a: int, c: int|
                    adjacent(x as int, z as int, a, c) && b0.in_bounds(a, c) && (
                    #[trigger] b0.cell(a, c)).field_state == FieldState::Closed ==> b0.cell(
                        a,
                        c,
                    ).mine,
                action == InteractAction::Open ==> forall|a: int, c: int|
                    adjacent(x as int, z as int, a, c) && b0.in_bounds(a, c) && (
                    #[trigger] b0.cell(a, c)).field_state == FieldState::Closed ==> !b0.cell(
                        a,
                        c,
                    ).mine,
                b0.solve_frame(self.board),
                self.board.hints_consistent(),
                self.board.marks_sound(),
                self.board.game_state == b0.game_state || self.board.game_state == started(
                    b0.game_state,
                ),
                self.board.closed_total() <= b0.closed_total(),
                !self.made_changes ==> self.board.fields == b0.fields && self.made_changes == old(
                    self,
                ).made_changes && self.board.game_state == b0.game_state,
                self.made_changes && !old(self).made_changes ==> self.board.closed_total()
                    < b0.closed_total(),
                old(self).made_changes ==> self.made_changes,
                forall|i: int, j: int|
                    b0.in_bounds(i, j) && (#[trigger] self.board.cell(i, j)).field_state
                        == FieldState::Flagged && b0.cell(i, j).field_state != FieldState::Flagged
                        ==> self.board.cell(i, j).mine,
                action == InteractAction::Flag ==> forall|a: int, c: int|
                    adjacent(x as int, z as int, a, c) && b0.in_bounds(a, c) && (
                    #[trigger] b0.cell(a, c)).field_state == FieldState::Closed && offset_done(
                        m as int,
                        a - x as int,
                        c - z as int,
                    ) ==> self.board.cell(a, c).field_state == FieldState::Flagged,
                action == InteractAction::Flag ==> forall|i: int, j: int|
                    b0.in_bounds(i, j) && !(adjacent(x as int, z as int, i, j) && offset_done(
                        m as int,
                        i - x as int,
                        j - z as int,
                    )) ==> #[trigger] self.board.cell(i, j) == b0.cell(i, j),
                action == InteractAction::Open ==> b0.reveal_frame(self.board),
                action == InteractAction::Open ==> forall|a: int, c: int|
                    adjacent(x as int, z as int, a, c) && b0.in_bounds(a, c) && (
                    #[trigger] b0.cell(a, c)).field_state == FieldState::Closed && offset_done(
                        m as int,
                        a - x as int,
                        c - z as int,
                    ) ==> self.board.cell(a, c).field_state == FieldState::Open,
                self.tank_board == old(self).tank_board,
                self.tried_tank == old(self).tried_tank,
                self.reruns == old(self).reruns,
                self.border_optimization == old(self).border_optimization,
                self.known_mines == old(self).known_mines,
                self.known_empty == old(self).known_empty,
                self.tank_solutions == old(self).tank_solutions,
            decreases 9 - m,
        {
            let dx: i32 = (m / 3) as i32 - 1;
            let dz: i32 = (m % 3) as i32 - 1;
            if !(dx == 0 && dz == 0) {
                let ghost pre = *self;
                self.interact_one(x + dx, z + dz, action, Ghost(b0));
                proof {
                    if action == InteractAction::Open {
                        crate::board::lemma_frame_trans(b0, pre.board, self.board);
                    }
                }
            }
            m += 1;
        }
    }

    /// One full backtracking attempt: gathers the undetermined frontier,
    /// splits it into independent components, enumerates every consistent
    /// assignment of each component, and resolves the cells all assignments
    /// agree on — flagging the unanimous mines and opening the unanimous
    /// safe cells. The board's real layout is always among the enumerated
    /// assignments, so every cell resolved here matches the ground truth:
    /// flags land only on mines and only safe cells are opened. When the
    /// whole frontier is searched under the global budget, flags are moreover
    /// unanimous over every layout the board admits. The same does not hold
    /// of every opened cell: opening a unanimously safe zero-hint cell
    /// cascades over its region, and a cell swept up that way can still be a
    /// mine under some other admitted layout — though never under the real one.
    #[verifier::rlimit(100)]
    pub fn tank_solver(&mut self)
        requires
            old(self).board.wf(),
            old(self).board.hints_consistent(),
            old(self).board.marks_sound(),
            old(self).board.mine_total() == old(self).board.mine_count,
            old(self).board.game_state == GameState::Playing,
        ensures
            old(self).board.solve_frame(final(self).board),
            final(self).board.hints_consistent(),
            final(self).board.marks_sound(),
            final(self).board.mine_total() == final(self).board.mine_count,
            final(self).board.game_state == GameState::Playing,
            final(self).board.closed_total() <= old(self).board.closed_total(),
            final(self).board.closed_total() == old(self).board.closed_total()
                ==> final(self).board.fields == old(self).board.fields
                && final(self).made_changes == old(self).made_changes,
            old(self).made_changes ==> final(self).made_changes,
            final(self).tried_tank == old(self).tried_tank,
            final(self).reruns == old(self).reruns,
            // whenever the whole frontier was searched under the global mine
            // budget, a cell this attempt flags carries a mine in every
            // layout the board admits: nothing ambiguous is ever resolved
            !final(self).border_optimization ==> forall|
                m: spec_fn(int, int) -> bool,
                i: int,
                j: int,
            |
                #![trigger consistent_layout(old(self).board, m), final(self).board.cell(i, j)]
                consistent_layout(old(self).board, m) && old(self).board.in_bounds(i, j) && old(
                    self,
                ).board.cell(i, j).field_state == FieldState::Closed && final(self).board.cell(
                    i,
                    j,
                ).field_state == FieldState::Flagged ==> m(i, j),
    {
        let ghost b0 = old(self).board;
        let xs: usize = self.board.x_size as usize;
        let zs: usize = self.board.z_size as usize;
        let mut border_blocks: Vec<(usize, usize)> = Vec::new();
        let mut all_empty_blocks: Vec<(usize, usize)> = Vec::new();
        let mut x: usize = 0;
        while x < xs
            invariant
                self.board == b0,
                b0.wf(),
                b0.hints_consistent(),
                b0.marks_sound(),
                b0.mine_total() == b0.mine_count,
                b0.game_state == GameState::Playing,
                xs == b0.x_size,
                zs == b0.z_size,
                self.made_changes == old(self).made_changes,
                self.tried_tank == old(self).tried_tank,
                self.reruns == old(self).reruns,
                x <= xs,
                tiles_in_bounds(b0, all_empty_blocks@),
                tiles_distinct(all_empty_blocks@),
                forall|k: int|
                    0 <= k < all_empty_blocks@.len() ==> b0.cell(
                        (#[trigger] all_empty_blocks@[k]).0 as int,
                        all_empty_blocks@[k].1 as int,
                    ).field_state == FieldState::Closed && all_empty_blocks@[k].0 < x,
                forall|i: int, j: int|
                    0 <= i < x && 0 <= j < zs && b0.cell(i, j).field_state == FieldState::Closed
                        ==> #[trigger] tile_of(all_empty_blocks@, i, j),
                tiles_in_bounds(b0, border_blocks@),
                tiles_distinct(border_blocks@),
                forall|k: int|
                    0 <= k < border_blocks@.len() ==> b0.cell(
                        (#[trigger] border_blocks@[k]).0 as int,
                        border_blocks@[k].1 as int,
                    ).field_state == FieldState::Closed && border_blocks@[k].0 < x,
                border_blocks@.len() <= all_empty_blocks@.len(),
            decreases xs - x,
        {
            let mut z: usize = 0;
            while z < zs
                invariant
                    self.board == b0,
                    b0.wf(),
                    b0.hints_consistent(),
                    b0.marks_sound(),
                    b0.mine_total() == b0.mine_count,
                    b0.game_state == GameState::Playing,
                    xs == b0.x_size,
                    zs == b0.z_size,
                    self.made_changes == old(self).made_changes,
                    self.tried_tank == old(self).tried_tank,
                    self.reruns == old(self).reruns,
                    x < xs,
                    z <= zs,
                    tiles_in_bounds(b0, all_empty_blocks@),
                    tiles_distinct(all_empty_blocks@),
                    forall|k: int|
                        0 <= k < all_empty_blocks@.len() ==> b0.cell(
                            (#[trigger] all_empty_blocks@[k]).0 as int,
                            all_empty_blocks@[k].1 as int,
                        ).field_state == FieldState::Closed && (all_empty_blocks@[k].0 < x || (
                        all_empty_blocks@[k].0 == x && all_empty_blocks@[k].1 < z)),
                    forall|i: int, j: int|
                        (0 <= i < x && 0 <= j < zs) || (i == x && 0 <= j < z) ==> (b0.cell(
                            i,
                            j,
                        ).field_state == FieldState::Closed ==> #[trigger] tile_of(
                            all_empty_blocks@,
                            i,
                            j,
                        )),
                    tiles_in_bounds(b0, border_blocks@),
                    tiles_distinct(border_blocks@),
                    forall|k: int|
                        0 <= k < border_blocks@.len() ==> b0.cell(
                            (#[trigger] border_blocks@[k]).0 as int,
                            border_blocks@[k].1 as int,
                        ).field_state == FieldState::Closed && (border_blocks@[k].0 < x || (
                        border_blocks@[k].0 == x && border_blocks@[k].1 < z)),
                    border_blocks@.len() <= all_empty_blocks@.len(),
                decreases zs - z,
            {
                let ghost ae0 = all_empty_blocks@;
                if self.board.fields[x][z].field_state == FieldState::Closed {
                    all_empty_blocks.push((x, z));
                    proof {
                        assert(all_empty_blocks@[ae0.len() as int] == (x, z));
                        assert(tile_of(all_empty_blocks@, x as int, z as int));
                    }
                }
                if self.is_boundary(x as i32, z as i32) && self.board.fields[x][z].field_state
                    != FieldState::Flagged {
                    border_blocks.push((x, z));
                }
                proof {
                    assert forall|i: int, j: int|
                        (0 <= i < x && 0 <= j < zs) || (i == x && 0 <= j < z + 1) implies (b0.cell(
                        i,
                        j,
                    ).field_state == FieldState::Closed ==> #[trigger] tile_of(
                        all_empty_blocks@,
                        i,
                        j,
                    )) by {
                        if b0.cell(i, j).field_state == FieldState::Closed {
                            if i == x && j == z {
                                assert(tile_of(all_empty_blocks@, i, j));
                            } else {
                                assert(tile_of(ae0, i, j));
                                let k = choose|k: int|
                                    0 <= k < ae0.len() && (#[trigger] ae0[k]).0 == i && ae0[k].1
                                        == j;
                                assert(all_empty_blocks@[k] == ae0[k]);
                                assert(tile_of(all_empty_blocks@, i, j));
                            }
                        }
                    }
                }
                z += 1;
            }
            x += 1;
        }
        // the global mine budget is usable only when the frontier covers all
        // but a handful of the closed cells
        let count_blocks_out_of_range: usize = all_empty_blocks.len() - border_blocks.len();
        if count_blocks_out_of_range > 8 {
            self.border_optimization = true;
        } else {
            self.border_optimization = false;
            border_blocks = all_empty_blocks;
        }
        if border_blocks.len() == 0 {
            proof {
                lemma_solve_frame_refl(b0);
            }
            return ;
        }
        let mut segregated: Vec<Vec<(usize, usize)>> = Vec::new();
        if self.border_optimization {
            segregated = self.tank_segregate(&border_blocks);
        } else {
            segregated.push(border_blocks);
        }
        proof {
            lemma_solve_frame_refl(b0);
        }
        let mut f: usize = 0;
        while f < segregated.len()
            invariant
                b0 == old(self).board,
                b0.wf(),
                b0.hints_consistent(),
                b0.marks_sound(),
                b0.mine_total() == b0.mine_count,
                b0.game_state == GameState::Playing,
                xs == b0.x_size,
                zs == b0.z_size,
                self.tried_tank == old(self).tried_tank,
                self.reruns == old(self).reruns,
                old(self).made_changes ==> self.made_changes,
                f <= segregated@.len(),
                b0.solve_frame(self.board),
                self.board.hints_consistent(),
                self.board.marks_sound(),
                self.board.mine_total() == self.board.mine_count,
                self.board.game_state == GameState::Playing,
                self.board.closed_total() <= b0.closed_total(),
                self.board.closed_total() == b0.closed_total() ==> self.board.fields == b0.fields
                    && self.made_changes == old(self).made_changes,
                forall|r: int|
                    0 <= r < segregated@.len() ==> tiles_in_bounds(
                        b0,
                        (#[trigger] segregated@[r])@,
                    ),
                forall|r: int|
                    0 <= r < segregated@.len() ==> tiles_distinct((#[trigger] segregated@[r])@),
                !self.border_optimization ==> segregated@.len() == 1,
                !self.border_optimization && f == 0 ==> self.board == b0,
                !self.border_optimization ==> forall|i: int, j: int|
                    b0.in_bounds(i, j) && b0.cell(i, j).field_state == FieldState::Closed
                        ==> #[trigger] tile_of(segregated@[0]@, i, j),
                !self.border_optimization ==> forall|k: int|
                    0 <= k < segregated@[0]@.len() ==> b0.cell(
                        (#[trigger] segregated@[0]@[k]).0 as int,
                        segregated@[0]@[k].1 as int,
                    ).field_state == FieldState::Closed,
                !self.border_optimization ==> forall|
                    m: spec_fn(int, int) -> bool,
                    i: int,
                    j: int,
                |
                    #![trigger consistent_layout(b0, m), self.board.cell(i, j)]
                    consistent_layout(b0, m) && b0.in_bounds(i, j) && b0.cell(i, j).field_state
                        == FieldState::Closed && self.board.cell(i, j).field_state
                        == FieldState::Flagged ==> m(i, j),
            decreases segregated@.len() - f,
        {
            let ghost bf = self.board;
            let tiles_vec: &Vec<(usize, usize)> = &segregated[f];
            let go_on = self.solve_component(tiles_vec);
            proof {
                lemma_solve_frame_trans(b0, bf, self.board);
            }
            if !go_on {
                return ;
            }
            f += 1;
        }
    }

    /// Searches one frontier component and resolves what every recorded
    /// assignment agrees on. Reports whether the orchestrating attempt may go
    /// on: a component with no consistent assignment at all stops it cold.
    #[verifier::rlimit(100)]
    fn solve_component(&mut self, border_tiles: &Vec<(usize, usize)>) -> (go_on: bool)
        requires
            old(self).board.wf(),
            old(self).board.hints_consistent(),
            old(self).board.marks_sound(),
            old(self).board.mine_total() == old(self).board.mine_count,
            old(self).board.game_state == GameState::Playing,
            tiles_in_bounds(old(self).board, border_tiles@),
            tiles_distinct(border_tiles@),
            !old(self).border_optimization ==> forall|i: int, j: int|
                old(self).board.in_bounds(i, j) && old(self).board.cell(i, j).field_state
                    == FieldState::Closed ==> #[trigger] tile_of(border_tiles@, i, j),
            !old(self).border_optimization ==> forall|k: int|
                0 <= k < border_tiles@.len() ==> old(self).board.cell(
                    (#[trigger] border_tiles@[k]).0 as int,
                    border_tiles@[k].1 as int,
                ).field_state == FieldState::Closed,
        ensures
            old(self).board.solve_frame(final(self).board),
            final(self).board.hints_consistent(),
            final(self).board.marks_sound(),
            final(self).board.mine_total() == final(self).board.mine_count,
            final(self).board.game_state == GameState::Playing,
            final(self).board.closed_total() <= old(self).board.closed_total(),
            final(self).board.closed_total() == old(self).board.closed_total()
                ==> final(self).board.fields == old(self).board.fields
                && final(self).made_changes == old(self).made_changes,
            old(self).made_changes ==> final(self).made_changes,
            final(self).tried_tank == old(self).tried_tank,
            final(self).reruns == old(self).reruns,
            final(self).border_optimization == old(self).border_optimization,
            // under the global budget, a cell this search flags carries a
            // mine in every layout the board admits: flagging never guesses
            !old(self).border_optimization ==> forall|
                m: spec_fn(int, int) -> bool,
                i: int,
                j: int,
            |
                #![trigger consistent_layout(old(self).board, m), final(self).board.cell(i, j)]
                consistent_layout(old(self).board, m) && old(self).board.in_bounds(i, j) && old(
                    self,
                ).board.cell(i, j).field_state == FieldState::Closed && final(self).board.cell(
                    i,
                    j,
                ).field_state == FieldState::Flagged ==> m(i, j),
    {
        let ghost bf = old(self).board;
            self.tank_solutions = Vec::new();
            self.tank_board = Self::clone_fields(&self.board.fields);
            self.known_mines = self.state_marks(FieldState::Flagged);
            self.known_empty = self.state_marks(FieldState::Open);
            let ghost scall = *self;
            let ghost tiles = border_tiles@;
            proof {
                assert(tank_env(scall));
            }
            self.tank_recurse(border_tiles, 0);
            if self.tank_solutions.len() == 0 {
                proof {
                    lemma_solve_frame_refl(bf);
                }
                return false;
            }
            proof {
                // with solutions recorded, the component was small enough,
                // and the board's real layout is among them
                assert(tiles.len() <= 25);
                assert(truth_compatible(bf, scall.known_mines@, scall.known_empty@)) by {
                    assert forall|i: int, j: int|
                        marked_at(scall.known_mines@, i, j) implies bf.mine_at(i, j) by {
                        assert(bf.cell(i, j).field_state == FieldState::Flagged);
                    }
                    assert forall|i: int, j: int|
                        marked_at(scall.known_empty@, i, j) implies bf.in_bounds(i, j) && !bf.cell(
                            i,
                            j,
                        ).mine by {
                        assert(bf.cell(i, j).field_state == FieldState::Open);
                    }
                }
                if !scall.border_optimization {
                    assert forall|i: int, j: int|
                        bf.in_bounds(i, j) && (#[trigger] bf.cell(i, j)).field_state
                            == FieldState::Closed implies tile_of(tiles, i, j) by {}
                    assert forall|i: int, j: int|
                        bf.in_bounds(i, j) && (#[trigger] bf.cell(i, j)).field_state
                            == FieldState::Flagged implies marked_at(
                        scall.known_mines@,
                        i,
                        j,
                    ) by {}
                }
                assert(tank_hyp(scall, tiles, 0));
                // every layout the board admits also had its assignment of
                // this component recorded
                assert forall|m: spec_fn(int, int) -> bool|
                    #[trigger] consistent_layout(bf, m) implies tank_hyp_layout(
                    scall,
                    tiles,
                    0,
                    m,
                ) by {
                    assert forall|i2: int, j2: int|
                        marked_at(scall.known_mines@, i2, j2) implies layout_at(
                        bf,
                        m,
                        i2,
                        j2,
                    ) by {
                        assert(bf.cell(i2, j2).field_state == FieldState::Flagged);
                    }
                    assert forall|i2: int, j2: int|
                        marked_at(scall.known_empty@, i2, j2) implies bf.in_bounds(i2, j2) && !m(
                        i2,
                        j2,
                    ) by {
                        assert(bf.cell(i2, j2).field_state == FieldState::Open);
                    }
                }
            }
            let ghost solsv = self.tank_solutions@;
            let ghost kt = choose|kt: int|
                0 <= kt < solsv.len() && (#[trigger] solsv[kt])@ == truth_vec(bf, tiles);
            let mut i: usize = 0;
            while i < border_tiles.len()
                invariant
                    bf.wf(),
                    bf.hints_consistent(),
                    bf.marks_sound(),
                    bf.mine_total() == bf.mine_count,
                    bf.game_state == GameState::Playing,

                    self.tried_tank == old(self).tried_tank,
                    self.reruns == old(self).reruns,
                    self.border_optimization == old(self).border_optimization,
                    old(self).made_changes ==> self.made_changes,
                    i <= tiles.len(),
                    tiles == border_tiles@,
                    tiles_in_bounds(bf, tiles),
                    bf.solve_frame(self.board),
                    self.board.hints_consistent(),
                    self.board.marks_sound(),
                    self.board.mine_total() == self.board.mine_count,
                    self.board.game_state == GameState::Playing,
                    self.board.closed_total() <= bf.closed_total(),
                    self.board.closed_total() == bf.closed_total() ==> self.board.fields
                        == bf.fields && self.made_changes == old(self).made_changes,
                    self.tank_solutions@ == solsv,
                    0 <= kt < solsv.len(),
                    solsv[kt]@ == truth_vec(bf, tiles),
                    forall|s: int|
                        0 <= s < solsv.len() ==> (#[trigger] solsv[s])@.len() == tiles.len(),
                    forall|m: spec_fn(int, int) -> bool|
                        #[trigger] consistent_layout(bf, m) ==> exists|k: int|
                            0 <= k < solsv.len() && (#[trigger] solsv[k])@ == layout_vec(m, tiles),
                    forall|m: spec_fn(int, int) -> bool, i2: int, j2: int|
                        #![trigger consistent_layout(bf, m), self.board.cell(i2, j2)]
                        consistent_layout(bf, m) && bf.in_bounds(i2, j2) && bf.cell(
                            i2,
                            j2,
                        ).field_state == FieldState::Closed && self.board.cell(i2, j2).field_state
                            == FieldState::Flagged ==> m(i2, j2),
                decreases tiles.len() - i,
            {
                let mut all_mine: bool = true;
                let mut all_empty: bool = true;
                let mut s: usize = 0;
                while s < self.tank_solutions.len()
                    invariant
                        self.tank_solutions@ == solsv,
                        i < tiles.len(),
                        s <= solsv.len(),
                        forall|s2: int|
                            0 <= s2 < solsv.len() ==> (#[trigger] solsv[s2])@.len() == tiles.len(),
                        all_mine == forall|s2: int|
                            0 <= s2 < s ==> (#[trigger] solsv[s2])@[i as int],
                        all_empty == forall|s2: int|
                            0 <= s2 < s ==> !(#[trigger] solsv[s2])@[i as int],
                    decreases solsv.len() - s,
                {
                    let ghost am0 = all_mine;
                    let ghost ae0 = all_empty;
                    if !self.tank_solutions[s][i] {
                        all_mine = false;
                    }
                    if self.tank_solutions[s][i] {
                        all_empty = false;
                    }
                    proof {
                        if all_mine {
                            assert forall|s2: int|
                                0 <= s2 < s + 1 implies (#[trigger] solsv[s2])@[i as int] by {}
                        }
                        if all_empty {
                            assert forall|s2: int|
                                0 <= s2 < s + 1 implies !(#[trigger] solsv[s2])@[i as int] by {}
                        }
                    }
                    s += 1;
                }
                let t: (usize, usize) = border_tiles[i];
                proof {
                    assert(tiles[i as int] == t);
                    assert(bf.in_bounds(t.0 as int, t.1 as int));
                    assert(self.board.in_bounds(t.0 as int, t.1 as int));
                }
                if all_mine {
                    // unanimously a mine in every recorded assignment, and the
                    // real layout is one of them: the cell hides a mine
                    proof {
                        assert(solsv[kt]@[i as int]);
                        assert(truth_vec(bf, tiles)[i as int] == bf.cell(
                            t.0 as int,
                            t.1 as int,
                        ).mine);
                        assert(self.board.cell(t.0 as int, t.1 as int).mine == bf.cell(
                            t.0 as int,
                            t.1 as int,
                        ).mine);
                    }
                    if self.board.fields[t.0][t.1].field_state == FieldState::Closed {
                        let ghost pre = self.board;
                        self.board.flag_field(t.0, t.1);
                        self.made_changes = true;
                        proof {
                            assert forall|i2: int, j2: int| pre.in_bounds(i2, j2) implies {
                                let oc = pre.cell(i2, j2);
                                let nc = #[trigger] self.board.cell(i2, j2);
                                &&& nc.mine == oc.mine
                                &&& nc.value == oc.value
                                &&& nc.x == oc.x
                                &&& nc.z == oc.z
                                &&& (nc.field_state == oc.field_state || (oc.field_state
                                    == FieldState::Closed && (nc.field_state == FieldState::Open
                                    || nc.field_state == FieldState::Flagged)))
                            } by {
                                if !(i2 == t.0 as int && j2 == t.1 as int) {
                                    assert(self.board.cell(i2, j2) == pre.cell(i2, j2));
                                }
                            }
                            assert(pre.solve_frame(self.board));
                            lemma_solve_frame_trans(bf, pre, self.board);
                            lemma_solve_frame_preserves_hints(pre, self.board);
                            assert forall|i2: int, j2: int| self.board.in_bounds(i2, j2) implies {
                                &&& ((#[trigger] self.board.cell(i2, j2)).field_state
                                    == FieldState::Flagged ==> self.board.cell(i2, j2).mine)
                                &&& (self.board.cell(i2, j2).field_state == FieldState::Open
                                    ==> !self.board.cell(i2, j2).mine)
                            } by {
                                if !(i2 == t.0 as int && j2 == t.1 as int) {
                                    assert(self.board.cell(i2, j2) == pre.cell(i2, j2));
                                    assert(pre.cell(i2, j2).field_state == FieldState::Flagged
                                        ==> pre.cell(i2, j2).mine);
                                    assert(pre.cell(i2, j2).field_state == FieldState::Open
                                        ==> !pre.cell(i2, j2).mine);
                                }
                            }
                            // the new flag sits on a mine of every layout the
                            // board admits: each had its assignment recorded,
                            // and all of them mark this candidate
                            assert forall|m: spec_fn(int, int) -> bool, i2: int, j2: int|
                                #![trigger consistent_layout(bf, m), self.board.cell(i2, j2)]
                                consistent_layout(bf, m) && bf.in_bounds(i2, j2) && bf.cell(
                                    i2,
                                    j2,
                                ).field_state == FieldState::Closed && self.board.cell(
                                    i2,
                                    j2,
                                ).field_state == FieldState::Flagged implies m(i2, j2) by {
                                if i2 == t.0 as int && j2 == t.1 as int {
                                    let k = choose|k: int|
                                        0 <= k < solsv.len() && (#[trigger] solsv[k])@
                                            == layout_vec(m, tiles);
                                    assert(solsv[k]@[i as int]);
                                    assert(layout_vec(m, tiles)[i as int] == m(
                                        t.0 as int,
                                        t.1 as int,
                                    ));
                                } else {
                                    assert(self.board.cell(i2, j2) == pre.cell(i2, j2));
                                }
                            }
                        }
                    }
                } else if all_empty {
                    // unanimously safe, in particular in the real layout
                    proof {
                        assert(!solsv[kt]@[i as int]);
                        assert(truth_vec(bf, tiles)[i as int] == bf.cell(
                            t.0 as int,
                            t.1 as int,
                        ).mine);
                        assert(!self.board.cell(t.0 as int, t.1 as int).mine);
                    }
                    let ghost pre = self.board;
                    self.board.open_field(t.0, t.1);
                    proof {
                        lemma_reveal_to_solve_frame(pre, self.board);
                        lemma_solve_frame_trans(bf, pre, self.board);
                        lemma_solve_frame_preserves_hints(pre, self.board);
                    }
                }
                i += 1;
            }

        true
    }

    /// One application of the two local deduction rules at a numbered cell:
    /// when the hint equals flagged plus closed neighbors, the closed ones are
    /// flagged as mines; when it equals the flagged neighbors alone, the
    /// remaining closed ones are opened as safe. Every cell it flags hides a
    /// mine and every cell it opens does not: the pass never guesses.
    pub fn solve_single(&mut self, x: i32, z: i32)
        requires
            old(self).board.wf(),
            old(self).board.in_bounds(x as int, z as int),
            old(self).board.hints_consistent(),
            old(self).board.marks_sound(),
        ensures
            old(self).board.solve_frame(final(self).board),
            final(self).board.hints_consistent(),
            final(self).board.marks_sound(),
            final(self).board.game_state == old(self).board.game_state
                || final(self).board.game_state == started(old(self).board.game_state),
            final(self).board.closed_total() <= old(self).board.closed_total(),
            !final(self).made_changes ==> final(self).board.fields == old(self).board.fields
                && final(self).made_changes == old(self).made_changes
                && final(self).board.game_state == old(self).board.game_state,
            final(self).made_changes && !old(self).made_changes
                ==> final(self).board.closed_total() < old(self).board.closed_total(),
            old(self).made_changes ==> final(self).made_changes,
            forall|i: int, j: int|
                old(self).board.in_bounds(i, j) && (#[trigger] final(self).board.cell(
                    i,
                    j,
                )).field_state == FieldState::Flagged && old(self).board.cell(i, j).field_state
                    != FieldState::Flagged ==> final(self).board.cell(i, j).mine,
            // nothing closed around the cell: nothing happens
            old(self).board.surrounding_count(x as int, z as int, FieldState::Closed) == 0
                ==> final(self).board.fields == old(self).board.fields
                && final(self).made_changes == old(self).made_changes
                && final(self).board.game_state == old(self).board.game_state,
            // first rule: a hint met by flagged plus closed neighbors alone
            // makes every closed neighbor a mine — they are all flagged
            old(self).board.surrounding_count(x as int, z as int, FieldState::Closed) > 0
                && field_value(old(self).board.cell(x as int, z as int)) == old(
                self,
            ).board.surrounding_count(x as int, z as int, FieldState::Flagged) + old(
                self,
            ).board.surrounding_count(x as int, z as int, FieldState::Closed) ==> forall|
                a: int,
                c: int,
            |
                adjacent(x as int, z as int, a, c) && old(self).board.in_bounds(a, c) && (
                #[trigger] old(self).board.cell(a, c)).field_state == FieldState::Closed
                    ==> final(self).board.cell(a, c).field_state == FieldState::Flagged,
            // second rule: a hint already met by the flagged neighbors makes
            // every closed neighbor safe — they are all opened
            old(self).board.surrounding_count(x as int, z as int, FieldState::Closed) > 0
                && field_value(old(self).board.cell(x as int, z as int)) == old(
                self,
            ).board.surrounding_count(x as int, z as int, FieldState::Flagged) ==> forall|
                a: int,
                c: int,
            |
                adjacent(x as int, z as int, a, c) && old(self).board.in_bounds(a, c) && (
                #[trigger] old(self).board.cell(a, c)).field_state == FieldState::Closed
                    ==> final(self).board.cell(a, c).field_state == FieldState::Open,
            final(self).tank_board == old(self).tank_board,
            final(self).tried_tank == old(self).tried_tank,
            final(self).reruns == old(self).reruns,
            final(self).border_optimization == old(self).border_optimization,
            final(self).known_mines == old(self).known_mines,
            final(self).known_empty == old(self).known_empty,
            final(self).tank_solutions == old(self).tank_solutions,
    {
        let ghost b0 = old(self).board;
        let closed = self.count_surrounding_by_type(x, z, FieldState::Closed);
        if closed == 0 {
            proof {
                lemma_solve_frame_refl(b0);
            }
            return ;
        }
        let mut already_flagged = self.count_surrounding_by_type(x, z, FieldState::Flagged);
        let field_value = Self::get_field_value(&self.board.fields, x, z);
        let ghost rule_one = field_value == already_flagged + closed;
        if field_value == already_flagged + closed {
            proof {
                assert(self.board.cell(x as int, z as int).field_state == FieldState::Open);
                lemma_deduction_flag(self.board, x as int, z as int);
            }
            self.interact_surrounding_fields(x, z, InteractAction::Flag);
            already_flagged = self.count_surrounding_by_type(x, z, FieldState::Flagged);
        }
        let ghost sf = *self;
        if field_value == already_flagged {
            proof {
                assert(self.board.cell(x as int, z as int).field_state == FieldState::Open);
                assert(self.board.cell(x as int, z as int).value == b0.cell(
                    x as int,
                    z as int,
                ).value);
                lemma_deduction_open(self.board, x as int, z as int);
            }
            self.interact_surrounding_fields(x, z, InteractAction::Open);
        }
        proof {
            // under the first rule the flags placed before the second check
            // are kept: opening never takes a flag away
            if rule_one {
                assert forall|a: int, c: int|
                    adjacent(x as int, z as int, a, c) && b0.in_bounds(a, c) && (
                    #[trigger] b0.cell(a, c)).field_state == FieldState::Closed implies self.board.cell(
                    a,
                    c,
                ).field_state == FieldState::Flagged by {
                    assert(sf.board.cell(a, c).field_state == FieldState::Flagged);
                }
            }
        }
    }

    /// Exhaustively enumerates the consistent mine/safe assignments of the
    /// candidate cells from index `depth` on, backtracking on each branch a
    /// local constraint or the global mine budget rules out, and records
    /// every complete assignment that survives, entry `k` of a recording
    /// giving the hypothesis at the candidate `border_tiles[k]`. The pruning
    /// never discards an admissible assignment: the real layout's, and more
    /// generally every layout the board admits, is among what gets recorded.
    /// Only this completeness is stated of the recordings; that each survivor
    /// satisfies every constraint exactly is not claimed.
    #[verifier::rlimit(100)]
    pub fn tank_recurse(&mut self, border_tiles: &Vec<(usize, usize)>, depth: usize)
        requires
            tank_env(*old(self)),
            old(self).board.hints_consistent(),
            old(self).board.marks_sound(),
            tiles_in_bounds(old(self).board, border_tiles@),
            tiles_distinct(border_tiles@),
            depth <= border_tiles@.len(),
        ensures
            final(self).board == old(self).board,
            final(self).tank_board == old(self).tank_board,
            final(self).made_changes == old(self).made_changes,
            final(self).tried_tank == old(self).tried_tank,
            final(self).reruns == old(self).reruns,
            final(self).border_optimization == old(self).border_optimization,
            tank_env(*final(self)),
            marks_shrunk(
                old(self).known_mines@,
                final(self).known_mines@,
                border_tiles@,
                depth as int,
            ),
            marks_shrunk(
                old(self).known_empty@,
                final(self).known_empty@,
                border_tiles@,
                depth as int,
            ),
            old(self).tank_solutions@.len() <= final(self).tank_solutions@.len(),
            forall|k: int|
                0 <= k < old(self).tank_solutions@.len()
                    ==> #[trigger] final(self).tank_solutions@[k] == old(self).tank_solutions@[k],
            forall|k: int|
                old(self).tank_solutions@.len() <= k < final(self).tank_solutions@.len()
                    ==> (#[trigger] final(self).tank_solutions@[k])@.len() == border_tiles@.len(),
            border_tiles@.len() > 25 ==> final(self).tank_solutions == old(self).tank_solutions,
            tank_hyp(*old(self), border_tiles@, depth as int) ==> exists|k: int|
                old(self).tank_solutions@.len() <= k < final(self).tank_solutions@.len() && (
                #[trigger] final(self).tank_solutions@[k])@ == truth_vec(
                    old(self).board,
                    border_tiles@,
                ),
            // the enumeration is exhaustive: the pruning never discards an
            // admissible layout's assignment of the candidates
            forall|m: spec_fn(int, int) -> bool|
                #[trigger] tank_hyp_layout(*old(self), border_tiles@, depth as int, m)
                    ==> exists|k: int|
                    old(self).tank_solutions@.len() <= k < final(self).tank_solutions@.len() && (
                    #[trigger] final(self).tank_solutions@[k])@ == layout_vec(m, border_tiles@),
        decreases border_tiles@.len() - depth,
    {
        let ghost s0 = *old(self);
        let ghost tiles = border_tiles@;
        if border_tiles.len() > 25 {
            return ;
        }
        let xs: usize = self.board.x_size as usize;
        let zs: usize = self.board.z_size as usize;
        let ghost km0 = self.known_mines@;
        let ghost ke0 = self.known_empty@;
        let mut flag_count: usize = 0;
        let mut x: usize = 0;
        while x < xs
            invariant
                *self == s0,
                tank_env(s0),
                s0.board.hints_consistent(),
                s0.board.marks_sound(),
                xs == s0.board.x_size,
                zs == s0.board.z_size,
                km0 == s0.known_mines@,
                ke0 == s0.known_empty@,
                x <= xs,
                flag_count == bgrid_count(km0.take(x as int)),
                flag_count <= x * zs,
                tiles == border_tiles@,
                tiles.len() <= 25,
                tiles_in_bounds(s0.board, tiles),
                depth <= tiles.len(),
            decreases xs - x,
        {
            let mut z: usize = 0;
            while z < zs
                invariant
                    *self == s0,
                    tank_env(s0),
                    s0.board.hints_consistent(),
                    s0.board.marks_sound(),
                    xs == s0.board.x_size,
                    zs == s0.board.z_size,
                    km0 == s0.known_mines@,
                    ke0 == s0.known_empty@,
                    x < xs,
                    z <= zs,
                    flag_count == bgrid_count(km0.take(x as int)) + brow_count(
                        km0[x as int]@.take(z as int),
                    ),
                    flag_count <= x * zs + z,
                    tiles == border_tiles@,
                    tiles.len() <= 25,
                    tiles_in_bounds(s0.board, tiles),
                    depth <= tiles.len(),
                decreases zs - z,
            {
                proof {
                    lemma_brow_count_take_step(km0[x as int]@, z as int);
                    assert(x * zs + z + 1 <= xs * zs) by (nonlinear_arith)
                        requires
                            0 <= x < xs,
                            0 <= z < zs,
                    ;
                }
                if self.known_mines[x][z] {
                    flag_count += 1;
                }
                let current_value = Self::get_field_value(&self.tank_board, x as i32, z as i32);
                if current_value >= 0 {
                    proof {
                        assert(self.tank_board@[x as int]@[z as int] == s0.board.cell(
                            x as int,
                            z as int,
                        ));
                        assert(s0.board.cell(x as int, z as int).field_state == FieldState::Open);
                    }
                    // too many mine marks already pressed against this hint
                    if self.count_in_field(&self.known_mines, x, z) > current_value {
                        proof {
                            lemma_prune_overflag(s0, tiles, depth as int, x as int, z as int);
                        }
                        return ;
                    }
                    let max_x = self.board.x_size;
                    let max_z = self.board.z_size;
                    let xi: i32 = x as i32;
                    let zi: i32 = z as i32;
                    let bordering: i32 = if (xi == 0 && zi == 0) || (xi == max_x - 1 && zi == max_z
                        - 1) {
                        3
                    } else if xi == 0 || zi == 0 || xi == max_x - 1 || zi == max_z - 1 {
                        5
                    } else {
                        8
                    };
                    // the hint can no longer be met by what is left around it
                    if bordering - self.count_in_field(&self.known_empty, x, z) < current_value {
                        proof {
                            lemma_bordering_bound(s0.board, x as int, z as int, bordering as int);
                            lemma_prune_capacity(
                                s0,
                                tiles,
                                depth as int,
                                x as int,
                                z as int,
                                bordering as int,
                            );
                        }
                        return ;
                    }
                }
                z += 1;
            }
            proof {
                lemma_bgrid_count_take_step(km0, x as int);
                assert(km0[x as int]@.take(zs as int) =~= km0[x as int]@);
                assert((x + 1) * zs == x * zs + zs) by (nonlinear_arith);
            }
            x += 1;
        }
        proof {
            assert(km0.take(xs as int) =~= km0);
        }
        // more mine marks than the board has mines at all
        if flag_count > self.board.mine_count {
            proof {
                if tank_hyp(s0, tiles, depth as int) {
                    assert forall|i: int, j: int|
                        0 <= i < km0.len() && 0 <= j < km0[i]@.len() && (
                        #[trigger] km0[i]@[j]) implies s0.board.fields@[i]@[j].mine by {
                        assert(marked_at(km0, i, j));
                        assert(s0.board.mine_at(i, j));
                    }
                    lemma_bcount_le_mines(km0, s0.board.fields@);
                    assert(false);
                }
                assert forall|m: spec_fn(int, int) -> bool|
                    !(#[trigger] tank_hyp_layout(s0, tiles, depth as int, m)) by {
                    if tank_hyp_layout(s0, tiles, depth as int, m) {
                        assert forall|i: int, j: int|
                            0 <= i < km0.len() && 0 <= j < km0[i]@.len() && (
                            #[trigger] km0[i]@[j]) implies m(i, j) by {
                            assert(marked_at(km0, i, j));
                        }
                        lemma_bgrid_vs_layout(
                            km0,
                            m,
                            s0.board.x_size as int,
                            s0.board.z_size as int,
                        );
                        assert(false);
                    }
                }
            }
            return ;
        }
        if depth == border_tiles.len() {
            // a complete assignment: under the global budget it must place
            // every mine of the board
            if !self.border_optimization && flag_count < self.board.mine_count {
                proof {
                    if tank_hyp(s0, tiles, depth as int) {
                        assert forall|i: int, j: int|
                            0 <= i < km0.len() && 0 <= j < km0[i]@.len() && (#[trigger] s0.board.fields@[i]@[j]).mine
                             implies km0[i]@[j] by {
                            assert(s0.board.in_bounds(i, j));
                            assert(s0.board.cell(i, j).mine);
                            assert(s0.board.cell(i, j).field_state != FieldState::Open);
                            if s0.board.cell(i, j).field_state == FieldState::Flagged {
                                assert(marked_at(km0, i, j));
                            } else {
                                assert(tile_of(tiles, i, j));
                                let k = choose|k: int|
                                    0 <= k < tiles.len() && (#[trigger] tiles[k]).0 == i
                                        && tiles[k].1 == j;
                                assert(marked_at(km0, i, j) == s0.board.cell(i, j).mine);
                            }
                        }
                        lemma_mines_le_bcount(km0, s0.board.fields@);
                        assert(false);
                    }
                    assert forall|m: spec_fn(int, int) -> bool|
                        !(#[trigger] tank_hyp_layout(s0, tiles, depth as int, m)) by {
                        if tank_hyp_layout(s0, tiles, depth as int, m) {
                            assert forall|i: int, j: int|
                                0 <= i < km0.len() && 0 <= j < km0[i]@.len() implies (
                            #[trigger] km0[i]@[j]) == m(i, j) by {
                                if km0[i]@[j] {
                                    assert(marked_at(km0, i, j));
                                }
                                if m(i, j) {
                                    assert(s0.board.in_bounds(i, j));
                                    if s0.board.cell(i, j).field_state == FieldState::Flagged {
                                        assert(marked_at(km0, i, j));
                                    } else if s0.board.cell(i, j).field_state
                                        == FieldState::Closed {
                                        assert(tile_of(tiles, i, j));
                                        let k = choose|k: int|
                                            0 <= k < tiles.len() && (#[trigger] tiles[k]).0 == i
                                                && tiles[k].1 == j;
                                        assert(marked_at(km0, i, j) == m(i, j));
                                    }
                                }
                            }
                            lemma_bgrid_vs_layout(
                                km0,
                                m,
                                s0.board.x_size as int,
                                s0.board.z_size as int,
                            );
                            assert(false);
                        }
                    }
                }
                return ;
            }
            let mut solution: Vec<bool> = Vec::new();
            let mut k: usize = 0;
            while k < border_tiles.len()
                invariant
                    *self == s0,
                    tank_env(s0),
                    km0 == s0.known_mines@,
                    tiles == border_tiles@,
                    tiles_in_bounds(s0.board, tiles),
                    k <= tiles.len(),
                    solution@.len() == k,
                    forall|m: int|
                        0 <= m < k ==> solution@[m] == marked_at(
                            km0,
                            (#[trigger] tiles[m]).0 as int,
                            tiles[m].1 as int,
                        ),
                decreases tiles.len() - k,
            {
                let t = border_tiles[k];
                solution.push(self.known_mines[t.0][t.1]);
                k += 1;
            }
            let ghost sv = solution@;
            self.tank_solutions.push(solution);
            proof {
                assert(self.tank_solutions@ == s0.tank_solutions@.push(
                    self.tank_solutions@.last(),
                ));
                if tank_hyp(s0, tiles, depth as int) {
                    assert forall|m: int| 0 <= m < tiles.len() implies sv[m] == truth_vec(
                        s0.board,
                        tiles,
                    )[m] by {
                        assert(marked_at(km0, tiles[m].0 as int, tiles[m].1 as int)
                            == s0.board.cell(tiles[m].0 as int, tiles[m].1 as int).mine);
                    }
                    assert(sv =~= truth_vec(s0.board, tiles));
                    assert(self.tank_solutions@[s0.tank_solutions@.len() as int]@ == sv);
                }
                assert forall|m: spec_fn(int, int) -> bool|
                    #[trigger] tank_hyp_layout(s0, tiles, depth as int, m) implies exists|k: int|
                    s0.tank_solutions@.len() <= k < self.tank_solutions@.len() && (
                    #[trigger] self.tank_solutions@[k])@ == layout_vec(m, tiles) by {
                    assert forall|i: int| 0 <= i < tiles.len() implies sv[i] == layout_vec(
                        m,
                        tiles,
                    )[i] by {
                        assert(marked_at(km0, tiles[i].0 as int, tiles[i].1 as int) == m(
                            tiles[i].0 as int,
                            tiles[i].1 as int,
                        ));
                    }
                    assert(sv =~= layout_vec(m, tiles));
                    assert(self.tank_solutions@[s0.tank_solutions@.len() as int]@ == layout_vec(
                        m,
                        tiles,
                    ));
                }
            }
            return ;
        }
        let field: (usize, usize) = border_tiles[depth];
        let fx: usize = field.0;
        let fz: usize = field.1;
        // hypothesis: the candidate hides a mine
        set_mark(&mut self.known_mines, fx, fz, true);
        let ghost s1 = *self;
        self.tank_recurse(border_tiles, depth + 1);
        let ghost s2 = *self;
        set_mark(&mut self.known_mines, fx, fz, false);
        // hypothesis: the candidate is safe
        set_mark(&mut self.known_empty, fx, fz, true);
        let ghost s4 = *self;
        self.tank_recurse(border_tiles, depth + 1);
        let ghost s5 = *self;
        set_mark(&mut self.known_empty, fx, fz, false);
        proof {
            let d = depth as int;
            let fi = fx as int;
            let fj = fz as int;
            // the level only withdraws hypotheses at candidates from here on
            assert(!marked_at(s5.known_mines@, fi, fj));
            lemma_marks_chain(
                km0,
                s1.known_mines@,
                s2.known_mines@,
                s4.known_mines@,
                s5.known_mines@,
                self.known_mines@,
                tiles,
                d,
                field,
            );
            lemma_marks_chain(
                ke0,
                s1.known_empty@,
                s2.known_empty@,
                s4.known_empty@,
                s5.known_empty@,
                self.known_empty@,
                tiles,
                d,
                field,
            );
            assert forall|i: int, j: int|
                #![trigger marked_at(s4.known_mines@, i, j)]
                !(i == fi && j == fj) implies marked_at(s4.known_mines@, i, j) == marked_at(
                km0,
                i,
                j,
            ) || (!marked_at(s4.known_mines@, i, j) && suffix_tile(tiles, d + 1, i, j)) by {
                assert(marked_at(s4.known_mines@, i, j) == marked_at(s2.known_mines@, i, j));
                assert(marked_at(s1.known_mines@, i, j) == marked_at(km0, i, j));
            }
            assert forall|i: int, j: int|
                #![trigger marked_at(s4.known_empty@, i, j)]
                !(i == fi && j == fj) implies marked_at(s4.known_empty@, i, j) == marked_at(
                ke0,
                i,
                j,
            ) || (!marked_at(s4.known_empty@, i, j) && suffix_tile(tiles, d + 1, i, j)) by {
                assert(marked_at(s4.known_empty@, i, j) == marked_at(s2.known_empty@, i, j));
                assert(marked_at(s1.known_empty@, i, j) == marked_at(ke0, i, j));
            }
            assert(!marked_at(s4.known_mines@, fi, fj));
            assert(marked_at(s4.known_empty@, fi, fj));
            // whichever the real layout says of this candidate, the branch
            // that matches it records the layout's full assignment
            if tank_hyp(s0, tiles, d) {
                if s0.board.cell(fi, fj).mine {
                    lemma_hyp_mine_branch(s0, s1, tiles, d);
                    let k = choose|k: int|
                        s1.tank_solutions@.len() <= k < s2.tank_solutions@.len() && (
                        #[trigger] s2.tank_solutions@[k])@ == truth_vec(s1.board, tiles);
                    assert(self.tank_solutions@[k] == s2.tank_solutions@[k]);
                } else {
                    lemma_hyp_safe_branch(s0, s4, tiles, d);
                    let k = choose|k: int|
                        s4.tank_solutions@.len() <= k < s5.tank_solutions@.len() && (
                        #[trigger] s5.tank_solutions@[k])@ == truth_vec(s4.board, tiles);
                    assert(self.tank_solutions@[k] == s5.tank_solutions@[k]);
                    assert(s0.tank_solutions@.len() <= k);
                }
            }
            // the same, branch by branch, for every layout the board admits
            assert forall|m: spec_fn(int, int) -> bool|
                #[trigger] tank_hyp_layout(s0, tiles, d, m) implies exists|k: int|
                s0.tank_solutions@.len() <= k < self.tank_solutions@.len() && (
                #[trigger] self.tank_solutions@[k])@ == layout_vec(m, tiles) by {
                if m(fi, fj) {
                    lemma_hyp_layout_mine(s0, s1, tiles, d, m);
                    assert(tank_hyp_layout(s1, tiles, d + 1, m));
                    let k = choose|k: int|
                        s1.tank_solutions@.len() <= k < s2.tank_solutions@.len() && (
                        #[trigger] s2.tank_solutions@[k])@ == layout_vec(m, tiles);
                    assert(self.tank_solutions@[k] == s2.tank_solutions@[k]);
                } else {
                    lemma_hyp_layout_safe(s0, s4, tiles, d, m);
                    assert(tank_hyp_layout(s4, tiles, d + 1, m));
                    let k = choose|k: int|
                        s4.tank_solutions@.len() <= k < s5.tank_solutions@.len() && (
                        #[trigger] s5.tank_solutions@[k])@ == layout_vec(m, tiles);
                    assert(self.tank_solutions@[k] == s5.tank_solutions@[k]);
                    assert(s0.tank_solutions@.len() <= k);
                }
            }
        }
    }

    /// Advances the solving run by one discrete step: after a step that made
    /// progress the deduction sweep runs again; a stalled run re-sweeps a few
    /// times, then checks for the solved verdict, then tries the backtracking
    /// solver once, and finally gives up rather than guess. Every step keeps
    /// the marks truthful, and a solved verdict means exactly that all flags
    /// sit on mines and everything else stands open.
    #[verifier::rlimit(100)]
    pub fn solve_next_step(&mut self)
        requires
            old(self).board.wf(),
            old(self).board.hints_consistent(),
            old(self).board.marks_sound(),
            old(self).board.mine_total() == old(self).board.mine_count,
            old(self).board.game_state == GameState::Playing,
            old(self).reruns <= 3,
        ensures
            old(self).board.solve_frame(final(self).board),
            final(self).board.hints_consistent(),
            final(self).board.marks_sound(),
            final(self).board.mine_total() == final(self).board.mine_count,
            final(self).reruns <= 3,
            final(self).board.game_state == GameState::Playing || final(self).board.game_state
                == GameState::GameoverSolved || final(self).board.game_state
                == GameState::GameoverFailed,
            final(self).board.game_state == GameState::GameoverSolved
                ==> final(self).board.is_solved_spec(),
            // a stalled run with a full sweep budget reaches its verdict
            !old(self).made_changes && old(self).reruns == 3 && old(self).board.is_solved_spec()
                ==> final(self).board.game_state == GameState::GameoverSolved
                && final(self).board.fields == old(self).board.fields,
            !old(self).made_changes && old(self).reruns == 3 && !old(self).board.is_solved_spec()
                && old(self).tried_tank ==> final(self).board.game_state
                == GameState::GameoverFailed && final(self).board.fields == old(self).board.fields,
            // a board that already stands solved is never judged a failure
            old(self).board.is_solved_spec() ==> final(self).board.game_state
                != GameState::GameoverFailed,
            // a sweep that made no progress left no deduction rule applicable
            final(self).board.game_state == GameState::Playing && !final(self).made_changes
                ==> forall|i: int, j: int|
                    #![trigger deduction_applies(final(self).board, i, j)]
                    final(self).board.in_bounds(i, j) && field_value(final(self).board.cell(i, j))
                        > 0 ==> !deduction_applies(final(self).board, i, j),
            final(self).board.closed_total() <= old(self).board.closed_total(),
            // one of these falls with every step that stays in play: the
            // count of closed cells, the progress flag, the sweep budget, or
            // the one backtracking attempt — so driving the solver terminates
            final(self).board.game_state == GameState::Playing
                ==> final(self).board.closed_total() < old(self).board.closed_total()
                || (final(self).board.closed_total() == old(self).board.closed_total()
                && !final(self).made_changes && (old(self).made_changes
                || (old(self).reruns < 3 && final(self).reruns == old(self).reruns + 1
                && final(self).tried_tank == old(self).tried_tank)
                || (old(self).reruns == 3 && !old(self).tried_tank && final(self).tried_tank))),
    {
        let ghost b0 = old(self).board;
        if self.made_changes {
            self.reruns = 0;
            self.tried_tank = false;
        } else if self.reruns < 3 {
            self.reruns = self.reruns + 1;
        } else if self.is_solved() {
            self.board.game_state = GameState::GameoverSolved;
            proof {
                lemma_solve_frame_refl(b0);
                assert(b0.solve_frame(self.board));
            }
            return ;
        } else if !self.tried_tank {
            self.tank_solver();
            self.tried_tank = true;
        } else {
            self.board.game_state = GameState::GameoverFailed;
            proof {
                lemma_solve_frame_refl(b0);
                assert(b0.solve_frame(self.board));
            }
            return ;
        }
        self.made_changes = false;
        let ghost b1 = self.board;
        let ghost r1 = self.reruns;
        let ghost t1 = self.tried_tank;
        proof {
            lemma_solve_frame_refl(b0);
            assert(b0.solve_frame(b1));
        }
        let mut x: i32 = 0;
        while x < self.board.x_size
            invariant
                b1.wf(),
                b1.hints_consistent(),
                b1.marks_sound(),
                b1.mine_total() == b1.mine_count,
                b1.game_state == GameState::Playing,
                0 <= x <= self.board.x_size,
                self.board.x_size == b1.x_size,
                b1.solve_frame(self.board),
                self.board.hints_consistent(),
                self.board.marks_sound(),
                self.board.mine_total() == self.board.mine_count,
                self.board.game_state == GameState::Playing,
                self.board.closed_total() <= b1.closed_total(),
                self.board.closed_total() == b1.closed_total() ==> self.board.fields == b1.fields
                    && !self.made_changes,
                self.made_changes ==> self.board.closed_total() < b1.closed_total(),
                !self.made_changes ==> self.board.fields == b1.fields,
                self.board.fields == b1.fields ==> forall|i: int, j: int|
                    #![trigger deduction_applies(self.board, i, j)]
                    0 <= i < x && 0 <= j < self.board.z_size && field_value(
                        self.board.cell(i, j),
                    ) > 0 ==> !deduction_applies(self.board, i, j),
                self.reruns == r1,
                self.tried_tank == t1,
            decreases self.board.x_size - x,
        {
            let mut z: i32 = 0;
            while z < self.board.z_size
                invariant
                    b1.wf(),
                    b1.hints_consistent(),
                    b1.marks_sound(),
                    b1.mine_total() == b1.mine_count,
                    b1.game_state == GameState::Playing,
                    0 <= x < self.board.x_size,
                    0 <= z <= self.board.z_size,
                    self.board.x_size == b1.x_size,
                    self.board.z_size == b1.z_size,
                    b1.solve_frame(self.board),
                    self.board.hints_consistent(),
                    self.board.marks_sound(),
                    self.board.mine_total() == self.board.mine_count,
                    self.board.game_state == GameState::Playing,
                    self.board.closed_total() <= b1.closed_total(),
                    self.board.closed_total() == b1.closed_total() ==> self.board.fields
                        == b1.fields && !self.made_changes,
                    self.made_changes ==> self.board.closed_total() < b1.closed_total(),
                    !self.made_changes ==> self.board.fields == b1.fields,
                    self.board.fields == b1.fields ==> forall|i: int, j: int|
                        #![trigger deduction_applies(self.board, i, j)]
                        ((0 <= i < x && 0 <= j < self.board.z_size) || (i == x && 0 <= j < z))
                            && field_value(self.board.cell(i, j)) > 0 ==> !deduction_applies(
                            self.board,
                            i,
                            j,
                        ),
                    self.reruns == r1,
                    self.tried_tank == t1,
                decreases self.board.z_size - z,
            {
                if Self::get_field_value(&self.board.fields, x, z) > 0 {
                    let ghost pre = *self;
                    self.solve_single(x, z);
                    proof {
                        lemma_solve_frame_trans(b1, pre.board, self.board);
                        lemma_solve_frame_preserves_hints(pre.board, self.board);
                        // an applicable rule would have changed a cell, so an
                        // unchanged board has no rule left to apply here
                        if self.board.fields == b1.fields && deduction_applies(
                            self.board,
                            x as int,
                            z as int,
                        ) {
                            assert(self.board.cell(x as int, z as int).field_state
                                == FieldState::Open);
                            assert(self.board.state_neighbors(x as int, z as int, FieldState::Closed)
                                > 0);
                            lemma_state_neighbors_exists(
                                self.board,
                                x as int,
                                z as int,
                                FieldState::Closed,
                            );
                            let (a, c) = choose|a: int, c: int|
                                adjacent(x as int, z as int, a, c) && self.board.state_at(
                                    a,
                                    c,
                                    FieldState::Closed,
                                );
                            assert(pre.board.cell(a, c).field_state == FieldState::Closed);
                            assert(false);
                        }
                    }
                }
                z += 1;
            }
            x += 1;
        }
        proof {
            lemma_solve_frame_trans(b0, b1, self.board);
        }
    }

    /// Whether the board stands solved: no cell is closed any more and the
    /// flags match the number of mines the board was made for.
    pub fn is_solved(&self) -> (r: bool)
        requires
            self.board.wf(),
        ensures
            r == self.board.is_solved_spec(),
    {
        let xs: usize = self.board.x_size as usize;
        let zs: usize = self.board.z_size as usize;
        let ghost g = self.board.fields@;
        let mut flagged_fields: usize = 0;
        let mut x: usize = 0;
        while x < xs
            invariant
                self.board.wf(),
                xs == self.board.x_size,
                zs == self.board.z_size,
                g == self.board.fields@,
                x <= xs,
                flagged_fields == grid_count(g.take(x as int), flagged_pred()),
                flagged_fields <= x * zs,
                forall|i: int, j: int|
                    0 <= i < x && 0 <= j < zs ==> (#[trigger] g[i]@[j]).field_state
                        != FieldState::Closed,
            decreases xs - x,
        {
            let row_len: usize = self.board.fields[x].len();
            let mut z: usize = 0;
            while z < zs
                invariant
                    self.board.wf(),
                    xs == self.board.x_size,
                    zs == self.board.z_size,
                    g == self.board.fields@,
                    x < xs,
                    z <= zs,
                    flagged_fields == grid_count(g.take(x as int), flagged_pred()) + row_count(
                        g[x as int]@.take(z as int),
                        flagged_pred(),
                    ),
                    flagged_fields <= x * zs + z,
                    forall|i: int, j: int|
                        0 <= i < x && 0 <= j < zs ==> (#[trigger] g[i]@[j]).field_state
                            != FieldState::Closed,
                    forall|j: int|
                        0 <= j < z ==> (#[trigger] g[x as int]@[j]).field_state
                            != FieldState::Closed,
                decreases zs - z,
            {
                proof {
                    lemma_row_count_take_step(g[x as int]@, flagged_pred(), z as int);
                    assert(x * zs + z + 1 <= xs * zs) by (nonlinear_arith)
                        requires
                            0 <= x < xs,
                            0 <= z < zs,
                    ;
                }
                let st = self.board.fields[x][z].field_state;
                if st == FieldState::Flagged {
                    flagged_fields += 1;
                } else if st == FieldState::Closed {
                    proof {
                        assert(self.board.cell(x as int, z as int).field_state
                            == FieldState::Closed);
                    }
                    return false;
                }
                z += 1;
            }
            proof {
                lemma_grid_count_take_step(g, flagged_pred(), x as int);
                assert(g[x as int]@.take(zs as int) =~= g[x as int]@);
                assert((x + 1) * zs == x * zs + zs) by (nonlinear_arith);
            }
            x += 1;
        }
        proof {
            assert(g.take(xs as int) =~= g);
        }
        flagged_fields == self.board.mine_count
    }
    pub fn count_surrounding_by_type(&self, x: i32, z: i32, search_for: FieldState) -> (hits: i32)
        requires
            self.board.wf(),
            self.board.in_bounds(x as int, z as int),
        ensures
            hits == self.board.state_neighbors(x as int, z as int, search_for) + ind(
                self.board.state_at(x as int, z as int, search_for),
            ),
            0 <= hits <= 9,
    {
        let hits: i32 = self.state_ind(x - 1, z - 1, search_for) + self.state_ind(
            x - 1,
            z,
            search_for,
        ) + self.state_ind(x - 1, z + 1, search_for) + self.state_ind(x, z - 1, search_for)
            + self.state_ind(x, z, search_for) + self.state_ind(x, z + 1, search_for)
            + self.state_ind(x + 1, z - 1, search_for) + self.state_ind(x + 1, z, search_for)
            + self.state_ind(x + 1, z + 1, search_for);
        hits
    }
}

} // verus!
