//! The game board: a fixed `rows × cols` grid of cells, row 0 at the top.
//!
//! The board supports gravity-based placement (a token settles in the lowest
//! empty row of its column), move validity, a fullness check, and the
//! extraction of all diagonal lines in both directions. Every operation is
//! specified against the board's mathematical view, a sequence of rows of
//! optional player views.

use vstd::multiset::Multiset;
use vstd::prelude::*;

use crate::player::{Player, PlayerV};

verus! {

/// A cell of the board: empty, or occupied by a player.
pub type BoardCell = Option<Player>;

/// A row of the board.
pub type BoardRow = Vec<BoardCell>;

/// Mathematical view of a cell.
pub type CellV = Option<PlayerV>;

/// Mathematical view of the whole grid: a sequence of rows of cells.
pub type GridV = Seq<Seq<CellV>>;

/// The view of one cell.
pub open spec fn cell_view(c: BoardCell) -> CellV {
    match c {
        Some(p) => Some(p@),
        None => None,
    }
}

/// The view of one row of cells.
pub open spec fn row_view(r: BoardRow) -> Seq<CellV> {
    Seq::new(r@.len(), |j: int| cell_view(r@[j]))
}

/// A well-formed grid has at least one row, at least one column, and all
/// rows of equal length.
pub open spec fn grid_wf(g: GridV) -> bool {
    &&& g.len() >= 1
    &&& g[0].len() >= 1
    &&& forall|i: int| 0 <= i < g.len() ==> (#[trigger] g[i]).len() == g[0].len()
}

/// Number of columns of a grid.
pub open spec fn grid_cols(g: GridV) -> int {
    g[0].len() as int
}

/// The cells of column `col`, top to bottom.
pub open spec fn column_of(g: GridV, col: int) -> Seq<CellV> {
    Seq::new(g.len(), |i: int| g[i][col])
}

/// True iff column `col` still has an empty cell.
pub open spec fn column_has_empty(g: GridV, col: int) -> bool {
    exists|i: int| 0 <= i < g.len() && (#[trigger] g[i])[col] is None
}

/// A move is valid iff the column index is in range and the column still
/// has an empty cell.
pub open spec fn valid_move_at(g: GridV, col: int) -> bool {
    0 <= col < grid_cols(g) && column_has_empty(g, col)
}

/// True iff every cell of the grid is occupied.
pub open spec fn grid_full(g: GridV) -> bool {
    forall|i: int, j: int|
        0 <= i < g.len() && 0 <= j < (#[trigger] g[i]).len() ==> (#[trigger] g[i][j]) is Some
}

/// The lowest (largest-index) row whose cell in column `col` is empty,
/// or -1 if the column is full.
pub open spec fn lowest_empty_row(g: GridV, col: int) -> int
    decreases g.len(),
{
    if g.len() == 0 {
        -1
    } else if g[g.len() - 1][col] is None {
        g.len() - 1
    } else {
        lowest_empty_row(g.drop_last(), col)
    }
}

/// `lowest_empty_row` is exactly the bottom-most empty cell of the column:
/// it is -1 iff the column is full, it points at an empty cell, and every
/// cell below it is occupied.
pub proof fn lemma_lowest_empty_row(g: GridV, col: int)
    ensures
        -1 <= lowest_empty_row(g, col) < g.len(),
        lowest_empty_row(g, col) == -1 <==> (forall|i: int|
            0 <= i < g.len() ==> (#[trigger] g[i])[col] is Some),
        lowest_empty_row(g, col) >= 0 ==> g[lowest_empty_row(g, col)][col] is None,
        forall|i: int|
            lowest_empty_row(g, col) < i < g.len() ==> (#[trigger] g[i])[col] is Some,
    decreases g.len(),
{
    if g.len() > 0 && !(g[g.len() - 1][col] is None) {
        let gp = g.drop_last();
        let l = lowest_empty_row(g, col);
        lemma_lowest_empty_row(gp, col);
        assert(l == lowest_empty_row(gp, col));
        assert forall|i: int| l < i < g.len() implies (#[trigger] g[i])[col] is Some by {
            if i < g.len() - 1 {
                assert(gp[i] == g[i]);
                assert(gp[i][col] is Some);
            }
        }
        if forall|i: int| 0 <= i < g.len() ==> (#[trigger] g[i])[col] is Some {
            assert forall|i: int| 0 <= i < gp.len() implies (#[trigger] gp[i])[col] is Some by {
                assert(gp[i] == g[i]);
                assert(g[i][col] is Some);
            }
            assert(l == -1);
        }
        if l == -1 {
            assert forall|i: int| 0 <= i < g.len() implies (#[trigger] g[i])[col] is Some by {
                if i < g.len() - 1 {
                    assert(gp[i] == g[i]);
                    assert(gp[i][col] is Some);
                }
            }
        }
    }
}

/// The grid after a token of player `p` settles in column `col`: the cell
/// at the lowest empty row of the column becomes occupied by `p`.
pub open spec fn grid_place(g: GridV, col: int, p: PlayerV) -> GridV {
    let r = lowest_empty_row(g, col);
    g.update(r, g[r].update(col, Some(p)))
}

/// A column holding `filled` gravity-stacked tokens (its bottom `filled`
/// cells occupied, the rest empty) receives the next token in row
/// `g.len() - 1 - filled`.
pub proof fn lemma_place_settles(g: GridV, col: int, filled: int)
    requires
        0 <= filled < g.len(),
        forall|i: int| g.len() - filled <= i < g.len() ==> (#[trigger] g[i])[col] is Some,
        forall|i: int| 0 <= i < g.len() - filled ==> (#[trigger] g[i])[col] is None,
    ensures
        lowest_empty_row(g, col) == g.len() - 1 - filled,
    decreases filled,
{
    if filled == 0 {
        assert(g[g.len() - 1][col] is None);
    } else {
        assert(g[g.len() - 1][col] is Some);
        lemma_place_settles(g.drop_last(), col, filled - 1);
        assert(forall|i: int| 0 <= i < g.len() - 1 ==> #[trigger] g.drop_last()[i] == g[i]);
    }
}

/// A full grid admits no valid move in any column, and conversely.
pub proof fn lemma_full_no_moves(g: GridV)
    requires
        grid_wf(g),
    ensures
        grid_full(g) <==> (forall|col: int| 0 <= col < grid_cols(g) ==> !column_has_empty(g, col)),
{
    if forall|col: int| 0 <= col < grid_cols(g) ==> !column_has_empty(g, col) {
        assert forall|i: int, j: int|
            0 <= i < g.len() && 0 <= j < (#[trigger] g[i]).len() implies (#[trigger] g[i][j])
            is Some by {
            assert(!column_has_empty(g, j));
        }
    }
}

/// Number of diagonals of a grid, in either direction.
pub open spec fn diag_count(g: GridV) -> int {
    g.len() + grid_cols(g) - 1
}

/// The topmost row crossed by diagonal `d` (either direction).
pub open spec fn diag_start_row(g: GridV, d: int) -> int {
    if d - (grid_cols(g) - 1) > 0 {
        d - (grid_cols(g) - 1)
    } else {
        0
    }
}

/// The bottom row crossed by diagonal `d` (either direction).
pub open spec fn diag_end_row(g: GridV, d: int) -> int {
    if d < g.len() - 1 {
        d
    } else {
        g.len() - 1
    }
}

/// Number of cells on diagonal `d`.
pub open spec fn diag_len(g: GridV, d: int) -> int {
    diag_end_row(g, d) - diag_start_row(g, d) + 1
}

/// Diagonal `d` of the direction whose cells run through column `d - i`
/// in row `i`, in top-to-bottom order.
pub open spec fn diag_tlbr(g: GridV, d: int) -> Seq<CellV> {
    Seq::new(
        diag_len(g, d) as nat,
        |n: int| g[diag_start_row(g, d) + n][d - (diag_start_row(g, d) + n)],
    )
}

/// Diagonal `d` of the other direction, whose cells run through column
/// `cols - 1 - d + i` in row `i`, in top-to-bottom order.
pub open spec fn diag_trbl(g: GridV, d: int) -> Seq<CellV> {
    Seq::new(
        diag_len(g, d) as nat,
        |n: int| g[diag_start_row(g, d) + n][grid_cols(g) - 1 - d + (diag_start_row(g, d) + n)],
    )
}

/// The columns of a grid, each as a top-to-bottom sequence of cells.
pub open spec fn grid_columns(g: GridV) -> Seq<Seq<CellV>> {
    Seq::new(grid_cols(g) as nat, |j: int| column_of(g, j))
}

/// The diagonals of the first direction, in diagonal order.
pub open spec fn grid_diags_tlbr(g: GridV) -> Seq<Seq<CellV>> {
    Seq::new(diag_count(g) as nat, |d: int| diag_tlbr(g, d))
}

/// The diagonals of the other direction, in diagonal order.
pub open spec fn grid_diags_trbl(g: GridV) -> Seq<Seq<CellV>> {
    Seq::new(diag_count(g) as nat, |d: int| diag_trbl(g, d))
}

/// The diagonals of the first direction partition the grid: every diagonal
/// is non-empty, every diagonal position holds a grid cell, and every grid
/// cell `(i, j)` appears at exactly one diagonal position, namely position
/// `i - diag_start_row(g, i + j)` of diagonal `i + j`. The two index maps
/// are mutual inverses, so each cell is covered exactly once.
pub proof fn lemma_diagonals_partition_tlbr(g: GridV)
    requires
        grid_wf(g),
    ensures
        forall|d: int| 0 <= d < diag_count(g) ==> (#[trigger] diag_tlbr(g, d)).len() >= 1,
        forall|d: int, n: int|
            0 <= d < diag_count(g) && 0 <= n < diag_len(g, d) ==> {
                let i = diag_start_row(g, d) + n;
                &&& 0 <= i < g.len()
                &&& 0 <= d - i < grid_cols(g)
                &&& (#[trigger] diag_tlbr(g, d)[n]) == g[i][d - i]
                &&& i - diag_start_row(g, d) == n
            },
        forall|i: int, j: int|
            0 <= i < g.len() && 0 <= j < grid_cols(g) ==> {
                let d = i + j;
                let n = i - diag_start_row(g, d);
                &&& 0 <= d < diag_count(g)
                &&& 0 <= n < diag_len(g, d)
                &&& diag_tlbr(g, d)[n] == (#[trigger] g[i][j])
            },
{
}

/// The diagonals of the other direction partition the grid in the same
/// way; cell `(i, j)` lies on diagonal `i + (cols - 1) - j`.
pub proof fn lemma_diagonals_partition_trbl(g: GridV)
    requires
        grid_wf(g),
    ensures
        forall|d: int| 0 <= d < diag_count(g) ==> (#[trigger] diag_trbl(g, d)).len() >= 1,
        forall|d: int, n: int|
            0 <= d < diag_count(g) && 0 <= n < diag_len(g, d) ==> {
                let i = diag_start_row(g, d) + n;
                &&& 0 <= i < g.len()
                &&& 0 <= grid_cols(g) - 1 - d + i < grid_cols(g)
                &&& (#[trigger] diag_trbl(g, d)[n]) == g[i][grid_cols(g) - 1 - d + i]
                &&& i - diag_start_row(g, d) == n
            },
        forall|i: int, j: int|
            0 <= i < g.len() && 0 <= j < grid_cols(g) ==> {
                let d = i + grid_cols(g) - 1 - j;
                let n = i - diag_start_row(g, d);
                &&& 0 <= d < diag_count(g)
                &&& 0 <= n < diag_len(g, d)
                &&& diag_trbl(g, d)[n] == (#[trigger] g[i][j])
            },
{
}

/// All cells of a family of lines, as one multiset.
pub open spec fn cells_mset(lines: Seq<Seq<CellV>>) -> Multiset<CellV>
    decreases lines.len(),
{
    if lines.len() == 0 {
        Multiset::empty()
    } else {
        lines.last().to_multiset().add(cells_mset(lines.drop_last()))
    }
}

/// Peeling one line off a prefix of a family of lines.
pub proof fn lemma_cells_mset_take(lines: Seq<Seq<CellV>>, m: int)
    requires
        0 <= m < lines.len(),
    ensures
        cells_mset(lines.take(m + 1)) == lines[m].to_multiset().add(cells_mset(lines.take(m))),
{
    let t = lines.take(m + 1);
    assert(t.last() == lines[m]);
    assert(t.drop_last() =~= lines.take(m));
}

/// Dropping the last row keeps the grid well-formed and shortens each
/// direction by one diagonal.
pub proof fn lemma_grid_wf_drop_last(g: GridV)
    requires
        grid_wf(g),
        g.len() >= 2,
    ensures
        grid_wf(g.drop_last()),
        grid_cols(g.drop_last()) == grid_cols(g),
        diag_count(g.drop_last()) == diag_count(g) - 1,
{
    let gp = g.drop_last();
    assert(gp[0] == g[0]);
    assert forall|i: int| 0 <= i < gp.len() implies (#[trigger] gp[i]).len() == gp[0].len() by {
        assert(gp[i] == g[i]);
    }
}

/// How each diagonal of the first direction relates to the same diagonal
/// of the grid without its last row: diagonals above the last row are
/// unchanged, the others gain the last row's cell at their end, and the
/// final diagonal consists of the last row's last cell alone.
pub proof fn lemma_diag_drop_last_tlbr(g: GridV, d: int)
    requires
        grid_wf(g),
        g.len() >= 2,
        0 <= d < diag_count(g),
    ensures
        d < g.len() - 1 ==> diag_tlbr(g.drop_last(), d) == diag_tlbr(g, d),
        g.len() - 1 <= d < diag_count(g) - 1 ==> diag_tlbr(g, d) == diag_tlbr(
            g.drop_last(),
            d,
        ).push(g[g.len() - 1][d - (g.len() - 1)]),
        d == diag_count(g) - 1 ==> diag_tlbr(g, d) =~= seq![g[g.len() - 1][grid_cols(g) - 1]],
{
    let gp = g.drop_last();
    lemma_grid_wf_drop_last(g);
    assert(forall|i: int| 0 <= i < gp.len() ==> #[trigger] gp[i] == g[i]);
    if d < g.len() - 1 {
        assert(diag_tlbr(gp, d) =~= diag_tlbr(g, d));
    } else if d < diag_count(g) - 1 {
        assert(diag_tlbr(g, d) =~= diag_tlbr(gp, d).push(g[g.len() - 1][d - (g.len() - 1)]));
    }
}

/// The same relation for the diagonals of the other direction; a diagonal
/// `d` that reaches the last row meets it in column `rows + cols - 2 - d`,
/// and the final diagonal consists of the last row's first cell alone.
pub proof fn lemma_diag_drop_last_trbl(g: GridV, d: int)
    requires
        grid_wf(g),
        g.len() >= 2,
        0 <= d < diag_count(g),
    ensures
        d < g.len() - 1 ==> diag_trbl(g.drop_last(), d) == diag_trbl(g, d),
        g.len() - 1 <= d < diag_count(g) - 1 ==> diag_trbl(g, d) == diag_trbl(
            g.drop_last(),
            d,
        ).push(g[g.len() - 1][diag_count(g) - 1 - d]),
        d == diag_count(g) - 1 ==> diag_trbl(g, d) =~= seq![g[g.len() - 1][0]],
{
    let gp = g.drop_last();
    lemma_grid_wf_drop_last(g);
    assert(forall|i: int| 0 <= i < gp.len() ==> #[trigger] gp[i] == g[i]);
    if d < g.len() - 1 {
        assert(diag_trbl(gp, d) =~= diag_trbl(g, d));
    } else if d < diag_count(g) - 1 {
        assert(diag_trbl(g, d) =~= diag_trbl(gp, d).push(g[g.len() - 1][diag_count(g) - 1 - d]));
    }
}

/// A prefix of the first direction's diagonals against the grid without
/// its last row: up to diagonal `rows - 1` both carry the same cells, and
/// beyond it the full grid's diagonals additionally carry the first
/// `m - (rows - 1)` cells of the last row.
proof fn lemma_diags_mset_prefix_tlbr(g: GridV, m: int)
    requires
        grid_wf(g),
        g.len() >= 2,
        0 <= m <= diag_count(g),
    ensures
        m <= g.len() - 1 ==> cells_mset(grid_diags_tlbr(g).take(m)) == cells_mset(
            grid_diags_tlbr(g.drop_last()).take(m),
        ),
        m > g.len() - 1 ==> cells_mset(grid_diags_tlbr(g).take(m)) == cells_mset(
            grid_diags_tlbr(g.drop_last()).take(
                if m < diag_count(g) {
                    m
                } else {
                    m - 1
                },
            ),
        ).add(g.last().take(m - (g.len() - 1)).to_multiset()),
    decreases m,
{
    broadcast use vstd::seq_lib::group_to_multiset_ensures;

    let gp = g.drop_last();
    let dg = grid_diags_tlbr(g);
    let dp = grid_diags_tlbr(gp);
    let row = g.last();
    let rr = g.len() - 1;
    let dd = diag_count(g);
    lemma_grid_wf_drop_last(g);
    if m == 0 {
        assert(dg.take(0) =~= Seq::<Seq<CellV>>::empty());
        assert(dp.take(0) =~= Seq::<Seq<CellV>>::empty());
    } else {
        lemma_diags_mset_prefix_tlbr(g, m - 1);
        lemma_diag_drop_last_tlbr(g, m - 1);
        lemma_cells_mset_take(dg, m - 1);
        assert(dg[m - 1] == diag_tlbr(g, m - 1));
        if m <= rr {
            lemma_cells_mset_take(dp, m - 1);
            assert(dp[m - 1] == diag_tlbr(gp, m - 1));
        } else if m - 1 < dd - 1 {
            lemma_cells_mset_take(dp, m - 1);
            assert(dp[m - 1] == diag_tlbr(gp, m - 1));
            let cell = g[rr][m - 1 - rr];
            assert(diag_tlbr(g, m - 1).to_multiset() =~= diag_tlbr(gp, m - 1).to_multiset().insert(
                cell,
            ));
            assert(row.take(m - rr) =~= row.take(m - 1 - rr).push(cell));
            if m - 1 == rr {
                assert(row.take(0) =~= Seq::<CellV>::empty());
                assert(row.take(0).to_multiset() =~= Multiset::<CellV>::empty());
            }
            assert(cells_mset(dg.take(m)) =~= cells_mset(dp.take(m)).add(
                row.take(m - rr).to_multiset(),
            ));
        } else {
            let cell = g[rr][grid_cols(g) - 1];
            assert(diag_tlbr(g, m - 1) =~= Seq::<CellV>::empty().push(cell));
            assert(diag_tlbr(g, m - 1).to_multiset() =~= Multiset::<CellV>::empty().insert(cell));
            assert(m - 1 - rr == grid_cols(g) - 1);
            assert(row.take(m - rr) =~= row.take(m - 1 - rr).push(cell));
            if m - 1 == rr {
                assert(row.take(0) =~= Seq::<CellV>::empty());
                assert(row.take(0).to_multiset() =~= Multiset::<CellV>::empty());
            }
            assert(cells_mset(dg.take(m)) =~= cells_mset(dp.take(m - 1)).add(
                row.take(m - rr).to_multiset(),
            ));
        }
    }
}

/// On a single-row grid, the first direction's diagonals are the row's
/// cells one by one.
proof fn lemma_single_row_diags_tlbr(g: GridV, m: int)
    requires
        grid_wf(g),
        g.len() == 1,
        0 <= m <= diag_count(g),
    ensures
        cells_mset(grid_diags_tlbr(g).take(m)) == g[0].take(m).to_multiset(),
    decreases m,
{
    broadcast use vstd::seq_lib::group_to_multiset_ensures;

    let dg = grid_diags_tlbr(g);
    if m == 0 {
        assert(dg.take(0) =~= Seq::<Seq<CellV>>::empty());
        assert(g[0].take(0) =~= Seq::<CellV>::empty());
        assert(g[0].take(0).to_multiset() =~= Multiset::<CellV>::empty());
    } else {
        lemma_single_row_diags_tlbr(g, m - 1);
        lemma_cells_mset_take(dg, m - 1);
        let cell = g[0][m - 1];
        assert(diag_tlbr(g, m - 1) =~= Seq::<CellV>::empty().push(cell));
        assert(diag_tlbr(g, m - 1).to_multiset() =~= Multiset::<CellV>::empty().insert(cell));
        assert(g[0].take(m) =~= g[0].take(m - 1).push(cell));
        assert(cells_mset(dg.take(m)) =~= g[0].take(m).to_multiset());
    }
}

/// The multiset of all cells across the first direction's diagonals is
/// exactly the multiset of the grid's cells: the diagonals cover every
/// cell of the grid once.
pub proof fn lemma_diagonals_multiset_tlbr(g: GridV)
    requires
        grid_wf(g),
    ensures
        cells_mset(grid_diags_tlbr(g)) == cells_mset(g),
    decreases g.len(),
{
    broadcast use vstd::seq_lib::group_to_multiset_ensures;

    let dg = grid_diags_tlbr(g);
    let dd = diag_count(g);
    if g.len() == 1 {
        lemma_single_row_diags_tlbr(g, dd);
        assert(dg.take(dd) =~= dg);
        assert(g[0].take(grid_cols(g)) =~= g[0]);
        assert(g.drop_last().len() == 0);
        assert(cells_mset(g.drop_last()) =~= Multiset::<CellV>::empty());
        assert(g.last() == g[0]);
        assert(cells_mset(g) =~= g[0].to_multiset());
    } else {
        let gp = g.drop_last();
        lemma_grid_wf_drop_last(g);
        lemma_diags_mset_prefix_tlbr(g, dd);
        lemma_diagonals_multiset_tlbr(gp);
        assert(dg.take(dd) =~= dg);
        assert(grid_diags_tlbr(gp).take(dd - 1) =~= grid_diags_tlbr(gp));
        assert(g.last().len() == grid_cols(g));
        assert(g.last().take(grid_cols(g)) =~= g.last());
        assert(cells_mset(dg) =~= cells_mset(g));
    }
}

/// A prefix of the other direction's diagonals against the grid without
/// its last row: beyond diagonal `rows - 1` the full grid's diagonals
/// additionally carry the last `m - (rows - 1)` cells of the last row,
/// from its right end leftwards.
proof fn lemma_diags_mset_prefix_trbl(g: GridV, m: int)
    requires
        grid_wf(g),
        g.len() >= 2,
        0 <= m <= diag_count(g),
    ensures
        m <= g.len() - 1 ==> cells_mset(grid_diags_trbl(g).take(m)) == cells_mset(
            grid_diags_trbl(g.drop_last()).take(m),
        ),
        m > g.len() - 1 ==> cells_mset(grid_diags_trbl(g).take(m)) == cells_mset(
            grid_diags_trbl(g.drop_last()).take(
                if m < diag_count(g) {
                    m
                } else {
                    m - 1
                },
            ),
        ).add(g.last().skip(diag_count(g) - m).to_multiset()),
    decreases m,
{
    broadcast use vstd::seq_lib::group_to_multiset_ensures;

    let gp = g.drop_last();
    let dg = grid_diags_trbl(g);
    let dp = grid_diags_trbl(gp);
    let row = g.last();
    let rr = g.len() - 1;
    let dd = diag_count(g);
    lemma_grid_wf_drop_last(g);
    if m == 0 {
        assert(dg.take(0) =~= Seq::<Seq<CellV>>::empty());
        assert(dp.take(0) =~= Seq::<Seq<CellV>>::empty());
    } else {
        lemma_diags_mset_prefix_trbl(g, m - 1);
        lemma_diag_drop_last_trbl(g, m - 1);
        lemma_cells_mset_take(dg, m - 1);
        assert(dg[m - 1] == diag_trbl(g, m - 1));
        if m <= rr {
            lemma_cells_mset_take(dp, m - 1);
            assert(dp[m - 1] == diag_trbl(gp, m - 1));
        } else if m - 1 < dd - 1 {
            lemma_cells_mset_take(dp, m - 1);
            assert(dp[m - 1] == diag_trbl(gp, m - 1));
            let cell = g[rr][dd - m];
            assert(diag_trbl(g, m - 1).to_multiset() =~= diag_trbl(gp, m - 1).to_multiset().insert(
                cell,
            ));
            assert(row.skip(dd - m) =~= row.skip(dd - m + 1).insert(0, cell));
            assert(row.skip(dd - m + 1).insert(0, cell).to_multiset() =~= row.skip(
                dd - m + 1,
            ).to_multiset().insert(cell));
            if m - 1 == rr {
                assert(row.skip(dd - m + 1) =~= Seq::<CellV>::empty());
                assert(row.skip(dd - m + 1).to_multiset() =~= Multiset::<CellV>::empty());
            }
            assert(cells_mset(dg.take(m)) =~= cells_mset(dp.take(m)).add(
                row.skip(dd - m).to_multiset(),
            ));
        } else {
            let cell = g[rr][0];
            assert(diag_trbl(g, m - 1) =~= Seq::<CellV>::empty().push(cell));
            assert(diag_trbl(g, m - 1).to_multiset() =~= Multiset::<CellV>::empty().insert(cell));
            assert(row.skip(dd - m) =~= row.skip(dd - m + 1).insert(0, cell));
            assert(row.skip(dd - m + 1).insert(0, cell).to_multiset() =~= row.skip(
                dd - m + 1,
            ).to_multiset().insert(cell));
            if m - 1 == rr {
                assert(row.skip(dd - m + 1) =~= Seq::<CellV>::empty());
                assert(row.skip(dd - m + 1).to_multiset() =~= Multiset::<CellV>::empty());
            }
            assert(cells_mset(dg.take(m)) =~= cells_mset(dp.take(m - 1)).add(
                row.skip(dd - m).to_multiset(),
            ));
        }
    }
}

/// On a single-row grid, the other direction's diagonals are the row's
/// cells one by one, from its right end leftwards.
proof fn lemma_single_row_diags_trbl(g: GridV, m: int)
    requires
        grid_wf(g),
        g.len() == 1,
        0 <= m <= diag_count(g),
    ensures
        cells_mset(grid_diags_trbl(g).take(m)) == g[0].skip(diag_count(g) - m).to_multiset(),
    decreases m,
{
    broadcast use vstd::seq_lib::group_to_multiset_ensures;

    let dg = grid_diags_trbl(g);
    let dd = diag_count(g);
    if m == 0 {
        assert(dg.take(0) =~= Seq::<Seq<CellV>>::empty());
        assert(g[0].skip(dd) =~= Seq::<CellV>::empty());
        assert(g[0].skip(dd).to_multiset() =~= Multiset::<CellV>::empty());
    } else {
        lemma_single_row_diags_trbl(g, m - 1);
        lemma_cells_mset_take(dg, m - 1);
        let cell = g[0][dd - m];
        assert(diag_trbl(g, m - 1) =~= Seq::<CellV>::empty().push(cell));
        assert(diag_trbl(g, m - 1).to_multiset() =~= Multiset::<CellV>::empty().insert(cell));
        assert(g[0].skip(dd - m) =~= g[0].skip(dd - m + 1).insert(0, cell));
        assert(g[0].skip(dd - m + 1).insert(0, cell).to_multiset() =~= g[0].skip(
            dd - m + 1,
        ).to_multiset().insert(cell));
        assert(cells_mset(dg.take(m)) =~= g[0].skip(dd - m).to_multiset());
    }
}

/// The multiset of all cells across the other direction's diagonals is
/// exactly the multiset of the grid's cells: the diagonals cover every
/// cell of the grid once.
pub proof fn lemma_diagonals_multiset_trbl(g: GridV)
    requires
        grid_wf(g),
    ensures
        cells_mset(grid_diags_trbl(g)) == cells_mset(g),
    decreases g.len(),
{
    broadcast use vstd::seq_lib::group_to_multiset_ensures;

    let dg = grid_diags_trbl(g);
    let dd = diag_count(g);
    if g.len() == 1 {
        lemma_single_row_diags_trbl(g, dd);
        assert(dg.take(dd) =~= dg);
        assert(g[0].skip(0) =~= g[0]);
        assert(g.drop_last().len() == 0);
        assert(cells_mset(g.drop_last()) =~= Multiset::<CellV>::empty());
        assert(g.last() == g[0]);
        assert(cells_mset(g) =~= g[0].to_multiset());
    } else {
        let gp = g.drop_last();
        lemma_grid_wf_drop_last(g);
        lemma_diags_mset_prefix_trbl(g, dd);
        lemma_diagonals_multiset_trbl(gp);
        assert(dg.take(dd) =~= dg);
        assert(grid_diags_trbl(gp).take(dd - 1) =~= grid_diags_trbl(gp));
        assert(g.last().len() == grid_cols(g));
        assert(g.last().skip(0) =~= g.last());
        assert(cells_mset(dg) =~= cells_mset(g));
    }
}

/// An error from an attempted placement.
#[derive(Clone, Copy, Debug, PartialEq, Eq, Structural)]
pub enum MoveError {
    /// The column index is outside the board.
    InvalidColumn,
    /// The column has no empty cell left.
    ColumnFull,
}

/// A Connect Four board.
pub struct Board {
    /// The grid, as a vector of rows of equal length; row 0 is the top.
    pub rows: Vec<BoardRow>,
}

impl View for Board {
    type V = GridV;

    open spec fn view(&self) -> GridV {
        Seq::new(self.rows@.len(), |i: int| row_view(self.rows@[i]))
    }
}

impl Board {
    /// The board's grid is well-formed.
    pub open spec fn wf(&self) -> bool {
        grid_wf(self@)
    }

    /// Creates a board of `row_count × col_count` empty cells.
    pub fn new(row_count: usize, col_count: usize) -> (b: Board)
        requires
            row_count >= 1,
            col_count >= 1,
        ensures
            b.wf(),
            b@.len() == row_count,
            forall|i: int| 0 <= i < row_count ==> (#[trigger] b@[i]).len() == col_count,
            forall|i: int, j: int|
                0 <= i < row_count && 0 <= j < col_count ==> (#[trigger] b@[i][j]) is None,
    {
        let mut rows: Vec<BoardRow> = Vec::new();
        while rows.len() < row_count
            invariant
                rows@.len() <= row_count,
                forall|i: int| 0 <= i < rows@.len() ==> (#[trigger] rows@[i])@.len() == col_count,
                forall|i: int, j: int|
                    0 <= i < rows@.len() && 0 <= j < col_count ==> (#[trigger] rows@[i]@[j])
                        is None,
            decreases row_count - rows.len(),
        {
            let mut row: BoardRow = Vec::new();
            while row.len() < col_count
                invariant
                    row@.len() <= col_count,
                    forall|j: int| 0 <= j < row@.len() ==> (#[trigger] row@[j]) is None,
                decreases col_count - row.len(),
            {
                row.push(None);
            }
            rows.push(row);
        }
        let b = Board { rows };
        assert forall|i: int, j: int|
            0 <= i < row_count && 0 <= j < col_count implies (#[trigger] b@[i][j]) is None by {
            assert(b@[i] == row_view(b.rows@[i]));
        }
        b
    }

    /// True iff `col` is in range and the column still has an empty cell.
    pub fn valid_move(&self, col: usize) -> (r: bool)
        requires
            self.wf(),
        ensures
            r == valid_move_at(self@, col as int),
    {
        if col >= self.rows[0].len() {
            return false;
        }
        let row_count = self.rows.len();
        let mut i: usize = 0;
        while i < row_count
            invariant
                self.wf(),
                row_count == self@.len(),
                col < grid_cols(self@),
                i <= row_count,
                forall|t: int| 0 <= t < i ==> (#[trigger] self@[t])[col as int] is Some,
            decreases row_count - i,
        {
            proof {
                assert(self@[i as int] == row_view(self.rows@[i as int]));
            }
            if self.rows[i][col].is_none() {
                return true;
            }
            i += 1;
        }
        false
    }

    /// True iff every cell of the board is occupied.
    pub fn is_board_full(&self) -> (r: bool)
        requires
            self.wf(),
        ensures
            r == grid_full(self@),
    {
        let row_count = self.rows.len();
        let mut i: usize = 0;
        while i < row_count
            invariant
                self.wf(),
                row_count == self@.len(),
                i <= row_count,
                forall|a: int, b: int|
                    0 <= a < i && 0 <= b < (#[trigger] self@[a]).len() ==> (#[trigger] self@[a][b])
                        is Some,
            decreases row_count - i,
        {
            let col_count = self.rows[i].len();
            proof {
                assert(self@[i as int] == row_view(self.rows@[i as int]));
            }
            let mut j: usize = 0;
            while j < col_count
                invariant
                    self.wf(),
                    row_count == self@.len(),
                    i < row_count,
                    col_count == self@[i as int].len(),
                    j <= col_count,
                    forall|a: int, b: int|
                        0 <= a < i && 0 <= b < (#[trigger] self@[a]).len() ==> (
                        #[trigger] self@[a][b]) is Some,
                    forall|b: int| 0 <= b < j ==> (#[trigger] self@[i as int][b]) is Some,
                decreases col_count - j,
            {
                proof {
                    assert(self@[i as int] == row_view(self.rows@[i as int]));
                }
                if self.rows[i][j].is_none() {
                    proof {
                        assert(self@[i as int][j as int] is None);
                    }
                    return false;
                }
                j += 1;
            }
            i += 1;
        }
        true
    }

    /// Drops a token of `player` into column `col`: it settles in the lowest
    /// empty row of that column. Out-of-range columns and full columns are
    /// rejected and leave the board unchanged.
    pub fn place_token(&mut self, col: usize, player: Player) -> (res: Result<(), MoveError>)
        requires
            old(self).wf(),
        ensures
            final(self).wf(),
            col as int >= grid_cols(old(self)@) ==> res == Err::<(), MoveError>(
                MoveError::InvalidColumn,
            ) && *final(self) == *old(self),
            (col as int) < grid_cols(old(self)@) && !column_has_empty(old(self)@, col as int)
                ==> res == Err::<(), MoveError>(MoveError::ColumnFull) && *final(self) == *old(self),
            valid_move_at(old(self)@, col as int) ==> res == Ok::<(), MoveError>(())
                && final(self)@ == grid_place(old(self)@, col as int, player@),
    {
        let ghost g = self@;
        if col >= self.rows[0].len() {
            return Err(MoveError::InvalidColumn);
        }
        let row_count = self.rows.len();
        let mut target_row: usize = 0;
        let mut found: bool = false;
        let mut i: usize = 0;
        while i < row_count
            invariant
                self.wf(),
                self@ == g,
                row_count == self@.len(),
                col < grid_cols(self@),
                i <= row_count,
                found ==> target_row < i && self@[target_row as int][col as int] is None,
                found ==> forall|t: int|
                    target_row < t < i ==> (#[trigger] self@[t])[col as int] is Some,
                !found ==> forall|t: int| 0 <= t < i ==> (#[trigger] self@[t])[col as int] is Some,
            decreases row_count - i,
        {
            proof {
                assert(self@[i as int] == row_view(self.rows@[i as int]));
            }
            if self.rows[i][col].is_none() {
                target_row = i;
                found = true;
            }
            i += 1;
        }
        if !found {
            return Err(MoveError::ColumnFull);
        }
        proof {
            lemma_lowest_empty_row(g, col as int);
            assert(lowest_empty_row(g, col as int) == target_row as int) by {
                let l = lowest_empty_row(g, col as int);
                assert(g[target_row as int][col as int] is None);
                if l < target_row as int {
                    assert(g[target_row as int][col as int] is Some);
                } else if l > target_row as int {
                    assert(g[l][col as int] is Some);
                }
            }
        }
        self.rows[target_row][col] = Some(player);
        proof {
            let r = target_row as int;
            let c = col as int;
            assert forall|i2: int| 0 <= i2 < self@.len() implies #[trigger] self@[i2]
                == grid_place(g, c, player@)[i2] by {
                assert(self@[i2] == row_view(self.rows@[i2]));
                if i2 == r {
                    assert(row_view(self.rows@[r]) =~= g[r].update(c, Some(player@)));
                } else {
                    assert(row_view(self.rows@[i2]) =~= g[i2]);
                }
            }
            assert(self@ =~= grid_place(g, c, player@));
        }
        Ok(())
    }

    /// All diagonals running through column `d - i` in row `i`, for
    /// `d` from 0 to `rows + cols - 2`, each in top-to-bottom order.
    pub fn get_diagonals_top_left_to_bottom_right(&self) -> (diags: Vec<Vec<BoardCell>>)
        requires
            self.wf(),
            self@.len() + grid_cols(self@) <= usize::MAX,
        ensures
            diags@.len() == diag_count(self@),
            forall|d: int|
                0 <= d < diag_count(self@) ==> row_view(#[trigger] diags@[d]) == diag_tlbr(
                    self@,
                    d,
                ),
    {
        let row_count = self.rows.len();
        let col_count = self.rows[0].len();
        let mut diags: Vec<Vec<BoardCell>> = Vec::new();
        let mut d: usize = 0;
        while d < row_count + col_count - 1
            invariant
                self.wf(),
                row_count == self@.len(),
                col_count == grid_cols(self@),
                row_count + col_count <= usize::MAX,
                d <= diag_count(self@),
                diags@.len() == d,
                forall|t: int|
                    0 <= t < d ==> row_view(#[trigger] diags@[t]) == diag_tlbr(self@, t),
            decreases diag_count(self@) - d,
        {
            let ghost lo = diag_start_row(self@, d as int);
            let ghost hi = diag_end_row(self@, d as int);
            let mut diagonal: Vec<BoardCell> = Vec::new();
            let mut i: usize = 0;
            while i < row_count
                invariant
                    self.wf(),
                    row_count == self@.len(),
                    col_count == grid_cols(self@),
                    (d as int) < diag_count(self@),
                    lo == diag_start_row(self@, d as int),
                    hi == diag_end_row(self@, d as int),
                    i <= row_count,
                    diagonal@.len() as int == if i <= lo {
                        0
                    } else if i as int <= hi + 1 {
                        i - lo
                    } else {
                        diag_len(self@, d as int)
                    },
                    forall|n: int|
                        0 <= n < diagonal@.len() ==> cell_view(#[trigger] diagonal@[n])
                            == diag_tlbr(self@, d as int)[n],
                decreases row_count - i,
            {
                if i <= d && d - i < col_count {
                    proof {
                        assert(self@[i as int] == row_view(self.rows@[i as int]));
                        assert(lo <= i as int <= hi);
                    }
                    diagonal.push(clone_cell(&self.rows[i][d - i]));
                    proof {
                        let n = i as int - lo;
                        assert(diag_tlbr(self@, d as int)[n] == self@[i as int][d - i]);
                    }
                }
                i += 1;
            }
            proof {
                assert(diagonal@.len() == diag_len(self@, d as int));
                assert(row_view(diagonal) =~= diag_tlbr(self@, d as int));
            }
            diags.push(diagonal);
            d += 1;
        }
        diags
    }

    /// All diagonals of the other direction, running through column
    /// `cols - 1 - d + i` in row `i`, each in top-to-bottom order.
    pub fn get_diagonals_top_right_to_bottom_left(&self) -> (diags: Vec<Vec<BoardCell>>)
        requires
            self.wf(),
            self@.len() + grid_cols(self@) <= usize::MAX,
        ensures
            diags@.len() == diag_count(self@),
            forall|d: int|
                0 <= d < diag_count(self@) ==> row_view(#[trigger] diags@[d]) == diag_trbl(
                    self@,
                    d,
                ),
    {
        let row_count = self.rows.len();
        let col_count = self.rows[0].len();
        let mut diags: Vec<Vec<BoardCell>> = Vec::new();
        let mut d: usize = 0;
        while d < row_count + col_count - 1
            invariant
                self.wf(),
                row_count == self@.len(),
                col_count == grid_cols(self@),
                row_count + col_count <= usize::MAX,
                d <= diag_count(self@),
                diags@.len() == d,
                forall|t: int|
                    0 <= t < d ==> row_view(#[trigger] diags@[t]) == diag_trbl(self@, t),
            decreases diag_count(self@) - d,
        {
            let ghost lo = diag_start_row(self@, d as int);
            let ghost hi = diag_end_row(self@, d as int);
            let mut diagonal: Vec<BoardCell> = Vec::new();
            let mut i: usize = 0;
            while i < row_count
                invariant
                    self.wf(),
                    row_count == self@.len(),
                    col_count == grid_cols(self@),
                    (d as int) < diag_count(self@),
                    lo == diag_start_row(self@, d as int),
                    hi == diag_end_row(self@, d as int),
                    i <= row_count,
                    diagonal@.len() as int == if i <= lo {
                        0
                    } else if i as int <= hi + 1 {
                        i - lo
                    } else {
                        diag_len(self@, d as int)
                    },
                    forall|n: int|
                        0 <= n < diagonal@.len() ==> cell_view(#[trigger] diagonal@[n])
                            == diag_trbl(self@, d as int)[n],
                decreases row_count - i,
            {
                if i <= d && d - i < col_count {
                    proof {
                        assert(self@[i as int] == row_view(self.rows@[i as int]));
                        assert(lo <= i as int <= hi);
                    }
                    diagonal.push(clone_cell(&self.rows[i][col_count - 1 - (d - i)]));
                    proof {
                        let n = i as int - lo;
                        assert(diag_trbl(self@, d as int)[n] == self@[i as int][col_count - 1 - (
                        d - i)]);
                    }
                }
                i += 1;
            }
            proof {
                assert(diagonal@.len() == diag_len(self@, d as int));
                assert(row_view(diagonal) =~= diag_trbl(self@, d as int));
            }
            diags.push(diagonal);
            d += 1;
        }
        diags
    }
}

/// A copy of a cell, equal to the cell it was copied from.
pub fn clone_cell(c: &BoardCell) -> (r: BoardCell)
    ensures
        r == *c,
{
    match c {
        Some(p) => Some(p.clone()),
        None => None,
    }
}

} // verus!
