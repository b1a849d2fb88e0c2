//! Two-dimensional grids of the `grid` crate, as far as parameters use them.
//!
//! A grid of floats holds the bit pattern of each float in a `u32`. What a
//! grid holds is named by three uninterpreted functions; the contracts of the
//! calls into the crate are stated over them and are taken on trust.

use vstd::prelude::*;

verus! {

#[verifier::external_type_specification]
#[verifier::external_body]
#[verifier::reject_recursive_types(T)]
pub struct ExGrid<T>(grid::Grid<T>);

/// The cells of a grid, row by row, whatever order it keeps them in internally.
pub uninterp spec fn grid_cells(g: grid::Grid<u32>) -> Seq<u32>;

/// The number of rows of a grid.
pub uninterp spec fn grid_rows(g: grid::Grid<u32>) -> nat;

/// The number of columns of a grid.
pub uninterp spec fn grid_cols(g: grid::Grid<u32>) -> nat;

/// The mathematical value of a grid: its size and its cells, row by row.
pub struct GridView {
    pub rows: nat,
    pub cols: nat,
    pub cells: Seq<u32>,
}

/// The mathematical value of the grid `g`.
pub open spec fn grid_view(g: grid::Grid<u32>) -> GridView {
    GridView { rows: grid_rows(g), cols: grid_cols(g), cells: grid_cells(g) }
}

/// `Grid::from_vec`: the grid with `cols` columns whose rows, one after the
/// other, are `cells`. The crate panics unless the cells fill whole rows,
/// which the precondition demands; a grid without cells has neither rows nor
/// columns.
#[verifier::external_body]
pub(crate) fn grid_from_vec(cells: Vec<u32>, cols: usize) -> (g: grid::Grid<u32>)
    requires
        cols == 0 ==> cells.len() == 0,
        cols > 0 ==> cells.len() % cols == 0,
    ensures
        grid_cells(g) == cells@,
        grid_cols(g) == (if cells.len() == 0 { 0 } else { cols }),
        grid_rows(g) == (if cols == 0 { 0 } else { cells.len() / cols }),
{
    grid::Grid::from_vec(cells, cols)
}

/// `Grid::rows`: the number of rows; rows times columns is the number of cells.
#[verifier::external_body]
pub(crate) fn grid_row_count(g: &grid::Grid<u32>) -> (rows: usize)
    ensures
        rows == grid_rows(*g),
        rows * grid_cols(*g) == grid_cells(*g).len(),
{
    g.rows()
}

/// `Grid::cols`: the number of columns.
#[verifier::external_body]
pub(crate) fn grid_col_count(g: &grid::Grid<u32>) -> (cols: usize)
    ensures
        cols == grid_cols(*g),
{
    g.cols()
}

/// `Grid::get`: the cell in row `row` and column `col`, which is the cell at
/// `row * cols + col` of the row-by-row listing; nothing outside the grid.
#[verifier::external_body]
pub(crate) fn grid_get(g: &grid::Grid<u32>, row: usize, col: usize) -> (cell: Option<&u32>)
    ensures
        cell == (if row < grid_rows(*g) && col < grid_cols(*g) {
            Some(&grid_cells(*g)[row * grid_cols(*g) + col])
        } else {
            None
        }),
{
    g.get(row, col)
}

/// The cells of a grid, row by row.
pub fn row_major_cells(g: &grid::Grid<u32>) -> (cells: Vec<u32>)
    ensures
        cells@ == grid_cells(*g),
{
    let rows: usize = grid_row_count(g);
    let cols: usize = grid_col_count(g);
    let mut cells: Vec<u32> = Vec::new();
    let mut r: usize = 0;
    while r < rows
        invariant
            rows == grid_rows(*g),
            cols == grid_cols(*g),
            rows * cols == grid_cells(*g).len(),
            r <= rows,
            cells@.len() == r * cols,
            cells@ == grid_cells(*g).take(r * cols),
        decreases rows - r,
    {
        let mut c: usize = 0;
        while c < cols
            invariant
                rows == grid_rows(*g),
                cols == grid_cols(*g),
                rows * cols == grid_cells(*g).len(),
                r < rows,
                c <= cols,
                cells@.len() == r * cols + c,
                cells@ == grid_cells(*g).take(r * cols + c),
            decreases cols - c,
        {
            proof {
                lemma_cell_index(r as int, c as int, rows as int, cols as int);
            }
            match grid_get(g, r, c) {
                Some(cell) => {
                    cells.push(*cell);
                },
                None => {},
            }
            assert(cells@ =~= grid_cells(*g).take(r * cols + c + 1));
            c += 1;
        }
        proof {
            assert(r * cols + cols == (r + 1) * cols) by (nonlinear_arith);
        }
        r += 1;
    }
    proof {
        assert(cells@ =~= grid_cells(*g));
    }
    cells
}

/// The row-by-row index of a cell inside the grid lies inside the listing.
proof fn lemma_cell_index(r: int, c: int, rows: int, cols: int)
    requires
        0 <= r < rows,
        0 <= c < cols,
    ensures
        0 <= r * cols + c < rows * cols,
{
    assert(r * cols + cols <= rows * cols) by (nonlinear_arith)
        requires
            0 <= r < rows,
            0 <= cols,
    ;
    assert(0 <= r * cols) by (nonlinear_arith)
        requires
            0 <= r,
            0 <= cols,
    ;
}

} // verus!
