use vstd::prelude::*;
use crate::grid::grid_view;

verus! {

/// A row's cells rendered for display: each character followed by one space.
pub open spec fn rendered_cells(row: Seq<char>) -> Seq<char>
    decreases row.len(),
{
    if row.len() == 0 {
        Seq::empty()
    } else {
        rendered_cells(row.drop_last()) + seq![row.last(), ' ']
    }
}

/// A rendered row: its cells, then a newline.
pub open spec fn rendered_row(row: Seq<char>) -> Seq<char> {
    rendered_cells(row) + seq!['\n']
}

/// The whole grid rendered for display: its rendered rows in order.
pub open spec fn rendered_grid(g: Seq<Seq<char>>) -> Seq<char>
    decreases g.len(),
{
    if g.len() == 0 {
        Seq::empty()
    } else {
        rendered_grid(g.drop_last()) + rendered_row(g.last())
    }
}

/// Renders the grid as display text: rows of space-separated characters, one
/// line per row.
pub fn render_grid(grid: &Vec<Vec<char>>) -> (out: Vec<char>)
    ensures
        out@ == rendered_grid(grid_view(*grid)),
{
    let ghost g = grid_view(*grid);
    let mut out: Vec<char> = Vec::new();
    let mut i: usize = 0;
    while i < grid.len()
        invariant
            g == grid_view(*grid),
            i <= g.len(),
            out@ == rendered_grid(g.take(i as int)),
        decreases grid.len() - i,
    {
        let row = &grid[i];
        let ghost done = out@;
        let mut j: usize = 0;
        while j < row.len()
            invariant
                g == grid_view(*grid),
                i < g.len(),
                row@ == g[i as int],
                j <= row@.len(),
                out@ == done + rendered_cells(row@.take(j as int)),
            decreases row.len() - j,
        {
            out.push(row[j]);
            out.push(' ');
            proof {
                assert(row@.take(j + 1 as int).drop_last() =~= row@.take(j as int));
                assert(row@.take(j + 1 as int).last() == row@[j as int]);
                assert(out@ =~= done + rendered_cells(row@.take(j + 1 as int)));
            }
            j += 1;
        }
        out.push('\n');
        proof {
            assert(row@.take(row@.len() as int) =~= row@);
            assert(g.take(i + 1 as int).drop_last() =~= g.take(i as int));
            assert(g.take(i + 1 as int).last() == g[i as int]);
            assert(out@ =~= rendered_grid(g.take(i + 1 as int)));
        }
        i += 1;
    }
    proof {
        assert(g.take(g.len() as int) =~= g);
    }
    out
}

} // verus!
