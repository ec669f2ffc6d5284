use vstd::prelude::*;
use vstd::string::StrSliceExecFns;
use crate::alpha::is_alpha;

verus! {

/// The mathematical view of a grid: the sequence of its rows, each row the
/// sequence of its characters.
pub open spec fn grid_view(g: Vec<Vec<char>>) -> Seq<Seq<char>> {
    g@.map_values(|r: Vec<char>| r@)
}

/// The grid is rectangular: every row has the length of the first row.
pub open spec fn grid_rect(g: Seq<Seq<char>>) -> bool {
    forall|i: int| 0 <= i < g.len() ==> #[trigger] g[i].len() == g[0].len()
}

/// Every character of the sequence is alphabetic.
pub open spec fn all_alpha(s: Seq<char>) -> bool {
    forall|k: int| 0 <= k < s.len() ==> is_alpha(#[trigger] s[k])
}

/// Every character of the grid is alphabetic.
pub open spec fn grid_alpha(g: Seq<Seq<char>>) -> bool {
    forall|i: int| 0 <= i < g.len() ==> all_alpha(#[trigger] g[i])
}

/// Turns text lines into grid rows, one cell per character of the line, with
/// no trimming and no case change.
pub fn grid_from_lines(lines: &Vec<String>) -> (g: Vec<Vec<char>>)
    ensures
        grid_view(g).len() == lines@.len(),
        forall|i: int| 0 <= i < lines@.len() ==> #[trigger] grid_view(g)[i] == lines@[i]@,
{
    let mut g: Vec<Vec<char>> = Vec::new();
    let mut li: usize = 0;
    while li < lines.len()
        invariant
            li <= lines.len(),
            g@.len() == li,
            forall|i: int| 0 <= i < li ==> #[trigger] g@[i]@ == lines@[i]@,
        decreases lines.len() - li,
    {
        let line: &String = &lines[li];
        let n = line.as_str().unicode_len();
        let mut row: Vec<char> = Vec::new();
        let mut ci: usize = 0;
        while ci < n
            invariant
                n == line@.len(),
                ci <= n,
                row@.len() == ci,
                forall|k: int| 0 <= k < ci ==> #[trigger] row@[k] == line@[k],
            decreases n - ci,
        {
            row.push(line.as_str().get_char(ci));
            ci += 1;
        }
        proof {
            assert(row@ =~= line@);
        }
        g.push(row);
        li += 1;
    }
    g
}

} // verus!
