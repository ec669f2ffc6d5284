use vstd::prelude::*;
use vstd::string::StrSliceExecFns;
use crate::alpha::is_alpha;
use crate::grid::{grid_view, grid_rect, grid_alpha, all_alpha};
use crate::search::{has_match, lemma_long_word_never_found};

verus! {

/// Why a grid cannot be searched: no rows, a first row of no cells, a row of
/// another length than the first, or a cell that is not alphabetic.
#[derive(Clone, Copy, Debug, PartialEq, Eq, Structural)]
pub enum GridError {
    Empty,
    EmptyRow,
    RaggedRow { row: usize, expected: usize, found: usize },
    NonAlphabetic { row: usize, col: usize, ch: char },
}

/// Rows before `upto` all have the length of the first row.
pub open spec fn rows_match_first(g: Seq<Seq<char>>, upto: int) -> bool {
    forall|i: int| 0 <= i < upto ==> #[trigger] g[i].len() == g[0].len()
}

/// Every cell of the grid before row `r`, and in row `r` before column `c`,
/// is alphabetic: (r, c) is the first cell in row-major order that may fail.
pub open spec fn alpha_before(g: Seq<Seq<char>>, r: int, c: int) -> bool {
    &&& (forall|i: int| 0 <= i < r ==> all_alpha(#[trigger] g[i]))
    &&& (forall|k: int| 0 <= k < c ==> is_alpha(#[trigger] g[r][k]))
}

/// A grid fit for searching: at least one row, rows of equal positive length,
/// every cell alphabetic.
pub open spec fn grid_valid(g: Seq<Seq<char>>) -> bool {
    &&& g.len() > 0
    &&& g[0].len() > 0
    &&& grid_rect(g)
    &&& grid_alpha(g)
}

/// Checks the grid before any search: it must have rows, a non-empty first
/// row, one row length throughout, and only alphabetic cells. The checks run
/// in that order, so a ragged grid is reported before a bad character, and
/// the reported row or cell is the first offending one.
pub fn validate_grid(grid: &Vec<Vec<char>>) -> (r: Result<(), GridError>)
    ensures
        r is Ok <==> grid_valid(grid_view(*grid)),
        ({
            let g = grid_view(*grid);
            match r {
                Ok(()) => grid_valid(g),
                Err(GridError::Empty) => g.len() == 0,
                Err(GridError::EmptyRow) => g.len() > 0 && g[0].len() == 0,
                Err(GridError::RaggedRow { row, expected, found }) => {
                    &&& g.len() > 0
                    &&& g[0].len() > 0
                    &&& row < g.len()
                    &&& expected == g[0].len()
                    &&& found == g[row as int].len()
                    &&& found != expected
                    &&& rows_match_first(g, row as int)
                },
                Err(GridError::NonAlphabetic { row, col, ch }) => {
                    &&& g.len() > 0
                    &&& g[0].len() > 0
                    &&& grid_rect(g)
                    &&& row < g.len()
                    &&& col < g[row as int].len()
                    &&& ch == g[row as int][col as int]
                    &&& !is_alpha(ch)
                    &&& alpha_before(g, row as int, col as int)
                },
            }
        }),
{
    let ghost g = grid_view(*grid);
    if grid.len() == 0 {
        return Err(GridError::Empty);
    }
    let expected = grid[0].len();
    if expected == 0 {
        return Err(GridError::EmptyRow);
    }
    let rows = grid.len();
    let mut i: usize = 0;
    while i < rows
        invariant
            g == grid_view(*grid),
            rows == g.len(),
            0 < rows,
            expected == g[0].len(),
            0 < expected,
            i <= rows,
            rows_match_first(g, i as int),
        decreases rows - i,
    {
        let found = grid[i].len();
        if found != expected {
            proof {
                assert(g[i as int].len() == found);
                assert(!grid_rect(g));
            }
            return Err(GridError::RaggedRow { row: i, expected, found });
        }
        i += 1;
    }
    assert(grid_rect(g));
    let mut i: usize = 0;
    while i < rows
        invariant
            g == grid_view(*grid),
            rows == g.len(),
            0 < rows,
            expected == g[0].len(),
            grid_rect(g),
            i <= rows,
            forall|i2: int| 0 <= i2 < i ==> all_alpha(#[trigger] g[i2]),
        decreases rows - i,
    {
        let cols = grid[i].len();
        let mut j: usize = 0;
        while j < cols
            invariant
                g == grid_view(*grid),
                rows == g.len(),
                0 < rows,
                grid_rect(g),
                i < rows,
                cols == g[i as int].len(),
                j <= cols,
                forall|i2: int| 0 <= i2 < i ==> all_alpha(#[trigger] g[i2]),
                forall|k: int| 0 <= k < j ==> is_alpha(#[trigger] g[i as int][k]),
            decreases cols - j,
        {
            let ch = grid[i][j];
            if !ch.is_alphabetic() {
                return Err(GridError::NonAlphabetic { row: i, col: j, ch });
            }
            j += 1;
        }
        proof {
            assert(all_alpha(g[i as int]));
        }
        i += 1;
    }
    proof {
        assert(grid_alpha(g));
    }
    Ok(())
}

/// The indices, in ascending order, of the words before `cut` whose length
/// exceeds `limit`.
pub open spec fn long_indices(ws: Seq<String>, limit: int, cut: int) -> Seq<int>
    decreases cut,
{
    if cut <= 0 {
        Seq::empty()
    } else if ws[cut - 1]@.len() > limit {
        long_indices(ws, limit, cut - 1).push(cut - 1)
    } else {
        long_indices(ws, limit, cut - 1)
    }
}

/// The larger of the grid's row count and column count: no longer word can
/// lie in the grid.
pub open spec fn max_dim(g: Seq<Seq<char>>) -> int {
    if g.len() >= g[0].len() {
        g.len() as int
    } else {
        g[0].len() as int
    }
}

/// How many words were screened: all of them, or only those before the first
/// invalid one, where the check stops.
pub open spec fn screened(ws: Seq<String>, first_invalid: Option<usize>) -> int {
    match first_invalid {
        None => ws.len() as int,
        Some(i) => i as int,
    }
}

/// The outcome of checking a word list: the first word with a non-alphabetic
/// character, if any, and the advisory list of words too long for the grid.
pub struct WordListReport {
    /// Index of the first word with a non-alphabetic character; checking
    /// stops there.
    pub first_invalid: Option<usize>,
    /// Indices of screened words longer than the grid's larger dimension;
    /// such a word can never be found, but this is advisory only.
    pub long_words: Vec<usize>,
}

/// Checks each word of the list in order: a word with a non-alphabetic
/// character stops the check and is reported; a purely alphabetic word is
/// accepted whatever its length, and is merely noted when it is longer than
/// the grid's larger dimension.
pub fn validate_word_list(words: &Vec<String>, grid: &Vec<Vec<char>>) -> (r: WordListReport)
    requires
        grid@.len() > 0,
    ensures
        ({
            let ws = words@;
            match r.first_invalid {
                None => forall|i: int| 0 <= i < ws.len() ==> all_alpha(#[trigger] ws[i]@),
                Some(fi) => {
                    &&& fi < ws.len()
                    &&& !all_alpha(ws[fi as int]@)
                    &&& forall|i: int| 0 <= i < fi ==> all_alpha(#[trigger] ws[i]@)
                },
            }
        }),
        (forall|i: int| 0 <= i < words@.len() ==> all_alpha(#[trigger] words@[i]@))
            ==> r.first_invalid is None,
        r.long_words@.map_values(|x: usize| x as int) == long_indices(
            words@,
            max_dim(grid_view(*grid)),
            screened(words@, r.first_invalid),
        ),
{
    let ghost ws = words@;
    let ghost g = grid_view(*grid);
    let rows = grid.len();
    let cols = grid[0].len();
    let limit = if rows >= cols {
        rows
    } else {
        cols
    };
    proof {
        assert(limit as int == max_dim(g));
    }
    let mut long_words: Vec<usize> = Vec::new();
    let mut wi: usize = 0;
    while wi < words.len()
        invariant
            ws == words@,
            g == grid_view(*grid),
            limit as int == max_dim(g),
            wi <= ws.len(),
            forall|i: int| 0 <= i < wi ==> all_alpha(#[trigger] ws[i]@),
            long_words@.map_values(|x: usize| x as int) == long_indices(
                ws,
                limit as int,
                wi as int,
            ),
        decreases words.len() - wi,
    {
        let word: &String = &words[wi];
        let n = word.as_str().unicode_len();
        let mut k: usize = 0;
        while k < n
            invariant
                ws == words@,
                g == grid_view(*grid),
                limit as int == max_dim(g),
                wi < ws.len(),
                n == word@.len(),
                word@ == ws[wi as int]@,
                k <= n,
                forall|i: int| 0 <= i < wi ==> all_alpha(#[trigger] ws[i]@),
                forall|k2: int| 0 <= k2 < k ==> is_alpha(#[trigger] word@[k2]),
                long_words@.map_values(|x: usize| x as int) == long_indices(
                    ws,
                    limit as int,
                    wi as int,
                ),
            decreases n - k,
        {
            let ch = word.as_str().get_char(k);
            if !ch.is_alphabetic() {
                proof {
                    assert(!is_alpha(word@[k as int]));
                    assert(!all_alpha(ws[wi as int]@));
                }
                return WordListReport { first_invalid: Some(wi), long_words };
            }
            k += 1;
        }
        proof {
            assert(all_alpha(ws[wi as int]@));
        }
        if n > limit {
            long_words.push(wi);
            proof {
                assert(long_words@.map_values(|x: usize| x as int) =~= long_indices(
                    ws,
                    limit as int,
                    wi as int,
                ).push(wi as int));
            }
        }
        wi += 1;
    }
    WordListReport { first_invalid: None, long_words }
}

/// The length advisory is sound: a word longer than the grid's larger
/// dimension can never be found in the grid, in any direction.
pub proof fn lemma_long_word_advisory_sound(g: Seq<Seq<char>>, w: Seq<char>)
    requires
        g.len() > 0,
        grid_rect(g),
        w.len() > max_dim(g),
    ensures
        !has_match(g, w),
{
    lemma_long_word_never_found(g, w);
}

} // verus!
