use vstd::prelude::*;
use vstd::string::StrSliceExecFns;
use crate::grid::{grid_view, grid_rect};

verus! {

/// Row step of direction `d`. Directions are numbered in the order they are
/// tried: right, down, left, up, down-right, down-left, up-right, up-left.
pub open spec fn dir_dr(d: int) -> int {
    if d == 0 {
        0
    } else if d == 1 {
        1
    } else if d == 2 {
        0
    } else if d == 3 {
        -1
    } else if d == 4 {
        1
    } else if d == 5 {
        1
    } else if d == 6 {
        -1
    } else {
        -1
    }
}

/// Column step of direction `d`, numbered as in `dir_dr`.
pub open spec fn dir_dc(d: int) -> int {
    if d == 0 {
        1
    } else if d == 1 {
        0
    } else if d == 2 {
        -1
    } else if d == 3 {
        0
    } else if d == 4 {
        1
    } else if d == 5 {
        -1
    } else if d == 6 {
        1
    } else {
        -1
    }
}

/// Cell (r, c) lies inside a grid with `g.len()` rows of width `g[0].len()`.
pub open spec fn in_grid(g: Seq<Seq<char>>, r: int, c: int) -> bool {
    0 <= r < g.len() && 0 <= c < g[0].len()
}

/// The word's character `k` sits on the grid when the word is laid from
/// (i, j) along direction `d`: its cell is inside the grid and holds it.
pub open spec fn char_ok(g: Seq<Seq<char>>, w: Seq<char>, i: int, j: int, d: int, k: int) -> bool {
    &&& in_grid(g, i + k * dir_dr(d), j + k * dir_dc(d))
    &&& g[i + k * dir_dr(d)][j + k * dir_dc(d)] == w[k]
}

/// The whole word lies in the grid starting at (i, j), one step of direction
/// `d` between consecutive characters.
pub open spec fn match_at(g: Seq<Seq<char>>, w: Seq<char>, i: int, j: int, d: int) -> bool {
    forall|k: int| 0 <= k < w.len() ==> #[trigger] char_ok(g, w, i, j, d, k)
}

/// Scan order: cells row by row, inside a row column by column, inside a cell
/// direction by direction. (i1, j1, d1) is tried before (i2, j2, d2).
pub open spec fn earlier(i1: int, j1: int, d1: int, i2: int, j2: int, d2: int) -> bool {
    ||| i1 < i2
    ||| (i1 == i2 && j1 < j2)
    ||| (i1 == i2 && j1 == j2 && d1 < d2)
}

/// Some start cell and direction carry the whole word.
pub open spec fn has_match(g: Seq<Seq<char>>, w: Seq<char>) -> bool {
    exists|i: int, j: int, d: int|
        0 <= i < g.len() && 0 <= j < g[0].len() && 0 <= d < 8 && #[trigger] match_at(g, w, i, j, d)
}

/// (i, j, d) is the first combination in scan order where the word matches.
pub open spec fn is_first_match(g: Seq<Seq<char>>, w: Seq<char>, i: int, j: int, d: int) -> bool {
    &&& 0 <= i < g.len()
    &&& 0 <= j < g[0].len()
    &&& 0 <= d < 8
    &&& match_at(g, w, i, j, d)
    &&& forall|i2: int, j2: int, d2: int|
        0 <= i2 < g.len() && 0 <= j2 < g[0].len() && 0 <= d2 < 8 && earlier(i2, j2, d2, i, j, d)
            ==> !#[trigger] match_at(g, w, i2, j2, d2)
}

/// Coordinates of the word's last character for a match at (i, j) along
/// direction `d`; an empty word ends where it starts.
pub open spec fn end_of(w: Seq<char>, i: int, j: int, d: int) -> (int, int) {
    if w.len() == 0 {
        (i, j)
    } else {
        (i + (w.len() - 1) * dir_dr(d), j + (w.len() - 1) * dir_dc(d))
    }
}

/// The searcher's coordinates, widened to mathematical integers.
pub open spec fn as_int_result(r: Option<((usize, usize), (usize, usize))>) -> Option<
    ((int, int), (int, int)),
> {
    match r {
        None => None,
        Some(((si, sj), (ei, ej))) => Some(((si as int, sj as int), (ei as int, ej as int))),
    }
}

/// What a search of the grid `g` for the word `w` promises of its result `r`:
/// a match is reported exactly when one exists, the reported start is the
/// first matching combination in scan order, and the reported end is the cell
/// of the word's last character.
pub open spec fn search_post(g: Seq<Seq<char>>, w: Seq<char>, r: Option<((int, int), (int, int))>) -> bool {
    &&& ((r is Some) <==> has_match(g, w))
    &&& ((r is Some) ==> exists|i: int, j: int, d: int|
        #[trigger] is_first_match(g, w, i, j, d) && r == Some(((i, j), end_of(w, i, j, d))))
}

proof fn lemma_post_some(g: Seq<Seq<char>>, w: Seq<char>, i: int, j: int, d: int, e: (int, int))
    requires
        is_first_match(g, w, i, j, d),
        e == end_of(w, i, j, d),
    ensures
        search_post(g, w, Some(((i, j), e))),
{
    assert(match_at(g, w, i, j, d));
    assert(has_match(g, w));
    assert(exists|i2: int, j2: int, d2: int|
        #[trigger] is_first_match(g, w, i2, j2, d2) && Some(((i, j), e)) == Some(
            ((i2, j2), end_of(w, i2, j2, d2)),
        ));
}

/// The (row, column) step of direction `d` as executable values.
fn dir_step(d: usize) -> (s: (i8, i8))
    requires
        d < 8,
    ensures
        s.0 as int == dir_dr(d as int),
        s.1 as int == dir_dc(d as int),
{
    if d == 0 {
        (0, 1)
    } else if d == 1 {
        (1, 0)
    } else if d == 2 {
        (0, -1)
    } else if d == 3 {
        (-1, 0)
    } else if d == 4 {
        (1, 1)
    } else if d == 5 {
        (1, -1)
    } else if d == 6 {
        (-1, 1)
    } else {
        (-1, -1)
    }
}

/// Walks the word from (i, j) along direction `d`, one cell per character,
/// and reports the cell of the last character when every cell agrees.
fn match_from(grid: &Vec<Vec<char>>, word: &str, n: usize, i: usize, j: usize, d: usize) -> (r:
    Option<(usize, usize)>)
    requires
        grid@.len() > 0,
        grid_rect(grid_view(*grid)),
        i < grid_view(*grid).len(),
        j < grid_view(*grid)[0].len(),
        d < 8,
        n == word@.len(),
    ensures
        (r is Some) <==> match_at(grid_view(*grid), word@, i as int, j as int, d as int),
        r matches Some(e) ==> (e.0 as int, e.1 as int) == end_of(
            word@,
            i as int,
            j as int,
            d as int,
        ),
{
    let ghost g = grid_view(*grid);
    let ghost w = word@;
    let rows = grid.len();
    let cols = grid[0].len();
    if n == 0 {
        return Some((i, j));
    }
    let step = dir_step(d);
    let mut r: usize = i;
    let mut c: usize = j;
    let mut k: usize = 0;
    loop
        invariant
            g == grid_view(*grid),
            w == word@,
            rows == g.len(),
            cols == g[0].len(),
            grid_rect(g),
            n == w.len(),
            0 < n,
            i < rows,
            j < cols,
            d < 8,
            k < n,
            r < rows,
            c < cols,
            step.0 as int == dir_dr(d as int),
            step.1 as int == dir_dc(d as int),
            r as int == i + k * dir_dr(d as int),
            c as int == j + k * dir_dc(d as int),
            forall|k2: int| 0 <= k2 < k ==> #[trigger] char_ok(g, w, i as int, j as int, d as int, k2),
        decreases n - k,
    {
        let ch = word.get_char(k);
        proof {
            assert(g[r as int] == grid@[r as int]@);
            assert(g[r as int].len() == cols);
        }
        let cell = grid[r][c];
        if cell != ch {
            proof {
                assert(!char_ok(g, w, i as int, j as int, d as int, k as int));
            }
            return None;
        }
        proof {
            assert(char_ok(g, w, i as int, j as int, d as int, k as int));
        }
        if k + 1 == n {
            proof {
                assert forall|k2: int| 0 <= k2 < n implies #[trigger] char_ok(
                    g,
                    w,
                    i as int,
                    j as int,
                    d as int,
                    k2,
                ) by {
                    if k2 < k {
                    } else {
                        assert(k2 == k);
                    }
                }
                assert(match_at(g, w, i as int, j as int, d as int));
                assert((n - 1) as int == k as int);
            }
            return Some((r, c));
        }
        let k1 = k + 1;
        proof {
            assert((k as int + 1) * dir_dr(d as int) == k as int * dir_dr(d as int) + dir_dr(
                d as int,
            )) by (nonlinear_arith);
            assert((k as int + 1) * dir_dc(d as int) == k as int * dir_dc(d as int) + dir_dc(
                d as int,
            )) by (nonlinear_arith);
        }
        if step.0 == -1 {
            if r == 0 {
                proof {
                    assert(!in_grid(g, i + k1 * dir_dr(d as int), j + k1 * dir_dc(d as int)));
                    assert(!char_ok(g, w, i as int, j as int, d as int, k1 as int));
                }
                return None;
            }
            r -= 1;
        } else if step.0 == 1 {
            if r + 1 == rows {
                proof {
                    assert(!in_grid(g, i + k1 * dir_dr(d as int), j + k1 * dir_dc(d as int)));
                    assert(!char_ok(g, w, i as int, j as int, d as int, k1 as int));
                }
                return None;
            }
            r += 1;
        }
        if step.1 == -1 {
            if c == 0 {
                proof {
                    assert(!in_grid(g, i + k1 * dir_dr(d as int), j + k1 * dir_dc(d as int)));
                    assert(!char_ok(g, w, i as int, j as int, d as int, k1 as int));
                }
                return None;
            }
            c -= 1;
        } else if step.1 == 1 {
            if c + 1 == cols {
                proof {
                    assert(!in_grid(g, i + k1 * dir_dr(d as int), j + k1 * dir_dc(d as int)));
                    assert(!char_ok(g, w, i as int, j as int, d as int, k1 as int));
                }
                return None;
            }
            c += 1;
        }
        k = k1;
    }
}

/// Scans every cell as a candidate start and every direction in order, and
/// returns the start and end cells of the first match, or `None` when the
/// word occurs nowhere in the grid.
pub fn search_word(grid: &Vec<Vec<char>>, word: &str) -> (r: Option<
    ((usize, usize), (usize, usize)),
>)
    requires
        grid@.len() > 0,
        grid_rect(grid_view(*grid)),
    ensures
        search_post(grid_view(*grid), word@, as_int_result(r)),
{
    let ghost g = grid_view(*grid);
    let ghost w = word@;
    let rows = grid.len();
    let cols = grid[0].len();
    let n = word.unicode_len();
    let mut i: usize = 0;
    while i < rows
        invariant
            g == grid_view(*grid),
            w == word@,
            rows == g.len(),
            cols == g[0].len(),
            grid_rect(g),
            0 < rows,
            n == w.len(),
            i <= rows,
            forall|i2: int, j2: int, d2: int|
                0 <= i2 < i && 0 <= j2 < cols && 0 <= d2 < 8 ==> !#[trigger] match_at(
                    g,
                    w,
                    i2,
                    j2,
                    d2,
                ),
        decreases rows - i,
    {
        let mut j: usize = 0;
        while j < cols
            invariant
                g == grid_view(*grid),
                w == word@,
                rows == g.len(),
                cols == g[0].len(),
                grid_rect(g),
                0 < rows,
                n == w.len(),
                i < rows,
                j <= cols,
                forall|i2: int, j2: int, d2: int|
                    0 <= i2 < i && 0 <= j2 < cols && 0 <= d2 < 8 ==> !#[trigger] match_at(
                        g,
                        w,
                        i2,
                        j2,
                        d2,
                    ),
                forall|j2: int, d2: int|
                    0 <= j2 < j && 0 <= d2 < 8 ==> !#[trigger] match_at(g, w, i as int, j2, d2),
            decreases cols - j,
        {
            let mut d: usize = 0;
            while d < 8
                invariant
                    g == grid_view(*grid),
                    w == word@,
                    rows == g.len(),
                    cols == g[0].len(),
                    grid_rect(g),
                    0 < rows,
                    n == w.len(),
                    i < rows,
                    j < cols,
                    d <= 8,
                    forall|i2: int, j2: int, d2: int|
                        0 <= i2 < i && 0 <= j2 < cols && 0 <= d2 < 8 ==> !#[trigger] match_at(
                            g,
                            w,
                            i2,
                            j2,
                            d2,
                        ),
                    forall|j2: int, d2: int|
                        0 <= j2 < j && 0 <= d2 < 8 ==> !#[trigger] match_at(g, w, i as int, j2, d2),
                    forall|d2: int|
                        0 <= d2 < d ==> !#[trigger] match_at(g, w, i as int, j as int, d2),
                decreases 8 - d,
            {
                if let Some(end) = match_from(grid, word, n, i, j, d) {
                    proof {
                        assert(match_at(g, w, i as int, j as int, d as int));
                        assert(has_match(g, w));
                        assert forall|i2: int, j2: int, d2: int|
                            0 <= i2 < g.len() && 0 <= j2 < g[0].len() && 0 <= d2 < 8 && earlier(
                                i2,
                                j2,
                                d2,
                                i as int,
                                j as int,
                                d as int,
                            ) implies !match_at(g, w, i2, j2, d2) by {
                            assert(i2 < i || (i2 == i && j2 < j) || (i2 == i && j2 == j && d2 < d));
                        }
                        assert(is_first_match(g, w, i as int, j as int, d as int));
                        lemma_post_some(
                            g,
                            w,
                            i as int,
                            j as int,
                            d as int,
                            (end.0 as int, end.1 as int),
                        );
                        assert(as_int_result(Some(((i, j), end))) == Some(
                            ((i as int, j as int), (end.0 as int, end.1 as int)),
                        ));
                    }
                    return Some(((i, j), end));
                }
                d += 1;
            }
            j += 1;
        }
        i += 1;
    }
    proof {
        assert(!has_match(g, w)) by {
            if has_match(g, w) {
                let (i2, j2, d2) = choose|i2: int, j2: int, d2: int|
                    0 <= i2 < g.len() && 0 <= j2 < g[0].len() && 0 <= d2 < 8 && #[trigger] match_at(
                        g,
                        w,
                        i2,
                        j2,
                        d2,
                    );
                assert(!match_at(g, w, i2, j2, d2));
            }
        }
    }
    None
}

/// Searches the grid for every word of the list in order; each word is looked
/// up independently, so one word's outcome never affects another's.
pub fn search_all_words(grid: &Vec<Vec<char>>, words: &Vec<String>) -> (results: Vec<
    Option<((usize, usize), (usize, usize))>,
>)
    requires
        grid@.len() > 0,
        grid_rect(grid_view(*grid)),
    ensures
        results@.len() == words@.len(),
        forall|i: int| 0 <= i < words@.len() ==> search_post(
            grid_view(*grid),
            words@[i]@,
            as_int_result(#[trigger] results@[i]),
        ),
{
    let mut results: Vec<Option<((usize, usize), (usize, usize))>> = Vec::new();
    let mut wi: usize = 0;
    while wi < words.len()
        invariant
            grid@.len() > 0,
            grid_rect(grid_view(*grid)),
            wi <= words@.len(),
            results@.len() == wi,
            forall|i: int| 0 <= i < wi ==> search_post(
                grid_view(*grid),
                words@[i]@,
                as_int_result(#[trigger] results@[i]),
            ),
        decreases words.len() - wi,
    {
        let r = search_word(grid, words[wi].as_str());
        results.push(r);
        wi += 1;
    }
    results
}

/// At most one combination is the first match in scan order.
proof fn lemma_first_match_unique(
    g: Seq<Seq<char>>,
    w: Seq<char>,
    i1: int,
    j1: int,
    d1: int,
    i2: int,
    j2: int,
    d2: int,
)
    requires
        is_first_match(g, w, i1, j1, d1),
        is_first_match(g, w, i2, j2, d2),
    ensures
        i1 == i2 && j1 == j2 && d1 == d2,
{
    if earlier(i1, j1, d1, i2, j2, d2) {
        assert(!match_at(g, w, i1, j1, d1));
    } else if earlier(i2, j2, d2, i1, j1, d1) {
        assert(!match_at(g, w, i2, j2, d2));
    }
}

/// The search is a function of the grid and the word alone: any two results
/// that satisfy the search contract for the same grid and word are equal, so
/// repeated searches yield the same result.
pub proof fn lemma_search_deterministic(
    g: Seq<Seq<char>>,
    w: Seq<char>,
    r1: Option<((int, int), (int, int))>,
    r2: Option<((int, int), (int, int))>,
)
    requires
        search_post(g, w, r1),
        search_post(g, w, r2),
    ensures
        r1 == r2,
{
    if r1 is Some {
        assert(has_match(g, w));
        let (i1, j1, d1) = choose|i: int, j: int, d: int|
            #[trigger] is_first_match(g, w, i, j, d) && r1 == Some(((i, j), end_of(w, i, j, d)));
        let (i2, j2, d2) = choose|i: int, j: int, d: int|
            #[trigger] is_first_match(g, w, i, j, d) && r2 == Some(((i, j), end_of(w, i, j, d)));
        lemma_first_match_unique(g, w, i1, j1, d1, i2, j2, d2);
    }
}

/// A word longer than both the number of rows and the number of columns
/// cannot lie in the grid: every direction leaves the grid before the word's
/// last character.
pub proof fn lemma_long_word_never_found(g: Seq<Seq<char>>, w: Seq<char>)
    requires
        g.len() > 0,
        grid_rect(g),
        w.len() > g.len(),
        w.len() > g[0].len(),
    ensures
        !has_match(g, w),
{
    assert forall|i: int, j: int, d: int|
        0 <= i < g.len() && 0 <= j < g[0].len() && 0 <= d < 8 implies !match_at(
        g,
        w,
        i,
        j,
        d,
    ) by {
        if match_at(g, w, i, j, d) {
            let ll = w.len() - 1;
            assert(char_ok(g, w, i, j, d, ll));
            let dr = dir_dr(d);
            let dc = dir_dc(d);
            if dr == 1 {
                assert(ll * dr == ll) by (nonlinear_arith)
                    requires
                        dr == 1,
                        ll >= 0,
                ;
            } else if dr == -1 {
                assert(ll * dr == -ll) by (nonlinear_arith)
                    requires
                        dr == -1,
                        ll >= 0,
                ;
                assert(in_grid(g, i + ll * dr, j + ll * dc));
                assert(ll <= i);
            } else {
                assert(ll * dr == 0) by (nonlinear_arith)
                    requires
                        dr == 0,
                ;
                if dc == 1 {
                    assert(ll * dc == ll) by (nonlinear_arith)
                        requires
                            dc == 1,
                            ll >= 0,
                    ;
                } else {
                    assert(dc == -1);
                    assert(ll * dc == -ll) by (nonlinear_arith)
                        requires
                            dc == -1,
                            ll >= 0,
                    ;
                    assert(in_grid(g, i + ll * dr, j + ll * dc));
                    assert(ll <= j);
                }
            }
            assert(false);
        }
    }
    if has_match(g, w) {
        let (i2, j2, d2) = choose|i2: int, j2: int, d2: int|
            0 <= i2 < g.len() && 0 <= j2 < g[0].len() && 0 <= d2 < 8 && #[trigger] match_at(
                g,
                w,
                i2,
                j2,
                d2,
            );
        assert(!match_at(g, w, i2, j2, d2));
    }
}

/// A word that outruns both grid dimensions is reported absent by any search
/// that satisfies the search contract; the scan never errs at the border.
pub proof fn lemma_long_word_result(
    g: Seq<Seq<char>>,
    w: Seq<char>,
    r: Option<((int, int), (int, int))>,
)
    requires
        g.len() > 0,
        grid_rect(g),
        w.len() > g.len(),
        w.len() > g[0].len(),
        search_post(g, w, r),
    ensures
        r is None,
{
    lemma_long_word_never_found(g, w);
}

/// A one-character word equal to the top-left cell is found at (0, 0), in the
/// first direction tried, with the match starting and ending there.
pub proof fn lemma_single_char_at_origin(g: Seq<Seq<char>>, w: Seq<char>)
    requires
        g.len() > 0,
        g[0].len() > 0,
        w.len() == 1,
        w[0] == g[0][0],
    ensures
        has_match(g, w),
        is_first_match(g, w, 0, 0, 0),
        end_of(w, 0, 0, 0) == (0int, 0int),
{
    assert(char_ok(g, w, 0, 0, 0, 0));
    assert forall|k: int| 0 <= k < w.len() implies #[trigger] char_ok(g, w, 0, 0, 0, k) by {
        assert(k == 0);
    }
    assert(match_at(g, w, 0, 0, 0));
}

/// Any result that satisfies the search contract for a one-character word
/// equal to the top-left cell reports start and end both at (0, 0).
pub proof fn lemma_single_char_result(
    g: Seq<Seq<char>>,
    w: Seq<char>,
    r: Option<((int, int), (int, int))>,
)
    requires
        g.len() > 0,
        g[0].len() > 0,
        w.len() == 1,
        w[0] == g[0][0],
        search_post(g, w, r),
    ensures
        r == Some(((0int, 0int), (0int, 0int))),
{
    lemma_single_char_at_origin(g, w);
    assert(r is Some);
    let (i1, j1, d1) = choose|i: int, j: int, d: int|
        #[trigger] is_first_match(g, w, i, j, d) && r == Some(((i, j), end_of(w, i, j, d)));
    lemma_first_match_unique(g, w, i1, j1, d1, 0, 0, 0);
}

/// The degenerate empty word trivially matches at (0, 0) of any grid with at
/// least one cell: every search meeting the contract reports exactly that.
pub proof fn lemma_empty_word_result(
    g: Seq<Seq<char>>,
    w: Seq<char>,
    r: Option<((int, int), (int, int))>,
)
    requires
        g.len() > 0,
        g[0].len() > 0,
        w.len() == 0,
        search_post(g, w, r),
    ensures
        r == Some(((0int, 0int), (0int, 0int))),
{
    assert(match_at(g, w, 0, 0, 0));
    assert(is_first_match(g, w, 0, 0, 0));
    assert(has_match(g, w));
    assert(r is Some);
    let (i1, j1, d1) = choose|i: int, j: int, d: int|
        #[trigger] is_first_match(g, w, i, j, d) && r == Some(((i, j), end_of(w, i, j, d)));
    lemma_first_match_unique(g, w, i1, j1, d1, 0, 0, 0);
}

} // verus!

