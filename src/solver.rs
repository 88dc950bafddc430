//! The solving engine: forced placements first, then randomized search with
//! backtracking.
use vstd::prelude::*;
use rand::seq::SliceRandom;
use crate::square::{CheckablySquare, is_perfect_square, root_of, lemma_root_of};
use crate::board::{
    SudokuBoard, BoardModel, board_wf, dims_ok, values_dims_ok, values_in_range, no_conflict, filled, covered,
    status_spec, is_candidate, place_spec, box_of, lemma_box_bound, lemma_box_region, row_has,
    col_has, box_has, get_box_num, update_board, remove_val, possible_vals,
    is_board_solved, lemma_unplace_undoes_place, empty_board, grid_view, before,
};

verus! {

/// A complete grid of side `n`: every cell holds a value of `1..=n`, no value
/// repeats in a row, column or box, and each of them holds every value.
pub open spec fn is_solution(s: BoardModel, n: int) -> bool {
    &&& s.values.len() == n
    &&& forall|i: int| 0 <= i < n ==> (#[trigger] s.values[i]).len() == n
    &&& filled(s, n)
    &&& values_in_range(s, n)
    &&& no_conflict(s.values, n)
    &&& covered(s, n)
}

/// Grid `s` keeps every value that grid `m` holds.
pub open spec fn extends(s: Seq<Seq<Option<i32>>>, m: Seq<Seq<Option<i32>>>, n: int) -> bool {
    forall|r: int, c: int| 0 <= r < n && 0 <= c < n && (#[trigger] m[r][c]) is Some ==> s[r][c] == m[r][c]
}

/// Some solution keeps every value of the board.
pub open spec fn solvable(m: BoardModel, n: int) -> bool {
    exists|s: BoardModel| is_solution(s, n) && extends(s.values, m.values, n)
}

/// The boards the engine accepts: well formed ones, and full grids whose
/// caches need not be right or even sized (those are only checked).
pub open spec fn solve_input(m: BoardModel, n: int) -> bool {
    ||| board_wf(m, n)
    ||| {
        &&& is_perfect_square(n)
        &&& n <= i32::MAX
        &&& values_dims_ok(m, n)
        &&& values_in_range(m, n)
        &&& filled(m, n)
    }
}

/// Cell `(r, c)` could still take `v`: it holds `v`, or it is empty and `v`
/// is one of its candidates.
pub open spec fn could_hold(m: BoardModel, n: int, v: int, r: int, c: int) -> bool {
    match m.values[r][c] {
        Some(w) => w == v,
        None => is_candidate(m, n, v, r, c),
    }
}

/// No other cell of row `r` could take `v`.
pub open spec fn row_excludes(m: BoardModel, n: int, v: int, r: int, c: int) -> bool {
    forall|c2: int| 0 <= c2 < n && c2 != c ==> !#[trigger] could_hold(m, n, v, r, c2)
}

/// No other cell of column `c` could take `v`.
pub open spec fn col_excludes(m: BoardModel, n: int, v: int, r: int, c: int) -> bool {
    forall|r2: int| 0 <= r2 < n && r2 != r ==> !#[trigger] could_hold(m, n, v, r2, c)
}

/// No other cell of the box of `(r, c)` could take `v`.
pub open spec fn box_excludes(m: BoardModel, n: int, v: int, r: int, c: int) -> bool {
    forall|r2: int, c2: int|
        0 <= r2 < n && 0 <= c2 < n && (r2 != r || c2 != c) && box_of(r2, c2, n) == box_of(r, c, n)
            ==> !#[trigger] could_hold(m, n, v, r2, c2)
}

/// In a solution that keeps a well-formed board, each empty cell of the
/// board gets one of its candidates.
pub proof fn lemma_solution_takes_candidate(m: BoardModel, s: BoardModel, n: int, r: int, c: int)
    requires
        board_wf(m, n),
        is_solution(s, n),
        extends(s.values, m.values, n),
        0 <= r < n,
        0 <= c < n,
        m.values[r][c] is None,
    ensures
        s.values[r][c] is Some,
        1 <= s.values[r][c]->0 <= n,
        is_candidate(m, n, s.values[r][c]->0 as int, r, c),
{
    let x = s.values[r][c]->0;
    let v = x as int;
    lemma_box_bound(r, c, n);
    let b = box_of(r, c, n);
    assert(m.in_row[v - 1][r] == row_has(m, n, r, x));
    assert(m.in_col[v - 1][c] == col_has(m, n, c, x));
    assert(m.in_box[v - 1][b] == box_has(m, n, b, x));
    if row_has(m, n, r, x) {
        let c2 = choose|c2: int| 0 <= c2 < n && #[trigger] m.values[r][c2] == Some(x);
        assert(s.values[r][c2] == Some(x));
    }
    if col_has(m, n, c, x) {
        let r2 = choose|r2: int| 0 <= r2 < n && #[trigger] m.values[r2][c] == Some(x);
        assert(s.values[r2][c] == Some(x));
    }
    if box_has(m, n, b, x) {
        let (r2, c2) = choose|r2: int, c2: int|
            0 <= r2 < n && 0 <= c2 < n && box_of(r2, c2, n) == b && #[trigger] m.values[r2][c2] == Some(x);
        assert(s.values[r2][c2] == Some(x));
    }
}

/// A solution that keeps the board and puts `v` into `(r, c)` keeps the board
/// with `v` placed there.
pub proof fn lemma_extends_place(m: BoardModel, s: BoardModel, n: int, v: int, r: int, c: int)
    requires
        dims_ok(m, n),
        extends(s.values, m.values, n),
        0 <= r < n,
        0 <= c < n,
        1 <= v <= n,
        s.values[r][c] == Some(v as i32),
    ensures
        extends(s.values, place_spec(m, n, v, r, c).values, n),
{
    let p = place_spec(m, n, v, r, c);
    assert forall|r1: int, c1: int| 0 <= r1 < n && 0 <= c1 < n && (#[trigger] p.values[r1][c1]) is Some
        implies s.values[r1][c1] == p.values[r1][c1] by {
        if r1 != r || c1 != c {
            assert(p.values[r1][c1] == m.values[r1][c1]);
        }
    }
}

/// Where no other cell of its row could take `v`, every solution that keeps
/// the board puts `v` into `(r, c)`.
pub proof fn lemma_row_forced(m: BoardModel, s: BoardModel, n: int, v: int, r: int, c: int)
    requires
        board_wf(m, n),
        is_solution(s, n),
        extends(s.values, m.values, n),
        0 <= r < n,
        0 <= c < n,
        1 <= v <= n,
        m.values[r][c] is None,
        row_excludes(m, n, v, r, c),
    ensures
        s.values[r][c] == Some(v as i32),
{
    assert(row_has(s, n, r, v as i32));
    let c2 = choose|c2: int| 0 <= c2 < n && #[trigger] s.values[r][c2] == Some(v as i32);
    if c2 != c {
        assert(!could_hold(m, n, v, r, c2));
        if m.values[r][c2] is None {
            lemma_solution_takes_candidate(m, s, n, r, c2);
        }
    }
}

/// Where no other cell of its column could take `v`, every solution that
/// keeps the board puts `v` into `(r, c)`.
pub proof fn lemma_col_forced(m: BoardModel, s: BoardModel, n: int, v: int, r: int, c: int)
    requires
        board_wf(m, n),
        is_solution(s, n),
        extends(s.values, m.values, n),
        0 <= r < n,
        0 <= c < n,
        1 <= v <= n,
        m.values[r][c] is None,
        col_excludes(m, n, v, r, c),
    ensures
        s.values[r][c] == Some(v as i32),
{
    assert(row_has(s, n, c, v as i32));
    assert(col_has(s, n, c, v as i32));
    let r2 = choose|r2: int| 0 <= r2 < n && #[trigger] s.values[r2][c] == Some(v as i32);
    if r2 != r {
        assert(!could_hold(m, n, v, r2, c));
        if m.values[r2][c] is None {
            lemma_solution_takes_candidate(m, s, n, r2, c);
        }
    }
}

/// Where no other cell of its box could take `v`, every solution that keeps
/// the board puts `v` into `(r, c)`.
pub proof fn lemma_box_forced(m: BoardModel, s: BoardModel, n: int, v: int, r: int, c: int)
    requires
        board_wf(m, n),
        is_solution(s, n),
        extends(s.values, m.values, n),
        0 <= r < n,
        0 <= c < n,
        1 <= v <= n,
        m.values[r][c] is None,
        box_excludes(m, n, v, r, c),
    ensures
        s.values[r][c] == Some(v as i32),
{
    lemma_box_bound(r, c, n);
    assert(row_has(s, n, box_of(r, c, n), v as i32));
    assert(box_has(s, n, box_of(r, c, n), v as i32));
    let (r2, c2) = choose|r2: int, c2: int|
        0 <= r2 < n && 0 <= c2 < n && box_of(r2, c2, n) == box_of(r, c, n) && #[trigger] s.values[r2][c2]
            == Some(v as i32);
    if r2 != r || c2 != c {
        assert(!could_hold(m, n, v, r2, c2));
        if m.values[r2][c2] is None {
            lemma_solution_takes_candidate(m, s, n, r2, c2);
        }
    }
}

/// The number of empty cells in a row.
pub open spec fn row_empty(s: Seq<Option<i32>>) -> nat
    decreases s.len(),
{
    if s.len() == 0 {
        0
    } else {
        row_empty(s.drop_last()) + if s.last() is None {
            1nat
        } else {
            0nat
        }
    }
}

/// The number of empty cells in a grid.
pub open spec fn empty_count(g: Seq<Seq<Option<i32>>>) -> nat
    decreases g.len(),
{
    if g.len() == 0 {
        0
    } else {
        empty_count(g.drop_last()) + row_empty(g.last())
    }
}

proof fn lemma_row_empty_fill(s: Seq<Option<i32>>, c: int, x: i32)
    requires
        0 <= c < s.len(),
        s[c] is None,
    ensures
        row_empty(s.update(c, Some(x))) + 1 == row_empty(s),
    decreases s.len(),
{
    let t = s.update(c, Some(x));
    if c == s.len() - 1 {
        assert(t.drop_last() =~= s.drop_last());
    } else {
        assert(t.drop_last() =~= s.drop_last().update(c, Some(x)));
        lemma_row_empty_fill(s.drop_last(), c, x);
    }
}

proof fn lemma_empty_count_update(g: Seq<Seq<Option<i32>>>, r: int, row: Seq<Option<i32>>)
    requires
        0 <= r < g.len(),
    ensures
        empty_count(g.update(r, row)) + row_empty(g[r]) == empty_count(g) + row_empty(row),
    decreases g.len(),
{
    let t = g.update(r, row);
    if r == g.len() - 1 {
        assert(t.drop_last() =~= g.drop_last());
    } else {
        assert(t.drop_last() =~= g.drop_last().update(r, row));
        lemma_empty_count_update(g.drop_last(), r, row);
    }
}

/// Placing a value into an empty cell leaves one empty cell fewer.
pub proof fn lemma_place_fills_one(m: BoardModel, n: int, v: int, r: int, c: int)
    requires
        dims_ok(m, n),
        0 <= r < n,
        0 <= c < n,
        m.values[r][c] is None,
    ensures
        empty_count(place_spec(m, n, v, r, c).values) + 1 == empty_count(m.values),
{
    lemma_row_empty_fill(m.values[r], c, v as i32);
    lemma_empty_count_update(m.values, r, m.values[r].update(c, Some(v as i32)));
}

/// `vs` lists, without anything else, every candidate of cell `(r, c)`.
pub open spec fn lists_candidates(m: BoardModel, n: int, r: int, c: int, vs: Seq<i32>) -> bool {
    &&& forall|i: int| 0 <= i < vs.len() ==> 1 <= #[trigger] vs[i] <= n && is_candidate(m, n, vs[i] as int, r, c)
    &&& forall|v: int| 1 <= v <= n && is_candidate(m, n, v, r, c) ==> #[trigger] vs.contains(v as i32)
}

/// The candidates of cell `(row, col)`, in ascending order.
fn candidates_of(board: &SudokuBoard, row: usize, col: usize, side_length: i32) -> (vs: Vec<i32>)
    requires
        board_wf(board@, side_length as int),
        row < side_length,
        col < side_length,
    ensures
        lists_candidates(board@, side_length as int, row as int, col as int, vs@),
        vs@.len() <= side_length,
        forall|i: int, j: int| 0 <= i < j < vs@.len() ==> vs@[i] < vs@[j],
{
    let box_num: usize = get_box_num(row, col, side_length);
    possible_vals(board, row, col, box_num, side_length)
}

/// Cell `(r, c)` has two different candidates.
pub open spec fn has_two_candidates(m: BoardModel, n: int, r: int, c: int) -> bool {
    exists|v1: int, v2: int|
        1 <= v1 <= n && 1 <= v2 <= n && v1 != v2 && #[trigger] is_candidate(m, n, v1, r, c)
            && #[trigger] is_candidate(m, n, v2, r, c)
}

/// Finds, in row-major order, the first empty cell with at most one
/// candidate, together with its candidates.
fn find_naked_single(board: &SudokuBoard, side_length: i32) -> (res: Option<(usize, usize, Vec<i32>)>)
    requires
        board_wf(board@, side_length as int),
    ensures
        match res {
            Some((r, c, vs)) => {
                &&& r < side_length
                &&& c < side_length
                &&& board@.values[r as int][c as int] is None
                &&& vs@.len() <= 1
                &&& lists_candidates(board@, side_length as int, r as int, c as int, vs@)
            },
            None => forall|r: int, c: int|
                0 <= r < side_length && 0 <= c < side_length && #[trigger] board@.values[r][c] is None
                    ==> has_two_candidates(board@, side_length as int, r, c),
        },
{
    let n: usize = side_length as usize;
    let mut r: usize = 0;
    while r < n
        invariant
            n == side_length,
            r <= n,
            board_wf(board@, side_length as int),
            forall|r2: int, c2: int|
                0 <= r2 < r && 0 <= c2 < n && #[trigger] board@.values[r2][c2] is None
                    ==> has_two_candidates(board@, side_length as int, r2, c2),
        decreases n - r,
    {
        let mut c: usize = 0;
        while c < n
            invariant
                n == side_length,
                r < n,
                c <= n,
                board_wf(board@, side_length as int),
                forall|r2: int, c2: int|
                    before(r2, c2, r as int, c as int) && 0 <= r2 < n && 0 <= c2 < n && #[trigger] board@.values[r2][c2] is None
                        ==> has_two_candidates(board@, side_length as int, r2, c2),
            decreases n - c,
        {
            assert(board.values@[r as int]@ == board@.values[r as int]);
            if board.values[r][c].is_none() {
                let vs = candidates_of(board, r, c, side_length);
                if vs.len() <= 1 {
                    return Some((r, c, vs));
                }
                assert(vs@[0] < vs@[1]);
                assert(is_candidate(board@, side_length as int, vs@[0] as int, r as int, c as int));
                assert(is_candidate(board@, side_length as int, vs@[1] as int, r as int, c as int));
                assert(has_two_candidates(board@, side_length as int, r as int, c as int));
            }
            c = c + 1;
        }
        r = r + 1;
    }
    None
}

/// Whether some cell of row `r` other than `(r, c)` could still take `v`.
fn rest_of_row_could_have(board: &SudokuBoard, r: usize, c: usize, v: i32, side_length: i32) -> (res: bool)
    requires
        board_wf(board@, side_length as int),
        r < side_length,
        c < side_length,
        1 <= v <= side_length,
        is_candidate(board@, side_length as int, v as int, r as int, c as int),
    ensures
        res == !row_excludes(board@, side_length as int, v as int, r as int, c as int),
{
    let ghost m = board@;
    let ghost ni = side_length as int;
    let n: usize = side_length as usize;
    let vi: usize = (v - 1) as usize;
    assert(board.values@[r as int]@ == m.values[r as int]);
    assert(board.val_in_col@[vi as int]@ == m.in_col[vi as int]);
    assert(board.val_in_box@[vi as int]@ == m.in_box[vi as int]);
    let mut i: usize = 0;
    while i < n
        invariant
            n == ni,
            ni == side_length,
            m == board@,
            board_wf(m, ni),
            r < n,
            c < n,
            1 <= v <= n,
            vi == v - 1,
            is_candidate(m, ni, v as int, r as int, c as int),
            board.values@[r as int]@ == m.values[r as int],
            board.val_in_col@[vi as int]@ == m.in_col[vi as int],
            board.val_in_box@[vi as int]@ == m.in_box[vi as int],
            forall|c2: int| 0 <= c2 < i && c2 != c ==> !#[trigger] could_hold(m, ni, v as int, r as int, c2),
        decreases n - i,
    {
        if i != c {
            match board.values[r][i] {
                None => {
                    let b: usize = get_box_num(r, i, side_length);
                    if !board.val_in_col[vi][i] && !board.val_in_box[vi][b] {
                        assert(could_hold(m, ni, v as int, r as int, i as int));
                        return true;
                    }
                },
                Some(w) => {
                    if w == v {
                        assert(could_hold(m, ni, v as int, r as int, i as int));
                        return true;
                    }
                },
            }
        }
        i = i + 1;
    }
    false
}

/// Whether some cell of column `c` other than `(r, c)` could still take `v`.
fn rest_of_col_could_have(board: &SudokuBoard, r: usize, c: usize, v: i32, side_length: i32) -> (res: bool)
    requires
        board_wf(board@, side_length as int),
        r < side_length,
        c < side_length,
        1 <= v <= side_length,
        is_candidate(board@, side_length as int, v as int, r as int, c as int),
    ensures
        res == !col_excludes(board@, side_length as int, v as int, r as int, c as int),
{
    let ghost m = board@;
    let ghost ni = side_length as int;
    let n: usize = side_length as usize;
    let vi: usize = (v - 1) as usize;
    assert(board.val_in_row@[vi as int]@ == m.in_row[vi as int]);
    assert(board.val_in_box@[vi as int]@ == m.in_box[vi as int]);
    let mut i: usize = 0;
    while i < n
        invariant
            n == ni,
            ni == side_length,
            m == board@,
            board_wf(m, ni),
            r < n,
            c < n,
            1 <= v <= n,
            vi == v - 1,
            is_candidate(m, ni, v as int, r as int, c as int),
            board.val_in_row@[vi as int]@ == m.in_row[vi as int],
            board.val_in_box@[vi as int]@ == m.in_box[vi as int],
            forall|r2: int| 0 <= r2 < i && r2 != r ==> !#[trigger] could_hold(m, ni, v as int, r2, c as int),
        decreases n - i,
    {
        if i != r {
            assert(board.values@[i as int]@ == m.values[i as int]);
            match board.values[i][c] {
                None => {
                    let b: usize = get_box_num(i, c, side_length);
                    if !board.val_in_row[vi][i] && !board.val_in_box[vi][b] {
                        assert(could_hold(m, ni, v as int, i as int, c as int));
                        return true;
                    }
                },
                Some(w) => {
                    if w == v {
                        assert(could_hold(m, ni, v as int, i as int, c as int));
                        return true;
                    }
                },
            }
        }
        i = i + 1;
    }
    false
}

/// Whether some cell of the box of `(r, c)` other than `(r, c)` could still
/// take `v`.
fn rest_of_box_could_have(board: &SudokuBoard, r: usize, c: usize, v: i32, side_length: i32) -> (res: bool)
    requires
        board_wf(board@, side_length as int),
        r < side_length,
        c < side_length,
        1 <= v <= side_length,
        is_candidate(board@, side_length as int, v as int, r as int, c as int),
    ensures
        res == !box_excludes(board@, side_length as int, v as int, r as int, c as int),
{
    let ghost m = board@;
    let ghost ni = side_length as int;
    proof {
        lemma_box_region(r as int, c as int, ni);
        lemma_root_of(ni);
    }
    let k: usize = side_length.root() as usize;
    let top: usize = k * (r / k);
    let left: usize = k * (c / k);
    let vi: usize = (v - 1) as usize;
    assert(board.val_in_row@[vi as int]@ == m.in_row[vi as int]);
    assert(board.val_in_col@[vi as int]@ == m.in_col[vi as int]);
    let mut row: usize = top;
    while row < top + k
        invariant
            ni == side_length,
            m == board@,
            board_wf(m, ni),
            r < ni,
            c < ni,
            1 <= v <= ni,
            vi == v - 1,
            k == root_of(ni),
            top == k * (r / k),
            left == k * (c / k),
            top + k <= ni,
            left + k <= ni,
            top <= row <= top + k,
            is_candidate(m, ni, v as int, r as int, c as int),
            board.val_in_row@[vi as int]@ == m.in_row[vi as int],
            board.val_in_col@[vi as int]@ == m.in_col[vi as int],
            forall|r2: int, c2: int|
                top <= r2 < row && left <= c2 < left + k && (r2 != r || c2 != c)
                    ==> !#[trigger] could_hold(m, ni, v as int, r2, c2),
        decreases top + k - row,
    {
        let mut col: usize = left;
        assert(board.values@[row as int]@ == m.values[row as int]);
        while col < left + k
            invariant
                ni == side_length,
                m == board@,
                board_wf(m, ni),
                r < ni,
                c < ni,
                1 <= v <= ni,
                vi == v - 1,
                k == root_of(ni),
                top == k * (r / k),
                left == k * (c / k),
                top + k <= ni,
                left + k <= ni,
                top <= row < top + k,
                left <= col <= left + k,
                is_candidate(m, ni, v as int, r as int, c as int),
                board.values@[row as int]@ == m.values[row as int],
                board.val_in_row@[vi as int]@ == m.in_row[vi as int],
                board.val_in_col@[vi as int]@ == m.in_col[vi as int],
                forall|r2: int, c2: int|
                    top <= r2 < row && left <= c2 < left + k && (r2 != r || c2 != c)
                        ==> !#[trigger] could_hold(m, ni, v as int, r2, c2),
                forall|c2: int|
                    left <= c2 < col && (row != r || c2 != c)
                        ==> !#[trigger] could_hold(m, ni, v as int, row as int, c2),
            decreases left + k - col,
        {
            if row != r || col != c {
                proof {
                    lemma_box_region(r as int, c as int, ni);
                }
                assert(box_of(row as int, col as int, ni) == box_of(r as int, c as int, ni));
                match board.values[row][col] {
                    None => {
                        if !board.val_in_row[vi][row] && !board.val_in_col[vi][col] {
                            assert(could_hold(m, ni, v as int, row as int, col as int));
                            return true;
                        }
                    },
                    Some(w) => {
                        if w == v {
                            assert(could_hold(m, ni, v as int, row as int, col as int));
                            return true;
                        }
                    },
                }
            }
            col = col + 1;
        }
        row = row + 1;
    }
    assert forall|r2: int, c2: int|
        0 <= r2 < ni && 0 <= c2 < ni && (r2 != r || c2 != c) && box_of(r2, c2, ni) == box_of(
            r as int,
            c as int,
            ni,
        ) implies !#[trigger] could_hold(m, ni, v as int, r2, c2) by {
        assert(top <= r2 < top + k && left <= c2 < left + k);
    }
    false
}

/// Finds an empty cell and a candidate `v` of it such that no other cell of
/// its row, or of its column, or of its box could take `v`.
fn find_hidden_single(board: &SudokuBoard, side_length: i32) -> (res: Option<(usize, usize, i32)>)
    requires
        board_wf(board@, side_length as int),
    ensures
        match res {
            Some((r, c, v)) => {
                &&& r < side_length
                &&& c < side_length
                &&& 1 <= v <= side_length
                &&& board@.values[r as int][c as int] is None
                &&& is_candidate(board@, side_length as int, v as int, r as int, c as int)
                &&& row_excludes(board@, side_length as int, v as int, r as int, c as int)
                    || col_excludes(board@, side_length as int, v as int, r as int, c as int)
                    || box_excludes(board@, side_length as int, v as int, r as int, c as int)
            },
            None => true,
        },
{
    let n: usize = side_length as usize;
    let mut r: usize = 0;
    while r < n
        invariant
            n == side_length,
            board_wf(board@, side_length as int),
        decreases n - r,
    {
        let mut c: usize = 0;
        while c < n
            invariant
                n == side_length,
                r < n,
                board_wf(board@, side_length as int),
            decreases n - c,
        {
            assert(board.values@[r as int]@ == board@.values[r as int]);
            if board.values[r][c].is_none() {
                let vs = candidates_of(board, r, c, side_length);
                let mut i: usize = 0;
                while i < vs.len()
                    invariant
                        n == side_length,
                        r < n,
                        c < n,
                        board_wf(board@, side_length as int),
                        board@.values[r as int][c as int] is None,
                        lists_candidates(board@, side_length as int, r as int, c as int, vs@),
                    decreases vs.len() - i,
                {
                    let v = vs[i];
                    if !rest_of_row_could_have(board, r, c, v, side_length) || !rest_of_col_could_have(
                        board,
                        r,
                        c,
                        v,
                        side_length,
                    ) || !rest_of_box_could_have(board, r, c, v, side_length) {
                        return Some((r, c, v));
                    }
                    i = i + 1;
                }
            }
            c = c + 1;
        }
        r = r + 1;
    }
    None
}

/// Picks the empty cell to branch on: the first one with exactly two
/// candidates, or else the first one with the fewest; returns it with its
/// candidates.
fn choose_branch_cell(board: &SudokuBoard, side_length: i32) -> (res: (usize, usize, Vec<i32>))
    requires
        board_wf(board@, side_length as int),
        !filled(board@, side_length as int),
    ensures
        res.0 < side_length,
        res.1 < side_length,
        board@.values[res.0 as int][res.1 as int] is None,
        lists_candidates(board@, side_length as int, res.0 as int, res.1 as int, res.2@),
{
    let ghost m = board@;
    let ghost ni = side_length as int;
    let n: usize = side_length as usize;
    let mut min_len: usize = n + 1;
    let mut best: Option<(usize, usize, Vec<i32>)> = None;
    let mut r: usize = 0;
    while r < n
        invariant
            n == ni,
            ni == side_length,
            m == board@,
            board_wf(m, ni),
            r <= n,
            min_len <= n + 1,
            forall|r2: int, c2: int| 0 <= r2 < r && 0 <= c2 < n ==> (#[trigger] m.values[r2][c2]) is Some
                || best is Some,
            match best {
                Some((br, bc, bvs)) => {
                    &&& br < n
                    &&& bc < n
                    &&& m.values[br as int][bc as int] is None
                    &&& lists_candidates(m, ni, br as int, bc as int, bvs@)
                    &&& bvs@.len() == min_len
                },
                None => min_len == n + 1,
            },
        decreases n - r,
    {
        let mut c: usize = 0;
        while c < n
            invariant
                n == ni,
                ni == side_length,
                m == board@,
                board_wf(m, ni),
                r < n,
                c <= n,
                min_len <= n + 1,
                forall|r2: int, c2: int| 0 <= r2 < r && 0 <= c2 < n ==> (#[trigger] m.values[r2][c2]) is Some
                    || best is Some,
                forall|c2: int| 0 <= c2 < c ==> (#[trigger] m.values[r as int][c2]) is Some || best is Some,
                match best {
                    Some((br, bc, bvs)) => {
                        &&& br < n
                        &&& bc < n
                        &&& m.values[br as int][bc as int] is None
                        &&& lists_candidates(m, ni, br as int, bc as int, bvs@)
                        &&& bvs@.len() == min_len
                    },
                    None => min_len == n + 1,
                },
            decreases n - c,
        {
            assert(board.values@[r as int]@ == m.values[r as int]);
            if board.values[r][c].is_none() {
                let vs = candidates_of(board, r, c, side_length);
                if vs.len() == 2 {
                    return (r, c, vs);
                } else if vs.len() < min_len {
                    min_len = vs.len();
                    best = Some((r, c, vs));
                }
            }
            c = c + 1;
        }
        r = r + 1;
    }
    match best {
        Some(found) => found,
        None => {
            assert(false);
            (0, 0, Vec::new())
        },
    }
}

/// A reordering of a list of candidates lists the same candidates.
proof fn lemma_permuted_candidates(m: BoardModel, n: int, r: int, c: int, a: Seq<i32>, b: Seq<i32>)
    requires
        lists_candidates(m, n, r, c, a),
        a.to_multiset() == b.to_multiset(),
    ensures
        lists_candidates(m, n, r, c, b),
        a.len() == b.len(),
{
    a.to_multiset_ensures();
    b.to_multiset_ensures();
    assert forall|i: int| 0 <= i < b.len() implies 1 <= #[trigger] b[i] <= n && is_candidate(
        m,
        n,
        b[i] as int,
        r,
        c,
    ) by {
        assert(b.contains(b[i]));
        assert(b.to_multiset().count(b[i]) > 0);
        assert(a.to_multiset().count(b[i]) > 0);
        assert(a.contains(b[i]));
        let j = choose|j: int| 0 <= j < a.len() && a[j] == b[i];
        assert(1 <= a[j] <= n);
    }
    assert forall|v: int| 1 <= v <= n && is_candidate(m, n, v, r, c) implies #[trigger] b.contains(v as i32) by {
        assert(a.contains(v as i32));
        assert(a.to_multiset().count(v as i32) > 0);
        assert(b.to_multiset().count(v as i32) > 0);
    }
}

/// A grid extends any grid that it keeps all values of, through any chain.
proof fn lemma_extends_trans(a: Seq<Seq<Option<i32>>>, b: Seq<Seq<Option<i32>>>, c: Seq<Seq<Option<i32>>>, n: int)
    requires
        extends(a, b, n),
        extends(b, c, n),
    ensures
        extends(a, c, n),
{
    assert forall|r: int, k: int| 0 <= r < n && 0 <= k < n && (#[trigger] c[r][k]) is Some implies a[r][k]
        == c[r][k] by {
        assert(b[r][k] == c[r][k]);
    }
}

/// Placing a value keeps every value already on the board.
proof fn lemma_place_extends(m: BoardModel, n: int, v: int, r: int, c: int)
    requires
        dims_ok(m, n),
        0 <= r < n,
        0 <= c < n,
        m.values[r][c] is None,
    ensures
        extends(place_spec(m, n, v, r, c).values, m.values, n),
{
    let p = place_spec(m, n, v, r, c);
    assert forall|r1: int, c1: int| 0 <= r1 < n && 0 <= c1 < n && (#[trigger] m.values[r1][c1]) is Some
        implies p.values[r1][c1] == m.values[r1][c1] by {
        if r1 == r {
            assert(c1 != c);
        }
    }
}

/// A well-formed board whose status is 1 is a solution of itself.
proof fn lemma_solved_is_solution(m: BoardModel, n: int)
    requires
        board_wf(m, n),
        status_spec(m, n) == 1,
    ensures
        is_solution(m, n),
        solvable(m, n),
{
    assert(extends(m.values, m.values, n));
    assert(is_solution(m, n) && extends(m.values, m.values, n));
}

/// A full board that misses some value in a row, column or box has no
/// solution that keeps it.
proof fn lemma_full_unsolved(m: BoardModel, n: int)
    requires
        board_wf(m, n),
        status_spec(m, n) == -1,
    ensures
        !solvable(m, n),
{
    if solvable(m, n) {
        let s = choose|s: BoardModel| is_solution(s, n) && extends(s.values, m.values, n);
        assert forall|r: int, c: int| 0 <= r < n && 0 <= c < n implies #[trigger] s.values[r][c]
            == m.values[r][c] by {
            assert(m.values[r][c] is Some);
        }
        assert(covered(s, n));
        assert forall|i: int, x: int| 0 <= i < n && 1 <= x <= n implies {
            &&& #[trigger] row_has(m, n, i, x as i32)
            &&& col_has(m, n, i, x as i32)
            &&& box_has(m, n, i, x as i32)
        } by {
            assert(row_has(s, n, i, x as i32));
            let c = choose|c: int| 0 <= c < n && #[trigger] s.values[i][c] == Some(x as i32);
            assert(m.values[i][c] == Some(x as i32));
            assert(col_has(s, n, i, x as i32));
            let r = choose|r: int| 0 <= r < n && #[trigger] s.values[r][i] == Some(x as i32);
            assert(m.values[r][i] == Some(x as i32));
            assert(box_has(s, n, i, x as i32));
            let (r2, c2) = choose|r2: int, c2: int|
                0 <= r2 < n && 0 <= c2 < n && box_of(r2, c2, n) == i && #[trigger] s.values[r2][c2]
                    == Some(x as i32);
            assert(m.values[r2][c2] == Some(x as i32));
        }
        assert(covered(m, n));
    }
}

/// Exactly one grid is a solution that keeps the board's values.
pub open spec fn has_unique_solution(m: BoardModel, n: int) -> bool {
    &&& solvable(m, n)
    &&& forall|s1: BoardModel, s2: BoardModel|
        is_solution(s1, n) && extends(s1.values, m.values, n) && is_solution(s2, n) && extends(
            s2.values,
            m.values,
            n,
        ) ==> #[trigger] s1.values == #[trigger] s2.values
}

/// On a puzzle with a unique solution, any two boards that the solver can
/// leave after succeeding (well formed, solved, keeping the clues) hold the
/// same grid: the random order of guesses does not show in the result.
pub proof fn lemma_unique_solution_same_result(m: BoardModel, n: int, a: BoardModel, b: BoardModel)
    requires
        board_wf(m, n),
        has_unique_solution(m, n),
        board_wf(a, n),
        status_spec(a, n) == 1,
        extends(a.values, m.values, n),
        board_wf(b, n),
        status_spec(b, n) == 1,
        extends(b.values, m.values, n),
    ensures
        a.values == b.values,
{
    lemma_solved_is_solution(a, n);
    lemma_solved_is_solution(b, n);
}

/// A board that the solver leaves after succeeding passes the independent
/// check: every cell is filled and every row, column and box holds every
/// value, so `is_board_solved` reports 1 on it.
pub proof fn lemma_solved_board_checks(m: BoardModel, n: int, f: BoardModel)
    requires
        board_wf(m, n),
        board_wf(f, n),
        status_spec(f, n) == 1,
        extends(f.values, m.values, n),
    ensures
        is_solution(f, n),
        filled(f, n),
        covered(f, n),
        solvable(m, n),
{
    lemma_solved_is_solution(f, n);
}

/// Relies on rand's `SliceRandom::shuffle`, driven by `rand::thread_rng`:
/// the slice ends up as a permutation of itself.
#[verifier::external_body]
fn shuffle_vals(vs: &mut Vec<i32>)
    ensures
        final(vs)@.to_multiset() == old(vs)@.to_multiset(),
{
    vs.shuffle(&mut rand::thread_rng());
}

/// Every empty cell has at most one candidate.
pub open spec fn only_naked_singles(m: BoardModel, n: int) -> bool {
    forall|r: int, c: int, v1: int, v2: int|
        0 <= r < n && 0 <= c < n && m.values[r][c] is None && 1 <= v1 <= n && 1 <= v2 <= n
            && #[trigger] is_candidate(m, n, v1, r, c) && #[trigger] is_candidate(m, n, v2, r, c) ==> v1 == v2
}

/// Placing a value only removes candidates and empty cells, so a board whose
/// empty cells each have at most one candidate stays so.
proof fn lemma_place_keeps_naked_singles(m: BoardModel, n: int, v: int, r: int, c: int)
    requires
        board_wf(m, n),
        1 <= v <= n,
        0 <= r < n,
        0 <= c < n,
        only_naked_singles(m, n),
    ensures
        only_naked_singles(place_spec(m, n, v, r, c), n),
{
    let p = place_spec(m, n, v, r, c);
    lemma_box_bound(r, c, n);
    assert forall|r1: int, c1: int, v1: int|
        0 <= r1 < n && 0 <= c1 < n && 1 <= v1 <= n && #[trigger] is_candidate(p, n, v1, r1, c1) implies is_candidate(
        m,
        n,
        v1,
        r1,
        c1,
    ) by {
        lemma_box_bound(r1, c1, n);
    }
    assert forall|r1: int, c1: int| 0 <= r1 < n && 0 <= c1 < n && (#[trigger] p.values[r1][c1]) is None implies m.values[r1][c1] is None by {
        if r1 == r && c1 == c {
        } else {
            assert(p.values[r1][c1] == m.values[r1][c1]);
        }
    }
}

/// Solves the board in place: the board-level entry point.
///
/// See `solve_board_with_guesses` for the steps; this form drops the count of
/// guesses.
pub fn solve_board(board: &mut SudokuBoard, side_length: i32) -> (r: bool)
    requires
        solve_input(old(board)@, side_length as int),
    ensures
        status_spec(old(board)@, side_length as int) == 1 ==> r,
        r ==> status_spec(final(board)@, side_length as int) == 1,
        r ==> extends(final(board)@.values, old(board)@.values, side_length as int),
        board_wf(old(board)@, side_length as int) ==> board_wf(final(board)@, side_length as int),
        !r ==> final(board)@ == old(board)@,
        board_wf(old(board)@, side_length as int) ==> (r == solvable(old(board)@, side_length as int)),
{
    solve_board_with_guesses(board, side_length).0
}

/// Solves the board in place.
///
/// Checks first whether the board is already solved (success) or full but
/// wrong (failure). Otherwise it places the only candidate of the first empty
/// cell that has at most one (failing where that cell has none), or else a
/// value that no other cell of a row, column or box could take, and solves
/// the rest. When nothing is forced it branches on the empty cell with the
/// fewest candidates, trying them in random order. Every placement that leads
/// nowhere is taken back.
///
/// On success the board holds a full, correct grid that keeps every value it
/// had; on failure the board is exactly as it was. For a well-formed board it
/// succeeds exactly when some solution keeps its values.
///
/// Also returns the number of guesses made, that is of values tried while
/// branching, over the whole search (saturating at `u64::MAX`). It is 0 on a
/// well-formed board whose empty cells each have at most one candidate.
pub fn solve_board_with_guesses(board: &mut SudokuBoard, side_length: i32) -> (res: (bool, u64))
    requires
        solve_input(old(board)@, side_length as int),
    ensures
        status_spec(old(board)@, side_length as int) == 1 ==> res.0,
        res.0 ==> status_spec(final(board)@, side_length as int) == 1,
        res.0 ==> extends(final(board)@.values, old(board)@.values, side_length as int),
        board_wf(old(board)@, side_length as int) ==> board_wf(final(board)@, side_length as int),
        !res.0 ==> final(board)@ == old(board)@,
        board_wf(old(board)@, side_length as int) ==> (res.0 == solvable(old(board)@, side_length as int)),
        board_wf(old(board)@, side_length as int) && only_naked_singles(old(board)@, side_length as int)
            ==> res.1 == 0,
    decreases empty_count(old(board)@.values), 1nat,
{
    let ghost m = board@;
    let ghost ni = side_length as int;
    let status = is_board_solved(board, side_length);
    if status == 1 {
        proof {
            assert(extends(m.values, m.values, ni));
            if board_wf(m, ni) {
                lemma_solved_is_solution(m, ni);
            }
        }
        return (true, 0);
    } else if status == -1 {
        proof {
            if board_wf(m, ni) {
                lemma_full_unsolved(m, ni);
            }
        }
        return (false, 0);
    }
    assert(board_wf(m, ni));
    match find_naked_single(board, side_length) {
        Some((r, c, vs)) => {
            if vs.len() == 0 {
                proof {
                    if solvable(m, ni) {
                        let s = choose|s: BoardModel| is_solution(s, ni) && extends(s.values, m.values, ni);
                        lemma_solution_takes_candidate(m, s, ni, r as int, c as int);
                        assert(vs@.contains(s.values[r as int][c as int]->0));
                    }
                }
                return (false, 0);
            }
            let v = vs[0];
            proof {
                assert forall|s: BoardModel|
                    is_solution(s, ni) && extends(s.values, m.values, ni)
                        implies #[trigger] s.values[r as int][c as int] == Some(v) by {
                    lemma_solution_takes_candidate(m, s, ni, r as int, c as int);
                    assert(vs@.contains(s.values[r as int][c as int]->0));
                }
            }
            return place_then_solve(board, v, r, c, side_length);
        },
        None => {
            proof {
                if only_naked_singles(m, ni) {
                    let (r, c) = choose|r: int, c: int| 0 <= r < ni && 0 <= c < ni && !(#[trigger] m.values[r][c] is Some);
                    assert(has_two_candidates(m, ni, r, c));
                    let (v1, v2) = choose|v1: int, v2: int|
                        1 <= v1 <= ni && 1 <= v2 <= ni && v1 != v2 && #[trigger] is_candidate(m, ni, v1, r, c)
                            && #[trigger] is_candidate(m, ni, v2, r, c);
                    assert(false);
                }
            }
        },
    }
    match find_hidden_single(board, side_length) {
        Some((r, c, v)) => {
            proof {
                assert forall|s: BoardModel|
                    is_solution(s, ni) && extends(s.values, m.values, ni)
                        implies #[trigger] s.values[r as int][c as int] == Some(v) by {
                    if row_excludes(m, ni, v as int, r as int, c as int) {
                        lemma_row_forced(m, s, ni, v as int, r as int, c as int);
                    } else if col_excludes(m, ni, v as int, r as int, c as int) {
                        lemma_col_forced(m, s, ni, v as int, r as int, c as int);
                    } else {
                        lemma_box_forced(m, s, ni, v as int, r as int, c as int);
                    }
                }
            }
            return place_then_solve(board, v, r, c, side_length);
        },
        None => {},
    }
    let (r, c, vs0) = choose_branch_cell(board, side_length);
    let mut vs = vs0;
    shuffle_vals(&mut vs);
    proof {
        lemma_permuted_candidates(m, ni, r as int, c as int, vs0@, vs@);
    }
    let mut guesses: u64 = 0;
    let mut i: usize = 0;
    while i < vs.len()
        invariant
            ni == side_length,
            old(board)@ == m,
            board@ == m,
            board_wf(m, ni),
            !only_naked_singles(m, ni),
            r < ni,
            c < ni,
            m.values[r as int][c as int] is None,
            lists_candidates(m, ni, r as int, c as int, vs@),
            forall|j: int| 0 <= j < i ==> !solvable(place_spec(m, ni, #[trigger] vs@[j] as int, r as int, c as int), ni),
        decreases vs.len() - i,
    {
        let v = vs[i];
        guesses = guesses.saturating_add(1);
        if !update_board(board, v, r, c, side_length) {
            return (false, guesses);
        }
        proof {
            lemma_place_fills_one(m, ni, v as int, r as int, c as int);
            lemma_place_extends(m, ni, v as int, r as int, c as int);
        }
        let ghost p = board@;
        let (solved, more) = solve_board_with_guesses(board, side_length);
        guesses = guesses.saturating_add(more);
        if solved {
            proof {
                lemma_extends_trans(board@.values, p.values, m.values, ni);
                if !solvable(m, ni) {
                    let s = board@;
                    lemma_solved_is_solution(s, ni);
                    lemma_extends_trans(s.values, p.values, m.values, ni);
                }
            }
            return (true, guesses);
        }
        remove_val(board, v, r, c, side_length);
        proof {
            lemma_unplace_undoes_place(m, ni, v as int, r as int, c as int);
        }
        i = i + 1;
    }
    proof {
        if solvable(m, ni) {
            let s = choose|s: BoardModel| is_solution(s, ni) && extends(s.values, m.values, ni);
            lemma_solution_takes_candidate(m, s, ni, r as int, c as int);
            let x = s.values[r as int][c as int]->0;
            assert(vs@.contains(x));
            let j = choose|j: int| 0 <= j < vs@.len() && vs@[j] == x;
            lemma_extends_place(m, s, ni, x as int, r as int, c as int);
            assert(!solvable(place_spec(m, ni, vs@[j] as int, r as int, c as int), ni));
        }
    }
    (false, guesses)
}

/// Places a forced value `v` into the empty cell `(r, c)` and solves the rest,
/// taking the value back out where that fails.
fn place_then_solve(board: &mut SudokuBoard, v: i32, r: usize, c: usize, side_length: i32) -> (res: (bool, u64))
    requires
        board_wf(old(board)@, side_length as int),
        r < side_length,
        c < side_length,
        1 <= v <= side_length,
        old(board)@.values[r as int][c as int] is None,
        is_candidate(old(board)@, side_length as int, v as int, r as int, c as int),
        forall|s: BoardModel|
            is_solution(s, side_length as int) && extends(s.values, old(board)@.values, side_length as int)
                ==> #[trigger] s.values[r as int][c as int] == Some(v),
    ensures
        res.0 ==> status_spec(final(board)@, side_length as int) == 1,
        res.0 ==> extends(final(board)@.values, old(board)@.values, side_length as int),
        res.0 ==> board_wf(final(board)@, side_length as int),
        !res.0 ==> final(board)@ == old(board)@,
        res.0 == solvable(old(board)@, side_length as int),
        only_naked_singles(old(board)@, side_length as int) ==> res.1 == 0,
    decreases empty_count(old(board)@.values), 0nat,
{
    let ghost m = board@;
    let ghost ni = side_length as int;
    if !update_board(board, v, r, c, side_length) {
        return (false, 0);
    }
    proof {
        lemma_place_fills_one(m, ni, v as int, r as int, c as int);
        lemma_place_extends(m, ni, v as int, r as int, c as int);
        if only_naked_singles(m, ni) {
            lemma_place_keeps_naked_singles(m, ni, v as int, r as int, c as int);
        }
    }
    let ghost p = board@;
    let (solved, guesses) = solve_board_with_guesses(board, side_length);
    if solved {
        proof {
            lemma_extends_trans(board@.values, p.values, m.values, ni);
            let s = board@;
            lemma_solved_is_solution(s, ni);
        }
        return (true, guesses);
    }
    remove_val(board, v, r, c, side_length);
    proof {
        lemma_unplace_undoes_place(m, ni, v as int, r as int, c as int);
        if solvable(m, ni) {
            let s = choose|s: BoardModel| is_solution(s, ni) && extends(s.values, m.values, ni);
            assert(s.values[r as int][c as int] == Some(v));
            lemma_extends_place(m, s, ni, v as int, r as int, c as int);
        }
    }
    (false, guesses)
}

/// Two clues that share a row, column or box hold the same value; reported
/// at the later of them in row-major order.
pub struct ContradictionError {
    pub row: usize,
    pub col: usize,
    pub value: i32,
}

/// A grid of clues: `n` rows of `n` cells, each empty or holding a value of
/// `1..=n`.
pub open spec fn clues_ok(g: Seq<Seq<Option<i32>>>, n: int) -> bool {
    &&& g.len() == n
    &&& forall|i: int| 0 <= i < n ==> (#[trigger] g[i]).len() == n
    &&& forall|r: int, c: int| 0 <= r < n && 0 <= c < n && (#[trigger] g[r][c]) is Some ==> 1 <= g[r][c]->0 <= n
}

/// Cells `(r1, c1)` and `(r2, c2)` share a row, a column or a box.
pub open spec fn same_unit(r1: int, c1: int, r2: int, c2: int, n: int) -> bool {
    r1 == r2 || c1 == c2 || box_of(r1, c1, n) == box_of(r2, c2, n)
}

/// The clue at `(r, c)` repeats a clue that comes before it in row-major
/// order, in its row, column or box.
pub open spec fn clashes_earlier(g: Seq<Seq<Option<i32>>>, n: int, r: int, c: int) -> bool {
    &&& g[r][c] is Some
    &&& exists|r2: int, c2: int|
        0 <= r2 < n && 0 <= c2 < n && before(r2, c2, r, c) && same_unit(r2, c2, r, c, n)
            && #[trigger] g[r2][c2] == g[r][c]
}

/// On a well-formed board that holds exactly the clues before `(r, c)`, a
/// clue at `(r, c)` that cannot be placed repeats one of them, and none of
/// them repeats an earlier one.
proof fn lemma_blocked_clue(m: BoardModel, g: Seq<Seq<Option<i32>>>, n: int, v: int, r: int, c: int)
    requires
        board_wf(m, n),
        clues_ok(g, n),
        0 <= r < n,
        0 <= c < n,
        1 <= v <= n,
        g[r][c] == Some(v as i32),
        forall|r2: int, c2: int| 0 <= r2 < n && 0 <= c2 < n ==> #[trigger] m.values[r2][c2]
            == if before(r2, c2, r, c) { g[r2][c2] } else { None },
        !is_candidate(m, n, v, r, c),
    ensures
        !no_conflict(g, n),
        clashes_earlier(g, n, r, c),
        forall|r1: int, c1: int|
            0 <= r1 < n && 0 <= c1 < n && before(r1, c1, r, c) ==> !#[trigger] clashes_earlier(g, n, r1, c1),
{
    let x = v as i32;
    lemma_box_bound(r, c, n);
    let b = box_of(r, c, n);
    assert(m.in_row[v - 1][r] == row_has(m, n, r, x));
    assert(m.in_col[v - 1][c] == col_has(m, n, c, x));
    assert(m.in_box[v - 1][b] == box_has(m, n, b, x));
    if row_has(m, n, r, x) {
        let c2 = choose|c2: int| 0 <= c2 < n && #[trigger] m.values[r][c2] == Some(x);
        assert(g[r][c2] == Some(x));
    } else if col_has(m, n, c, x) {
        let r2 = choose|r2: int| 0 <= r2 < n && #[trigger] m.values[r2][c] == Some(x);
        assert(g[r2][c] == Some(x));
    } else {
        let (r2, c2) = choose|r2: int, c2: int|
            0 <= r2 < n && 0 <= c2 < n && box_of(r2, c2, n) == b && #[trigger] m.values[r2][c2] == Some(x);
        assert(g[r2][c2] == Some(x));
    }
    assert forall|r1: int, c1: int|
        0 <= r1 < n && 0 <= c1 < n && before(r1, c1, r, c) implies !#[trigger] clashes_earlier(
        g,
        n,
        r1,
        c1,
    ) by {
        if clashes_earlier(g, n, r1, c1) {
            let (r2, c2) = choose|r2: int, c2: int|
                0 <= r2 < n && 0 <= c2 < n && before(r2, c2, r1, c1) && same_unit(r2, c2, r1, c1, n)
                    && #[trigger] g[r2][c2] == g[r1][c1];
            assert(m.values[r2][c2] == g[r2][c2]);
            assert(m.values[r1][c1] == g[r1][c1]);
        }
    }
}

/// Builds a board from a grid of clues, placing them in row-major order.
/// Fails exactly when two clues that share a row, column or box hold the
/// same value, and then reports the first clue, in row-major order, that
/// repeats an earlier one.
pub fn build_board(clues: &Vec<Vec<Option<i32>>>, side_length: i32) -> (res: Result<SudokuBoard, ContradictionError>)
    requires
        is_perfect_square(side_length as int),
        clues_ok(grid_view(clues@), side_length as int),
    ensures
        res is Ok <==> no_conflict(grid_view(clues@), side_length as int),
        match res {
            Ok(b) => board_wf(b@, side_length as int) && b@.values == grid_view(clues@),
            Err(e) => {
                &&& e.row < side_length
                &&& e.col < side_length
                &&& grid_view(clues@)[e.row as int][e.col as int] == Some(e.value)
                &&& clashes_earlier(grid_view(clues@), side_length as int, e.row as int, e.col as int)
                &&& forall|r: int, c: int|
                    0 <= r < side_length && 0 <= c < side_length && before(r, c, e.row as int, e.col as int)
                        ==> !#[trigger] clashes_earlier(grid_view(clues@), side_length as int, r, c)
            },
        },
{
    let ghost g = grid_view(clues@);
    let ghost ni = side_length as int;
    let n: usize = side_length as usize;
    let mut board = empty_board(side_length);
    let mut r: usize = 0;
    while r < n
        invariant
            n == ni,
            ni == side_length,
            g == grid_view(clues@),
            clues_ok(g, ni),
            r <= n,
            board_wf(board@, ni),
            forall|r2: int, c2: int| 0 <= r2 < n && 0 <= c2 < n ==> #[trigger] board@.values[r2][c2]
                == if r2 < r { g[r2][c2] } else { None },
        decreases n - r,
    {
        let mut c: usize = 0;
        while c < n
            invariant
                n == ni,
                ni == side_length,
                g == grid_view(clues@),
                clues_ok(g, ni),
                r < n,
                c <= n,
                board_wf(board@, ni),
                forall|r2: int, c2: int| 0 <= r2 < n && 0 <= c2 < n ==> #[trigger] board@.values[r2][c2]
                    == if r2 < r || (r2 == r && c2 < c) { g[r2][c2] } else { None },
            decreases n - c,
        {
            assert(clues@[r as int]@ == g[r as int]);
            match clues[r][c] {
                Some(v) => {
                    let ghost m = board@;
                    if !update_board(&mut board, v, r, c, side_length) {
                        proof {
                            lemma_blocked_clue(m, g, ni, v as int, r as int, c as int);
                        }
                        return Err(ContradictionError { row: r, col: c, value: v });
                    }
                },
                None => {},
            }
            c = c + 1;
        }
        r = r + 1;
    }
    assert(board@.values =~~= g);
    Ok(board)
}

} // verus!
