//! The board: cell values plus three caches that record which values are
//! already used in each row, column and box.
use vstd::prelude::*;
use vstd::arithmetic::div_mod::{lemma_fundamental_div_mod, lemma_fundamental_div_mod_converse};
use crate::square::{CheckablySquare, is_perfect_square, root_of, lemma_root_of, sq};

verus! {

/// A square Sudoku grid of side `n`.
///
/// `values[r][c]` is the value in row `r`, column `c`, if any.
/// `val_in_row[v][r]` (resp. `val_in_col[v][c]`, `val_in_box[v][b]`) records
/// that value `v + 1` is used in row `r` (resp. column `c`, box `b`).
pub struct SudokuBoard {
    pub values: Vec<Vec<Option<i32>>>,
    pub val_in_row: Vec<Vec<bool>>,
    pub val_in_col: Vec<Vec<bool>>,
    pub val_in_box: Vec<Vec<bool>>,
}

/// The mathematical content of a board.
pub struct BoardModel {
    pub values: Seq<Seq<Option<i32>>>,
    pub in_row: Seq<Seq<bool>>,
    pub in_col: Seq<Seq<bool>>,
    pub in_box: Seq<Seq<bool>>,
}

/// A grid of vectors seen as a sequence of sequences.
pub open spec fn grid_view<T>(g: Seq<Vec<T>>) -> Seq<Seq<T>> {
    g.map_values(|row: Vec<T>| row@)
}

impl View for SudokuBoard {
    type V = BoardModel;

    open spec fn view(&self) -> BoardModel {
        BoardModel {
            values: grid_view(self.values@),
            in_row: grid_view(self.val_in_row@),
            in_col: grid_view(self.val_in_col@),
            in_box: grid_view(self.val_in_box@),
        }
    }
}

/// The box that holds cell `(r, c)` on a board of side `n`, counted row by row.
pub open spec fn box_of(r: int, c: int, n: int) -> int {
    root_of(n) * (r / root_of(n)) + c / root_of(n)
}

/// Every cell index lies in a box of the board.
pub proof fn lemma_box_bound(r: int, c: int, n: int)
    requires
        is_perfect_square(n),
        0 <= r < n,
        0 <= c < n,
    ensures
        0 <= box_of(r, c, n) < n,
        root_of(n) * (r / root_of(n)) <= r,
{
    lemma_root_of(n);
    let k = root_of(n);
    assert(k * k == n) by {
        assert(sq(k) == n);
    }
    assert(0 <= r / k < k && 0 <= c / k < k && k * (r / k) <= r) by (nonlinear_arith)
        requires
            1 <= k,
            k * k == n,
            0 <= r < n,
            0 <= c < n,
    ;
    assert(0 <= k * (r / k) + c / k < k * k) by (nonlinear_arith)
        requires
            1 <= k,
            0 <= r / k < k,
            0 <= c / k < k,
    ;
}

/// The box of `(r, c)` spans rows `k * (r / k) .. k * (r / k) + k` and
/// columns `k * (c / k) .. k * (c / k) + k`, where `k` is the root of `n`;
/// the cells of those spans are exactly the cells of that box.
pub proof fn lemma_box_region(r: int, c: int, n: int)
    requires
        is_perfect_square(n),
        0 <= r < n,
        0 <= c < n,
    ensures
        root_of(n) * (r / root_of(n)) + root_of(n) <= n,
        root_of(n) * (c / root_of(n)) + root_of(n) <= n,
        forall|r2: int, c2: int|
            0 <= r2 < n && 0 <= c2 < n ==> (#[trigger] box_of(r2, c2, n) == box_of(r, c, n) <==> (
            root_of(n) * (r / root_of(n)) <= r2 < root_of(n) * (r / root_of(n)) + root_of(n)
                && root_of(n) * (c / root_of(n)) <= c2 < root_of(n) * (c / root_of(n)) + root_of(n))),
{
    lemma_root_of(n);
    let k = root_of(n);
    assert(k * k == n) by {
        assert(sq(k) == n);
    }
    lemma_box_bound(r, c, n);
    let qr = r / k;
    let qc = c / k;
    assert(qr < k && qc < k) by (nonlinear_arith)
        requires
            1 <= k,
            k * k == n,
            0 <= r < n,
            0 <= c < n,
            qr == r / k,
            qc == c / k,
    ;
    assert(k * qr + k <= n && k * qc + k <= n) by (nonlinear_arith)
        requires
            1 <= k,
            k * k == n,
            0 <= qr < k,
            0 <= qc < k,
    ;
    assert forall|r2: int, c2: int| 0 <= r2 < n && 0 <= c2 < n implies (#[trigger] box_of(r2, c2, n)
        == box_of(r, c, n) <==> (k * qr <= r2 < k * qr + k && k * qc <= c2 < k * qc + k)) by {
        lemma_box_bound(r2, c2, n);
        let qr2 = r2 / k;
        let qc2 = c2 / k;
        assert(qr2 < k && qc2 < k && qc2 >= 0 && qr2 >= 0) by (nonlinear_arith)
            requires
                1 <= k,
                k * k == n,
                0 <= r2 < n,
                0 <= c2 < n,
                qr2 == r2 / k,
                qc2 == c2 / k,
        ;
        lemma_fundamental_div_mod(r2, k);
        lemma_fundamental_div_mod(c2, k);
        assert(0 <= r2 % k < k && 0 <= c2 % k < k);
        if box_of(r2, c2, n) == box_of(r, c, n) {
            assert(k * qr2 + qc2 == k * qr + qc);
            lemma_fundamental_div_mod_converse(k * qr + qc, k, qr, qc);
            lemma_fundamental_div_mod_converse(k * qr2 + qc2, k, qr2, qc2);
            assert(qr * k == k * qr && qr2 * k == k * qr2) by (nonlinear_arith);
        }
        if k * qr <= r2 < k * qr + k && k * qc <= c2 < k * qc + k {
            lemma_fundamental_div_mod_converse(r2, k, qr, r2 - k * qr);
            lemma_fundamental_div_mod_converse(c2, k, qc, c2 - k * qc);
            assert(qr * k == k * qr && qc * k == k * qc) by (nonlinear_arith);
        }
        if qr2 == qr && qc2 == qc {
            assert(k * qr <= r2 < k * qr + k);
            assert(k * qc <= c2 < k * qc + k);
        }
    }
}

/// The cell values form `n` rows of `n` cells each.
pub open spec fn values_dims_ok(m: BoardModel, n: int) -> bool {
    &&& m.values.len() == n
    &&& forall|i: int| 0 <= i < n ==> (#[trigger] m.values[i]).len() == n
}

/// The grids have `n` rows of `n` entries each.
pub open spec fn dims_ok(m: BoardModel, n: int) -> bool {
    &&& m.values.len() == n
    &&& m.in_row.len() == n
    &&& m.in_col.len() == n
    &&& m.in_box.len() == n
    &&& forall|i: int| 0 <= i < n ==> (#[trigger] m.values[i]).len() == n
    &&& forall|i: int| 0 <= i < n ==> (#[trigger] m.in_row[i]).len() == n
    &&& forall|i: int| 0 <= i < n ==> (#[trigger] m.in_col[i]).len() == n
    &&& forall|i: int| 0 <= i < n ==> (#[trigger] m.in_box[i]).len() == n
}

/// Every assigned value lies in `1..=n`.
pub open spec fn values_in_range(m: BoardModel, n: int) -> bool {
    forall|r: int, c: int|
        0 <= r < n && 0 <= c < n && (#[trigger] m.values[r][c]) is Some ==> 1 <= m.values[r][c]->0
            <= n
}

/// Some cell of row `r` holds `x`.
pub open spec fn row_has(m: BoardModel, n: int, r: int, x: i32) -> bool {
    exists|c: int| 0 <= c < n && #[trigger] m.values[r][c] == Some(x)
}

/// Some cell of column `c` holds `x`.
pub open spec fn col_has(m: BoardModel, n: int, c: int, x: i32) -> bool {
    exists|r: int| 0 <= r < n && #[trigger] m.values[r][c] == Some(x)
}

/// Some cell of box `b` holds `x`.
pub open spec fn box_has(m: BoardModel, n: int, b: int, x: i32) -> bool {
    exists|r: int, c: int|
        0 <= r < n && 0 <= c < n && box_of(r, c, n) == b && #[trigger] m.values[r][c] == Some(x)
}

/// The three caches say exactly which values each row, column and box holds.
pub open spec fn caches_exact(m: BoardModel, n: int) -> bool {
    &&& forall|v: int, r: int|
        0 <= v < n && 0 <= r < n ==> #[trigger] m.in_row[v][r] == row_has(m, n, r, (v + 1) as i32)
    &&& forall|v: int, c: int|
        0 <= v < n && 0 <= c < n ==> #[trigger] m.in_col[v][c] == col_has(m, n, c, (v + 1) as i32)
    &&& forall|v: int, b: int|
        0 <= v < n && 0 <= b < n ==> #[trigger] m.in_box[v][b] == box_has(m, n, b, (v + 1) as i32)
}

/// No value appears twice in a row, a column or a box.
pub open spec fn no_conflict(g: Seq<Seq<Option<i32>>>, n: int) -> bool {
    &&& forall|r: int, c1: int, c2: int|
        0 <= r < n && 0 <= c1 < n && 0 <= c2 < n && c1 != c2 && g[r][c1] is Some
            ==> #[trigger] g[r][c1] != #[trigger] g[r][c2]
    &&& forall|r1: int, r2: int, c: int|
        0 <= r1 < n && 0 <= r2 < n && 0 <= c < n && r1 != r2 && g[r1][c] is Some
            ==> #[trigger] g[r1][c] != #[trigger] g[r2][c]
    &&& forall|r1: int, c1: int, r2: int, c2: int|
        0 <= r1 < n && 0 <= c1 < n && 0 <= r2 < n && 0 <= c2 < n && (r1 != r2 || c1 != c2)
            && box_of(r1, c1, n) == box_of(r2, c2, n) && g[r1][c1] is Some
            ==> #[trigger] g[r1][c1] != #[trigger] g[r2][c2]
}

/// A well-formed board: square side, matching dimensions, values in range,
/// exact caches and no conflicting pair of cells.
pub open spec fn board_wf(m: BoardModel, n: int) -> bool {
    &&& is_perfect_square(n)
    &&& n <= i32::MAX
    &&& dims_ok(m, n)
    &&& values_in_range(m, n)
    &&& caches_exact(m, n)
    &&& no_conflict(m.values, n)
}

/// Value `v` may go into cell `(r, c)`: no cache marks it as used there.
pub open spec fn is_candidate(m: BoardModel, n: int, v: int, r: int, c: int) -> bool {
    free_in(m, v, r, c, box_of(r, c, n))
}

/// No cache marks value `v` as used in row `r`, column `c` or box `b`.
pub open spec fn free_in(m: BoardModel, v: int, r: int, c: int, b: int) -> bool {
    &&& !m.in_row[v - 1][r]
    &&& !m.in_col[v - 1][c]
    &&& !m.in_box[v - 1][b]
}

/// Every cell holds a value.
pub open spec fn filled(m: BoardModel, n: int) -> bool {
    forall|r: int, c: int| 0 <= r < n && 0 <= c < n ==> (#[trigger] m.values[r][c]) is Some
}

/// Every row, column and box holds every value of `1..=n`.
pub open spec fn covered(m: BoardModel, n: int) -> bool {
    forall|i: int, x: int|
        0 <= i < n && 1 <= x <= n ==> {
            &&& #[trigger] row_has(m, n, i, x as i32)
            &&& col_has(m, n, i, x as i32)
            &&& box_has(m, n, i, x as i32)
        }
}

/// The state of a board: 0 while some cell is empty; then 1 where every row,
/// column and box holds every value, and -1 where one does not.
pub open spec fn status_spec(m: BoardModel, n: int) -> int {
    if !filled(m, n) {
        0
    } else if covered(m, n) {
        1
    } else {
        -1
    }
}

/// The board after value `v` went into cell `(r, c)`.
pub open spec fn place_spec(m: BoardModel, n: int, v: int, r: int, c: int) -> BoardModel {
    BoardModel {
        values: m.values.update(r, m.values[r].update(c, Some(v as i32))),
        in_row: m.in_row.update(v - 1, m.in_row[v - 1].update(r, true)),
        in_col: m.in_col.update(v - 1, m.in_col[v - 1].update(c, true)),
        in_box: m.in_box.update(v - 1, m.in_box[v - 1].update(box_of(r, c, n), true)),
    }
}

/// The board after value `v` was taken out of cell `(r, c)`.
pub open spec fn unplace_spec(m: BoardModel, n: int, v: int, r: int, c: int) -> BoardModel {
    BoardModel {
        values: m.values.update(r, m.values[r].update(c, None)),
        in_row: m.in_row.update(v - 1, m.in_row[v - 1].update(r, false)),
        in_col: m.in_col.update(v - 1, m.in_col[v - 1].update(c, false)),
        in_box: m.in_box.update(v - 1, m.in_box[v - 1].update(box_of(r, c, n), false)),
    }
}

/// Returns the number of the box that holds cell `(row, col)`.
pub fn get_box_num(row: usize, col: usize, side_length: i32) -> (r: usize)
    requires
        is_perfect_square(side_length as int),
        row < side_length,
        col < side_length,
    ensures
        r as int == box_of(row as int, col as int, side_length as int),
        r < side_length,
{
    proof {
        lemma_root_of(side_length as int);
        lemma_box_bound(row as int, col as int, side_length as int);
    }
    let bold_length = side_length.root();
    ((bold_length * (row as i32 / bold_length)) + (col as i32 / bold_length)) as usize
}

/// Placing a candidate into an empty cell keeps a board well formed.
pub proof fn lemma_place_wf(m: BoardModel, n: int, v: int, r: int, c: int)
    requires
        board_wf(m, n),
        1 <= v <= n,
        0 <= r < n,
        0 <= c < n,
        m.values[r][c] is None,
        is_candidate(m, n, v, r, c),
    ensures
        board_wf(place_spec(m, n, v, r, c), n),
{
    let m2 = place_spec(m, n, v, r, c);
    let b = box_of(r, c, n);
    lemma_box_bound(r, c, n);
    let x = v as i32;
    assert(m.in_row[v - 1][r] == row_has(m, n, r, x));
    assert(m.in_col[v - 1][c] == col_has(m, n, c, x));
    assert(m.in_box[v - 1][b] == box_has(m, n, b, x));
    assert forall|r1: int, c1: int| 0 <= r1 < n && 0 <= c1 < n implies #[trigger] m2.values[r1][c1]
        == (if r1 == r && c1 == c {
        Some(x)
    } else {
        m.values[r1][c1]
    }) by {}
    assert(dims_ok(m2, n));
    assert(values_in_range(m2, n));
    assert forall|v1: int, r1: int| 0 <= v1 < n && 0 <= r1 < n implies #[trigger] m2.in_row[v1][r1]
        == row_has(m2, n, r1, (v1 + 1) as i32) by {
        let y = (v1 + 1) as i32;
        if v1 == v - 1 && r1 == r {
            assert(m2.values[r][c] == Some(x));
        } else {
            if row_has(m, n, r1, y) {
                let c2 = choose|c2: int| 0 <= c2 < n && #[trigger] m.values[r1][c2] == Some(y);
                assert(m2.values[r1][c2] == Some(y));
            }
            if row_has(m2, n, r1, y) {
                let c2 = choose|c2: int| 0 <= c2 < n && #[trigger] m2.values[r1][c2] == Some(y);
                assert(m.values[r1][c2] == Some(y));
            }
        }
    }
    assert forall|v1: int, c1: int| 0 <= v1 < n && 0 <= c1 < n implies #[trigger] m2.in_col[v1][c1]
        == col_has(m2, n, c1, (v1 + 1) as i32) by {
        let y = (v1 + 1) as i32;
        if v1 == v - 1 && c1 == c {
            assert(m2.values[r][c] == Some(x));
        } else {
            if col_has(m, n, c1, y) {
                let r2 = choose|r2: int| 0 <= r2 < n && #[trigger] m.values[r2][c1] == Some(y);
                assert(m2.values[r2][c1] == Some(y));
            }
            if col_has(m2, n, c1, y) {
                let r2 = choose|r2: int| 0 <= r2 < n && #[trigger] m2.values[r2][c1] == Some(y);
                assert(m.values[r2][c1] == Some(y));
            }
        }
    }
    assert forall|v1: int, b1: int| 0 <= v1 < n && 0 <= b1 < n implies #[trigger] m2.in_box[v1][b1]
        == box_has(m2, n, b1, (v1 + 1) as i32) by {
        let y = (v1 + 1) as i32;
        if v1 == v - 1 && b1 == b {
            assert(m2.values[r][c] == Some(x));
        } else {
            if box_has(m, n, b1, y) {
                let (r2, c2) = choose|r2: int, c2: int|
                    0 <= r2 < n && 0 <= c2 < n && box_of(r2, c2, n) == b1 && #[trigger] m.values[r2][c2]
                        == Some(y);
                assert(m2.values[r2][c2] == Some(y));
            }
            if box_has(m2, n, b1, y) {
                let (r2, c2) = choose|r2: int, c2: int|
                    0 <= r2 < n && 0 <= c2 < n && box_of(r2, c2, n) == b1 && #[trigger] m2.values[r2][c2]
                        == Some(y);
                assert(m.values[r2][c2] == Some(y));
            }
        }
    }
    assert(caches_exact(m2, n));
    assert forall|r1: int, c1: int, c2: int|
        0 <= r1 < n && 0 <= c1 < n && 0 <= c2 < n && c1 != c2 && m2.values[r1][c1] is Some implies
        #[trigger] m2.values[r1][c1] != #[trigger] m2.values[r1][c2] by {
        if r1 == r && c1 == c && m2.values[r1][c2] == Some(x) {
            assert(m.values[r][c2] == Some(x));
        }
        if r1 == r && c2 == c && m2.values[r1][c1] == Some(x) {
            assert(m.values[r][c1] == Some(x));
        }
    }
    assert forall|r1: int, r2: int, c1: int|
        0 <= r1 < n && 0 <= r2 < n && 0 <= c1 < n && r1 != r2 && m2.values[r1][c1] is Some implies
        #[trigger] m2.values[r1][c1] != #[trigger] m2.values[r2][c1] by {
        if r1 == r && c1 == c && m2.values[r2][c1] == Some(x) {
            assert(m.values[r2][c] == Some(x));
        }
        if r2 == r && c1 == c && m2.values[r1][c1] == Some(x) {
            assert(m.values[r1][c] == Some(x));
        }
    }
    assert forall|r1: int, c1: int, r2: int, c2: int|
        0 <= r1 < n && 0 <= c1 < n && 0 <= r2 < n && 0 <= c2 < n && (r1 != r2 || c1 != c2)
            && box_of(r1, c1, n) == box_of(r2, c2, n) && m2.values[r1][c1] is Some implies
        #[trigger] m2.values[r1][c1] != #[trigger] m2.values[r2][c2] by {
        if r1 == r && c1 == c && m2.values[r2][c2] == Some(x) {
            assert(m.values[r2][c2] == Some(x));
        }
        if r2 == r && c2 == c && m2.values[r1][c1] == Some(x) {
            assert(m.values[r1][c1] == Some(x));
        }
    }
    assert(no_conflict(m2.values, n));
}

/// Taking its value out of an assigned cell keeps a board well formed.
pub proof fn lemma_unplace_wf(m: BoardModel, n: int, v: int, r: int, c: int)
    requires
        board_wf(m, n),
        0 <= r < n,
        0 <= c < n,
        m.values[r][c] == Some(v as i32),
        1 <= v <= n,
    ensures
        board_wf(unplace_spec(m, n, v, r, c), n),
{
    let m2 = unplace_spec(m, n, v, r, c);
    let b = box_of(r, c, n);
    lemma_box_bound(r, c, n);
    let x = v as i32;
    assert forall|r1: int, c1: int| 0 <= r1 < n && 0 <= c1 < n implies #[trigger] m2.values[r1][c1]
        == (if r1 == r && c1 == c {
        None
    } else {
        m.values[r1][c1]
    }) by {}
    assert(dims_ok(m2, n));
    assert(values_in_range(m2, n));
    assert forall|v1: int, r1: int| 0 <= v1 < n && 0 <= r1 < n implies #[trigger] m2.in_row[v1][r1]
        == row_has(m2, n, r1, (v1 + 1) as i32) by {
        let y = (v1 + 1) as i32;
        if row_has(m2, n, r1, y) {
            let c2 = choose|c2: int| 0 <= c2 < n && #[trigger] m2.values[r1][c2] == Some(y);
            assert(m.values[r1][c2] == Some(y));
            if r1 == r && y == x {
                assert(m.values[r][c] == Some(x));
            }
        }
        if !(v1 == v - 1 && r1 == r) && row_has(m, n, r1, y) {
            let c2 = choose|c2: int| 0 <= c2 < n && #[trigger] m.values[r1][c2] == Some(y);
            assert(m2.values[r1][c2] == Some(y));
        }
    }
    assert forall|v1: int, c1: int| 0 <= v1 < n && 0 <= c1 < n implies #[trigger] m2.in_col[v1][c1]
        == col_has(m2, n, c1, (v1 + 1) as i32) by {
        let y = (v1 + 1) as i32;
        if col_has(m2, n, c1, y) {
            let r2 = choose|r2: int| 0 <= r2 < n && #[trigger] m2.values[r2][c1] == Some(y);
            assert(m.values[r2][c1] == Some(y));
            if c1 == c && y == x {
                assert(m.values[r][c] == Some(x));
            }
        }
        if !(v1 == v - 1 && c1 == c) && col_has(m, n, c1, y) {
            let r2 = choose|r2: int| 0 <= r2 < n && #[trigger] m.values[r2][c1] == Some(y);
            assert(m2.values[r2][c1] == Some(y));
        }
    }
    assert forall|v1: int, b1: int| 0 <= v1 < n && 0 <= b1 < n implies #[trigger] m2.in_box[v1][b1]
        == box_has(m2, n, b1, (v1 + 1) as i32) by {
        let y = (v1 + 1) as i32;
        if box_has(m2, n, b1, y) {
            let (r2, c2) = choose|r2: int, c2: int|
                0 <= r2 < n && 0 <= c2 < n && box_of(r2, c2, n) == b1 && #[trigger] m2.values[r2][c2]
                    == Some(y);
            assert(m.values[r2][c2] == Some(y));
            if b1 == b && y == x {
                assert(m.values[r][c] == Some(x));
            }
        }
        if !(v1 == v - 1 && b1 == b) && box_has(m, n, b1, y) {
            let (r2, c2) = choose|r2: int, c2: int|
                0 <= r2 < n && 0 <= c2 < n && box_of(r2, c2, n) == b1 && #[trigger] m.values[r2][c2]
                    == Some(y);
            assert(m2.values[r2][c2] == Some(y));
        }
    }
    assert(caches_exact(m2, n));
    assert(no_conflict(m2.values, n));
}

/// Taking a value out right after placing it restores the board exactly,
/// and with it every cell's set of candidates.
pub proof fn lemma_unplace_undoes_place(m: BoardModel, n: int, v: int, r: int, c: int)
    requires
        board_wf(m, n),
        1 <= v <= n,
        0 <= r < n,
        0 <= c < n,
        m.values[r][c] is None,
        is_candidate(m, n, v, r, c),
    ensures
        unplace_spec(place_spec(m, n, v, r, c), n, v, r, c) == m,
        forall|v1: int, r1: int, c1: int|
            is_candidate(unplace_spec(place_spec(m, n, v, r, c), n, v, r, c), n, v1, r1, c1)
                == is_candidate(m, n, v1, r1, c1),
{
    let m2 = unplace_spec(place_spec(m, n, v, r, c), n, v, r, c);
    lemma_box_bound(r, c, n);
    assert(m2.values[r] =~= m.values[r]);
    assert(m2.values =~= m.values);
    assert(m2.in_row[v - 1] =~= m.in_row[v - 1]);
    assert(m2.in_row =~= m.in_row);
    assert(m2.in_col[v - 1] =~= m.in_col[v - 1]);
    assert(m2.in_col =~= m.in_col);
    assert(m2.in_box[v - 1] =~= m.in_box[v - 1]);
    assert(m2.in_box =~= m.in_box);
}

/// Places `value` into the empty cell `(row, col)` when no row, column or
/// box cache marks it as used there, and reports whether it did.
pub fn update_board(board: &mut SudokuBoard, value: i32, row: usize, col: usize, side_length: i32) -> (r: bool)
    requires
        board_wf(old(board)@, side_length as int),
        1 <= value <= side_length,
        row < side_length,
        col < side_length,
        old(board)@.values[row as int][col as int] is None,
    ensures
        r == is_candidate(old(board)@, side_length as int, value as int, row as int, col as int),
        r ==> final(board)@ == place_spec(old(board)@, side_length as int, value as int, row as int, col as int),
        !r ==> final(board)@ == old(board)@,
        board_wf(final(board)@, side_length as int),
{
    let ghost m = board@;
    let ghost n = side_length as int;
    let box_num: usize = get_box_num(row, col, side_length);
    let vi: usize = (value - 1) as usize;
    assert(board.val_in_row@[vi as int]@ == m.in_row[vi as int]);
    assert(board.val_in_col@[vi as int]@ == m.in_col[vi as int]);
    assert(board.val_in_box@[vi as int]@ == m.in_box[vi as int]);
    if board.val_in_row[vi][row] || board.val_in_col[vi][col] || board.val_in_box[vi][box_num] {
        false
    } else {
        board.val_in_row[vi][row] = true;
        board.val_in_col[vi][col] = true;
        board.val_in_box[vi][box_num] = true;
        board.values[row][col] = Some(value);
        proof {
            let p = place_spec(m, n, value as int, row as int, col as int);
            assert(board@.values =~= p.values);
            assert(board@.in_row =~= p.in_row);
            assert(board@.in_col =~= p.in_col);
            assert(board@.in_box =~= p.in_box);
            lemma_place_wf(m, n, value as int, row as int, col as int);
        }
        true
    }
}

/// Takes `value` back out of cell `(row, col)`, where it was placed; always
/// succeeds.
pub fn remove_val(board: &mut SudokuBoard, value: i32, row: usize, col: usize, side_length: i32) -> (r: bool)
    requires
        board_wf(old(board)@, side_length as int),
        1 <= value <= side_length,
        row < side_length,
        col < side_length,
        old(board)@.values[row as int][col as int] == Some(value),
    ensures
        r,
        final(board)@ == unplace_spec(old(board)@, side_length as int, value as int, row as int, col as int),
        board_wf(final(board)@, side_length as int),
{
    let ghost m = board@;
    let ghost n = side_length as int;
    let box_num: usize = get_box_num(row, col, side_length);
    let vi: usize = (value - 1) as usize;
    assert(board.val_in_row@[vi as int]@ == m.in_row[vi as int]);
    assert(board.val_in_col@[vi as int]@ == m.in_col[vi as int]);
    assert(board.val_in_box@[vi as int]@ == m.in_box[vi as int]);
    board.val_in_row[vi][row] = false;
    board.val_in_col[vi][col] = false;
    board.val_in_box[vi][box_num] = false;
    board.values[row][col] = None;
    proof {
        let p = unplace_spec(m, n, value as int, row as int, col as int);
        assert(board@.values =~= p.values);
        assert(board@.in_row =~= p.in_row);
        assert(board@.in_col =~= p.in_col);
        assert(board@.in_box =~= p.in_box);
        lemma_unplace_wf(m, n, value as int, row as int, col as int);
    }
    true
}

/// An `n` by `n` grid with `x` in every entry.
pub fn uniform_grid<T: Copy>(n: usize, x: T) -> (g: Vec<Vec<T>>)
    ensures
        g@.len() == n,
        forall|i: int| 0 <= i < n ==> (#[trigger] g@[i])@.len() == n,
        forall|i: int, j: int| 0 <= i < n && 0 <= j < n ==> #[trigger] g@[i]@[j] == x,
{
    let mut g: Vec<Vec<T>> = Vec::new();
    let mut i: usize = 0;
    while i < n
        invariant
            i <= n,
            g@.len() == i,
            forall|a: int| 0 <= a < i ==> (#[trigger] g@[a])@.len() == n,
            forall|a: int, j: int| 0 <= a < i && 0 <= j < n ==> #[trigger] g@[a]@[j] == x,
        decreases n - i,
    {
        let mut row: Vec<T> = Vec::new();
        let mut j: usize = 0;
        while j < n
            invariant
                j <= n,
                row@.len() == j,
                forall|b: int| 0 <= b < j ==> #[trigger] row@[b] == x,
            decreases n - j,
        {
            row.push(x);
            j = j + 1;
        }
        g.push(row);
        i = i + 1;
    }
    g
}

/// A board of side `side_length` with every cell empty.
pub fn empty_board(side_length: i32) -> (b: SudokuBoard)
    requires
        is_perfect_square(side_length as int),
    ensures
        board_wf(b@, side_length as int),
        forall|r: int, c: int| 0 <= r < side_length && 0 <= c < side_length ==> (#[trigger] b@.values[r][c]) is None,
{
    let n: usize = side_length as usize;
    let b = SudokuBoard {
        values: uniform_grid(n, None),
        val_in_row: uniform_grid(n, false),
        val_in_col: uniform_grid(n, false),
        val_in_box: uniform_grid(n, false),
    };
    let ghost m = b@;
    let ghost ni = side_length as int;
    assert forall|r: int, c: int| 0 <= r < ni && 0 <= c < ni implies (#[trigger] m.values[r][c]) is None by {
        assert(b.values@[r]@[c] is None);
    }
    assert forall|i: int, j: int| 0 <= i < ni && 0 <= j < ni implies !(#[trigger] m.in_row[i][j]) && !m.in_col[i][j]
        && !m.in_box[i][j] by {
        assert(!b.val_in_row@[i]@[j]);
        assert(!b.val_in_col@[i]@[j]);
        assert(!b.val_in_box@[i]@[j]);
    }
    assert(dims_ok(m, ni));
    b
}

/// Returns, in ascending order, every value `v` of `1..=side_length` that no
/// cache marks as used in row `row`, column `col` or box `box_num`.
pub fn possible_vals(board: &SudokuBoard, row: usize, col: usize, box_num: usize, side_length: i32) -> (r: Vec<i32>)
    requires
        dims_ok(board@, side_length as int),
        row < side_length,
        col < side_length,
        box_num < side_length,
    ensures
        r@.len() <= side_length,
        forall|i: int| 0 <= i < r@.len() ==> 1 <= #[trigger] r@[i] <= side_length
            && free_in(board@, r@[i] as int, row as int, col as int, box_num as int),
        forall|i: int, j: int| 0 <= i < j < r@.len() ==> r@[i] < r@[j],
        forall|v: int| 1 <= v <= side_length && free_in(board@, v, row as int, col as int, box_num as int)
            ==> #[trigger] r@.contains(v as i32),
{
    let ghost m = board@;
    let mut possibilities: Vec<i32> = Vec::new();
    let mut v: i32 = 0;
    while v < side_length
        invariant
            0 <= v <= side_length,
            m == board@,
            dims_ok(m, side_length as int),
            row < side_length,
            col < side_length,
            box_num < side_length,
            possibilities@.len() <= v,
            forall|i: int| 0 <= i < possibilities@.len() ==> 1 <= #[trigger] possibilities@[i] <= v
                && free_in(m, possibilities@[i] as int, row as int, col as int, box_num as int),
            forall|i: int, j: int| 0 <= i < j < possibilities@.len() ==> possibilities@[i] < possibilities@[j],
            forall|w: int| 1 <= w <= v && free_in(m, w, row as int, col as int, box_num as int)
                ==> #[trigger] possibilities@.contains(w as i32),
        decreases side_length - v,
    {
        let vi: usize = v as usize;
        assert(board.val_in_row@[vi as int]@ == m.in_row[vi as int]);
        assert(board.val_in_col@[vi as int]@ == m.in_col[vi as int]);
        assert(board.val_in_box@[vi as int]@ == m.in_box[vi as int]);
        let ghost old_p = possibilities@;
        if !board.val_in_row[vi][row] && !board.val_in_col[vi][col] && !board.val_in_box[vi][box_num] {
            possibilities.push(v + 1);
            assert(possibilities@[possibilities@.len() - 1] == v + 1);
            assert forall|w: int| 1 <= w <= v + 1 && free_in(m, w, row as int, col as int, box_num as int)
                implies #[trigger] possibilities@.contains(w as i32) by {
                if w <= v {
                    assert(old_p.contains(w as i32));
                    let i = choose|i: int| 0 <= i < old_p.len() && old_p[i] == w as i32;
                    assert(possibilities@[i] == w as i32);
                } else {
                    assert(possibilities@[possibilities@.len() - 1] == w as i32);
                }
            }
        }
        v = v + 1;
    }
    possibilities
}

/// Cell `(r, c)` comes before position `(row, col)` in row-major order.
pub open spec fn before(r: int, c: int, row: int, col: int) -> bool {
    r < row || (r == row && c < col)
}

/// Reports 0 while some cell is empty; otherwise 1 where every row, column
/// and box holds every value of `1..=side_length`, and -1 where one does not.
/// It reads the cell values alone and does not trust the caches.
pub fn is_board_solved(board: &SudokuBoard, side_length: i32) -> (r: i32)
    requires
        is_perfect_square(side_length as int),
        values_dims_ok(board@, side_length as int),
        values_in_range(board@, side_length as int),
    ensures
        r as int == status_spec(board@, side_length as int),
{
    let ghost m = board@;
    let ghost ni = side_length as int;
    let n: usize = side_length as usize;
    let mut row_check = uniform_grid(n, false);
    let mut col_check = uniform_grid(n, false);
    let mut box_check = uniform_grid(n, false);
    let mut row: usize = 0;
    while row < n
        invariant
            m == board@,
            n == ni,
            ni == side_length as int,
            is_perfect_square(ni),
            values_dims_ok(m, ni),
            values_in_range(m, ni),
            row <= n,
            row_check@.len() == n,
            col_check@.len() == n,
            box_check@.len() == n,
            forall|i: int| 0 <= i < n ==> (#[trigger] row_check@[i])@.len() == n,
            forall|i: int| 0 <= i < n ==> (#[trigger] col_check@[i])@.len() == n,
            forall|i: int| 0 <= i < n ==> (#[trigger] box_check@[i])@.len() == n,
            forall|i: int, j: int| 0 <= i < n && 0 <= j < n && #[trigger] row_check@[i]@[j]
                ==> row_has(m, ni, i, (j + 1) as i32),
            forall|i: int, j: int| 0 <= i < n && 0 <= j < n && #[trigger] col_check@[i]@[j]
                ==> col_has(m, ni, i, (j + 1) as i32),
            forall|i: int, j: int| 0 <= i < n && 0 <= j < n && #[trigger] box_check@[i]@[j]
                ==> box_has(m, ni, i, (j + 1) as i32),
            forall|r: int, c: int| 0 <= r < row && 0 <= c < n ==> (#[trigger] m.values[r][c]) is Some,
            forall|r: int, c: int| 0 <= r < row && 0 <= c < n ==> {
                &&& row_check@[r]@[(#[trigger] m.values[r][c])->0 - 1]
                &&& col_check@[c]@[m.values[r][c]->0 - 1]
                &&& box_check@[box_of(r, c, ni)]@[m.values[r][c]->0 - 1]
            },
        decreases n - row,
    {
        let mut col: usize = 0;
        while col < n
            invariant
                m == board@,
                n == ni,
                ni == side_length as int,
                is_perfect_square(ni),
                values_dims_ok(m, ni),
                values_in_range(m, ni),
                row < n,
                col <= n,
                row_check@.len() == n,
                col_check@.len() == n,
                box_check@.len() == n,
                forall|i: int| 0 <= i < n ==> (#[trigger] row_check@[i])@.len() == n,
                forall|i: int| 0 <= i < n ==> (#[trigger] col_check@[i])@.len() == n,
                forall|i: int| 0 <= i < n ==> (#[trigger] box_check@[i])@.len() == n,
                forall|i: int, j: int| 0 <= i < n && 0 <= j < n && #[trigger] row_check@[i]@[j]
                    ==> row_has(m, ni, i, (j + 1) as i32),
                forall|i: int, j: int| 0 <= i < n && 0 <= j < n && #[trigger] col_check@[i]@[j]
                    ==> col_has(m, ni, i, (j + 1) as i32),
                forall|i: int, j: int| 0 <= i < n && 0 <= j < n && #[trigger] box_check@[i]@[j]
                    ==> box_has(m, ni, i, (j + 1) as i32),
                forall|r: int, c: int| before(r, c, row as int, col as int) && 0 <= r < n && 0 <= c < n
                    ==> (#[trigger] m.values[r][c]) is Some,
                forall|r: int, c: int| before(r, c, row as int, col as int) && 0 <= r < n && 0 <= c < n ==> {
                    &&& row_check@[r]@[(#[trigger] m.values[r][c])->0 - 1]
                    &&& col_check@[c]@[m.values[r][c]->0 - 1]
                    &&& box_check@[box_of(r, c, ni)]@[m.values[r][c]->0 - 1]
                },
            decreases n - col,
        {
            assert(board.values@[row as int]@ == m.values[row as int]);
            let entry = board.values[row][col];
            match entry {
                None => {
                    assert(m.values[row as int][col as int] is None);
                    return 0;
                },
                Some(val) => {
                    let vi: usize = (val - 1) as usize;
                    let box_num: usize = get_box_num(row, col, side_length);
                    proof {
                        lemma_box_bound(row as int, col as int, ni);
                    }
                    let ghost rc0 = row_check@;
                    let ghost cc0 = col_check@;
                    let ghost bc0 = box_check@;
                    row_check[row][vi] = true;
                    col_check[col][vi] = true;
                    box_check[box_num][vi] = true;
                    assert(m.values[row as int][col as int] == Some(val));
                    assert forall|i: int, j: int| 0 <= i < n && 0 <= j < n && #[trigger] row_check@[i]@[j]
                        implies row_has(m, ni, i, (j + 1) as i32) by {
                        if !(i == row && j == vi) {
                            assert(rc0[i]@[j]);
                        }
                    }
                    assert forall|i: int, j: int| 0 <= i < n && 0 <= j < n && #[trigger] col_check@[i]@[j]
                        implies col_has(m, ni, i, (j + 1) as i32) by {
                        if !(i == col && j == vi) {
                            assert(cc0[i]@[j]);
                        }
                    }
                    assert forall|i: int, j: int| 0 <= i < n && 0 <= j < n && #[trigger] box_check@[i]@[j]
                        implies box_has(m, ni, i, (j + 1) as i32) by {
                        if !(i == box_num && j == vi) {
                            assert(bc0[i]@[j]);
                        }
                    }
                    assert forall|r: int, c: int| before(r, c, row as int, col + 1) && 0 <= r < n && 0 <= c < n
                        implies {
                        &&& row_check@[r]@[(#[trigger] m.values[r][c])->0 - 1]
                        &&& col_check@[c]@[m.values[r][c]->0 - 1]
                        &&& box_check@[box_of(r, c, ni)]@[m.values[r][c]->0 - 1]
                    } by {
                        if r != row || c != col {
                            assert(before(r, c, row as int, col as int));
                            assert(rc0[r]@[m.values[r][c]->0 - 1]);
                            assert(cc0[c]@[m.values[r][c]->0 - 1]);
                            lemma_box_bound(r, c, ni);
                            assert(bc0[box_of(r, c, ni)]@[m.values[r][c]->0 - 1]);
                        }
                    }
                },
            }
            col = col + 1;
        }
        row = row + 1;
    }
    assert(filled(m, ni));
    let all = all_marked(&row_check, &col_check, &box_check, n);
    proof {
        lemma_marks_decide_cover(m, ni, row_check@, col_check@, box_check@, all);
    }
    if all {
        1
    } else {
        -1
    }
}

/// Grids that record every value of every cell, and only values that are
/// there, are all `true` exactly when every row, column and box is complete.
proof fn lemma_marks_decide_cover(
    m: BoardModel,
    ni: int,
    rc: Seq<Vec<bool>>,
    cc: Seq<Vec<bool>>,
    bc: Seq<Vec<bool>>,
    all: bool,
)
    requires
        is_perfect_square(ni),
        ni <= i32::MAX,
        filled(m, ni),
        values_in_range(m, ni),
        values_dims_ok(m, ni),
        all == forall|i: int, j: int| 0 <= i < ni && 0 <= j < ni ==> rc[i]@[j] && cc[i]@[j] && bc[i]@[j],
        forall|i: int, j: int| 0 <= i < ni && 0 <= j < ni && #[trigger] rc[i]@[j]
            ==> row_has(m, ni, i, (j + 1) as i32),
        forall|i: int, j: int| 0 <= i < ni && 0 <= j < ni && #[trigger] cc[i]@[j]
            ==> col_has(m, ni, i, (j + 1) as i32),
        forall|i: int, j: int| 0 <= i < ni && 0 <= j < ni && #[trigger] bc[i]@[j]
            ==> box_has(m, ni, i, (j + 1) as i32),
        forall|r: int, c: int| 0 <= r < ni && 0 <= c < ni ==> {
            &&& rc[r]@[(#[trigger] m.values[r][c])->0 - 1]
            &&& cc[c]@[m.values[r][c]->0 - 1]
            &&& bc[box_of(r, c, ni)]@[m.values[r][c]->0 - 1]
        },
    ensures
        all == covered(m, ni),
{
    if all {
        assert forall|a: int, x: int| 0 <= a < ni && 1 <= x <= ni implies {
            &&& #[trigger] row_has(m, ni, a, x as i32)
            &&& col_has(m, ni, a, x as i32)
            &&& box_has(m, ni, a, x as i32)
        } by {
            assert(rc[a]@[x - 1]);
            assert(cc[a]@[x - 1]);
            assert(bc[a]@[x - 1]);
        }
    } else {
        let (a, b) = choose|a: int, b: int|
            0 <= a < ni && 0 <= b < ni && !(rc[a]@[b] && cc[a]@[b] && bc[a]@[b]);
        let x: int = b + 1;
        let y = x as i32;
        assert(y - 1 == b);
        if !rc[a]@[b] {
            if row_has(m, ni, a, y) {
                let c = choose|c: int| 0 <= c < ni && #[trigger] m.values[a][c] == Some(y);
                assert(rc[a]@[m.values[a][c]->0 - 1]);
            }
            assert(!row_has(m, ni, a, x as i32));
        } else if !cc[a]@[b] {
            if col_has(m, ni, a, y) {
                let r = choose|r: int| 0 <= r < ni && #[trigger] m.values[r][a] == Some(y);
                assert(cc[a]@[m.values[r][a]->0 - 1]);
            }
            assert(!col_has(m, ni, a, x as i32));
            assert(row_has(m, ni, a, x as i32) ==> !col_has(m, ni, a, x as i32));
        } else {
            if box_has(m, ni, a, y) {
                let (r2, c2) = choose|r2: int, c2: int|
                    0 <= r2 < ni && 0 <= c2 < ni && box_of(r2, c2, ni) == a
                        && #[trigger] m.values[r2][c2] == Some(y);
                assert(bc[box_of(r2, c2, ni)]@[m.values[r2][c2]->0 - 1]);
            }
            assert(!box_has(m, ni, a, x as i32));
            assert(row_has(m, ni, a, x as i32) ==> !box_has(m, ni, a, x as i32));
        }
    }
}

/// Whether the three `n` by `n` grids are `true` everywhere.
fn all_marked(a: &Vec<Vec<bool>>, b: &Vec<Vec<bool>>, c: &Vec<Vec<bool>>, n: usize) -> (r: bool)
    requires
        a@.len() == n,
        b@.len() == n,
        c@.len() == n,
        forall|i: int| 0 <= i < n ==> (#[trigger] a@[i])@.len() == n,
        forall|i: int| 0 <= i < n ==> (#[trigger] b@[i])@.len() == n,
        forall|i: int| 0 <= i < n ==> (#[trigger] c@[i])@.len() == n,
    ensures
        r == forall|i: int, j: int| 0 <= i < n && 0 <= j < n ==> a@[i]@[j] && b@[i]@[j] && c@[i]@[j],
{
    let mut i: usize = 0;
    while i < n
        invariant
            i <= n,
            a@.len() == n,
            b@.len() == n,
            c@.len() == n,
            forall|k: int| 0 <= k < n ==> (#[trigger] a@[k])@.len() == n,
            forall|k: int| 0 <= k < n ==> (#[trigger] b@[k])@.len() == n,
            forall|k: int| 0 <= k < n ==> (#[trigger] c@[k])@.len() == n,
            forall|k: int, j: int| 0 <= k < i && 0 <= j < n ==> a@[k]@[j] && b@[k]@[j] && c@[k]@[j],
        decreases n - i,
    {
        let mut j: usize = 0;
        while j < n
            invariant
                i < n,
                j <= n,
                a@.len() == n,
                b@.len() == n,
                c@.len() == n,
                forall|k: int| 0 <= k < n ==> (#[trigger] a@[k])@.len() == n,
                forall|k: int| 0 <= k < n ==> (#[trigger] b@[k])@.len() == n,
                forall|k: int| 0 <= k < n ==> (#[trigger] c@[k])@.len() == n,
                forall|k: int, l: int| 0 <= k < i && 0 <= l < n ==> a@[k]@[l] && b@[k]@[l] && c@[k]@[l],
                forall|l: int| 0 <= l < j ==> a@[i as int]@[l] && b@[i as int]@[l] && c@[i as int]@[l],
            decreases n - j,
        {
            if !(a[i][j] && b[i][j] && c[i][j]) {
                return false;
            }
            j = j + 1;
        }
        i = i + 1;
    }
    true
}

} // verus!
