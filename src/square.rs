//! Perfect squares and their integer roots.
use vstd::prelude::*;

verus! {

/// The square of an integer, named so that quantifiers can be triggered on it.
pub open spec fn sq(i: int) -> int {
    i * i
}

/// `n` is the square of a positive integer.
pub open spec fn is_perfect_square(n: int) -> bool {
    exists|i: int| 1 <= i <= n && #[trigger] sq(i) == n
}

/// The integer root of a perfect square, and -1 for any other number.
pub open spec fn root_of(n: int) -> int {
    if is_perfect_square(n) {
        choose|i: int| 1 <= i <= n && #[trigger] sq(i) == n
    } else {
        -1
    }
}

/// Two positive integers with the same square are equal.
pub proof fn lemma_sq_injective(i: int, j: int)
    requires
        1 <= i,
        1 <= j,
        sq(i) == sq(j),
    ensures
        i == j,
{
    if i < j {
        assert(i * i < j * j) by (nonlinear_arith)
            requires 1 <= i < j;
    } else if j < i {
        assert(j * j < i * i) by (nonlinear_arith)
            requires 1 <= j < i;
    }
}

/// The root of a perfect square is positive and squares back to it.
pub proof fn lemma_root_of(n: int)
    requires
        is_perfect_square(n),
    ensures
        1 <= root_of(n) <= n,
        sq(root_of(n)) == n,
        forall|i: int| 1 <= i && #[trigger] sq(i) == n ==> i == root_of(n),
{
    let k = root_of(n);
    assert forall|i: int| 1 <= i && #[trigger] sq(i) == n implies i == k by {
        lemma_sq_injective(i, k);
    }
}

proof fn mul_bound(i: int, n: int)
    requires
        1 <= i <= n / 2,
        n <= i32::MAX,
    ensures
        i * i <= n * n,
        i * i < 0x4000_0000_0000_0000,
{
    assert(i * i <= n * n) by (nonlinear_arith)
        requires 1 <= i <= n;
    assert(n * n < 0x4000_0000_0000_0000) by (nonlinear_arith)
        requires 0 <= n <= i32::MAX;
}

/// Integers that can report whether they are perfect squares, and their roots.
pub trait CheckablySquare {
    spec fn spec_is_square(&self) -> bool;

    spec fn spec_root(&self) -> int;

    /// Whether the value is a perfect square.
    fn is_square(&self) -> (r: bool)
        ensures
            r == self.spec_is_square(),
    ;

    /// The integer root of the value, or -1 where it is no perfect square.
    fn root(&self) -> (r: i32)
        ensures
            r as int == self.spec_root(),
    ;
}

impl CheckablySquare for i32 {
    open spec fn spec_is_square(&self) -> bool {
        is_perfect_square(*self as int)
    }

    open spec fn spec_root(&self) -> int {
        root_of(*self as int)
    }

    fn is_square(&self) -> (r: bool) {
        find_root(*self) > 0
    }

    fn root(&self) -> (r: i32) {
        find_root(*self)
    }
}

/// Beyond 1, a root is at most half of its square.
proof fn lemma_root_at_most_half(i: int, n: int)
    requires
        2 <= n,
        1 <= i,
        sq(i) == n,
    ensures
        i <= n / 2,
{
    assert(i * i == n);
    if i == 1 {
        assert(n == 1);
    } else {
        assert(2 * i <= i * i) by (nonlinear_arith)
            requires 2 <= i;
    }
}

/// The root of `n`: 1 for 1, and otherwise found by searching `1..=n / 2`.
fn find_root(n: i32) -> (r: i32)
    ensures
        r as int == root_of(n as int),
        r > 0 <==> is_perfect_square(n as int),
{
    if n == 1 {
        assert(sq(1) == 1);
        assert(is_perfect_square(1));
        proof {
            lemma_root_of(1);
        }
        return 1;
    }
    if n < 2 {
        return -1;
    }
    let half: i32 = n / 2;
    let mut i: i32 = 1;
    while i <= half
        invariant
            2 <= n,
            half == n / 2,
            1 <= i <= half + 1,
            forall|j: int| 1 <= j < i ==> #[trigger] sq(j) != n,
        decreases half + 1 - i,
    {
        proof {
            mul_bound(i as int, n as int);
        }
        if (i as i64) * (i as i64) == n as i64 {
            assert(1 <= i <= n / 2 && sq(i as int) == n);
            assert(is_perfect_square(n as int));
            proof {
                lemma_root_of(n as int);
            }
            return i;
        } else {
            assert(sq(i as int) != n);
            i = i + 1;
        }
    }
    assert forall|j: int| 1 <= j <= n implies #[trigger] sq(j) != n by {
        if sq(j) == n {
            lemma_root_at_most_half(j, n as int);
        }
    }
    -1
}

} // verus!
