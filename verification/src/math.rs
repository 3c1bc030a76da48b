//! Small arithmetic that several modules share.

use vstd::prelude::*;

verus! {

/// `a` divided by `b`, rounded up.
pub open spec fn ceil_div(a: nat, b: nat) -> nat
    recommends
        b > 0,
{
    ((a + b - 1) / (b as int)) as nat
}

/// The least of two numbers.
pub open spec fn least(a: int, b: int) -> int {
    if a <= b {
        a
    } else {
        b
    }
}

/// `ceil_div(a, b)` pieces of size `b` cover `a`, and one piece fewer does
/// not.
pub proof fn lemma_ceil_div(a: nat, b: nat)
    requires
        b > 0,
    ensures
        ceil_div(a, b) * b >= a,
        a > 0 ==> ceil_div(a, b) >= 1 && (ceil_div(a, b) - 1) * b < a,
        a == 0 ==> ceil_div(a, b) == 0,
        ceil_div(a, b) == a / b + (if a % b == 0 {
            0nat
        } else {
            1nat
        }),
{
    let l = a as int;
    let m = b as int;
    let q = l / m;
    let r = l % m;
    assert(l == m * q + r && 0 <= r < m) by (nonlinear_arith)
        requires
            m > 0,
            q == l / m,
            r == l % m,
    ;
    if r == 0 {
        assert((m * q + (m - 1)) / m == q) by (nonlinear_arith)
            requires
                m > 0,
        ;
        assert(q * m == m * q && (q - 1) * m == m * q - m) by (nonlinear_arith);
    } else {
        assert(m * (q + 1) == m * q + m) by (nonlinear_arith);
        assert(l + m - 1 == m * (q + 1) + (r - 1));
        assert((m * (q + 1) + (r - 1)) / m == q + 1) by (nonlinear_arith)
            requires
                m > 0,
                0 <= r - 1 < m,
        ;
        assert((q + 1) * m == m * q + m && q * m == m * q) by (nonlinear_arith);
    }
}

/// The number of pieces that cover `a` while one fewer does not is
/// `ceil_div(a, b)`.
pub proof fn lemma_ceil_div_is(a: nat, b: nat, k: nat)
    requires
        b > 0,
        a <= k * b,
        k == 0 || (k - 1) * b < a,
    ensures
        ceil_div(a, b) == k,
{
    lemma_ceil_div(a, b);
    let c = ceil_div(a, b) as int;
    if c < k {
        assert(c * b <= (k - 1) * b) by (nonlinear_arith)
            requires
                c <= k - 1,
                b > 0,
        ;
    } else if c > k {
        assert(k * b <= (c - 1) * b) by (nonlinear_arith)
            requires
                k <= c - 1,
                b > 0,
        ;
    }
}

/// Piece `i` of `ceil_div(a, b)` pieces starts inside `a`.
pub proof fn lemma_piece_starts_inside(a: nat, b: nat, i: nat)
    requires
        b > 0,
        i < ceil_div(a, b),
    ensures
        i * b < a,
{
    lemma_ceil_div(a, b);
    let n = ceil_div(a, b) as int;
    assert(i * b <= (n - 1) * b) by (nonlinear_arith)
        requires
            0 <= i <= n - 1,
            b > 0,
    ;
}

/// `a` divided by `b`, rounded up.
pub fn div_ceil(a: usize, b: usize) -> (n: usize)
    requires
        b > 0,
    ensures
        n == ceil_div(a as nat, b as nat),
{
    proof {
        lemma_ceil_div(a as nat, b as nat);
        if a % b != 0 {
            assert(2 * (a / b) <= a) by (nonlinear_arith)
                requires
                    b >= 2,
                    a >= 0,
            ;
        }
    }
    if a % b == 0 {
        a / b
    } else {
        a / b + 1
    }
}

/// Number of marks among the first `n`.
pub open spec fn count_marked(marks: Seq<bool>, n: int) -> int
    decreases n,
{
    if n <= 0 {
        0
    } else {
        count_marked(marks, n - 1) + (if marks[n - 1] {
            1int
        } else {
            0int
        })
    }
}

/// Changing one mark changes the count by what that mark adds or takes
/// away.
pub proof fn lemma_count_marked_update(marks: Seq<bool>, n: int, i: int, mark: bool)
    requires
        0 <= n <= marks.len(),
        0 <= i < marks.len(),
    ensures
        count_marked(marks.update(i, mark), n) == count_marked(marks, n) + (if i < n {
            (if mark {
                1int
            } else {
                0int
            }) - (if marks[i] {
                1int
            } else {
                0int
            })
        } else {
            0int
        }),
        0 <= count_marked(marks, n) <= n,
    decreases n,
{
    if n > 0 {
        lemma_count_marked_update(marks, n - 1, i, mark);
    }
}

/// Where every one of the first `n` marks is set, `n` are counted, and
/// where `n` are counted, every one is set.
pub proof fn lemma_count_marked_full(marks: Seq<bool>, n: int)
    requires
        0 <= n <= marks.len(),
    ensures
        0 <= count_marked(marks, n) <= n,
        count_marked(marks, n) == n <==> (forall|i: int| 0 <= i < n ==> marks[i]),
        count_marked(marks, n) == 0 <==> (forall|i: int| 0 <= i < n ==> !marks[i]),
    decreases n,
{
    if n > 0 {
        lemma_count_marked_full(marks, n - 1);
    }
}

/// Marks that are not set do not count: where no mark from `m` on is set,
/// the first `m` marks are all that count.
pub proof fn lemma_count_marked_tail(marks: Seq<bool>, m: int, n: int)
    requires
        0 <= m <= n <= marks.len(),
        forall|i: int| m <= i < n ==> !marks[i],
    ensures
        count_marked(marks, n) == count_marked(marks, m),
    decreases n,
{
    if n > m {
        lemma_count_marked_tail(marks, m, n - 1);
    }
}

/// The first of the numbers `0..n` of which `p` holds, or `n` where it
/// holds of none.
pub open spec fn first_such(n: int, p: spec_fn(int) -> bool) -> int
    decreases n,
{
    if n <= 0 {
        0
    } else {
        let before = first_such(n - 1, p);
        if before < n - 1 {
            before
        } else if p(n - 1) {
            n - 1
        } else {
            n
        }
    }
}

/// `first_such` is what its name says.
pub proof fn lemma_first_such(n: int, p: spec_fn(int) -> bool)
    requires
        0 <= n,
    ensures
        0 <= first_such(n, p) <= n,
        first_such(n, p) < n ==> p(first_such(n, p)),
        forall|j: int| 0 <= j < first_such(n, p) ==> !#[trigger] p(j),
    decreases n,
{
    if n > 0 {
        lemma_first_such(n - 1, p);
    }
}

/// A number of which `p` holds, with none before it, is the first such.
pub proof fn lemma_first_such_is(n: int, p: spec_fn(int) -> bool, i: int)
    requires
        0 <= i <= n,
        i < n ==> p(i),
        forall|j: int| 0 <= j < i ==> !#[trigger] p(j),
    ensures
        first_such(n, p) == i,
    decreases n,
{
    lemma_first_such(n, p);
}

/// The last of the numbers `0..n` of which `p` holds, or `-1` where it
/// holds of none.
pub open spec fn last_such(n: int, p: spec_fn(int) -> bool) -> int
    decreases n,
{
    if n <= 0 {
        -1
    } else if p(n - 1) {
        n - 1
    } else {
        last_such(n - 1, p)
    }
}

/// `last_such` is what its name says.
pub proof fn lemma_last_such(n: int, p: spec_fn(int) -> bool)
    requires
        0 <= n,
    ensures
        -1 <= last_such(n, p) < n,
        last_such(n, p) >= 0 ==> p(last_such(n, p)),
        forall|j: int| last_such(n, p) < j < n ==> !#[trigger] p(j),
    decreases n,
{
    if n > 0 {
        lemma_last_such(n - 1, p);
    }
}

/// A number of which `p` holds, with none after it below `n`, is the last
/// such.
pub proof fn lemma_last_such_is(n: int, p: spec_fn(int) -> bool, i: int)
    requires
        -1 <= i < n,
        i >= 0 ==> p(i),
        forall|j: int| i < j < n ==> !#[trigger] p(j),
    ensures
        last_such(n, p) == i,
    decreases n,
{
    if n > 0 && i < n - 1 {
        assert(!p(n - 1));
        lemma_last_such_is(n - 1, p, i);
    }
}

/// Counting up to `n` is counting up to `m` and then from `m` to `n`: a
/// single mark at `m` and none after it adds one.
pub proof fn lemma_count_marked_step(marks: Seq<bool>, m: int, n: int)
    requires
        0 <= m < n <= marks.len(),
        marks[m],
        forall|i: int| m < i < n ==> !marks[i],
    ensures
        count_marked(marks, n) == count_marked(marks, m) + 1,
    decreases n,
{
    if n > m + 1 {
        lemma_count_marked_step(marks, m, n - 1);
    }
}

/// Numbers modulo 2^32 that lie fewer than `n` steps apart leave
/// different remainders modulo `n`, where `n` divides 2^32.
pub proof fn lemma_ring_apart(a: u32, d: int, n: int)
    requires
        n > 0,
        0x1_0000_0000int % n == 0,
        0 < d < n,
    ensures
        n <= 0x1_0000_0000,
        (((a + d) % 0x1_0000_0000) as u32 as int) % n != (a as int) % n,
        0 <= (a as int) % n < n,
{
    let range = 0x1_0000_0000int;
    let q = range / n;
    vstd::arithmetic::div_mod::lemma_fundamental_div_mod(range, n);
    assert(range == n * q);
    assert(n <= range) by (nonlinear_arith)
        requires
            range == n * q,
            n > 0,
            range > 0,
    ;
    let b = ((a + d) % range) as u32 as int;
    let c: int = if a + d >= range {
        1
    } else {
        0
    };
    assert(b == a + d - c * range);
    assert(n * (-c * q) + (a + d) == b) by (nonlinear_arith)
        requires
            b == a + d - c * range,
            range == n * q,
    ;
    vstd::arithmetic::div_mod::lemma_mod_multiples_vanish(-c * q, a + d, n);
    assert(b % n == (a + d) % n);
    let r = (a as int) % n;
    vstd::arithmetic::div_mod::lemma_fundamental_div_mod(a as int, n);
    let whole = (a as int) / n;
    assert(0 <= r < n) by (nonlinear_arith)
        requires
            r == (a as int) % n,
            n > 0,
    ;
    assert(a + d == n * whole + (r + d));
    vstd::arithmetic::div_mod::lemma_mod_multiples_vanish(whole, r + d, n);
    assert((a + d) % n == (r + d) % n);
    if r + d < n {
        vstd::arithmetic::div_mod::lemma_small_mod((r + d) as nat, n as nat);
    } else {
        vstd::arithmetic::div_mod::lemma_mod_multiples_vanish(1, r + d - n, n);
        assert(n * 1 + (r + d - n) == r + d);
        vstd::arithmetic::div_mod::lemma_small_mod((r + d - n) as nat, n as nat);
    }
}

} // verus!
