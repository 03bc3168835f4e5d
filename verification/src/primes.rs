//! Prime counting with the sieve of Eratosthenes, in a single pass and as
//! a segmented sieve whose segments can be counted independently.

use vstd::arithmetic::div_mod::*;
use vstd::arithmetic::mul::*;
use vstd::prelude::*;

verus! {

/// `n` is prime: at least 2 and without a divisor strictly between 1 and `n`.
pub open spec fn is_prime(n: int) -> bool {
    n >= 2 && forall|d: int| 2 <= d < n ==> #[trigger] (n % d) != 0
}

/// The number of primes `p` with `p <= n`.
pub open spec fn prime_count(n: int) -> nat
    decreases n,
{
    if n < 2 {
        0
    } else {
        prime_count(n - 1) + if is_prime(n) {
            1nat
        } else {
            0nat
        }
    }
}

/// No `d` with `2 <= d < m` and `d * d <= k` divides `k`.
pub open spec fn free_below(k: int, m: int) -> bool {
    forall|d: int| 2 <= d < m && d * d <= k ==> #[trigger] (k % d) != 0
}

/// If `d` divides `i` and `i` divides `k`, then `d` divides `k`.
pub proof fn lemma_divides_trans(d: int, i: int, k: int)
    requires
        d > 0,
        i > 0,
        k >= 0,
        i % d == 0,
        k % i == 0,
    ensures
        k % d == 0,
{
    lemma_fundamental_div_mod(i, d);
    lemma_fundamental_div_mod(k, i);
    let a = i / d;
    let b = k / i;
    assert(k == (a * b) * d) by (nonlinear_arith)
        requires
            i == d * a,
            k == i * b,
    ;
    lemma_mod_multiples_basic(a * b, d);
}

/// For `m * m > k >= 2`, `k` is prime exactly when no `d` below `m` with
/// `d * d <= k` divides it.
pub proof fn lemma_prime_iff_free_below(k: int, m: int)
    requires
        k >= 2,
        m > 0,
        m * m > k,
    ensures
        is_prime(k) <==> free_below(k, m),
{
    if is_prime(k) {
        assert forall|d: int| 2 <= d < m && d * d <= k implies #[trigger] (k % d) != 0 by {
            assert(d < d * d) by (nonlinear_arith)
                requires
                    d >= 2,
            ;
        }
    }
    if free_below(k, m) && !is_prime(k) {
        let d = choose|d: int| 2 <= d < k && #[trigger] (k % d) == 0;
        lemma_fundamental_div_mod(k, d);
        let e = k / d;
        assert(k == d * e);
        assert(e >= 2) by (nonlinear_arith)
            requires
                k == d * e,
                2 <= d < k,
        ;
        if d * d <= k {
            assert(d < m) by (nonlinear_arith)
                requires
                    d * d <= k,
                    m * m > k,
                    d > 0,
                    m > 0,
            ;
            assert(k % d != 0);
        } else {
            assert(e * e <= k && e < m) by (nonlinear_arith)
                requires
                    k == d * e,
                    d * d > k,
                    m * m > k,
                    e >= 2,
                    d >= 2,
                    m > 0,
            ;
            lemma_mod_multiples_basic(d, e);
            assert(k == d * e);
            assert((d * e) % e == 0);
            assert(k % e != 0);
        }
    }
}

/// Raising the bound of `free_below` by one adds exactly the test of `i`.
proof fn lemma_free_below_step(k: int, i: int)
    ensures
        free_below(k, i + 1) == (free_below(k, i) && !(i * i <= k && k % i == 0 && 2 <= i)),
{
    if free_below(k, i) && !(i * i <= k && k % i == 0 && 2 <= i) {
        assert forall|d: int| 2 <= d < i + 1 && d * d <= k implies #[trigger] (k % d) != 0 by {
            if d < i {
            } else {
                assert(d == i);
            }
        }
    }
    if free_below(k, i + 1) {
        assert forall|d: int| 2 <= d < i && d * d <= k implies #[trigger] (k % d) != 0 by {
            assert(2 <= d < i + 1);
        }
        if 2 <= i && i * i <= k {
            assert(k % i != 0);
        }
    }
}

/// When `i >= 2` itself has a small divisor, multiples of `i` at or above
/// `i * i` already have one too.
proof fn lemma_composite_adds_nothing(k: int, i: int)
    requires
        i >= 2,
        k >= 0,
        !free_below(i, i),
    ensures
        free_below(k, i + 1) == free_below(k, i),
{
    lemma_free_below_step(k, i);
    if free_below(k, i) && i * i <= k && k % i == 0 {
        let d = choose|d: int| 2 <= d < i && d * d <= i && #[trigger] (i % d) != 0 == false;
        lemma_divides_trans(d, i, k);
        assert(i <= i * i) by (nonlinear_arith)
            requires
                i >= 2,
        ;
        assert(k % d != 0);
    }
}

/// Sieve of Eratosthenes: `flags[k]` tells whether `k` is prime, for every
/// `k <= n`.
pub fn sieve(n: usize) -> (flags: Vec<bool>)
    requires
        1 <= n < isize::MAX,
    ensures
        flags.len() == n + 1,
        forall|k: int| 0 <= k <= n ==> #[trigger] flags[k] == is_prime(k),
{
    let mut flags: Vec<bool> = vec![true; n + 1];
    flags.set(0, false);
    flags.set(1, false);
    assert forall|k: int| 0 <= k <= n implies #[trigger] flags[k] == (k >= 2 && free_below(k, 2)) by {
        if k >= 2 {
            assert(cloned(true, flags@[k]));
        }
    }
    let mut i: usize = 2;
    while i <= n / i
        invariant
            2 <= i <= n + 1,
            1 <= n < isize::MAX,
            flags.len() == n + 1,
            forall|k: int| 0 <= k <= n ==> #[trigger] flags[k] == (k >= 2 && free_below(k, i as int)),
        decreases n + 1 - i,
    {
        proof {
            lemma_fundamental_div_mod(n as int, i as int);
            assert(i * i <= n) by (nonlinear_arith)
                requires
                    i <= n / i,
                    n == i * (n / i) + n % i,
                    n % i >= 0,
                    i > 0,
            ;
        }
        if flags[i] {
            let mut j: usize = i * i;
            let ghost mut q: int = i as int;
            while j <= n
                invariant
                    2 <= i <= n,
                    i * i <= n,
                    1 <= n < isize::MAX,
                    flags.len() == n + 1,
                    j == q * i,
                    i * i <= j <= n + i,
                    forall|k: int|
                        0 <= k <= n ==> #[trigger] flags[k] == (k >= 2 && free_below(k, i as int) && !(i
                            * i <= k && k % (i as int) == 0 && k < j)),
                decreases n + i - j,
            {
                flags.set(j, false);
                proof {
                    assert forall|k: int| j < k < j + i implies #[trigger] (k % (i as int)) != 0 by {
                        lemma_mod_multiples_vanish(q, k - j, i as int);
                        lemma_small_mod((k - j) as nat, i as nat);
                    }
                    lemma_mod_multiples_basic(q, i as int);
                    assert((j as int) % (i as int) == 0);
                }
                j = j + i;
                proof {
                    q = q + 1;
                    assert(j == q * i) by (nonlinear_arith)
                        requires
                            j == (q - 1) * i + i,
                    ;
                }
            }
            assert forall|k: int| 0 <= k <= n implies #[trigger] flags[k] == (k >= 2 && free_below(
                k,
                i + 1,
            )) by {
                lemma_free_below_step(k, i as int);
            }
        } else {
            assert forall|k: int| 0 <= k <= n implies #[trigger] flags[k] == (k >= 2 && free_below(
                k,
                i + 1,
            )) by {
                lemma_composite_adds_nothing(k, i as int);
            }
        }
        i = i + 1;
    }
    proof {
        lemma_fundamental_div_mod(n as int, i as int);
        assert(i * i > n) by (nonlinear_arith)
            requires
                i > n / i,
                n == i * (n / i) + n % i,
                n % i < i,
                i > 0,
        ;
    }
    assert forall|k: int| 0 <= k <= n implies #[trigger] flags[k] == is_prime(k) by {
        if k >= 2 {
            lemma_prime_iff_free_below(k, i as int);
        }
    }
    flags
}


/// Counting primes never outruns counting all numbers.
pub proof fn lemma_prime_count_bounded(n: int)
    ensures
        prime_count(n) <= if n < 0 { 0 } else { n },
    decreases n,
{
    if n >= 2 {
        lemma_prime_count_bounded(n - 1);
    }
}

/// `prime_count` never decreases.
pub proof fn lemma_prime_count_monotone(a: int, b: int)
    requires
        a <= b,
    ensures
        prime_count(a) <= prime_count(b),
    decreases b - a,
{
    if a < b {
        lemma_prime_count_monotone(a, b - 1);
    }
}

/// The number of primes `p <= limit`, counted with one sieve over `0..=limit`.
pub fn count_primes_sequential(limit: u64) -> (count: usize)
    requires
        limit < isize::MAX,
    ensures
        count == prime_count(limit as int),
{
    if limit < 2 {
        return 0;
    }
    let n = limit as usize;
    let flags = sieve(n);
    let mut count: usize = 0;
    let mut k: usize = 0;
    while k <= n
        invariant
            k <= n + 1,
            1 <= n < isize::MAX,
            n == limit,
            flags.len() == n + 1,
            forall|i: int| 0 <= i <= n ==> #[trigger] flags[i] == is_prime(i),
            count == prime_count(k - 1),
            count <= k,
        decreases n + 1 - k,
    {
        if flags[k] {
            count = count + 1;
        }
        k = k + 1;
    }
    count
}

/// The integer square root: the largest `r` with `r * r <= n`.
pub fn isqrt(n: usize) -> (r: usize)
    ensures
        r * r <= n < (r + 1) * (r + 1),
{
    let mut r: usize = 0;
    loop
        invariant
            r * r <= n,
        decreases n - r,
    {
        proof {
            assert(r < usize::MAX && r <= n) by (nonlinear_arith)
                requires
                    r * r <= n,
                    n <= usize::MAX,
                    usize::MAX > 4,
            ;
        }
        let next = r + 1;
        if next > n / next {
            proof {
                lemma_fundamental_div_mod(n as int, next as int);
                assert(next * next > n) by (nonlinear_arith)
                    requires
                        next > n / next,
                        n == next * (n / next) + n % next,
                        n % next < next,
                        next > 0,
                ;
            }
            return r;
        }
        proof {
            lemma_fundamental_div_mod(n as int, next as int);
            assert(next * next <= n) by (nonlinear_arith)
                requires
                    next <= n / next,
                    n == next * (n / next) + n % next,
                    n % next >= 0,
                    next > 0,
            ;
        }
        r = next;
    }
}

/// The primes `p <= m`, in increasing order.
pub fn primes_up_to(m: usize) -> (ps: Vec<usize>)
    requires
        1 <= m < isize::MAX,
    ensures
        ps.len() == prime_count(m as int),
        forall|t: int| 0 <= t < ps.len() ==> is_prime(#[trigger] ps@[t] as int) && ps@[t] <= m,
        forall|t: int, u: int| 0 <= t < u < ps.len() ==> ps[t] < ps[u],
        forall|p: int| 0 <= p <= m && is_prime(p) ==> ps@.contains(p as usize),
{
    let flags = sieve(m);
    let mut ps: Vec<usize> = Vec::new();
    let mut k: usize = 0;
    while k <= m
        invariant
            k <= m + 1,
            1 <= m < isize::MAX,
            flags.len() == m + 1,
            forall|i: int| 0 <= i <= m ==> #[trigger] flags[i] == is_prime(i),
            ps.len() == prime_count(k - 1),
            ps.len() <= k,
            forall|t: int| 0 <= t < ps.len() ==> is_prime(#[trigger] ps@[t] as int) && ps@[t] < k,
            forall|t: int, u: int| 0 <= t < u < ps.len() ==> ps[t] < ps[u],
            forall|p: int| 0 <= p < k && is_prime(p) ==> ps@.contains(p as usize),
        decreases m + 1 - k,
    {
        let ghost old_ps = ps@;
        if flags[k] {
            ps.push(k);
            proof {
                assert forall|t: int| 0 <= t < ps.len() implies is_prime(#[trigger] ps@[t] as int)
                    && ps@[t] < k + 1 by {
                    if t < old_ps.len() {
                        assert(ps@[t] == old_ps[t]);
                    }
                }
                assert forall|t: int, u: int| 0 <= t < u < ps.len() implies ps[t] < ps[u] by {
                    if u < old_ps.len() {
                        assert(ps@[t] == old_ps[t] && ps@[u] == old_ps[u]);
                    } else {
                        assert(ps@[t] == old_ps[t]);
                        assert(old_ps[t] < k);
                    }
                }
                assert forall|p: int| 0 <= p < k + 1 && is_prime(p) implies ps@.contains(
                    p as usize,
                ) by {
                    if p < k {
                        let t = choose|t: int| 0 <= t < old_ps.len() && old_ps[t] == p as usize;
                        assert(ps@[t] == p as usize);
                    } else {
                        assert(ps@[ps.len() - 1] == p as usize);
                    }
                }
            }
        } else {
            proof {
                assert forall|p: int| 0 <= p < k + 1 && is_prime(p) implies ps@.contains(
                    p as usize,
                ) by {
                    assert(p != k);
                }
            }
        }
        k = k + 1;
    }
    ps
}


/// `j` is crossed out by `p` in a segmented sieve: a multiple of `p` at or
/// above `p * p`.
pub open spec fn struck(j: int, p: int) -> bool {
    j % p == 0 && p * p <= j
}

/// `j` is crossed out by one of the first `r` entries of `ps`.
pub open spec fn struck_by_any(j: int, ps: Seq<usize>, r: int) -> bool {
    exists|t: int| 0 <= t < r && #[trigger] struck(j, ps[t] as int)
}

/// Every `d >= 2` has a prime divisor `p <= d`.
pub proof fn lemma_has_prime_factor(d: int)
    requires
        d >= 2,
    ensures
        exists|p: int| is_prime(p) && p <= d && #[trigger] (d % p) == 0,
    decreases d,
{
    if is_prime(d) {
        lemma_mod_self_0(d);
        assert(is_prime(d) && d <= d && d % d == 0);
    } else {
        let e = choose|e: int| 2 <= e < d && #[trigger] (d % e) == 0;
        lemma_has_prime_factor(e);
        let p = choose|p: int| is_prime(p) && p <= e && #[trigger] (e % p) == 0;
        lemma_divides_trans(p, e, d);
        assert(is_prime(p) && p <= d && d % p == 0);
    }
}

/// With all primes `p`, `p * p <= high`, among the primes `ps`, a number
/// `2 <= j <= high` is prime exactly when no entry of `ps` crosses it out.
pub proof fn lemma_segment_flag(j: int, high: int, ps: Seq<usize>)
    requires
        2 <= j <= high <= usize::MAX,
        forall|t: int| 0 <= t < ps.len() ==> is_prime(#[trigger] ps[t] as int),
        forall|p: int| is_prime(p) && p * p <= high ==> ps.contains(p as usize),
    ensures
        is_prime(j) <==> !struck_by_any(j, ps, ps.len() as int),
{
    if is_prime(j) && struck_by_any(j, ps, ps.len() as int) {
        let t = choose|t: int| 0 <= t < ps.len() && #[trigger] struck(j, ps[t] as int);
        let p = ps[t] as int;
        assert(is_prime(p));
        assert(p < j) by (nonlinear_arith)
            requires
                p >= 2,
                p * p <= j,
        ;
        assert(j % p != 0);
    }
    if !is_prime(j) {
        assert((j + 1) * (j + 1) > j) by (nonlinear_arith)
            requires
                j >= 2,
        ;
        lemma_prime_iff_free_below(j, j + 1);
        let d = choose|d: int| 2 <= d < j + 1 && d * d <= j && #[trigger] (j % d) == 0;
        lemma_has_prime_factor(d);
        let p = choose|p: int| is_prime(p) && p <= d && #[trigger] (d % p) == 0;
        assert(p * p <= j) by (nonlinear_arith)
            requires
                2 <= p <= d,
                d * d <= j,
        ;
        assert(ps.contains(p as usize));
        let t = choose|t: int| 0 <= t < ps.len() && ps[t] == p as usize;
        assert(ps[t] as int == p);
        lemma_divides_trans(p, d, j);
        assert(struck(j, ps[t] as int));
    }
}

/// The least multiple of `p` that is at least `low` and at least `p * p`.
proof fn lemma_first_multiple(low: int, p: int, k: int)
    requires
        p >= 1,
        low >= 0,
        k % p == 0,
        k >= low,
        k >= p * p,
    ensures
        k >= p * p,
        k >= ((low + p - 1) / p) * p,
{
    let c = (low + p - 1) / p;
    lemma_fundamental_div_mod(low + p - 1, p);
    lemma_fundamental_div_mod(k, p);
    let m = k / p;
    assert(k == m * p) by (nonlinear_arith)
        requires
            k == p * m + k % p,
            k % p == 0,
    ;
    assert(c * p <= k) by (nonlinear_arith)
        requires
            low + p - 1 == p * c + (low + p - 1) % p,
            0 <= (low + p - 1) % p < p,
            k == m * p,
            k >= low,
            p >= 1,
    ;
}

/// The number of primes in `low..=high`, sieved with the primes `base`,
/// which must hold every prime `p` with `p * p <= high`.
pub fn count_primes_in_segment(low: usize, high: usize, base: &Vec<usize>) -> (count: usize)
    requires
        2 <= low <= high < isize::MAX,
        forall|t: int|
            0 <= t < base.len() ==> is_prime(#[trigger] base@[t] as int) && base@[t] <= high
                && base@[t] * base@[t] <= usize::MAX,
        forall|p: int| is_prime(p) && p * p <= high ==> base@.contains(p as usize),
    ensures
        count == prime_count(high as int) - prime_count(low - 1),
{
    let size = high - low + 1;
    let mut seg: Vec<bool> = vec![true; size];
    assert forall|i: int| 0 <= i < size implies #[trigger] seg[i] == !struck_by_any(
        low + i,
        base@,
        0,
    ) by {
        assert(cloned(true, seg@[i]));
    }
    let mut r: usize = 0;
    while r < base.len()
        invariant
            2 <= low <= high < isize::MAX,
            size == high - low + 1,
            seg.len() == size,
            r <= base.len(),
            forall|t: int|
                0 <= t < base.len() ==> is_prime(#[trigger] base@[t] as int) && base@[t] <= high
                    && base@[t] * base@[t] <= usize::MAX,
            forall|i: int| 0 <= i < size ==> #[trigger] seg[i] == !struck_by_any(low + i, base@, r as int),
        decreases base.len() - r,
    {
        let p = base[r];
        assert(is_prime(base@[r as int] as int));
        let c = (low + p - 1) / p;
        proof {
            let x: int = low + p - 1;
            let pi: int = p as int;
            lemma_fundamental_div_mod(x, pi);
            assert(c == x / pi);
            assert(c * p <= low + p - 1 && c * p >= low) by (nonlinear_arith)
                requires
                    x == pi * (x / pi) + x % pi,
                    0 <= x % pi < pi,
                    c == x / pi,
                    pi == p,
                    x == low + p - 1,
            ;
        }
        let above = c * p;
        let square = p * p;
        let start = if square > above {
            square
        } else {
            above
        };
        proof {
            lemma_fundamental_div_mod((low + p - 1) as int, p as int);
            assert(above >= low);
        }
        let mut j = start;
        let ghost mut q: int = (start as int) / (p as int);
        proof {
            lemma_fundamental_div_mod(start as int, p as int);
            lemma_mod_multiples_basic((low + p - 1) as int / (p as int), p as int);
            lemma_mod_multiples_basic(p as int, p as int);
            assert forall|i: int| 0 <= i < size implies #[trigger] seg[i] == !(struck_by_any(
                low + i,
                base@,
                r as int,
            ) || (struck(low + i, p as int) && low + i < j)) by {
                if struck(low + i, p as int) && low + i < j {
                    lemma_first_multiple(low as int, p as int, low + i);
                }
            }
        }
        if start <= high {
            while j <= high
                invariant
                    2 <= low <= high < isize::MAX,
                    size == high - low + 1,
                    seg.len() == size,
                    2 <= p <= high,
                    p * p <= j,
                    low <= j,
                    j == q * p,
                    j <= high + p,
                    forall|i: int|
                        0 <= i < size ==> #[trigger] seg[i] == !(struck_by_any(low + i, base@, r as int)
                            || (struck(low + i, p as int) && low + i < j)),
                decreases high + p - j,
            {
                seg.set(j - low, false);
                proof {
                    assert(j == p * q) by (nonlinear_arith)
                        requires
                            j == q * p,
                    ;
                    assert forall|k: int| j < k < j + p implies #[trigger] (k % (p as int)) != 0 by {
                        lemma_mod_multiples_vanish(q, k - j, p as int);
                        lemma_small_mod((k - j) as nat, p as nat);
                    }
                    lemma_mod_multiples_basic(q, p as int);
                }
                j = j + p;
                proof {
                    q = q + 1;
                    assert(j == q * p) by (nonlinear_arith)
                        requires
                            j == (q - 1) * p + p,
                    ;
                }
            }
        }
        assert forall|i: int| 0 <= i < size implies #[trigger] seg[i] == !(struck_by_any(
            low + i,
            base@,
            r as int,
        ) || struck(low + i, p as int)) by {
            assert(low + i <= high);
        }
        proof {
            assert forall|i: int| 0 <= i < size implies #[trigger] seg[i] == !struck_by_any(
                low + i,
                base@,
                r + 1,
            ) by {
                let k = low + i;
                if struck_by_any(k, base@, r + 1) && !struck_by_any(k, base@, r as int) {
                    let t = choose|t: int| 0 <= t < r + 1 && #[trigger] struck(k, base@[t] as int);
                    assert(t == r);
                }
                if struck(k, p as int) {
                    assert(struck(k, base@[r as int] as int));
                }
                if struck_by_any(k, base@, r as int) {
                    let t = choose|t: int| 0 <= t < r && #[trigger] struck(k, base@[t] as int);
                    assert(struck(k, base@[t] as int));
                }
            }
        }
        r = r + 1;
    }
    let mut count: usize = 0;
    let mut i: usize = 0;
    while i < size
        invariant
            2 <= low <= high < isize::MAX,
            size == high - low + 1,
            seg.len() == size,
            i <= size,
            forall|t: int| 0 <= t < base.len() ==> is_prime(#[trigger] base@[t] as int),
            forall|p: int| is_prime(p) && p * p <= high ==> base@.contains(p as usize),
            forall|k: int| 0 <= k < size ==> #[trigger] seg[k] == !struck_by_any(low + k, base@, base.len() as int),
            count == prime_count(low + i - 1) - prime_count(low - 1),
            count <= i,
        decreases size - i,
    {
        proof {
            lemma_segment_flag(low + i, high as int, base@);
            lemma_prime_count_monotone(low - 1, low + i - 1);
        }
        if seg[i] {
            count = count + 1;
        }
        i = i + 1;
    }
    count
}


/// Length of each of the `threads` consecutive segments that together cover
/// `sqrt_n + 1 ..= n`.
pub open spec fn segment_len(n: int, sqrt_n: int, threads: int) -> int {
    (n - sqrt_n + threads - 1) / threads
}

/// First number of segment `t`.
pub open spec fn segment_low(n: int, sqrt_n: int, threads: int, t: int) -> int {
    sqrt_n + 1 + t * segment_len(n, sqrt_n, threads)
}

/// Last number of segment `t` (the segment is empty when below its start).
pub open spec fn segment_high(n: int, sqrt_n: int, threads: int, t: int) -> int {
    let h = segment_low(n, sqrt_n, threads, t) + segment_len(n, sqrt_n, threads) - 1;
    if h < n {
        h
    } else {
        n
    }
}

/// Facts about the segment length used for bounds: it is positive, the
/// segments together reach `n`, and segment `t < threads` stays in range.
proof fn lemma_segment_arith(n: int, sqrt_n: int, threads: int, t: int)
    requires
        0 <= sqrt_n < n,
        threads >= 1,
        0 <= t < threads,
    ensures
        segment_len(n, sqrt_n, threads) >= 1,
        threads * segment_len(n, sqrt_n, threads) >= n - sqrt_n,
        t * segment_len(n, sqrt_n, threads) + segment_len(n, sqrt_n, threads) <= n - sqrt_n
            + threads - 1,
        t * segment_len(n, sqrt_n, threads) >= 0,
        (t + 1) * segment_len(n, sqrt_n, threads) == t * segment_len(n, sqrt_n, threads)
            + segment_len(n, sqrt_n, threads),
{
    let x = n - sqrt_n + threads - 1;
    let c = segment_len(n, sqrt_n, threads);
    lemma_fundamental_div_mod(x, threads);
    assert(c >= 1 && threads * c >= n - sqrt_n && threads * c <= x) by (nonlinear_arith)
        requires
            x == threads * c + x % threads,
            0 <= x % threads < threads,
            x == n - sqrt_n + threads - 1,
            n - sqrt_n >= 1,
            threads >= 1,
    ;
    assert(t * c + c <= threads * c && t * c >= 0 && (t + 1) * c == t * c + c) by (nonlinear_arith)
        requires
            0 <= t < threads,
            c >= 1,
    ;
}

/// Bounds `(low, high)` of segment `t` of `threads`, or `None` when that
/// segment lies beyond `n`.
pub fn segment_bounds(n: usize, sqrt_n: usize, threads: usize, t: usize) -> (b: Option<
    (usize, usize),
>)
    requires
        1 <= threads <= isize::MAX,
        sqrt_n < n < isize::MAX,
        t < threads,
    ensures
        match b {
            Some((low, high)) => {
                &&& low == segment_low(n as int, sqrt_n as int, threads as int, t as int)
                &&& high == segment_high(n as int, sqrt_n as int, threads as int, t as int)
                &&& low <= high
            },
            None => segment_low(n as int, sqrt_n as int, threads as int, t as int) > segment_high(
                n as int,
                sqrt_n as int,
                threads as int,
                t as int,
            ),
        },
{
    proof {
        lemma_segment_arith(n as int, sqrt_n as int, threads as int, t as int);
    }
    let chunk = (n - sqrt_n + threads - 1) / threads;
    let low = sqrt_n + 1 + t * chunk;
    let end = low + chunk - 1;
    let high = if end < n {
        end
    } else {
        n
    };
    if low <= high {
        Some((low, high))
    } else {
        None
    }
}

/// The number of primes `p <= limit`, counted with a segmented sieve: the
/// primes up to the square root first, then `threads` segments of the rest.
pub fn count_primes_parallel(limit: u64, threads: usize) -> (count: usize)
    requires
        limit < isize::MAX,
        1 <= threads <= isize::MAX,
    ensures
        count == prime_count(limit as int),
{
    if limit < 2 {
        return 0;
    }
    let n = limit as usize;
    let sqrt_n = isqrt(n);
    proof {
        assert(1 <= sqrt_n < n) by (nonlinear_arith)
            requires
                sqrt_n * sqrt_n <= n < (sqrt_n + 1) * (sqrt_n + 1),
                n >= 2,
        ;
    }
    let base = primes_up_to(sqrt_n);
    let ghost c = segment_len(n as int, sqrt_n as int, threads as int);
    proof {
        lemma_segment_arith(n as int, sqrt_n as int, threads as int, 0);
    }
    let mut total: usize = 0;
    let mut t: usize = 0;
    while t < threads
        invariant
            t <= threads,
            1 <= threads <= isize::MAX,
            2 <= n < isize::MAX,
            1 <= sqrt_n < n,
            sqrt_n * sqrt_n <= n < (sqrt_n + 1) * (sqrt_n + 1),
            c == segment_len(n as int, sqrt_n as int, threads as int),
            c >= 1,
            threads * c >= n - sqrt_n,
            forall|i: int| 0 <= i < base.len() ==> is_prime(#[trigger] base@[i] as int) && base@[i] <= sqrt_n,
            forall|p: int| 0 <= p <= sqrt_n && is_prime(p) ==> base@.contains(p as usize),
            total == prime_count(if sqrt_n + t * c < n { sqrt_n + t * c } else { n as int })
                - prime_count(sqrt_n as int),
            total <= n,
        decreases threads - t,
    {
        proof {
            lemma_segment_arith(n as int, sqrt_n as int, threads as int, t as int);
        }
        let ghost low_t = segment_low(n as int, sqrt_n as int, threads as int, t as int);
        let ghost high_t = segment_high(n as int, sqrt_n as int, threads as int, t as int);
        match segment_bounds(n, sqrt_n, threads, t) {
            Some((low, high)) => {
                proof {
                    assert forall|i: int| 0 <= i < base.len() implies is_prime(
                        #[trigger] base@[i] as int,
                    ) && base@[i] <= high && base@[i] * base@[i] <= usize::MAX by {
                        let b = base@[i] as int;
                        assert(b * b <= sqrt_n * sqrt_n) by (nonlinear_arith)
                            requires
                                0 <= b <= sqrt_n,
                        ;
                    }
                    assert forall|p: int| is_prime(p) && p * p <= high implies base@.contains(
                        p as usize,
                    ) by {
                        assert(p <= sqrt_n) by (nonlinear_arith)
                            requires
                                p * p <= high,
                                high <= n,
                                n < (sqrt_n + 1) * (sqrt_n + 1),
                                p >= 2,
                                sqrt_n >= 1,
                        ;
                    }
                }
                let part = count_primes_in_segment(low, high, &base);
                proof {
                    lemma_prime_count_monotone(sqrt_n as int, low - 1);
                    lemma_prime_count_monotone(low - 1, high as int);
                    lemma_prime_count_bounded(high as int);
                }
                total = total + part;
            },
            None => {},
        }
        t = t + 1;
    }
    proof {
        lemma_prime_count_bounded(sqrt_n as int);
    }
    base.len() + total
}

/// The benchmark counts with the segmented sieve only when it has more than
/// one core to use and at least ten thousand numbers to sieve.
pub fn use_parallel_sieve(limit: u64, num_cores: usize) -> (parallel: bool)
    ensures
        parallel == (num_cores > 1 && limit >= 10000),
{
    !(num_cores <= 1 || limit < 10000)
}

} // verus!
