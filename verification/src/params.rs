//! The tuning parameters of the procedure, derived from the number of
//! vertices by integer arithmetic alone.
//!
//! With `x = ln n`, the round count is `k = max(1, ceil(x^(1/3)))`, the
//! fan-out is `t = max(1, ceil(x^(2/3)))` and the recursion starts at level
//! `max(1, ceil(x / t))`.  Each is the least integer on the right side of a
//! threshold, and the thresholds are integer parts of powers of `e`.

use vstd::prelude::*;

verus! {

/// The integer part of `e^m`, for `m` up to 45.  The value at 45 is the
/// first that no 64-bit number reaches.
pub open spec fn exp_floor(m: nat) -> nat
    recommends
        m <= 45,
{
    if m == 0 {
        1
    } else if m == 1 {
        2
    } else if m == 2 {
        7
    } else if m == 3 {
        20
    } else if m == 4 {
        54
    } else if m == 5 {
        148
    } else if m == 6 {
        403
    } else if m == 7 {
        1096
    } else if m == 8 {
        2980
    } else if m == 9 {
        8103
    } else if m == 10 {
        22026
    } else if m == 11 {
        59874
    } else if m == 12 {
        162754
    } else if m == 13 {
        442413
    } else if m == 14 {
        1202604
    } else if m == 15 {
        3269017
    } else if m == 16 {
        8886110
    } else if m == 17 {
        24154952
    } else if m == 18 {
        65659969
    } else if m == 19 {
        178482300
    } else if m == 20 {
        485165195
    } else if m == 21 {
        1318815734
    } else if m == 22 {
        3584912846
    } else if m == 23 {
        9744803446
    } else if m == 24 {
        26489122129
    } else if m == 25 {
        72004899337
    } else if m == 26 {
        195729609428
    } else if m == 27 {
        532048240601
    } else if m == 28 {
        1446257064291
    } else if m == 29 {
        3931334297144
    } else if m == 30 {
        10686474581524
    } else if m == 31 {
        29048849665247
    } else if m == 32 {
        78962960182680
    } else if m == 33 {
        214643579785916
    } else if m == 34 {
        583461742527454
    } else if m == 35 {
        1586013452313430
    } else if m == 36 {
        4311231547115195
    } else if m == 37 {
        11719142372802611
    } else if m == 38 {
        31855931757113756
    } else if m == 39 {
        86593400423993746
    } else if m == 40 {
        235385266837019985
    } else if m == 41 {
        639843493530054949
    } else if m == 42 {
        1739274941520501047
    } else if m == 43 {
        4727839468229346561
    } else if m == 44 {
        12851600114359308275
    } else {
        34934271057485095348
    }
}

/// The integer part of `e^(t * sqrt(t))`, for `t` from 1 to 13.  The value
/// at 13 is the first that no 64-bit number reaches.
pub open spec fn exp_three_halves_floor(t: nat) -> nat
    recommends
        1 <= t <= 13,
{
    if t == 1 {
        2
    } else if t == 2 {
        16
    } else if t == 3 {
        180
    } else if t == 4 {
        2980
    } else if t == 5 {
        71706
    } else if t == 6 {
        2414344
    } else if t == 7 {
        110470511
    } else if t == 8 {
        6713706352
    } else if t == 9 {
        532048240601
    } else if t == 10 {
        54149865291659
    } else if t == 11 {
        6987314557826780
    } else if t == 12 {
        1130531309658581180
    } else {
        227155523204321090603
    }
}

/// The least `m` at or after `from` with `n <= e^m`.
pub open spec fn ln_ceil_from(n: nat, from: nat) -> nat
    decreases 45 - from,
{
    if from >= 45 || n <= exp_floor(from) {
        from
    } else {
        ln_ceil_from(n, from + 1)
    }
}

/// `ceil(ln n)` for a 64-bit `n`, and 0 for `n = 0`.
pub open spec fn ln_ceil(n: nat) -> nat
    recommends
        n <= u64::MAX,
{
    ln_ceil_from(n, 0)
}

/// The least `k >= 1` with `k^3 >= m`, for `m` up to 64.
pub open spec fn cbrt_ceil(m: nat) -> nat
    recommends
        m <= 64,
{
    if m <= 1 {
        1
    } else if m <= 8 {
        2
    } else if m <= 27 {
        3
    } else {
        4
    }
}

/// The round count for a graph of `n` vertices.
pub open spec fn param_k(n: nat) -> nat {
    cbrt_ceil(ln_ceil(n))
}

/// The least `t` at or after `from` with `n <= e^(t * sqrt(t))`.
pub open spec fn param_t_from(n: nat, from: nat) -> nat
    decreases 13 - from,
{
    if from >= 13 || n <= exp_three_halves_floor(from) {
        from
    } else {
        param_t_from(n, from + 1)
    }
}

/// The fan-out for a graph of `n` vertices.
pub open spec fn param_t(n: nat) -> nat {
    param_t_from(n, 1)
}

/// The level at which the recursion starts for `n` vertices and fan-out
/// `t`: the least `l >= 1` with `l * t >= ln n`.
pub open spec fn level_count(n: nat, t: nat) -> nat
    recommends
        t >= 1,
{
    if ln_ceil(n) == 0 {
        1
    } else {
        ((ln_ceil(n) - 1) / (t as int) + 1) as nat
    }
}

/// The search from `from` ends at the first threshold that reaches `n`.
proof fn lemma_ln_ceil_from(n: nat, from: nat)
    requires
        n <= u64::MAX,
        from <= 45,
        from > 0 ==> exp_floor((from - 1) as nat) < n,
    ensures
        from <= ln_ceil_from(n, from) <= 45,
        n <= exp_floor(ln_ceil_from(n, from)),
        ln_ceil_from(n, from) > 0 ==> exp_floor((ln_ceil_from(n, from) - 1) as nat) < n,
    decreases 45 - from,
{
    if from < 45 && n > exp_floor(from) {
        lemma_ln_ceil_from(n, from + 1);
    }
}

/// `ln_ceil(n)` is the least `m` with `n <= e^m`.
pub proof fn lemma_ln_ceil_least(n: nat)
    requires
        n <= u64::MAX,
    ensures
        ln_ceil(n) <= 45,
        n <= exp_floor(ln_ceil(n)),
        ln_ceil(n) > 0 ==> exp_floor((ln_ceil(n) - 1) as nat) < n,
{
    lemma_ln_ceil_from(n, 0);
}

/// The search from `from` ends at the first threshold that reaches `n`.
proof fn lemma_param_t_from(n: nat, from: nat)
    requires
        n <= u64::MAX,
        1 <= from <= 13,
        from > 1 ==> exp_three_halves_floor((from - 1) as nat) < n,
    ensures
        from <= param_t_from(n, from) <= 13,
        n <= exp_three_halves_floor(param_t_from(n, from)),
        param_t_from(n, from) > 1 ==> exp_three_halves_floor((param_t_from(n, from) - 1) as nat) < n,
    decreases 13 - from,
{
    if from < 13 && n > exp_three_halves_floor(from) {
        lemma_param_t_from(n, from + 1);
    }
}

/// The fan-out is the least `t >= 1` with `n <= e^(t * sqrt(t))`.
pub proof fn lemma_param_t_least(n: nat)
    requires
        n <= u64::MAX,
    ensures
        1 <= param_t(n) <= 13,
        n <= exp_three_halves_floor(param_t(n)),
        param_t(n) > 1 ==> exp_three_halves_floor((param_t(n) - 1) as nat) < n,
{
    lemma_param_t_from(n, 1);
}

/// The round count is the least `k >= 1` whose cube reaches `ceil(ln n)`.
pub proof fn lemma_param_k_least(n: nat)
    requires
        n <= u64::MAX,
    ensures
        1 <= param_k(n) <= 4,
        ln_ceil(n) <= param_k(n) * param_k(n) * param_k(n),
        param_k(n) > 1 ==> (param_k(n) - 1) * (param_k(n) - 1) * (param_k(n) - 1) < ln_ceil(n),
{
    lemma_ln_ceil_least(n);
    let k = param_k(n) as int;
    if k == 1 {
        assert(k * k * k == 1) by (nonlinear_arith)
            requires
                k == 1,
        ;
    } else if k == 2 {
        assert(k * k * k == 8 && (k - 1) * (k - 1) * (k - 1) == 1) by (nonlinear_arith)
            requires
                k == 2,
        ;
    } else if k == 3 {
        assert(k * k * k == 27 && (k - 1) * (k - 1) * (k - 1) == 8) by (nonlinear_arith)
            requires
                k == 3,
        ;
    } else {
        assert(k * k * k == 64 && (k - 1) * (k - 1) * (k - 1) == 27) by (nonlinear_arith)
            requires
                k == 4,
        ;
    }
}

/// The thresholds grow with the exponent.
proof fn lemma_exp_floor_monotone(a: nat, b: nat)
    requires
        a <= b <= 45,
    ensures
        exp_floor(a) <= exp_floor(b),
    decreases b - a,
{
    if a < b {
        lemma_exp_floor_monotone(a, (b - 1) as nat);
        assert(exp_floor((b - 1) as nat) <= exp_floor(b));
    }
}

/// The starting level is the least `l >= 1` with `l * t >= ceil(ln n)`.
pub proof fn lemma_level_count_least(n: nat, t: nat)
    requires
        n <= u64::MAX,
        t >= 1,
    ensures
        1 <= level_count(n, t) <= 45,
        ln_ceil(n) <= level_count(n, t) * t,
        level_count(n, t) > 1 ==> (level_count(n, t) - 1) * t < ln_ceil(n),
{
    lemma_ln_ceil_least(n);
    let m = ln_ceil(n) as int;
    let t = t as int;
    if m > 0 {
        let q = (m - 1) / t;
        assert(q * t <= m - 1 < (q + 1) * t && 0 <= q <= m - 1) by (nonlinear_arith)
            requires
                q == (m - 1) / t,
                t >= 1,
                m >= 1,
        ;
    }
}

/// With the fan-out that belongs to `n`, the recursion starts no higher
/// than the round count, which is at most four.
pub proof fn lemma_levels_within_rounds(n: nat)
    requires
        n <= u64::MAX,
    ensures
        level_count(n, param_t(n)) <= param_k(n) <= 4,
{
    lemma_ln_ceil_least(n);
    lemma_param_t_least(n);
    let m = ln_ceil(n) as int;
    let t = param_t(n) as int;
    let k = param_k(n) as int;
    if m > 0 {
        if t == 1 {
            if m > 1 {
                lemma_exp_floor_monotone(1, (m - 1) as nat);
            }
            assert(m <= 1);
            assert(m <= k * 1);
        } else if t == 2 {
            if m > 3 {
                lemma_exp_floor_monotone(3, (m - 1) as nat);
            }
            assert(m <= 3);
            assert(m <= k * 2);
        } else if t == 3 {
            if m > 6 {
                lemma_exp_floor_monotone(6, (m - 1) as nat);
            }
            assert(m <= 6);
            assert(m <= k * 3);
        } else if t == 4 {
            if m > 8 {
                lemma_exp_floor_monotone(8, (m - 1) as nat);
            }
            assert(m <= 8);
            assert(m <= k * 4);
        } else if t == 5 {
            if m > 12 {
                lemma_exp_floor_monotone(12, (m - 1) as nat);
            }
            assert(m <= 12);
            assert(m <= k * 5);
        } else if t == 6 {
            if m > 15 {
                lemma_exp_floor_monotone(15, (m - 1) as nat);
            }
            assert(m <= 15);
            assert(m <= k * 6);
        } else if t == 7 {
            if m > 19 {
                lemma_exp_floor_monotone(19, (m - 1) as nat);
            }
            assert(m <= 19);
            assert(m <= k * 7);
        } else if t == 8 {
            if m > 23 {
                lemma_exp_floor_monotone(23, (m - 1) as nat);
            }
            assert(m <= 23);
            assert(m <= k * 8);
        } else if t == 9 {
            if m > 27 {
                lemma_exp_floor_monotone(27, (m - 1) as nat);
            }
            assert(m <= 27);
            assert(m <= k * 9);
        } else if t == 10 {
            if m > 32 {
                lemma_exp_floor_monotone(32, (m - 1) as nat);
            }
            assert(m <= 32);
            assert(m <= k * 10);
        } else if t == 11 {
            if m > 37 {
                lemma_exp_floor_monotone(37, (m - 1) as nat);
            }
            assert(m <= 37);
            assert(m <= k * 11);
        } else if t == 12 {
            if m > 42 {
                lemma_exp_floor_monotone(42, (m - 1) as nat);
            }
            assert(m <= 42);
            assert(m <= k * 12);
        } else {
            assert(m <= k * 13);
        }
        assert((m - 1) / t + 1 <= k) by (nonlinear_arith)
            requires
                m <= k * t,
                t >= 1,
                m >= 1,
                k >= 1,
        ;
    }
}

fn exp_floor_value(m: usize) -> (r: u64)
    requires
        m <= 44,
    ensures
        r == exp_floor(m as nat),
{
    if m == 0 {
        1
    } else if m == 1 {
        2
    } else if m == 2 {
        7
    } else if m == 3 {
        20
    } else if m == 4 {
        54
    } else if m == 5 {
        148
    } else if m == 6 {
        403
    } else if m == 7 {
        1096
    } else if m == 8 {
        2980
    } else if m == 9 {
        8103
    } else if m == 10 {
        22026
    } else if m == 11 {
        59874
    } else if m == 12 {
        162754
    } else if m == 13 {
        442413
    } else if m == 14 {
        1202604
    } else if m == 15 {
        3269017
    } else if m == 16 {
        8886110
    } else if m == 17 {
        24154952
    } else if m == 18 {
        65659969
    } else if m == 19 {
        178482300
    } else if m == 20 {
        485165195
    } else if m == 21 {
        1318815734
    } else if m == 22 {
        3584912846
    } else if m == 23 {
        9744803446
    } else if m == 24 {
        26489122129
    } else if m == 25 {
        72004899337
    } else if m == 26 {
        195729609428
    } else if m == 27 {
        532048240601
    } else if m == 28 {
        1446257064291
    } else if m == 29 {
        3931334297144
    } else if m == 30 {
        10686474581524
    } else if m == 31 {
        29048849665247
    } else if m == 32 {
        78962960182680
    } else if m == 33 {
        214643579785916
    } else if m == 34 {
        583461742527454
    } else if m == 35 {
        1586013452313430
    } else if m == 36 {
        4311231547115195
    } else if m == 37 {
        11719142372802611
    } else if m == 38 {
        31855931757113756
    } else if m == 39 {
        86593400423993746
    } else if m == 40 {
        235385266837019985
    } else if m == 41 {
        639843493530054949
    } else if m == 42 {
        1739274941520501047
    } else if m == 43 {
        4727839468229346561
    } else {
        12851600114359308275
    }
}

fn exp_three_halves_floor_value(t: usize) -> (r: u64)
    requires
        1 <= t <= 12,
    ensures
        r == exp_three_halves_floor(t as nat),
{
    if t == 1 {
        2
    } else if t == 2 {
        16
    } else if t == 3 {
        180
    } else if t == 4 {
        2980
    } else if t == 5 {
        71706
    } else if t == 6 {
        2414344
    } else if t == 7 {
        110470511
    } else if t == 8 {
        6713706352
    } else if t == 9 {
        532048240601
    } else if t == 10 {
        54149865291659
    } else if t == 11 {
        6987314557826780
    } else {
        1130531309658581180
    }
}

/// Computes `ceil(ln n)`.
pub fn compute_ln_ceil(n: usize) -> (m: usize)
    ensures
        m == ln_ceil(n as nat),
        m <= 45,
{
    let mut m: usize = 0;
    while m < 45
        invariant
            m <= 45,
            ln_ceil(n as nat) == ln_ceil_from(n as nat, m as nat),
        decreases 45 - m,
    {
        if n as u64 <= exp_floor_value(m) {
            return m;
        }
        m += 1;
    }
    m
}

/// Computes the round count.
pub fn compute_k(n: usize) -> (k: usize)
    ensures
        k == param_k(n as nat),
        1 <= k <= 4,
{
    let m = compute_ln_ceil(n);
    if m <= 1 {
        1
    } else if m <= 8 {
        2
    } else if m <= 27 {
        3
    } else {
        4
    }
}

/// Computes the fan-out.
pub fn compute_t(n: usize) -> (t: usize)
    ensures
        t == param_t(n as nat),
        1 <= t <= 13,
{
    let mut t: usize = 1;
    while t < 13
        invariant
            1 <= t <= 13,
            param_t(n as nat) == param_t_from(n as nat, t as nat),
        decreases 13 - t,
    {
        if n as u64 <= exp_three_halves_floor_value(t) {
            return t;
        }
        t += 1;
    }
    t
}

/// Computes the level at which the recursion starts.
pub fn compute_levels(n: usize, t: usize) -> (l: usize)
    requires
        t >= 1,
    ensures
        l == level_count(n as nat, t as nat),
        1 <= l <= 45,
{
    let m = compute_ln_ceil(n);
    if m == 0 {
        1
    } else {
        (m - 1) / t + 1
    }
}

/// `th` is the least number whose cube reaches the square of `n`: the
/// integer `ceil(n^(2/3))`.
pub open spec fn is_frontier_threshold(n: nat, th: nat) -> bool {
    &&& th * th * th >= n * n
    &&& th > 0 ==> (th - 1) * (th - 1) * (th - 1) < n * n
}

/// The cube of `x`, which fits.
fn wide_cube(x: u64) -> (r: u128)
    requires
        x <= 6981463658331,
    ensures
        r == (x as nat) * (x as nat) * (x as nat),
{
    proof {
        assert((x as nat) * (x as nat) <= 6981463658331 * 6981463658331) by (nonlinear_arith)
            requires
                x <= 6981463658331,
        ;
        assert((x as nat) * (x as nat) * (x as nat) <= 6981463658331 * 6981463658331 * 6981463658331)
            by (nonlinear_arith)
            requires
                x <= 6981463658331,
                (x as nat) * (x as nat) <= 6981463658331 * 6981463658331,
        ;
    }
    let wide = x as u128;
    wide * wide * wide
}

/// Computes `ceil(n^(2/3))`, the frontier size up to which the hybrid
/// explores smallest estimate first.
pub fn frontier_threshold(n: usize) -> (th: usize)
    ensures
        is_frontier_threshold(n as nat, th as nat),
        n >= 1 ==> th >= 1,
        2 * th <= usize::MAX,
{
    let square: u128 = {
        proof {
            assert((n as nat) * (n as nat) <= 0xffff_ffff_ffff_ffff * 0xffff_ffff_ffff_ffff)
                by (nonlinear_arith)
                requires
                    n <= 0xffff_ffff_ffff_ffff,
            ;
        }
        (n as u128) * (n as u128)
    };
    let half: u64 = (usize::MAX / 2) as u64;
    let cap: u64 = if half < 6981463658332 {
        half
    } else {
        6981463658332
    };
    let mut lo: u64 = 0;
    let mut hi: u64 = if n as u64 <= cap {
        n as u64
    } else {
        cap
    };
    proof {
        let h = hi as nat;
        let nn = n as nat;
        if nn <= cap {
            if nn >= 1 {
                assert(nn * nn * nn >= nn * nn) by (nonlinear_arith)
                    requires
                        nn >= 1,
                ;
            } else {
                assert(nn * nn == 0 && nn * nn * nn == 0) by (nonlinear_arith)
                    requires
                        nn == 0,
                ;
            }
        } else if half < 6981463658332 {
            assert(usize::MAX == 0xffff_ffff);
            assert(nn * nn <= 0xffff_ffff * 0xffff_ffff) by (nonlinear_arith)
                requires
                    nn <= 0xffff_ffff,
            ;
            assert(h * h * h >= 0xffff_ffff * 0xffff_ffff) by (nonlinear_arith)
                requires
                    h == 0x7fff_ffff,
            ;
        } else {
            assert(h * h * h >= 0x1_0000_0000_0000_0000_0000_0000_0000_0000) by (nonlinear_arith)
                requires
                    h == 6981463658332,
            ;
        }
    }
    while lo < hi
        invariant
            lo <= hi <= cap,
            cap <= 6981463658332,
            cap <= usize::MAX / 2,
            square == (n as nat) * (n as nat),
            (hi as nat) * (hi as nat) * (hi as nat) >= square,
            lo > 0 ==> ((lo - 1) as nat) * ((lo - 1) as nat) * ((lo - 1) as nat) < square,
        decreases hi - lo,
    {
        let mid = lo + (hi - lo) / 2;
        if wide_cube(mid) >= square {
            hi = mid;
        } else {
            lo = mid + 1;
        }
    }
    proof {
        if n >= 1 && lo == 0 {
            assert((n as nat) * (n as nat) >= 1) by (nonlinear_arith)
                requires
                    n >= 1,
            ;
            assert((lo as nat) * (lo as nat) * (lo as nat) == 0) by (nonlinear_arith)
                requires
                    lo == 0,
            ;
        }
    }
    lo as usize
}

/// Two to the power `k`.
pub open spec fn two_to(k: nat) -> nat
    decreases k,
{
    if k == 0 {
        1
    } else {
        2 * two_to((k - 1) as nat)
    }
}

/// Computes `ceil(log2(len))`: the least `k` with `2^k >= len`.
pub fn log2_ceil(len: usize) -> (k: usize)
    ensures
        two_to(k as nat) >= len,
        k > 0 ==> two_to((k - 1) as nat) < len,
        k <= 64,
{
    let mut k: usize = 0;
    let mut power: u128 = 1;
    while power < len as u128
        invariant
            power == two_to(k as nat),
            k > 0 ==> two_to((k - 1) as nat) < len,
            k <= 64,
        decreases 64 - k,
    {
        proof {
            if k >= 64 {
                lemma_two_to_grows(64, k as nat);
            } else {
                lemma_two_to_grows(k as nat, 64);
            }
        }
        power = power * 2;
        k += 1;
    }
    k
}

/// Two to the power 64.
proof fn lemma_two_to_64()
    ensures
        two_to(64) == 0x1_0000_0000_0000_0000,
{
    assert(two_to(8) == 0x100) by {
        reveal_with_fuel(two_to, 9);
    }
    assert(two_to(16) == 0x10000) by {
        reveal_with_fuel(two_to, 9);
    }
    assert(two_to(24) == 0x1000000) by {
        reveal_with_fuel(two_to, 9);
    }
    assert(two_to(32) == 0x100000000) by {
        reveal_with_fuel(two_to, 9);
    }
    assert(two_to(40) == 0x10000000000) by {
        reveal_with_fuel(two_to, 9);
    }
    assert(two_to(48) == 0x1000000000000) by {
        reveal_with_fuel(two_to, 9);
    }
    assert(two_to(56) == 0x100000000000000) by {
        reveal_with_fuel(two_to, 9);
    }
    assert(two_to(64) == 0x10000000000000000) by {
        reveal_with_fuel(two_to, 9);
    }
}

/// Powers of two grow with the exponent; `2^64` is their value at 64.
proof fn lemma_two_to_grows(a: nat, b: nat)
    requires
        a <= b,
    ensures
        two_to(a) <= two_to(b),
        two_to(64) == 0x1_0000_0000_0000_0000,
        a < b ==> 2 * two_to(a) <= two_to(b),
    decreases b - a,
{
    lemma_two_to_64();
    if a < b {
        lemma_two_to_grows(a, (b - 1) as nat);
    }
}

} // verus!
