use vstd::prelude::*;

use vstd::arithmetic::div_mod::lemma_fundamental_div_mod;

verus! {

/// Whether `p` is prime: at least 2, with no divisor strictly between
/// 1 and itself.
pub open spec fn is_prime(p: int) -> bool {
    p >= 2 && forall|d: int| 2 <= d < p ==> #[trigger] (p % d) != 0
}

/// Whether `c` is a product a * b with 2 <= a < bound and a <= b, and
/// at most `n`: the numbers the sieve has crossed out once its outer
/// pass has tried every factor below `bound`.
spec fn crossed_upto(c: int, bound: int, n: int) -> bool {
    exists|a: int, b: int| 2 <= a < bound && a <= b && #[trigger] (a * b) == c && c <= n
}

/// Whether `c` is a multiple a * b of the fixed factor `a` with
/// a <= b < m, at most `n`: one row of the sieve, partly walked.
spec fn in_row(c: int, a: int, m: int, n: int) -> bool {
    exists|b: int| a <= b < m && #[trigger] (a * b) == c && c <= n
}

/// Pushing onto a sequence adds exactly one member.
proof fn lemma_contains_push(s: Seq<u32>, x: u32, c: u32)
    ensures
        s.push(x).contains(c) <==> (s.contains(c) || c == x),
{
    if s.push(x).contains(c) {
        let t = choose|t: int| 0 <= t < s.push(x).len() && s.push(x)[t] == c;
        if t < s.len() {
            assert(s[t] == c);
        }
    }
    if s.contains(c) {
        let t = choose|t: int| 0 <= t < s.len() && s[t] == c;
        assert(s.push(x)[t] == c);
    }
    if c == x {
        assert(s.push(x)[s.len() as int] == c);
    }
}

/// A number crossed out as a product of two factors of at least 2 is
/// not prime: the smaller factor divides it properly.
proof fn lemma_crossed_not_prime(c: int, bound: int, n: int)
    requires
        crossed_upto(c, bound, n),
    ensures
        !is_prime(c),
{
    let (a, b) = choose|a: int, b: int|
        2 <= a < bound && a <= b && #[trigger] (a * b) == c && c <= n;
    assert(c % a == 0 && a < c) by (nonlinear_arith)
        requires
            c == a * b,
            2 <= a,
            a <= b,
    ;
}

/// A composite number no more than `n` has a factorization whose
/// smaller factor lies below `bound`, whenever bound * bound > n: the
/// sieve crosses every composite out.
proof fn lemma_composite_crossed(c: int, bound: int, n: int)
    requires
        2 <= c <= n,
        !is_prime(c),
        2 <= bound,
        bound * bound > n,
    ensures
        crossed_upto(c, bound, n),
{
    let d = choose|d: int| 2 <= d < c && #[trigger] (c % d) == 0;
    lemma_fundamental_div_mod(c, d);
    let q = c / d;
    assert(c == d * q);
    assert(q >= 2) by (nonlinear_arith)
        requires
            c == d * q,
            2 <= d < c,
    ;
    let a = if d <= q {
        d
    } else {
        q
    };
    let b = if d <= q {
        q
    } else {
        d
    };
    assert(a * b == c && a * a <= c) by (nonlinear_arith)
        requires
            c == d * q,
            a == (if d <= q { d } else { q }),
            b == (if d <= q { q } else { d }),
            2 <= d,
            2 <= q,
    ;
    assert(a < bound) by (nonlinear_arith)
        requires
            a * a <= c <= n,
            bound * bound > n,
            a >= 0,
            bound >= 0,
    ;
    assert(2 <= a < bound && a <= b && (a * b) == c && c <= n);
}

/// Whether the vector holds the value.
fn contains_u32(v: &Vec<u32>, x: u32) -> (r: bool)
    ensures
        r == v@.contains(x),
{
    let mut idx: usize = 0;
    while idx < v.len()
        invariant
            0 <= idx <= v@.len(),
            forall|t: int| 0 <= t < idx ==> v@[t] != x,
        decreases v@.len() - idx,
    {
        if v[idx] == x {
            proof {
                assert(v@.contains(x));
            }
            return true;
        }
        idx += 1;
    }
    false
}

/// Find all prime numbers less than `n`, in increasing order.
/// For example, `sieve(7)` should return `[2, 3, 5]`.
pub fn sieve(n: u32) -> (result: Vec<u32>)
    requires
        n > 1,
    ensures
        forall|s: int, t: int| 0 <= s < t < result@.len() ==> result@[s] < result@[t],
        forall|p: u32| result@.contains(p) <==> (2 <= p < n && is_prime(p as int)),
{
    let mut crossed: Vec<u32> = Vec::new();
    let mut i: u32 = 2;
    let mut i_sq: u64 = 4;
    while i_sq <= (n as u64)
        invariant
            2 <= i <= n,
            i_sq as int == (i as int) * (i as int),
            forall|c: u32| #[trigger] crossed@.contains(c) <==> crossed_upto(c as int, i as int, n as int),
        decreases n - i,
    {
        let ghost i0 = i as int;
        let mut j: u64 = i_sq;
        let ghost mut m: int = i as int;
        while j <= (n as u64)
            invariant
                2 <= i0 <= n,
                i0 == i as int,
                2 <= n,
                j as int == i0 * m,
                i0 <= m,
                forall|c: u32| #[trigger] crossed@.contains(c) <==> (crossed_upto(c as int, i0, n as int) || in_row(c as int, i0, m, n as int)),
            decreases n as int + i0 - j as int,
        {
            let c0: u32 = j as u32;
            let ghost prev = crossed@;
            crossed.push(c0);
            proof {
                assert(c0 as int == i0 * m && c0 as int <= n as int);
                assert forall|c: u32| #[trigger] crossed@.contains(c) <==> (crossed_upto(
                    c as int,
                    i0,
                    n as int,
                ) || in_row(c as int, i0, m + 1, n as int)) by {
                    lemma_contains_push(prev, c0, c);
                    if in_row(c as int, i0, m + 1, n as int) {
                        let b = choose|b: int|
                            i0 <= b < m + 1 && #[trigger] (i0 * b) == c as int && c as int
                                <= n as int;
                        if b < m {
                            assert(in_row(c as int, i0, m, n as int));
                        } else {
                            assert(c as int == i0 * m);
                            assert(c == c0);
                        }
                    }
                    if in_row(c as int, i0, m, n as int) {
                        let b = choose|b: int|
                            i0 <= b < m && #[trigger] (i0 * b) == c as int && c as int <= n as int;
                        assert(i0 <= b < m + 1 && (i0 * b) == c as int);
                        assert(in_row(c as int, i0, m + 1, n as int));
                    }
                    if c == c0 {
                        assert(i0 <= m < m + 1 && (i0 * m) == c as int);
                        assert(in_row(c as int, i0, m + 1, n as int));
                    }
                };
                assert(i0 * (m + 1) == i0 * m + i0) by (nonlinear_arith);
                m = m + 1;
            }
            j = j + (i as u64);
        }
        proof {
            assert forall|c: u32| (crossed_upto(c as int, i0, n as int) || in_row(
                c as int,
                i0,
                m,
                n as int,
            )) <==> crossed_upto(c as int, i0 + 1, n as int) by {
                if crossed_upto(c as int, i0, n as int) {
                    let (a, b) = choose|a: int, b: int|
                        2 <= a < i0 && a <= b && #[trigger] (a * b) == c as int && c as int
                            <= n as int;
                    assert(2 <= a < i0 + 1 && a <= b && (a * b) == c as int);
                    assert(crossed_upto(c as int, i0 + 1, n as int));
                }
                if in_row(c as int, i0, m, n as int) {
                    let b = choose|b: int|
                        i0 <= b < m && #[trigger] (i0 * b) == c as int && c as int <= n as int;
                    assert(2 <= i0 < i0 + 1 && i0 <= b && (i0 * b) == c as int);
                    assert(crossed_upto(c as int, i0 + 1, n as int));
                }
                if crossed_upto(c as int, i0 + 1, n as int) {
                    let (a, b) = choose|a: int, b: int|
                        2 <= a < i0 + 1 && a <= b && #[trigger] (a * b) == c as int && c as int
                            <= n as int;
                    if a < i0 {
                        assert(crossed_upto(c as int, i0, n as int));
                    } else {
                        assert(a == i0);
                        assert(b < m) by (nonlinear_arith)
                            requires
                                i0 * b == c as int,
                                c as int <= n as int,
                                j as int == i0 * m,
                                j as int > n as int,
                                i0 >= 2,
                        ;
                        assert(i0 <= b < m && (i0 * b) == c as int);
                        assert(in_row(c as int, i0, m, n as int));
                    }
                }
            };
            assert((i as int) * (i as int) <= n as int);
            assert(i + 1 <= n) by (nonlinear_arith)
                requires
                    2 <= i as int,
                    (i as int) * (i as int) <= n as int,
            ;
            assert(i as int <= 0xffff) by (nonlinear_arith)
                requires
                    (i as int) * (i as int) <= 0xffff_ffff,
                    i as int >= 0,
            ;
            assert((i as int + 1) * (i as int + 1) <= 0x1_0000_0000) by (nonlinear_arith)
                requires
                    i as int <= 0xffff,
                    i as int >= 0,
            ;
        }
        i += 1;
        i_sq = (i as u64) * (i as u64);
    }
    let ghost ibound = i as int;
    proof {
        assert(ibound * ibound > n as int);
    }
    let mut result: Vec<u32> = Vec::new();
    let mut u: u32 = 2;
    while u < n
        invariant
            2 <= u <= n,
            2 <= ibound,
            ibound == i as int,
            ibound * ibound > n as int,
            forall|c: u32| #[trigger] crossed@.contains(c) <==> crossed_upto(c as int, ibound, n as int),
            forall|s: int, t: int| 0 <= s < t < result@.len() ==> result@[s] < result@[t],
            forall|t: int| 0 <= t < result@.len() ==> result@[t] < u,
            forall|p: u32| #[trigger] result@.contains(p) <==> (2 <= p < u && is_prime(p as int)),
        decreases n - u,
    {
        let hit = contains_u32(&crossed, u);
        let ghost prev = result@;
        proof {
            if hit {
                lemma_crossed_not_prime(u as int, ibound, n as int);
            } else {
                if !is_prime(u as int) {
                    lemma_composite_crossed(u as int, ibound, n as int);
                }
                assert(is_prime(u as int));
            }
        }
        if !hit {
            result.push(u);
            proof {
                assert forall|p: u32| #[trigger] result@.contains(p) <==> (2 <= p < u + 1
                    && is_prime(p as int)) by {
                    lemma_contains_push(prev, u, p);
                };
                assert forall|t: int| 0 <= t < result@.len() implies result@[t] < u + 1 by {
                    if t < prev.len() {
                        assert(prev[t] < u);
                        assert(result@[t] == prev[t]);
                    } else {
                        assert(result@[t] == u);
                    }
                };
                assert forall|s: int, t: int| 0 <= s < t < result@.len() implies result@[s]
                    < result@[t] by {
                    if t < prev.len() {
                        assert(prev[s] < prev[t]);
                    } else {
                        assert(result@[t] == u);
                        assert(prev.contains(prev[s]));
                        assert(result@[s] < u);
                    }
                };
            }
        } else {
            proof {
                assert forall|p: u32| #[trigger] result@.contains(p) <==> (2 <= p < u + 1
                    && is_prime(p as int)) by {
                    if p == u {
                        assert(!is_prime(p as int));
                    }
                };
            }
        }
        u += 1;
    }
    result
}

} // verus!
