//! Integer square roots, proved exact for every `u32`.
use vstd::prelude::*;

verus! {

/// `r` is the floor of the square root of `n`: the largest non-negative
/// integer whose square does not exceed `n`.
pub open spec fn is_floor_sqrt(n: int, r: int) -> bool {
    0 <= r && r * r <= n && n < (r + 1) * (r + 1)
}

/// At most one integer is the floor square root of `n`, so `isqrt`'s result
/// is determined by its input.
pub proof fn lemma_floor_sqrt_unique(n: int, a: int, b: int)
    requires
        is_floor_sqrt(n, a),
        is_floor_sqrt(n, b),
    ensures
        a == b,
{
    if a < b {
        assert((a + 1) * (a + 1) <= b * b) by (nonlinear_arith)
            requires
                0 <= a < b,
        ;
    } else if b < a {
        assert((b + 1) * (b + 1) <= a * a) by (nonlinear_arith)
            requires
                0 <= b < a,
        ;
    }
}

/// On a perfect square the floor square root is exact: for every `k` whose
/// square fits in a `u32`, the floor square root of `k * k` is `k` and nothing
/// else, so `isqrt(k * k) == k`.
pub proof fn lemma_isqrt_of_square(k: u32)
    requires
        k * k <= u32::MAX,
    ensures
        forall|r: int| #[trigger] is_floor_sqrt(k * k, r) <==> r == k,
{
    let n = k * k;
    assert(n < (k + 1) * (k + 1)) by (nonlinear_arith)
        requires
            n == k * k,
            0 <= k,
    ;
    assert forall|r: int| #[trigger] is_floor_sqrt(n, r) implies r == k by {
        lemma_floor_sqrt_unique(n, r, k as int);
    }
}

/// One step of integer reciprocal averaging from a positive guess `g` never
/// falls below the floor square root of `n`, and strictly decreases any guess
/// whose square exceeds `n`.
proof fn lemma_newton_step(n: int, g: int)
    requires
        0 <= n,
        1 <= g,
    ensures
        n < ((g + n / g) / 2 + 1) * ((g + n / g) / 2 + 1),
        n < g * g ==> (g + n / g) / 2 < g,
        n < (g + 1) * (g + 1) ==> n / g <= g + 2,
{
    let q = n / g;
    let m = (g + q) / 2;
    assert(n == q * g + n % g && 0 <= n % g < g) by {
        vstd::arithmetic::div_mod::lemma_fundamental_div_mod(n, g);
    }
    assert(n < g * (q + 1)) by (nonlinear_arith)
        requires
            n == q * g + n % g,
            n % g < g,
    ;
    assert(0 <= q) by (nonlinear_arith)
        requires
            n == q * g + n % g,
            0 <= n % g < g,
            0 <= n,
            1 <= g,
    ;
    assert(4 * g * (q + 1) <= (g + q + 1) * (g + q + 1)) by (nonlinear_arith);
    assert((g + q + 1) * (g + q + 1) <= (2 * m + 2) * (2 * m + 2)) by (nonlinear_arith)
        requires
            0 <= g + q + 1 <= 2 * m + 2,
    ;
    assert(n < (m + 1) * (m + 1)) by (nonlinear_arith)
        requires
            n < g * (q + 1),
            4 * g * (q + 1) <= (g + q + 1) * (g + q + 1),
            (g + q + 1) * (g + q + 1) <= (2 * m + 2) * (2 * m + 2),
    ;
    if n < g * g {
        assert(q < g) by (nonlinear_arith)
            requires
                q * g <= n,
                n < g * g,
                1 <= g,
        ;
    }
    if n < (g + 1) * (g + 1) {
        assert(q <= g + 2) by (nonlinear_arith)
            requires
                q * g <= n,
                n < (g + 1) * (g + 1),
                1 <= g,
        ;
    }
}

/// Returns the integer square root of `n`: the largest `r` with `r * r <= n`.
pub fn isqrt(n: u32) -> (r: u32)
    ensures
        is_floor_sqrt(n as int, r as int),
{
    if n <= 1 {
        return n;
    }
    // Initial guess is the least power of two greater than `sqrt(n)`: with
    // `n` of bit width `w`, that is two to the power of `w / 2` rounded up.
    let lz: u32 = n.leading_zeros();
    let k: u32 = (1 + u32::BITS - lz) / 2;
    let mut g0: u32 = 1u32 << k;
    proof {
        broadcast use vstd::std_specs::bits::axiom_u32_leading_zeros;
        assert(n >> ((32 - lz) as u32) == 0);
        assert(n != 0 && n >> ((32 - lz) as u32) == 0 && lz <= 32 && k == (1 + 32 - lz) / 2
            ==> (n as u64) < ((1u32 << k) as u64) * ((1u32 << k) as u64)
                && 1 <= (1u32 << k) <= 0x10000) by (bit_vector);
        assert(n < (g0 + 1) * (g0 + 1)) by (nonlinear_arith)
            requires
                n < g0 * g0,
                1 <= g0,
        ;
    }
    loop
        invariant
            2 <= n,
            1 <= g0 <= 0x10000,
            n < (g0 + 1) * (g0 + 1),
        decreases g0,
    {
        proof {
            lemma_newton_step(n as int, g0 as int);
        }
        let g1: u32 = (g0 + n / g0) / 2;
        if g1 >= g0 {
            return g0;
        }
        g0 = g1;
    }
}

} // verus!
