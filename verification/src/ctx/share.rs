//! A part of a budget in proportion to a size, by the arithmetic of numbers with 53
//! significant bits: every step is rounded to the nearest of them, and half way to
//! the even one.

use vstd::arithmetic::div_mod::lemma_div_denominator;
use vstd::prelude::*;

verus! {

/// Two to the power of `k`.
pub open spec fn two_to(k: nat) -> nat
    decreases k,
{
    if k == 0 {
        1
    } else {
        2 * two_to((k - 1) as nat)
    }
}

/// The integer nearest to `n / d`; half way between two, the even one.
pub open spec fn nearest(n: nat, d: nat) -> nat {
    let q = n / d;
    let r = n % d;
    if r < d - r || (r == d - r && q % 2 == 0) {
        q
    } else {
        q + 1
    }
}

/// How many bits a number has beyond 53.
pub open spec fn spare_bits(n: nat) -> nat
    decreases n,
{
    if n < 0x20_0000_0000_0000 {
        0
    } else {
        1 + spare_bits(n / 2)
    }
}

/// The 53 leading bits of a number, rounded.
pub open spec fn leading_bits(n: nat) -> nat {
    nearest(n, two_to(spare_bits(n)))
}

/// A number rounded to 53 significant bits.
pub open spec fn rounded(n: nat) -> nat {
    leading_bits(n) * two_to(spare_bits(n))
}

/// How often `n` is doubled before `n / d` has 53 bits before the point.
pub open spec fn doublings(n: nat, d: nat) -> nat
    decreases
            (if n < 0x10_0000_0000_0000 * d {
                0x10_0000_0000_0000 * d - n
            } else {
                0
            }),
{
    if n == 0 || n >= 0x10_0000_0000_0000 * d {
        0
    } else {
        1 + doublings(2 * n, d)
    }
}

/// The part of `budget` that `size` has in `all`: the size times the ratio of the
/// budget to the whole, rounded down. The ratio is a 53-bit number over a power of
/// two, and so is the product.
pub open spec fn share(size: nat, budget: nat, all: nat) -> nat {
    let whole = leading_bits(all);
    let k = doublings(budget, whole);
    let ratio = nearest(budget * two_to(k), whole);
    rounded(rounded(size) * ratio) / two_to(k + spare_bits(all))
}

proof fn lemma_two_to(k: nat)
    ensures
        two_to(k) > k,
        two_to(k + 1) == 2 * two_to(k),
    decreases k,
{
    if k > 0 {
        lemma_two_to((k - 1) as nat);
    }
}

proof fn lemma_two_to_sum(a: nat, b: nat)
    ensures
        two_to(a + b) == two_to(a) * two_to(b),
    decreases b,
{
    if b > 0 {
        lemma_two_to_sum(a, (b - 1) as nat);
        let x = two_to(a);
        let y = two_to((b - 1) as nat);
        assert(2 * (x * y) == x * (2 * y)) by (nonlinear_arith);
    } else {
        assert(two_to(a) * 1 == two_to(a));
    }
}

proof fn lemma_nearest(n: nat, d: nat)
    requires
        d > 0,
    ensures
        n / d <= nearest(n, d) <= n / d + 1,
        nearest(n, d) * d <= n + d,
        n < nearest(n, d) * d + d,
{
    let q = n / d;
    let v = nearest(n, d);
    assert(q * d <= n && n < q * d + d) by (nonlinear_arith)
        requires
            q == n / d,
            d > 0,
    ;
    assert(v * d == q * d || v * d == q * d + d) by (nonlinear_arith)
        requires
            v == q || v == q + 1,
    ;
}

/// Rounding takes a number down to no less than its half and up to no more than its
/// double.
proof fn lemma_rounded(n: nat)
    ensures
        rounded(n) <= 2 * n,
        n <= 2 * rounded(n),
        leading_bits(n) <= 0x20_0000_0000_0000,
        n > 0 ==> leading_bits(n) > 0,
        n > 0 ==> two_to(spare_bits(n)) <= n,
        spare_bits(n) > 0 ==> leading_bits(n) >= 0x10_0000_0000_0000,
{
    let s = spare_bits(n);
    let p = two_to(s);
    lemma_two_to(s);
    lemma_spare_bits(n);
    lemma_nearest(n, p);
    if s == 0 {
        assert(n / 1 == n && n % 1 == 0) by (nonlinear_arith);
        assert(nearest(n, 1) == n);
        assert(n * 1 == n);
    } else {
        let q = n / p;
        assert(q >= 0x10_0000_0000_0000 && 2 * p <= n) by (nonlinear_arith)
            requires
                q == n / p,
                p > 0,
                0x10_0000_0000_0000 * p <= n,
        ;
        assert(q < 0x20_0000_0000_0000) by (nonlinear_arith)
            requires
                q == n / p,
                p > 0,
                n < 0x20_0000_0000_0000 * p,
        ;
    }
}

proof fn lemma_spare_bits(n: nat)
    ensures
        n < 0x20_0000_0000_0000 * two_to(spare_bits(n)),
        spare_bits(n) > 0 ==> 0x10_0000_0000_0000 * two_to(spare_bits(n)) <= n,
    decreases n,
{
    if n >= 0x20_0000_0000_0000 {
        lemma_spare_bits(n / 2);
        lemma_two_to(spare_bits(n / 2));
    }
}

proof fn lemma_doublings(n: nat, d: nat)
    requires
        0 < n < 0x20_0000_0000_0000 * d,
    ensures
        0x10_0000_0000_0000 * d <= n * two_to(doublings(n, d)) < 0x20_0000_0000_0000 * d,
    decreases
            (if n < 0x10_0000_0000_0000 * d {
                0x10_0000_0000_0000 * d - n
            } else {
                0
            }),
{
    if n < 0x10_0000_0000_0000 * d {
        lemma_doublings(2 * n, d);
        let k = doublings(2 * n, d);
        let p = two_to(k);
        assert(two_to(k + 1) == 2 * p);
        assert(n * (2 * p) == (2 * n) * p) by (nonlinear_arith);
    } else {
        assert(n * 1 == n);
    }
}

/// No part is larger than sixteen times the budget.
proof fn lemma_share_small(size: nat, budget: nat, all: nat)
    requires
        size <= all,
        0 < budget < all,
        budget < 0x10_0000_0000_0000,
    ensures
        share(size, budget, all) <= 16 * budget,
{
    let whole = leading_bits(all);
    let s = spare_bits(all);
    let k = doublings(budget, whole);
    let p = two_to(k);
    let q = two_to(s);
    let x = budget * p;
    let ratio = nearest(x, whole);
    let product = rounded(size) * ratio;
    let r = share(size, budget, all);
    lemma_rounded(all);
    lemma_rounded(size);
    lemma_rounded(product);
    assert(budget < 0x20_0000_0000_0000 * whole) by (nonlinear_arith)
        requires
            budget < 0x10_0000_0000_0000,
            whole > 0,
    ;
    lemma_doublings(budget, whole);
    lemma_nearest(x, whole);
    lemma_two_to(k);
    lemma_two_to(s);
    lemma_two_to_sum(k, s);
    assert(ratio * whole <= 2 * x);
    assert(r * (p * q) <= rounded(product)) by (nonlinear_arith)
        requires
            r == rounded(product) / (p * q),
            p > 0,
            q > 0,
    ;
    assert(product <= 2 * size * ratio) by (nonlinear_arith)
        requires
            product == rounded(size) * ratio,
            rounded(size) <= 2 * size,
    ;
    assert(r * (p * q) <= 4 * size * ratio) by (nonlinear_arith)
        requires
            r * (p * q) <= rounded(product),
            rounded(product) <= 2 * product,
            product <= 2 * size * ratio,
    ;
    assert(r * (p * q) * whole <= 4 * size * (2 * x)) by (nonlinear_arith)
        requires
            r * (p * q) <= 4 * size * ratio,
            ratio * whole <= 2 * x,
    ;
    assert(r * (whole * q) <= 8 * size * budget) by (nonlinear_arith)
        requires
            r * (p * q) * whole <= 4 * size * (2 * (budget * p)),
            p > 0,
    ;
    assert(r * all <= 16 * size * budget) by (nonlinear_arith)
        requires
            r * (whole * q) <= 8 * size * budget,
            all <= 2 * (whole * q),
    ;
    assert(r <= 16 * budget) by (nonlinear_arith)
        requires
            r * all <= 16 * size * budget,
            size <= all,
            all > 0,
    ;
}

fn nearest_of(n: u128, d: u128) -> (r: u128)
    requires
        d > 0,
        d > 1 || n < u128::MAX,
    ensures
        r == nearest(n as nat, d as nat),
{
    let q: u128 = n / d;
    let left: u128 = n % d;
    if left < d - left || (left == d - left && q % 2 == 0) {
        q
    } else {
        assert(q < u128::MAX) by (nonlinear_arith)
            requires
                q == n / d,
                d > 1 || n < u128::MAX,
                d > 0,
                n <= u128::MAX,
        ;
        q + 1
    }
}

/// The leading bits of a number, rounded, and the power of two that they count, with
/// its exponent.
fn split_bits(n: u128) -> (r: (u128, u128, u128))
    ensures
        r.0 == leading_bits(n as nat),
        r.1 == two_to(spare_bits(n as nat)),
        r.2 == spare_bits(n as nat),
{
    let mut q: u128 = n;
    let mut p: u128 = 1;
    let mut s: u128 = 0;
    assert(q * 1 == q);
    while q >= 0x20_0000_0000_0000
        invariant
            p == two_to(s as nat),
            spare_bits(n as nat) == s + spare_bits(q as nat),
            q * p <= n,
            n >= 0x20_0000_0000_0000 ==> q >= 0x10_0000_0000_0000,
        decreases q,
    {
        assert(2 * p <= n && (q / 2) * (2 * p) <= n) by (nonlinear_arith)
            requires
                q * p <= n,
                q >= 2,
        ;
        proof {
            lemma_two_to(s as nat);
        }
        q = q / 2;
        p = 2 * p;
        s = s + 1;
    }
    proof {
        lemma_two_to(s as nat);
        if s == 0 {
            assert(n < 0x20_0000_0000_0000);
        } else {
            lemma_two_to((s - 1) as nat);
        }
    }
    (nearest_of(n, p), p, s)
}

fn round(n: u128) -> (r: u128)
    requires
        n < 0x4000_0000_0000_0000_0000_0000_0000_0000,
    ensures
        r == rounded(n as nat),
{
    let (bits, power, _spare) = split_bits(n);
    proof {
        lemma_rounded(n as nat);
    }
    bits * power
}

fn doubled(n: u128, d: u128) -> (r: (u128, u128))
    requires
        0 < n,
        0 < d <= 0x20_0000_0000_0000,
        n < 0x10_0000_0000_0000,
    ensures
        r.1 == doublings(n as nat, d as nat),
        r.0 == n * two_to(r.1 as nat),
        r.1 < r.0,
{
    let mut x: u128 = n;
    let mut k: u128 = 0;
    assert(n * 1 == n);
    while x < 0x10_0000_0000_0000 * d
        invariant
            0 < n,
            0 < d <= 0x20_0000_0000_0000,
            doublings(n as nat, d as nat) == k + doublings(x as nat, d as nat),
            x == n * two_to(k as nat),
            x < 0x20_0000_0000_0000 * d,
            x > k,
        decreases 0x20_0000_0000_0000 * d - x,
    {
        proof {
            lemma_two_to(k as nat);
            let p = two_to(k as nat);
            assert(n * (2 * p) == 2 * (n * p)) by (nonlinear_arith);
        }
        x = 2 * x;
        k = k + 1;
    }
    (x, k)
}

fn halved(n: u128, k: u128) -> (r: u128)
    ensures
        r == n as nat / two_to(k as nat),
{
    let mut r: u128 = n;
    let mut j: u128 = 0;
    assert(n as nat / 1 == n);
    while j < k && r > 0
        invariant
            j <= k,
            r == n as nat / two_to(j as nat),
        decreases k - j,
    {
        proof {
            lemma_two_to(j as nat);
            lemma_div_denominator(n as int, two_to(j as nat) as int, 2);
            let p = two_to(j as nat);
            assert(p * 2 == 2 * p);
        }
        r = r / 2;
        j = j + 1;
    }
    proof {
        if j < k {
            lemma_quotient_stays_zero(n as nat, j as nat, k as nat);
        }
    }
    r
}

proof fn lemma_quotient_stays_zero(n: nat, j: nat, k: nat)
    requires
        j <= k,
        n / two_to(j) == 0,
    ensures
        n / two_to(k) == 0,
    decreases k,
{
    if j < k {
        lemma_quotient_stays_zero(n, j, (k - 1) as nat);
        let p = two_to((k - 1) as nat);
        lemma_two_to((k - 1) as nat);
        assert(n / (2 * p) == 0) by (nonlinear_arith)
            requires
                n / p == 0,
                p > 0,
        ;
    }
}

/// The part of the budget that a size has.
pub fn share_of(size: usize, budget: usize, all: u128) -> (r: usize)
    requires
        size <= all,
        0 < budget <= 64_000,
        budget < all,
    ensures
        r == share(size as nat, budget as nat, all as nat),
        r <= 16 * budget,
{
    let (whole, _power, spare) = split_bits(all);
    proof {
        lemma_rounded(all as nat);
        lemma_rounded(size as nat);
        lemma_two_to(spare as nat);
        lemma_spare_bits(all as nat);
    }
    let (x, k) = doubled(budget as u128, whole);
    proof {
        lemma_doublings(budget as nat, whole as nat);
        lemma_nearest(x as nat, whole as nat);
    }
    let ratio = nearest_of(x, whole);
    assert(ratio <= 0x20_0000_0000_0000) by (nonlinear_arith)
        requires
            ratio <= x as nat / whole as nat + 1,
            x < 0x20_0000_0000_0000 * whole,
            whole > 0,
    ;
    let base = round(size as u128);
    assert(base * ratio < 0x4000_0000_0000_0000_0000_0000_0000_0000) by (nonlinear_arith)
        requires
            base <= 2 * 0xffff_ffff_ffff_ffff,
            ratio <= 0x20_0000_0000_0000,
    ;
    let product = round(base * ratio);
    proof {
        lemma_share_small(size as nat, budget as nat, all as nat);
    }
    halved(product, k + spare) as usize
}

/// A part is what its size has of the whole, to within one: sizes that are added up give
/// shares in proportion, whatever rounding does.
pub proof fn shares_are_in_proportion(size: nat, budget: nat, all: nat)
    requires
        size <= all,
        all < 0x20_0000_0000_0000,
        0 < budget < all,
        budget <= 64_000,
    ensures
        share(size, budget, all) * all <= size * budget + all,
        size * budget < (share(size, budget, all) + 2) * all,
{
    let k = doublings(budget, all);
    let p = two_to(k);
    let x = budget * p;
    let ratio = nearest(x, all);
    let product = size * ratio;
    let near = rounded(product);
    let r = share(size, budget, all);
    lemma_small(all);
    lemma_small(size);
    lemma_two_to(k);
    assert(budget < 0x20_0000_0000_0000 * all) by (nonlinear_arith)
        requires
            budget <= 64_000,
            all > 0,
    ;
    lemma_doublings(budget, all);
    lemma_nearest(x, all);
    lemma_rounding(product);
    assert(r == near / p);
    assert(r * p <= near && near < r * p + p) by (nonlinear_arith)
        requires
            r == near / p,
            p > 0,
    ;
    // The ratio is off by one part in 2^52, and so is the product.
    assert(ratio * all <= x + all && x < ratio * all + all);
    assert(0x10_0000_0000_0000 * all <= x);
    lemma_upper(size, budget, all, p, ratio, near, r);
    lemma_lower(size, budget, all, p, ratio, near, r);
}

proof fn lemma_small(n: nat)
    requires
        n < 0x20_0000_0000_0000,
    ensures
        spare_bits(n) == 0,
        leading_bits(n) == n,
        rounded(n) == n,
{
    assert(two_to(0) == 1);
    assert(n / 1 == n && n % 1 == 0) by (nonlinear_arith);
    assert(nearest(n, 1) == n);
    assert(n * 1 == n) by (nonlinear_arith);
}

/// Rounding moves a number by no more than one part in 2^52.
proof fn lemma_rounding(n: nat)
    ensures
        0x10_0000_0000_0000 * rounded(n) <= (0x10_0000_0000_0000 + 1) * n,
        (0x10_0000_0000_0000 - 1) * n <= 0x10_0000_0000_0000 * rounded(n),
{
    let s = spare_bits(n);
    let q = two_to(s);
    lemma_two_to(s);
    lemma_spare_bits(n);
    lemma_nearest(n, q);
    if s == 0 {
        lemma_small(n);
        assert(0x10_0000_0000_0000 * n <= (0x10_0000_0000_0000 + 1) * n && (0x10_0000_0000_0000 - 1) * n
            <= 0x10_0000_0000_0000 * n) by (nonlinear_arith);
    } else {
        assert(0x10_0000_0000_0000 * rounded(n) <= (0x10_0000_0000_0000 + 1) * n) by (nonlinear_arith)
            requires
                rounded(n) <= n + q,
                0x10_0000_0000_0000 * q <= n,
        ;
        assert((0x10_0000_0000_0000 - 1) * n <= 0x10_0000_0000_0000 * rounded(n)) by (nonlinear_arith)
            requires
                n < rounded(n) + q,
                0x10_0000_0000_0000 * q <= n,
        ;
    }
}

proof fn lemma_upper(size: nat, budget: nat, all: nat, p: nat, ratio: nat, near: nat, r: nat)
    requires
        size <= all,
        all > 0,
        p > 0,
        budget <= 64_000,
        ratio * all <= budget * p + all,
        0x10_0000_0000_0000 * all <= budget * p,
        0x10_0000_0000_0000 * near <= (0x10_0000_0000_0000 + 1) * (size * ratio),
        r * p <= near,
    ensures
        r * all <= size * budget + all,
{
    let c: nat = 0x10_0000_0000_0000;
    let x = budget * p;
    let sr = size * ratio;
    // c * all * near <= (c + 1) * size * (x + all)
    assert(sr * all <= size * (x + all)) by (nonlinear_arith)
        requires
            sr == size * ratio,
            ratio * all <= x + all,
    ;
    let near_all = near * all;
    assert(c * near_all <= (c + 1) * (size * (x + all))) by (nonlinear_arith)
        requires
            near_all == near * all,
            c * near <= (c + 1) * sr,
            sr * all <= size * (x + all),
    ;
    let z = size * x;
    let w = size * all;
    assert(size * (x + all) == z + w) by (nonlinear_arith)
        requires
            z == size * x,
            w == size * all,
    ;
    assert(c * w <= z) by (nonlinear_arith)
        requires
            w == size * all,
            z == size * x,
            c * all <= x,
    ;
    // c * c * near_all <= (c + 1) * (c * z + c * w) <= (c + 1) * (c + 1) * z
    assert(c * (c * near_all) <= (c + 1) * ((c + 1) * z)) by (nonlinear_arith)
        requires
            c * near_all <= (c + 1) * (z + w),
            c * w <= z,
            c > 0,
    ;
    let rp = r * all;
    let sb = size * budget;
    assert(z == sb * p) by (nonlinear_arith)
        requires
            z == size * (budget * p),
            sb == size * budget,
    ;
    assert(rp * p <= near_all) by (nonlinear_arith)
        requires
            rp == r * all,
            near_all == near * all,
            r * p <= near,
    ;
    assert(c * (c * rp) <= (c + 1) * ((c + 1) * sb)) by (nonlinear_arith)
        requires
            c * (c * near_all) <= (c + 1) * ((c + 1) * z),
            rp * p <= near_all,
            z == sb * p,
            p > 0,
    ;
    assert(sb <= all * 64_000) by (nonlinear_arith)
        requires
            sb == size * budget,
            size <= all,
            budget <= 64_000,
    ;
    if rp > sb + all {
        assert(c * (c * rp) >= c * (c * (sb + all))) by (nonlinear_arith)
            requires
                rp > sb + all,
        ;
        assert((c + 1) * ((c + 1) * sb) == c * (c * sb) + 2 * (c * sb) + sb) by (nonlinear_arith);
        assert(c * (c * (sb + all)) == c * (c * sb) + c * (c * all)) by (nonlinear_arith);
        assert(c * (c * all) > 2 * (c * sb) + sb) by (nonlinear_arith)
            requires
                sb <= all * 64_000,
                c == 0x10_0000_0000_0000,
                all > 0,
        ;
    }
}

proof fn lemma_lower(size: nat, budget: nat, all: nat, p: nat, ratio: nat, near: nat, r: nat)
    requires
        size <= all,
        all > 0,
        p > 0,
        budget <= 64_000,
        budget * p < ratio * all + all,
        0x10_0000_0000_0000 * all <= budget * p,
        (0x10_0000_0000_0000 - 1) * (size * ratio) <= 0x10_0000_0000_0000 * near,
        near < r * p + p,
    ensures
        size * budget < (r + 2) * all,
{
    let c: nat = 0x10_0000_0000_0000;
    let d: nat = (c - 1) as nat;
    let x = budget * p;
    let z = size * x;
    let w = size * all;
    let sr = size * ratio;
    assert(z <= sr * all + w) by (nonlinear_arith)
        requires
            z == size * x,
            w == size * all,
            sr == size * ratio,
            x < ratio * all + all,
    ;
    assert(c * w <= z) by (nonlinear_arith)
        requires
            w == size * all,
            z == size * x,
            c * all <= x,
    ;
    // d * z <= c * sr * all
    let y = sr * all;
    assert(d * z <= c * y) by (nonlinear_arith)
        requires
            z <= y + w,
            c * w <= z,
            d == c - 1,
            c > 0,
    ;
    let near_all = near * all;
    assert(d * y <= c * near_all) by (nonlinear_arith)
        requires
            y == sr * all,
            near_all == near * all,
            d * sr <= c * near,
    ;
    assert(d * (d * z) <= c * (c * near_all)) by (nonlinear_arith)
        requires
            d * z <= c * y,
            d * y <= c * near_all,
    ;
    let t = (r + 1) * all;
    let sb = size * budget;
    assert(near_all <= t * p) by (nonlinear_arith)
        requires
            near_all == near * all,
            t == (r + 1) * all,
            near < r * p + p,
    ;
    assert(z == sb * p) by (nonlinear_arith)
        requires
            z == size * (budget * p),
            sb == size * budget,
    ;
    assert(d * (d * sb) <= c * (c * t)) by (nonlinear_arith)
        requires
            d * (d * z) <= c * (c * near_all),
            near_all <= t * p,
            z == sb * p,
            p > 0,
    ;
    assert(sb <= all * 64_000) by (nonlinear_arith)
        requires
            sb == size * budget,
            size <= all,
            budget <= 64_000,
    ;
    assert((r + 2) * all == t + all) by (nonlinear_arith)
        requires
            t == (r + 1) * all,
    ;
    if sb >= t + all {
        assert(d * (d * sb) == c * (c * sb) - 2 * (c * sb) + sb) by (nonlinear_arith)
            requires
                d == c - 1,
        ;
        assert(c * (c * sb) >= c * (c * t) + c * (c * all)) by (nonlinear_arith)
            requires
                sb >= t + all,
        ;
        assert(c * (c * all) > 2 * (c * sb)) by (nonlinear_arith)
            requires
                sb <= all * 64_000,
                c == 0x10_0000_0000_0000,
                all > 0,
        ;
    }
}

} // verus!
