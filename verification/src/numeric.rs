use vstd::prelude::*;

verus! {

/// The number one. Every real quantity of the library is held as the integer nearest to
/// its value times `SCALE`.
pub const SCALE: i64 = 1_000_000;

/// The largest magnitude of a weight or of a feature.
pub const WEIGHT_LIMIT: i64 = 10_000_000_000_000_000;

/// The largest number of components of a weight vector.
pub const MAX_DIMENSION: usize = 64;

/// The numbers whose square root `isqrt` takes.
pub const ROOT_LIMIT: u128 = 0x100_0000_0000_0000_0000_0000_0000_0000;

/// `root` is the square root of `n`, rounded down.
pub open spec fn is_root_of(root: nat, n: nat) -> bool {
    root * root <= n < (root + 1) * (root + 1)
}

/// The square root of `n`, rounded down.
pub open spec fn sqrt_floor(n: nat) -> nat {
    choose|root: nat| is_root_of(root, n)
}

/// A number has one rounded square root at most.
pub proof fn lemma_root_unique(n: nat, a: nat, b: nat)
    requires
        is_root_of(a, n),
        is_root_of(b, n),
    ensures
        a == b,
{
    if a < b {
        assert((a + 1) * (a + 1) <= b * b) by (nonlinear_arith)
            requires
                a + 1 <= b,
        ;
    }
    if b < a {
        assert((b + 1) * (b + 1) <= a * a) by (nonlinear_arith)
            requires
                b + 1 <= a,
        ;
    }
}

/// A rounded square root is the value of `sqrt_floor`.
pub proof fn lemma_root_is_sqrt_floor(n: nat, root: nat)
    requires
        is_root_of(root, n),
    ensures
        sqrt_floor(n) == root,
{
    lemma_root_unique(n, root, sqrt_floor(n));
}

/// The square root of `n`, rounded down.
pub fn isqrt(n: u128) -> (root: u128)
    requires
        n < ROOT_LIMIT,
    ensures
        root == sqrt_floor(n as nat),
        is_root_of(root as nat, n as nat),
        root < 0x1000_0000_0000_0000,
{
    let mut low: u128 = 0;
    let mut high: u128 = 0x1000_0000_0000_0000;
    assert(0x1000_0000_0000_0000u128 * 0x1000_0000_0000_0000u128
        == 0x100_0000_0000_0000_0000_0000_0000_0000u128);
    while high - low > 1
        invariant
            low < high <= 0x1000_0000_0000_0000,
            low * low <= n < high * high,
        decreases high - low,
    {
        let middle = low + (high - low) / 2;
        assert(middle * middle < 0x1000_0000_0000_0000 * 0x1000_0000_0000_0000)
            by (nonlinear_arith)
            requires
                0 <= middle < 0x1000_0000_0000_0000,
        ;
        if middle * middle <= n {
            low = middle;
        } else {
            high = middle;
        }
    }
    proof {
        lemma_root_is_sqrt_floor(n as nat, low as nat);
    }
    low
}

/// The size of a number.
pub open spec fn magnitude(value: int) -> nat {
    if value >= 0 {
        value as nat
    } else {
        (-value) as nat
    }
}

/// `factor * value / SCALE`, rounded towards zero: the product of two quantities.
pub open spec fn scaled(factor: int, value: int) -> int {
    if value >= 0 {
        factor * value / (SCALE as int)
    } else {
        -(factor * (-value) / (SCALE as int))
    }
}

/// A product with a factor between zero and one is no larger than the value, and has its
/// sign or is zero.
pub proof fn lemma_scaled_bounds(factor: int, value: int)
    requires
        0 <= factor <= SCALE,
    ensures
        value >= 0 ==> 0 <= scaled(factor, value) <= value,
        value <= 0 ==> value <= scaled(factor, value) <= 0,
{
    let size: int = if value >= 0 { value } else { -value };
    assert(0 <= factor * size <= SCALE * size) by (nonlinear_arith)
        requires
            0 <= factor <= SCALE,
            0 <= size,
    ;
    assert(0 <= factor * size / (SCALE as int) <= size) by (nonlinear_arith)
        requires
            0 <= factor * size <= SCALE * size,
            SCALE == 1_000_000,
    ;
}

/// The product of a factor between zero and one with a value of any size.
pub fn scale(factor: i64, value: i128) -> (product: i128)
    requires
        0 <= factor <= SCALE,
        -0x4000_0000_0000_0000_0000 <= value <= 0x4000_0000_0000_0000_0000,
    ensures
        product == scaled(factor as int, value as int),
{
    proof {
        lemma_scaled_bounds(factor as int, value as int);
    }
    if value >= 0 {
        assert(0 <= factor * value <= SCALE * value) by (nonlinear_arith)
            requires
                0 <= factor <= SCALE,
                0 <= value,
        ;
        (factor as i128 * value) / (SCALE as i128)
    } else {
        assert(0 <= factor * (-value) <= SCALE * (-value)) by (nonlinear_arith)
            requires
                0 <= factor <= SCALE,
                0 <= -value,
        ;
        -((factor as i128 * (-value)) / (SCALE as i128))
    }
}

} // verus!
