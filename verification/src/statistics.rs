use crate::numeric::{isqrt, magnitude, sqrt_floor, SCALE};
use vstd::prelude::*;

verus! {

/// The larger of the sizes of two numbers, and one at least.
pub open spec fn larger_size(a: i64, b: i64) -> nat {
    let first = magnitude(a as int);
    let second = magnitude(b as int);
    if first >= second && first >= 1 {
        first
    } else if second >= 1 {
        second
    } else {
        1
    }
}

/// The difference of two numbers relative to the larger of their sizes, as a part of
/// `SCALE`, rounded down.
pub open spec fn relative_gap(a: i64, b: i64) -> nat {
    magnitude(a - b) * (SCALE as nat) / larger_size(a, b)
}

/// The sum of the squared relative differences of the first `n` components.
pub open spec fn relative_square_sum(a: Seq<i64>, b: Seq<i64>, n: int) -> nat
    decreases n,
{
    if n <= 0 {
        0
    } else {
        relative_square_sum(a, b, n - 1) + relative_gap(a[n - 1], b[n - 1]) * relative_gap(
            a[n - 1],
            b[n - 1],
        )
    }
}

/// The number of components that both vectors have.
pub open spec fn common_len(a: Seq<i64>, b: Seq<i64>) -> int {
    if a.len() <= b.len() {
        a.len() as int
    } else {
        b.len() as int
    }
}

/// The Euclidean norm of the componentwise relative differences of two vectors, rounded
/// down.
pub open spec fn relative_distance_of(a: Seq<i64>, b: Seq<i64>) -> nat {
    sqrt_floor(relative_square_sum(a, b, common_len(a, b)))
}

/// A relative difference is at most two.
pub proof fn lemma_relative_gap_bound(a: i64, b: i64)
    ensures
        relative_gap(a, b) <= 2 * SCALE,
{
    let size = larger_size(a, b) as int;
    let gap = magnitude(a - b) as int;
    assert(gap <= 2 * size);
    assert(gap * SCALE / size <= 2 * SCALE) by (nonlinear_arith)
        requires
            0 <= gap <= 2 * size,
            size >= 1,
            SCALE == 1_000_000,
    ;
}

/// The sum of squared relative differences grows by at most four for each component.
pub proof fn lemma_relative_square_sum_bound(a: Seq<i64>, b: Seq<i64>, n: int)
    requires
        0 <= n,
    ensures
        relative_square_sum(a, b, n) <= n * 4_000_000_000_000,
    decreases n,
{
    if n > 0 {
        lemma_relative_square_sum_bound(a, b, n - 1);
        lemma_relative_gap_bound(a[n - 1], b[n - 1]);
        let gap = relative_gap(a[n - 1], b[n - 1]) as int;
        assert(gap * gap <= 4_000_000_000_000) by (nonlinear_arith)
            requires
                0 <= gap <= 2_000_000,
        ;
    }
}

/// Returns the relative distance of two vectors.
pub fn relative_distance(a: &Vec<i64>, b: &Vec<i64>) -> (distance: u64)
    ensures
        distance == relative_distance_of(a@, b@),
{
    let n = if a.len() <= b.len() {
        a.len()
    } else {
        b.len()
    };
    let mut sum: u128 = 0;
    let mut i: usize = 0;
    while i < n
        invariant
            i <= n,
            n == common_len(a@, b@),
            sum == relative_square_sum(a@, b@, i as int),
        decreases n - i,
    {
        proof {
            lemma_relative_square_sum_bound(a@, b@, i as int);
            lemma_relative_square_sum_bound(a@, b@, i + 1);
            lemma_relative_gap_bound(a@[i as int], b@[i as int]);
        }
        let x = a[i] as i128;
        let y = b[i] as i128;
        let gap: u128 = if x >= y {
            (x - y) as u128
        } else {
            (y - x) as u128
        };
        let first: u128 = if x >= 0 {
            x as u128
        } else {
            (-x) as u128
        };
        let second: u128 = if y >= 0 {
            y as u128
        } else {
            (-y) as u128
        };
        let size: u128 = if first >= second && first >= 1 {
            first
        } else if second >= 1 {
            second
        } else {
            1
        };
        assert(gap * 1_000_000 <= 0x2_0000_0000_0000_0000 * 1_000_000) by (nonlinear_arith)
            requires
                0 <= gap <= 0x2_0000_0000_0000_0000,
        ;
        let part = gap * 1_000_000 / size;
        assert(part == relative_gap(a@[i as int], b@[i as int]));
        assert(part * part <= 4_000_000_000_000) by (nonlinear_arith)
            requires
                0 <= part <= 2_000_000,
        ;
        sum = sum + part * part;
        i += 1;
    }
    proof {
        lemma_relative_square_sum_bound(a@, b@, n as int);
    }
    let root = isqrt(sum);
    root as u64
}

/// The numbers rise, or stay, along the sequence.
pub open spec fn ascending(values: Seq<u64>) -> bool {
    forall|i: int, j: int| 0 <= i <= j < values.len() ==> values[i] <= values[j]
}

/// Calls `sort` of the slice of `values`, from the standard library, which puts the
/// numbers in rising order: afterwards the vector holds the same numbers, each as often
/// as before, and none is followed by a smaller one.
#[verifier::external_body]
pub(crate) fn sort_ascending(values: &mut Vec<u64>)
    ensures
        ascending(final(values)@),
        final(values)@.to_multiset() == old(values)@.to_multiset(),
{
    values.sort();
}

} // verus!
