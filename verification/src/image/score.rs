use vstd::prelude::*;

verus! {

/// The number that stands for a score of 1: scores are kept in millionths.
pub const SCORE_SCALE: u64 = 1_000_000;

/// The least score of a match, 0.99.
pub const THRESHOLD: u64 = 990_000;

/// Two scores no further apart than this, 0.005, count as tied.
pub const EPS: u64 = 5_000;

/// Whether `r` is the integer part of the square root of `n`.
pub open spec fn is_sqrt(n: nat, r: nat) -> bool {
    r * r <= n < (r + 1) * (r + 1)
}

/// The integer part of the square root of `n`.
pub open spec fn sqrt_floor(n: nat) -> nat {
    choose|r: nat| is_sqrt(n, r)
}

/// At most one number has its square just below or at `n`: the integer part
/// of the square root of `n`.
pub proof fn lemma_sqrt_unique(n: nat, r: nat)
    requires
        is_sqrt(n, r),
    ensures
        sqrt_floor(n) == r,
{
    let s = sqrt_floor(n);
    assert(is_sqrt(n, s));
    if s < r {
        assert((s + 1) * (s + 1) <= r * r) by (nonlinear_arith)
            requires
                0 <= s + 1 <= r,
        ;
    }
    if r < s {
        assert((r + 1) * (r + 1) <= s * s) by (nonlinear_arith)
            requires
                0 <= r + 1 <= s,
        ;
    }
}

/// Every number has an integer square root.
pub proof fn lemma_sqrt_exists(n: nat)
    ensures
        is_sqrt(n, sqrt_floor(n)),
    decreases n,
{
    if n == 0 {
        assert(0nat * 0nat == 0 && (0nat + 1) * (0nat + 1) == 1) by (nonlinear_arith);
        assert(is_sqrt(0, 0));
    } else {
        lemma_sqrt_exists((n - 1) as nat);
        let r = sqrt_floor((n - 1) as nat);
        if (r + 1) * (r + 1) <= n {
            assert((r + 1) * (r + 1) < (r + 2) * (r + 2)) by (nonlinear_arith);
            assert(is_sqrt(n, r + 1));
        } else {
            assert(is_sqrt(n, r));
        }
    }
}

/// The score of a window against a pattern, in millionths and rounded down:
/// the sum of the products of their pixels, divided by the square root of
/// the product of the two sums of squares. Where either sum of squares is 0
/// the window or the pattern is all black and the score is 0.
pub open spec fn score_of(dot: nat, window_sq: nat, pattern_sq: nat) -> nat {
    let scaled: int = dot * SCORE_SCALE;
    let norm_sq: int = (window_sq * pattern_sq) as int;
    if norm_sq == 0 {
        0
    } else {
        sqrt_floor((scaled * scaled / norm_sq) as nat)
    }
}

/// A window that is the pattern, pixel by pixel, and is not all black has
/// the score 1.
pub proof fn lemma_score_of_itself(sq: nat)
    requires
        sq > 0,
    ensures
        score_of(sq, sq, sq) == SCORE_SCALE,
{
    let s = SCORE_SCALE as nat;
    assert(sq * sq > 0) by (nonlinear_arith)
        requires
            sq > 0,
    ;
    assert((sq * s) * (sq * s) == (s * s) * (sq * sq)) by (nonlinear_arith);
    assert(((s * s) * (sq * sq)) / (sq * sq) == s * s) by (nonlinear_arith)
        requires
            sq * sq > 0,
    ;
    assert(is_sqrt(s * s, s)) by (nonlinear_arith)
        requires
            s == 1_000_000,
    ;
    lemma_sqrt_unique(s * s, s);
}

/// The integer part of the square root of `n`.
pub fn integer_sqrt(n: u128) -> (root: u64)
    ensures
        root == sqrt_floor(n as nat),
{
    let mut low: u128 = 0;
    let mut high: u128 = 0x1_0000_0000_0000_0000;
    assert(high * high == 0x1_0000_0000_0000_0000_0000_0000_0000_0000) by (nonlinear_arith)
        requires
            high == 0x1_0000_0000_0000_0000,
    ;
    assert(0 * 0 == 0);
    while high - low > 1
        invariant
            low < high <= 0x1_0000_0000_0000_0000,
            low * low <= n < high * high,
        decreases high - low,
    {
        let mid: u128 = low + (high - low) / 2;
        assert(mid * mid <= 0xffff_ffff_ffff_ffff * 0xffff_ffff_ffff_ffff) by (nonlinear_arith)
            requires
                0 <= mid <= 0xffff_ffff_ffff_ffff,
        ;
        if mid * mid <= n {
            low = mid;
        } else {
            high = mid;
        }
    }
    proof {
        assert(high == low + 1);
        lemma_sqrt_unique(n as nat, low as nat);
    }
    low as u64
}

/// The score of a window against a pattern, given the sum of the products
/// of their pixels and the two sums of squares.
pub fn match_score(dot: u64, window_sq: u64, pattern_sq: u64) -> (score: u64)
    requires
        dot * SCORE_SCALE <= u64::MAX,
    ensures
        score == score_of(dot as nat, window_sq as nat, pattern_sq as nat),
{
    if window_sq == 0 || pattern_sq == 0 {
        assert(window_sq * pattern_sq == 0) by (nonlinear_arith)
            requires
                window_sq == 0 || pattern_sq == 0,
        ;
        return 0;
    }
    assert(0 < window_sq * pattern_sq <= 0xffff_ffff_ffff_ffff * 0xffff_ffff_ffff_ffff)
        by (nonlinear_arith)
        requires
            0 < window_sq <= 0xffff_ffff_ffff_ffff,
            0 < pattern_sq <= 0xffff_ffff_ffff_ffff,
    ;
    let norm_sq: u128 = (window_sq as u128) * (pattern_sq as u128);
    let scaled: u128 = (dot * SCORE_SCALE) as u128;
    assert(scaled * scaled <= 0xffff_ffff_ffff_ffff * 0xffff_ffff_ffff_ffff) by (nonlinear_arith)
        requires
            0 <= scaled <= 0xffff_ffff_ffff_ffff,
    ;
    integer_sqrt(scaled * scaled / norm_sq)
}

} // verus!
