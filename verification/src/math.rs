//! Fixed-point arithmetic for the upper-confidence-bound score.
//!
//! The UCB score of a child is `Q + c * sqrt(ln(parent_visits) / child_visits)`
//! with `Q` the child's average value. All quantities are carried in integer
//! milli-units (a scale factor of 1000); the natural logarithm is approximated
//! by `floor(log2(n)) * ln(2)` and the square root by the integer square root.

use vstd::prelude::*;

verus! {

/// Mathematical floor of the base-2 logarithm (0 for inputs below 2).
pub open spec fn log2(n: int) -> int
    decreases n,
{
    if n < 2 {
        0
    } else {
        1 + log2(n / 2)
    }
}

/// Mathematical floor of the square root (0 for negative inputs).
pub open spec fn sqrt_floor(x: int) -> int
    decreases x,
{
    if x < 1 {
        0
    } else {
        let r = sqrt_floor(x - 1);
        if (r + 1) * (r + 1) <= x {
            r + 1
        } else {
            r
        }
    }
}

/// `sqrt_floor` is exactly characterised by `r*r <= x < (r+1)*(r+1)`.
pub proof fn lemma_sqrt_floor_char(x: int)
    requires
        x >= 0,
    ensures
        sqrt_floor(x) >= 0,
        sqrt_floor(x) * sqrt_floor(x) <= x,
        x < (sqrt_floor(x) + 1) * (sqrt_floor(x) + 1),
    decreases x,
{
    if x == 0 {
    } else {
        lemma_sqrt_floor_char(x - 1);
        let r = sqrt_floor(x - 1);
        if (r + 1) * (r + 1) <= x {
            assert(x < (r + 2) * (r + 2)) by (nonlinear_arith)
                requires
                    x - 1 < (r + 1) * (r + 1),
                    r >= 0,
            ;
        }
    }
}

/// Any `r` with `r*r <= x < (r+1)*(r+1)` equals `sqrt_floor(x)`.
pub proof fn lemma_sqrt_floor_unique(x: int, r: int)
    requires
        x >= 0,
        r >= 0,
        r * r <= x,
        x < (r + 1) * (r + 1),
    ensures
        r == sqrt_floor(x),
{
    lemma_sqrt_floor_char(x);
    let s = sqrt_floor(x);
    if r < s {
        assert(false) by (nonlinear_arith)
            requires
                0 <= r < s,
                s * s <= x,
                x < (r + 1) * (r + 1),
        ;
    }
    if s < r {
        assert(false) by (nonlinear_arith)
            requires
                0 <= s < r,
                r * r <= x,
                x < (s + 1) * (s + 1),
        ;
    }
}

/// Crude growth bound used only to rule out overflow.
pub proof fn lemma_sqrt_floor_le(x: int)
    requires
        x >= 0,
    ensures
        sqrt_floor(x) <= x,
    decreases x,
{
    if x > 0 {
        lemma_sqrt_floor_le(x - 1);
    }
}

/// Crude growth bound used only to rule out overflow.
pub proof fn lemma_log2_le(n: int)
    requires
        n >= 0,
    ensures
        0 <= log2(n) <= n,
    decreases n,
{
    if n >= 2 {
        lemma_log2_le(n / 2);
    }
}

/// Integer square root: the floor of the square root of `x`.
pub fn isqrt(x: u64) -> (r: u64)
    ensures
        r == sqrt_floor(x as int),
{
    let mut lo: u64 = 0;
    let mut hi: u64 = if x < 0xffff_ffff {
        x + 1
    } else {
        0x1_0000_0000
    };
    proof {
        assert((hi as int) * (hi as int) > x as int) by (nonlinear_arith)
            requires
                hi as int >= 1,
                hi as int > x as int || hi as int >= 0x1_0000_0000,
                x as int <= 0xffff_ffff_ffff_ffffu64 as int,
        ;
    }
    // Binary search on the answer: lo*lo <= x < hi*hi.
    while hi - lo > 1
        invariant
            0 <= lo < hi <= 0x1_0000_0000,
            (lo as int) * (lo as int) <= x as int,
            (x as int) < (hi as int) * (hi as int),
        decreases hi - lo,
    {
        let mid: u64 = lo + (hi - lo) / 2;
        proof {
            assert((mid as int) * (mid as int) <= 0x1_0000_0000 * 0x1_0000_0000)
                by (nonlinear_arith)
                requires
                    0 <= mid as int <= 0x1_0000_0000,
            ;
        }
        let sq: u128 = (mid as u128) * (mid as u128);
        if sq <= x as u128 {
            lo = mid;
        } else {
            hi = mid;
        }
    }
    proof {
        lemma_sqrt_floor_unique(x as int, lo as int);
    }
    lo
}

/// Floor of the base-2 logarithm; 0 for inputs below 2.
pub fn log2_floor(n: u32) -> (r: u32)
    ensures
        r == log2(n as int),
{
    let mut m: u32 = n;
    let mut r: u32 = 0;
    proof {
        lemma_log2_le(n as int);
    }
    while m >= 2
        invariant
            r + log2(m as int) == log2(n as int),
            log2(n as int) <= u32::MAX,
        decreases m,
    {
        proof {
            lemma_log2_le((m / 2) as int);
            assert(log2(m as int) == 1 + log2((m / 2) as int));
        }
        m = m / 2;
        r = r + 1;
    }
    r
}

/// Signed scaling division: divides the magnitude, keeping the sign.
pub open spec fn scaled_div(v: int, d: int) -> int {
    if v >= 0 {
        v / d
    } else {
        -((-v) / d)
    }
}

/// The upper-confidence-bound score in milli-units:
/// `value/visits + c * sqrt(ln(parent_visits) / visits)`, where `ln` is
/// approximated by `log2 * 693/1000` and all terms carry a factor of 1000.
pub open spec fn ucb_score(value: int, visits: int, parent_visits: int, c_milli: int) -> int {
    scaled_div(value * 1000, visits) + (c_milli * sqrt_floor(
        (693 * log2(parent_visits) / visits) * 1000,
    )) / 1000
}

/// Upper-confidence bound of a child with accumulated `value` over `visits`
/// visits, under a parent with `parent_visits` visits, with exploration
/// constant `c_milli` (in thousandths).
pub fn get_upper_confidence_bound(value: i128, visits: u32, parent_visits: u32, c_milli: u64) -> (r:
    i128)
    requires
        visits >= 1,
        -0x1_0000_0000_0000_0000 <= value <= 0x1_0000_0000_0000_0000,
    ensures
        r == ucb_score(value as int, visits as int, parent_visits as int, c_milli as int),
{
    let exploitation: i128 = if value >= 0 {
        (value * 1000) / (visits as i128)
    } else {
        -((-value * 1000) / (visits as i128))
    };
    let l: u32 = log2_floor(parent_visits);
    proof {
        lemma_log2_le(parent_visits as int);
    }
    let ln_milli: u64 = (l as u64) * 693;
    let ratio: u64 = ln_milli / (visits as u64);
    let scaled: u64 = ratio * 1000;
    let s: u64 = isqrt(scaled);
    proof {
        lemma_sqrt_floor_le(scaled as int);
        assert((c_milli as int) * (s as int) <= 0xffff_ffff_ffff_ffff * 0x10_0000_0000_0000)
            by (nonlinear_arith)
            requires
                0 <= c_milli as int <= 0xffff_ffff_ffff_ffff,
                0 <= s as int <= 0x10_0000_0000_0000,
        ;
    }
    let exploration: u128 = ((c_milli as u128) * (s as u128)) / 1000;
    exploitation + (exploration as i128)
}

} // verus!
