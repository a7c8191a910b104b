//! The search half of linear interpolation: which pair of breakpoints
//! brackets a time. Times are compared through integer keys of their
//! IEEE-754 bit patterns, which order finite doubles as `<` does and give
//! both zeros the key 0.
use vstd::prelude::*;

verus! {

pub const SIGN_BIT: u64 = 0x8000_0000_0000_0000;

/// The key of a double with bit pattern `bits`: its magnitude bits, negated
/// when the sign bit is set.
pub open spec fn key_of(bits: u64) -> int {
    if bits >= SIGN_BIT {
        -((bits - SIGN_BIT) as int)
    } else {
        bits as int
    }
}

/// The ordering key of the double whose bit pattern is `bits`.
pub fn time_key(bits: u64) -> (r: i64)
    ensures
        r as int == key_of(bits),
{
    if bits >= SIGN_BIT {
        let m = bits - SIGN_BIT;
        -(m as i64)
    } else {
        bits as i64
    }
}

/// Where a time falls in a series of breakpoint times.
#[derive(PartialEq, Eq, Structural, Clone, Copy, Debug)]
pub enum Bracket {
    /// At or before the first breakpoint: the first value holds.
    First,
    /// At or after the last breakpoint: the last value holds.
    Last,
    /// Strictly between breakpoints `left` and `left + 1`.
    Between(usize),
}

/// The breakpoints `left` and `left + 1` bracket `t`: `keys[left] <= t < keys[left + 1]`.
pub open spec fn brackets(keys: Seq<i64>, left: int, t: i64) -> bool {
    0 <= left && left + 1 < keys.len() && keys[left] <= t < keys[left + 1]
}

pub open spec fn sorted(keys: Seq<i64>) -> bool {
    forall|i: int, j: int| 0 <= i <= j < keys.len() ==> keys[i] <= keys[j]
}

/// In a sorted series at most one pair of neighbours brackets a time.
pub proof fn lemma_bracket_unique(keys: Seq<i64>, a: int, b: int, t: i64)
    requires
        sorted(keys),
        brackets(keys, a, t),
        brackets(keys, b, t),
    ensures
        a == b,
{
    if a < b {
        assert(keys[a + 1] <= keys[b]);
    } else if b < a {
        assert(keys[b + 1] <= keys[a]);
    }
}

/// Locates `t` among the breakpoint keys by binary search.
pub fn bracket(keys: &Vec<i64>, t: i64) -> (r: Bracket)
    requires
        keys@.len() >= 1,
    ensures
        r == Bracket::First <==> t <= keys@[0],
        r == Bracket::Last <==> keys@[0] < t && keys@.last() <= t,
        r matches Bracket::Between(left) ==> brackets(keys@, left as int, t),
{
    let n = keys.len();
    if t <= keys[0] {
        return Bracket::First;
    }
    if t >= keys[n - 1] {
        return Bracket::Last;
    }
    let mut left: usize = 0;
    let mut right: usize = n - 1;
    while left < right - 1
        invariant
            n == keys@.len(),
            left < right < n,
            keys@[left as int] <= t < keys@[right as int],
        decreases right - left,
    {
        let mid = left + (right - left) / 2;
        if keys[mid] <= t {
            left = mid;
        } else {
            right = mid;
        }
    }
    Bracket::Between(left)
}

/// The 16-bit PCM value of a rounded, scaled sample: `x` clamped to `[-32768, 32767]`.
pub open spec fn pcm_of(x: int) -> int {
    if x < -32768 {
        -32768
    } else if x > 32767 {
        32767
    } else {
        x
    }
}

/// Clamps a rounded, scaled sample to the 16-bit range.
pub fn pcm_sample(x: i64) -> (r: i16)
    ensures
        r as int == pcm_of(x as int),
{
    if x < -32768 {
        -32768
    } else if x > 32767 {
        32767
    } else {
        x as i16
    }
}

} // verus!
