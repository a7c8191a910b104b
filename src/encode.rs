//! Frame selection for the audio-to-PWL direction: which interleaved samples
//! become rows, and how integer samples are normalized.
use vstd::prelude::*;
use vstd::arithmetic::div_mod::{lemma_fundamental_div_mod, lemma_fundamental_div_mod_converse};
use vstd::arithmetic::power2::{lemma2_to64_rest, lemma_pow2_strictly_increases, lemma_pow2_unfold, pow2};

verus! {

/// Why an encoding cannot start.
#[derive(PartialEq, Eq, Structural, Clone, Copy, Debug)]
pub enum EncodeError {
    /// The decimation factor is zero.
    ZeroDecimation,
    /// The audio declares no channel.
    NoChannels,
    /// The integer sample width is zero or wider than 63 bits.
    BadSampleWidth,
}

/// The parameters of one audio-to-PWL conversion.
#[derive(PartialEq, Eq, Structural, Clone, Copy, Debug)]
pub struct EncodePlan {
    /// Interleaved channels per frame; only the first is read.
    pub channels: u64,
    /// One row is written for every `decimate` frames.
    pub decimate: u64,
    /// Full-scale magnitude of an integer sample, `2^(bits - 1)`; 0 for float samples.
    pub full_scale: u64,
}

/// The plan for `channels` channels of `bits`-bit samples, integer or float,
/// decimated by `decimate`.
pub open spec fn plan_of(channels: u16, bits: u16, float: bool, decimate: u64) -> Result<
    EncodePlan,
    EncodeError,
> {
    if decimate == 0 {
        Err(EncodeError::ZeroDecimation)
    } else if channels == 0 {
        Err(EncodeError::NoChannels)
    } else if !float && (bits == 0 || bits > 63) {
        Err(EncodeError::BadSampleWidth)
    } else {
        Ok(
            EncodePlan {
                channels: channels as u64,
                decimate,
                full_scale: if float {
                    0
                } else {
                    pow2((bits - 1) as nat) as u64
                },
            },
        )
    }
}

/// `2^n` for `n < 64`.
fn power_of_two(n: u16) -> (r: u64)
    requires
        n < 64,
    ensures
        r as nat == pow2(n as nat),
{
    let mut r: u64 = 1;
    let mut i: u16 = 0;
    proof {
        vstd::arithmetic::power2::lemma2_to64();
    }
    while i < n
        invariant
            i <= n < 64,
            r as nat == pow2(i as nat),
        decreases n - i,
    {
        proof {
            lemma_pow2_unfold((i + 1) as nat);
            lemma2_to64_rest();
            if i + 1 < 63 {
                lemma_pow2_strictly_increases((i + 1) as nat, 63);
            }
        }
        r = r * 2;
        i = i + 1;
    }
    r
}

/// Checks the parameters of a conversion before any sample is read.
pub fn plan_encoding(channels: u16, bits: u16, float: bool, decimate: u64) -> (r: Result<
    EncodePlan,
    EncodeError,
>)
    ensures
        r == plan_of(channels, bits, float, decimate),
{
    if decimate == 0 {
        return Err(EncodeError::ZeroDecimation);
    }
    if channels == 0 {
        return Err(EncodeError::NoChannels);
    }
    if !float && (bits == 0 || bits > 63) {
        return Err(EncodeError::BadSampleWidth);
    }
    let full_scale = if float {
        0
    } else {
        power_of_two(bits - 1)
    };
    Ok(EncodePlan { channels: channels as u64, decimate, full_scale })
}

/// Whether frame `frame` is written under decimation `d`.
pub open spec fn kept(frame: nat, d: nat) -> bool {
    frame % d == 0
}

/// The number of rows written for the first `n` frames.
pub open spec fn kept_count(n: nat, d: nat) -> nat
    decreases n,
{
    if n == 0 {
        0
    } else {
        kept_count((n - 1) as nat, d) + if kept((n - 1) as nat, d) {
            1nat
        } else {
            0nat
        }
    }
}

/// Whether interleaved sample `i` becomes a row: it is the first channel of
/// a kept frame.
pub open spec fn sample_kept(i: nat, c: nat, d: nat) -> bool {
    i % c == 0 && kept(i / c, d)
}

/// The number of rows written for the first `n` interleaved samples.
pub open spec fn stream_rows(n: nat, c: nat, d: nat) -> nat
    decreases n,
{
    if n == 0 {
        0
    } else {
        stream_rows((n - 1) as nat, c, d) + if sample_kept((n - 1) as nat, c, d) {
            1nat
        } else {
            0nat
        }
    }
}

/// The number of frames that the first `n` samples touch: `ceil(n / c)`.
pub open spec fn frames_touched(n: nat, c: nat) -> nat {
    n / c + if n % c == 0 {
        0nat
    } else {
        1nat
    }
}

impl EncodePlan {
    pub open spec fn valid(self) -> bool {
        self.channels >= 1 && self.decimate >= 1
    }

    /// The output row that interleaved sample `index` becomes, if any: a
    /// sample of the first channel whose frame is a multiple of `decimate`
    /// becomes row `frame / decimate`.
    pub fn row_of_sample(&self, index: u64) -> (r: Option<u64>)
        requires
            self.valid(),
        ensures
            r == (if sample_kept(index as nat, self.channels as nat, self.decimate as nat) {
                Some(index / self.channels / self.decimate)
            } else {
                None
            }),
    {
        if index % self.channels != 0 {
            return None;
        }
        let frame = index / self.channels;
        if frame % self.decimate == 0 {
            Some(frame / self.decimate)
        } else {
            None
        }
    }

    /// The number of rows written for `frames` frames: `ceil(frames / decimate)`.
    pub fn row_count(&self, frames: u64) -> (r: u64)
        requires
            self.valid(),
        ensures
            r as nat == kept_count(frames as nat, self.decimate as nat),
    {
        proof {
            lemma_kept_count(frames as nat, self.decimate as nat);
        }
        let q = frames / self.decimate;
        if frames % self.decimate == 0 {
            q
        } else {
            proof {
                let d = self.decimate as int;
                lemma_fundamental_div_mod(frames as int, d);
                assert(q * 2 <= d * q) by (nonlinear_arith)
                    requires
                        d >= 2,
                        q >= 0,
                ;
            }
            q + 1
        }
    }
}

proof fn lemma_stream_prefix(n: nat, c: nat, d: nat)
    requires
        c >= 1,
        d >= 1,
    ensures
        stream_rows(n, c, d) == kept_count(frames_touched(n, c), d),
    decreases n,
{
    if n > 0 {
        let m = (n - 1) as nat;
        lemma_stream_prefix(m, c, d);
        let q = m / c;
        let r = m % c;
        lemma_fundamental_div_mod(m as int, c as int);
        assert(q * c == c * q) by (nonlinear_arith);
        assert((q + 1) * c == q * c + c) by (nonlinear_arith);
        lemma_fundamental_div_mod_converse(m as int, c as int, q as int, r as int);
        if r + 1 < c {
            lemma_fundamental_div_mod_converse(n as int, c as int, q as int, r + 1int);
        } else {
            lemma_fundamental_div_mod_converse(n as int, c as int, q + 1int, 0int);
        }
    }
}

/// Writing a stream of `frames` frames of `c` interleaved channels with
/// decimation `d` yields `ceil(frames / d)` rows.
pub proof fn lemma_stream_row_count(frames: nat, c: nat, d: nat)
    requires
        c >= 1,
        d >= 1,
    ensures
        stream_rows(frames * c, c, d) == (frames + d - 1) / (d as int),
{
    lemma_stream_prefix(frames * c, c, d);
    lemma_fundamental_div_mod_converse((frames * c) as int, c as int, frames as int, 0int);
    lemma_kept_count(frames, d);
}

/// Decimating `n` frames by `d` keeps `ceil(n / d)` of them.
pub proof fn lemma_kept_count(n: nat, d: nat)
    requires
        d >= 1,
    ensures
        kept_count(n, d) == (n + d - 1) / (d as int),
        kept_count(n, d) == n / d + if n % d == 0 {
            0nat
        } else {
            1nat
        },
    decreases n,
{
    let q = n / d;
    let r = n % d;
    lemma_fundamental_div_mod(n as int, d as int);
    assert(q * d == d * q) by (nonlinear_arith);
    assert((q + 1) * d == q * d + d) by (nonlinear_arith);
    assert((q - 1) * d == q * d - d) by (nonlinear_arith);
    lemma_fundamental_div_mod_converse(n as int, d as int, q as int, r as int);
    if n > 0 {
        lemma_kept_count((n - 1) as nat, d);
    }
    if r == 0 {
        lemma_fundamental_div_mod_converse(n + d - 1, d as int, q as int, d - 1int);
    } else {
        lemma_fundamental_div_mod_converse(n + d - 1, d as int, q + 1int, r - 1int);
    }
    if n > 0 {
        let m = (n - 1) as nat;
        if r == 0 {
            lemma_fundamental_div_mod_converse(m as int, d as int, q - 1int, d - 1int);
        } else {
            lemma_fundamental_div_mod_converse(m as int, d as int, q as int, r - 1int);
        }
    }
}

} // verus!
