//! When frames run: the arithmetic of ring-buffer lengths, frame length and
//! hop length.
use vstd::prelude::*;

verus! {

/// The number of frames that can be cut from `len` waiting samples, when a
/// frame takes `n_fft` samples and each frame advances by `hop`.
pub open spec fn frames_ready(len: nat, n_fft: nat, hop: nat) -> nat {
    if len < n_fft || hop == 0 {
        0
    } else {
        ((len - n_fft) / (hop as int) + 1) as nat
    }
}

/// Counts the frames that can be cut from `len` waiting samples.
pub fn count_frames(len: usize, n_fft: usize, hop: usize) -> (frames: usize)
    requires
        n_fft > 0,
    ensures
        frames == frames_ready(len as nat, n_fft as nat, hop as nat),
{
    if len < n_fft || hop == 0 {
        0
    } else {
        let whole = (len - n_fft) / hop;
        assert(whole <= len - n_fft) by (nonlinear_arith)
            requires
                whole == (len - n_fft) / (hop as int),
                hop > 0,
                len - n_fft >= 0,
        ;
        whole + 1
    }
}

/// Cutting one frame leaves one frame fewer to cut.
pub proof fn lemma_frames_ready_step(len: nat, n_fft: nat, hop: nat)
    requires
        0 < hop <= n_fft,
        n_fft <= len,
    ensures
        frames_ready(len, n_fft, hop) == 1 + frames_ready((len - hop) as nat, n_fft, hop),
{
    let x = (len - n_fft) as int;
    let h = hop as int;
    if len - hop >= n_fft {
        assert(x / h == (x - h) / h + 1) by (nonlinear_arith)
            requires
                x >= h,
                h > 0,
        ;
        assert((x - h) / h >= 0) by (nonlinear_arith)
            requires
                x >= h,
                h > 0,
        ;
    } else {
        assert(x / h == 0) by (nonlinear_arith)
            requires
                0 <= x < h,
        ;
    }
}

/// After all the frames that were ready have been cut, fewer samples than one
/// frame are left, and a whole number of hops has gone.
pub proof fn lemma_frames_ready_rest(len: nat, n_fft: nat, hop: nat)
    requires
        0 < hop <= n_fft,
    ensures
        frames_ready(len, n_fft, hop) * hop <= len,
        n_fft <= len ==> len - frames_ready(len, n_fft, hop) * hop < n_fft,
        n_fft <= len ==> len - frames_ready(len, n_fft, hop) * hop >= n_fft - hop,
{
    let x = (len - n_fft) as int;
    let h = hop as int;
    if n_fft <= len {
        let q = x / h;
        assert(q * h <= x < q * h + h && q >= 0) by (nonlinear_arith)
            requires
                x >= 0,
                h > 0,
                q == x / h,
        ;
        assert((q + 1) * h == q * h + h) by (nonlinear_arith);
    } else {
        assert(0 * hop == 0) by (nonlinear_arith);
    }
}

} // verus!
