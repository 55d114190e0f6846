//! Spectrum helpers and the sliding sample window used when reading audio.
use vstd::prelude::*;

pub mod stream;

pub use stream::{Request, Rotation, RotationModel};

verus! {

/// Returns `signal` followed by `num` copies of `zero` (zero padding, which
/// refines the frequency resolution of a transform of the result).
pub fn pad_zero<T: Copy>(signal: &Vec<T>, num: usize, zero: T) -> (out: Vec<T>)
    ensures
        out@ == signal@ + Seq::new(num as nat, |i: int| zero),
{
    let mut out: Vec<T> = Vec::new();
    for i in 0..signal.len()
        invariant
            out@ == signal@.take(i as int),
    {
        out.push(signal[i]);
    }
    assert(signal@.take(signal.len() as int) == signal@);
    for i in 0..num
        invariant
            out@ =~= signal@ + Seq::new(i as nat, |k: int| zero),
    {
        out.push(zero);
    }
    out
}

/// Returns the first half of `dft` (the bins below the Nyquist frequency).
pub fn first_half<T: Copy>(dft: &Vec<T>) -> (out: Vec<T>)
    ensures
        out@ == dft@.take((dft.len() / 2) as int),
{
    let mut out: Vec<T> = Vec::new();
    let half = dft.len() / 2;
    for i in 0..half
        invariant
            half == dft.len() / 2,
            out@ == dft@.take(i as int),
    {
        out.push(dft[i]);
    }
    out
}

} // verus!
