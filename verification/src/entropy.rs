//! The generator's two entropy sources. The prefix randomizer draws from the
//! operating system's cryptographically strong randomness facility, so
//! prefixes resist prediction. Counter and increment initialization draw
//! from a cheaper thread-local generator: sequence pacing is an internal
//! concern and needs no prediction resistance, and keeping the sources
//! apart is deliberate.

use vstd::prelude::*;

use rand::Rng;

use crate::alphabet::Alphabet;

verus! {

/// Relies on `rand::Rng::gen_range` called on `rand::rngs::OsRng`, the
/// operating system's randomness facility: it returns a value uniformly
/// drawn from the half-open range `lo..hi`, and panics only when the range
/// is empty, which the precondition rules out. Nothing more is assumed of
/// the value: every caller must be correct for any result in the range.
#[verifier::external_body]
pub(crate) fn os_random_below(lo: u64, hi: u64) -> (r: u64)
    requires
        lo < hi,
    ensures
        lo <= r < hi,
{
    rand::rngs::OsRng.gen_range(lo..hi)
}

/// Relies on `rand::Rng::gen_range` called on `rand::thread_rng`, the fast
/// thread-local generator periodically reseeded from the operating system:
/// it returns a value uniformly drawn from the half-open range `lo..hi`,
/// and panics only when the range is empty, which the precondition rules
/// out. Nothing more is assumed of the value: every caller must be correct
/// for any result in the range.
#[verifier::external_body]
pub(crate) fn fast_random_below(lo: u64, hi: u64) -> (r: u64)
    requires
        lo < hi,
    ensures
        lo <= r < hi,
{
    rand::thread_rng().gen_range(lo..hi)
}

/// Fills a fresh region of `n` symbols, each drawn independently and
/// uniformly from the alphabet.
pub(crate) fn random_symbols(alphabet: &Alphabet, n: usize) -> (v: Vec<u8>)
    requires
        alphabet.wf(),
    ensures
        v@.len() == n,
        forall|i: int| 0 <= i < n ==> alphabet@.contains(#[trigger] v@[i]),
{
    let base = alphabet.base() as u64;
    let mut v: Vec<u8> = Vec::new();
    let mut i: usize = 0;
    while i < n
        invariant
            alphabet.wf(),
            base == alphabet@.len(),
            v@.len() == i,
            i <= n,
            forall|k: int| 0 <= k < i ==> alphabet@.contains(#[trigger] v@[k]),
        decreases n - i,
    {
        let d64 = os_random_below(0, base);
        let d = d64 as usize;
        let sym = alphabet.symbol(d);
        proof {
            assert(alphabet@[d as int] == sym);
            assert(alphabet@.contains(sym));
        }
        v.push(sym);
        i += 1;
    }
    v
}

} // verus!
