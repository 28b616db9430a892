//! Ready-made generator configurations.

use vstd::prelude::*;

use crate::alphabet::{base32_spec, Alphabet};
use crate::codec::pow_nat;
use crate::generator::LID;
use crate::ConfigError;

verus! {

/// The counter range of the default configuration, `32^12`, fits in `u64`.
proof fn lemma_default_range_fits()
    ensures
        pow_nat(32, 12) <= u64::MAX,
{
    assert(pow_nat(32, 12) == 0x1000000000000000) by {
        reveal_with_fuel(pow_nat, 13);
    }
}

/// A generator with the default low-randomness configuration: the 32-symbol
/// alphabet, a 16-symbol prefix, a 12-symbol counter, and an increment drawn
/// from `100..1000`. Identifiers are 28 characters long.
pub fn new_distributed() -> (r: LID)
    ensures
        r.wf(),
        r@.alphabet == base32_spec(),
        r@.prefix_length == 16,
        r@.sequence_length == 12,
        r@.max_sequence == pow_nat(base32_spec().len(), 12),
        100 <= r@.increment < 1000,
{
    let alphabet = Alphabet::base32();
    proof {
        lemma_default_range_fits();
    }
    match LID::new(16, 12, 100, 1000, alphabet) {
        Ok(lid) => lid,
        Err(_) => unreached(),
    }
}

/// A generator with a high-randomness step: the 32-symbol alphabet, the
/// given prefix and counter lengths, and an increment drawn from
/// `10_000_000..u64::MAX`. Rejects lengths whose counter range or identifier
/// width does not fit the machine.
pub fn new_random(prefix_length: usize, sequence_length: usize) -> (r: Result<LID, ConfigError>)
    ensures
        r is Ok <==> {
            &&& prefix_length >= 1
            &&& sequence_length >= 1
            &&& prefix_length + sequence_length <= usize::MAX
            &&& pow_nat(base32_spec().len(), sequence_length as nat) <= u64::MAX
        },
        match r {
            Ok(lid) => {
                &&& lid.wf()
                &&& lid@.alphabet == base32_spec()
                &&& lid@.prefix_length == prefix_length
                &&& lid@.sequence_length == sequence_length
                &&& lid@.max_sequence == pow_nat(base32_spec().len(), sequence_length as nat)
                &&& 10_000_000 <= lid@.increment < u64::MAX
            },
            Err(e) => {
                &&& (e == ConfigError::ZeroPrefixLength <==> prefix_length == 0)
                &&& (e == ConfigError::ZeroSequenceLength <==> prefix_length >= 1
                    && sequence_length == 0)
                &&& (e == ConfigError::IdLengthOverflow <==> prefix_length >= 1 && sequence_length
                    >= 1 && prefix_length + sequence_length > usize::MAX)
                &&& (e == ConfigError::SequenceRangeOverflow <==> prefix_length >= 1
                    && sequence_length >= 1 && prefix_length + sequence_length <= usize::MAX
                    && pow_nat(base32_spec().len(), sequence_length as nat) > u64::MAX)
                &&& (e == ConfigError::ZeroPrefixLength || e == ConfigError::ZeroSequenceLength
                    || e == ConfigError::IdLengthOverflow || e == ConfigError::SequenceRangeOverflow)
            },
        },
{
    LID::new(prefix_length, sequence_length, 10_000_000, u64::MAX, Alphabet::base32())
}

impl Default for LID {
    /// The default generator is the distributed configuration of
    /// [`new_distributed`].
    fn default() -> (r: Self)
        ensures
            r.wf(),
            r@.alphabet == base32_spec(),
            r@.prefix_length == 16,
            r@.sequence_length == 12,
            100 <= r@.increment < 1000,
    {
        new_distributed()
    }
}

} // verus!
