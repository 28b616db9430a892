//! The generator: one random prefix, one stepped wrap-around counter, one
//! lifetime-fixed increment, and a reusable output buffer.

use vstd::prelude::*;
use vstd::arithmetic::div_mod::{
    lemma_add_mod_noop_right, lemma_mod_division_less_than_divisor, lemma_mod_sub_multiples_vanish,
    lemma_small_mod,
};
use vstd::arithmetic::mul::{
    lemma_mul_inequality, lemma_mul_is_distributive_add_other_way, lemma_mul_is_distributive_sub,
};

use crate::alphabet::{alpha_wf, printable, Alphabet};
use crate::codec;
use crate::codec::{encode, lex_lt, pow_nat};
use crate::entropy;
use crate::{ConfigError, InvalidEncoding};

verus! {

/// The mathematical state of a generator.
pub ghost struct LidModel {
    /// The symbol table identifiers are rendered in.
    pub alphabet: Seq<u8>,
    /// Number of prefix symbols (`P`).
    pub prefix_length: nat,
    /// Number of counter symbols (`S`).
    pub sequence_length: nat,
    /// `BASE^S`: one above the largest counter value.
    pub max_sequence: nat,
    /// The current prefix epoch's symbols.
    pub prefix: Seq<u8>,
    /// The counter, always below `max_sequence`.
    pub sequence: nat,
    /// The per-instance step, drawn once and never changed.
    pub increment: nat,
    /// The reusable output buffer.
    pub buffer: Seq<u8>,
}

/// The generator's invariant: a validated configuration, a counter within
/// range, a full prefix of alphabet symbols, and a buffer of the identifier
/// width.
pub open spec fn lid_wf(m: LidModel) -> bool {
    &&& alpha_wf(m.alphabet)
    &&& m.prefix_length >= 1
    &&& m.sequence_length >= 1
    &&& m.prefix_length + m.sequence_length <= usize::MAX
    &&& m.max_sequence == pow_nat(m.alphabet.len(), m.sequence_length)
    &&& 1 <= m.max_sequence <= u64::MAX
    &&& m.sequence < m.max_sequence
    &&& 1 <= m.increment <= u64::MAX
    &&& m.prefix.len() == m.prefix_length
    &&& (forall|i: int| 0 <= i < m.prefix.len() ==> m.alphabet.contains(#[trigger] m.prefix[i]))
    &&& m.buffer.len() == m.prefix_length + m.sequence_length
}

/// A configuration the constructor accepts.
pub open spec fn config_valid(
    alpha: Seq<u8>,
    prefix_length: nat,
    sequence_length: nat,
    min_increment: nat,
    max_increment: nat,
) -> bool {
    &&& prefix_length >= 1
    &&& sequence_length >= 1
    &&& 1 <= min_increment < max_increment
    &&& prefix_length + sequence_length <= usize::MAX
    &&& pow_nat(alpha.len(), sequence_length) <= u64::MAX
}

/// The counter value after one call: advance by `increment`, modulo
/// `max_sequence`.
pub open spec fn next_sequence(sequence: nat, increment: nat, max_sequence: nat) -> nat {
    (((sequence + increment) as int) % (max_sequence as int)) as nat
}

/// The bytes of the identifier rendered from `prefix` and `sequence`.
pub open spec fn id_bytes(
    prefix: Seq<u8>,
    alpha: Seq<u8>,
    sequence_length: nat,
    sequence: nat,
) -> Seq<u8> {
    prefix + encode(alpha, sequence_length, sequence)
}

/// One-byte characters, read as text.
pub open spec fn ascii_chars(bytes: Seq<u8>) -> Seq<char> {
    bytes.map_values(|b: u8| b as char)
}

/// Relies on `String::from_utf8`: bytes below `0x80` are valid UTF-8 and
/// decode to exactly one `char` per byte, the character with that code.
/// The precondition rules out the error case.
#[verifier::external_body]
fn ascii_string(bytes: &Vec<u8>) -> (r: String)
    requires
        forall|i: int| 0 <= i < bytes@.len() ==> bytes@[i] < 0x80,
    ensures
        r@ == ascii_chars(bytes@),
{
    String::from_utf8(bytes.clone()).unwrap()
}

/// A generator of fixed-width identifiers: a random prefix of
/// `prefix_length` symbols followed by a counter of `sequence_length`
/// symbols, both rendered in the configured alphabet.
pub struct LID {
    alphabet: Alphabet,
    prefix_length: usize,
    sequence_length: usize,
    max_sequence: u64,
    prefix: Vec<u8>,
    sequence: u64,
    increment: u64,
    inner_buffer: Vec<u8>,
}

impl View for LID {
    type V = LidModel;

    closed spec fn view(&self) -> LidModel {
        LidModel {
            alphabet: self.alphabet@,
            prefix_length: self.prefix_length as nat,
            sequence_length: self.sequence_length as nat,
            max_sequence: self.max_sequence as nat,
            prefix: self.prefix@,
            sequence: self.sequence as nat,
            increment: self.increment as nat,
            buffer: self.inner_buffer@,
        }
    }
}

impl LID {
    /// Validity of the generator's state; constructors establish it and
    /// every call preserves it.
    pub open spec fn wf(&self) -> bool {
        lid_wf(self@)
    }

    /// Number of prefix symbols.
    pub fn prefix_length(&self) -> (r: usize)
        ensures
            r == self@.prefix_length,
    {
        self.prefix_length
    }

    /// Number of counter symbols.
    pub fn sequence_length(&self) -> (r: usize)
        ensures
            r == self@.sequence_length,
    {
        self.sequence_length
    }

    /// The current counter value.
    pub fn sequence(&self) -> (r: u64)
        ensures
            r == self@.sequence,
    {
        self.sequence
    }

    /// The per-instance step size, fixed for the generator's lifetime.
    pub fn increment(&self) -> (r: u64)
        ensures
            r == self@.increment,
    {
        self.increment
    }

    /// Builds a generator from an explicit configuration: `prefix_length`
    /// and `sequence_length` symbols, an increment drawn uniformly from
    /// `min_increment..max_increment`, and the given alphabet. The initial
    /// counter is drawn uniformly from its full range, so first rotations of
    /// independent generators do not happen in lockstep. The prefix comes
    /// from the operating system's strong entropy source; the counter and
    /// increment draws use the cheaper thread-local one. Rejects any
    /// configuration that violates the stated bounds.
    pub fn new(
        prefix_length: usize,
        sequence_length: usize,
        min_increment: u64,
        max_increment: u64,
        alphabet: Alphabet,
    ) -> (r: Result<LID, ConfigError>)
        requires
            alphabet.wf(),
        ensures
            r is Ok <==> config_valid(
                alphabet@,
                prefix_length as nat,
                sequence_length as nat,
                min_increment as nat,
                max_increment as nat,
            ),
            match r {
                Ok(lid) => {
                    &&& lid.wf()
                    &&& lid@.alphabet == alphabet@
                    &&& lid@.prefix_length == prefix_length
                    &&& lid@.sequence_length == sequence_length
                    &&& lid@.max_sequence == pow_nat(alphabet@.len(), sequence_length as nat)
                    &&& min_increment <= lid@.increment < max_increment
                },
                Err(e) => {
                    &&& (e == ConfigError::ZeroPrefixLength <==> prefix_length == 0)
                    &&& (e == ConfigError::ZeroSequenceLength <==> prefix_length >= 1
                        && sequence_length == 0)
                    &&& (e == ConfigError::InvalidIncrementRange <==> prefix_length >= 1
                        && sequence_length >= 1 && !(1 <= min_increment < max_increment))
                    &&& (e == ConfigError::IdLengthOverflow <==> prefix_length >= 1
                        && sequence_length >= 1 && 1 <= min_increment < max_increment
                        && prefix_length + sequence_length > usize::MAX)
                    &&& (e == ConfigError::SequenceRangeOverflow <==> prefix_length >= 1
                        && sequence_length >= 1 && 1 <= min_increment < max_increment
                        && prefix_length + sequence_length <= usize::MAX && pow_nat(
                        alphabet@.len(),
                        sequence_length as nat,
                    ) > u64::MAX)
                    &&& (e == ConfigError::ZeroPrefixLength || e == ConfigError::ZeroSequenceLength
                        || e == ConfigError::InvalidIncrementRange
                        || e == ConfigError::IdLengthOverflow
                        || e == ConfigError::SequenceRangeOverflow)
                },
            },
    {
        if prefix_length == 0 {
            return Err(ConfigError::ZeroPrefixLength);
        }
        if sequence_length == 0 {
            return Err(ConfigError::ZeroSequenceLength);
        }
        if min_increment == 0 || min_increment >= max_increment {
            return Err(ConfigError::InvalidIncrementRange);
        }
        let id_length = match prefix_length.checked_add(sequence_length) {
            Some(n) => n,
            None => {
                return Err(ConfigError::IdLengthOverflow);
            },
        };
        let base = alphabet.base() as u64;
        let max_sequence = match codec::pow_checked(base, sequence_length) {
            Some(m) => m,
            None => {
                return Err(ConfigError::SequenceRangeOverflow);
            },
        };
        proof {
            codec::lemma_pow_nat_pos(base as nat, sequence_length as nat);
        }
        let sequence = entropy::fast_random_below(0, max_sequence);
        let increment = entropy::fast_random_below(min_increment, max_increment);
        let prefix = entropy::random_symbols(&alphabet, prefix_length);
        let mut inner_buffer: Vec<u8> = Vec::new();
        let mut i: usize = 0;
        while i < id_length
            invariant
                inner_buffer@.len() == i,
                i <= id_length,
            decreases id_length - i,
        {
            inner_buffer.push(0u8);
            i += 1;
        }
        Ok(
            LID {
                alphabet,
                prefix_length,
                sequence_length,
                max_sequence,
                prefix,
                sequence,
                increment,
                inner_buffer,
            },
        )
    }

    /// Replaces the prefix wholesale with freshly drawn symbols; nothing
    /// else changes.
    fn new_prefix(&mut self)
        requires
            old(self).wf(),
        ensures
            final(self).wf(),
            final(self)@ == (LidModel { prefix: final(self)@.prefix, ..old(self)@ }),
            final(self)@.prefix.len() == old(self)@.prefix_length,
            forall|i: int|
                0 <= i < final(self)@.prefix.len() ==> final(self)@.alphabet.contains(
                    #[trigger] final(self)@.prefix[i],
                ),
    {
        self.prefix = entropy::random_symbols(&self.alphabet, self.prefix_length);
    }

    /// The sequence advancer: steps the counter by the increment, modulo
    /// `BASE^S`, and rotates the prefix exactly when the counter wraps
    /// to zero.
    fn new_sequence(&mut self)
        requires
            old(self).wf(),
        ensures
            final(self).wf(),
            final(self)@.alphabet == old(self)@.alphabet,
            final(self)@.prefix_length == old(self)@.prefix_length,
            final(self)@.sequence_length == old(self)@.sequence_length,
            final(self)@.max_sequence == old(self)@.max_sequence,
            final(self)@.increment == old(self)@.increment,
            final(self)@.buffer == old(self)@.buffer,
            final(self)@.sequence == next_sequence(
                old(self)@.sequence,
                old(self)@.increment,
                old(self)@.max_sequence,
            ),
            final(self)@.sequence != 0 ==> final(self)@.prefix == old(self)@.prefix,
            final(self)@.prefix.len() == old(self)@.prefix_length,
    {
        let next = (((self.sequence as u128) + (self.increment as u128)) % (
        self.max_sequence as u128)) as u64;
        self.sequence = next;
        if next == 0 {
            self.new_prefix();
        }
    }

    /// Advances the counter (rotating the prefix on wraparound) and renders
    /// `prefix` followed by the counter numeral into the reusable buffer.
    fn advance_and_render(&mut self)
        requires
            old(self).wf(),
        ensures
            final(self).wf(),
            final(self)@.alphabet == old(self)@.alphabet,
            final(self)@.prefix_length == old(self)@.prefix_length,
            final(self)@.sequence_length == old(self)@.sequence_length,
            final(self)@.max_sequence == old(self)@.max_sequence,
            final(self)@.increment == old(self)@.increment,
            final(self)@.sequence == next_sequence(
                old(self)@.sequence,
                old(self)@.increment,
                old(self)@.max_sequence,
            ),
            final(self)@.sequence != 0 ==> final(self)@.prefix == old(self)@.prefix,
            final(self)@.buffer == id_bytes(
                final(self)@.prefix,
                final(self)@.alphabet,
                final(self)@.sequence_length,
                final(self)@.sequence,
            ),
            forall|i: int|
                0 <= i < final(self)@.buffer.len() ==> final(self)@.alphabet.contains(
                    #[trigger] final(self)@.buffer[i],
                ),
    {
        self.new_sequence();
        let ghost pre = self@;
        let p = self.prefix_length;
        let mut i: usize = 0;
        while i < p
            invariant
                self@ == (LidModel { buffer: self@.buffer, ..pre }),
                lid_wf(pre),
                p == pre.prefix_length,
                i <= p,
                self@.buffer.len() == pre.buffer.len(),
                forall|k: int| 0 <= k < i ==> self@.buffer[k] == pre.prefix[k],
            decreases p - i,
        {
            let sym = self.prefix[i];
            self.inner_buffer[i] = sym;
            i += 1;
        }
        codec::copy_sequence_into(
            &self.alphabet,
            &mut self.inner_buffer,
            p,
            self.sequence_length,
            self.sequence,
        );
        proof {
            let m = self@;
            codec::lemma_encode_len(m.alphabet, m.sequence_length, m.sequence);
            codec::lemma_encode_in_alpha(m.alphabet, m.sequence_length, m.sequence);
            assert(m.buffer =~= id_bytes(m.prefix, m.alphabet, m.sequence_length, m.sequence));
            assert forall|k: int| 0 <= k < m.buffer.len() implies m.alphabet.contains(
                #[trigger] m.buffer[k],
            ) by {
                if k < m.prefix_length {
                    assert(m.buffer[k] == m.prefix[k]);
                } else {
                    assert(m.buffer[k] == encode(m.alphabet, m.sequence_length, m.sequence)[k
                        - m.prefix_length]);
                }
            }
        }
    }

    /// Generates a new identifier: a string of exactly
    /// `prefix_length + sequence_length` characters, all drawn from the
    /// configured alphabet. Advances the counter; on wraparound the prefix
    /// is replaced with a freshly drawn one before rendering.
    pub fn generate(&mut self) -> (id: String)
        requires
            old(self).wf(),
        ensures
            final(self).wf(),
            final(self)@.alphabet == old(self)@.alphabet,
            final(self)@.prefix_length == old(self)@.prefix_length,
            final(self)@.sequence_length == old(self)@.sequence_length,
            final(self)@.max_sequence == old(self)@.max_sequence,
            final(self)@.increment == old(self)@.increment,
            final(self)@.sequence == next_sequence(
                old(self)@.sequence,
                old(self)@.increment,
                old(self)@.max_sequence,
            ),
            final(self)@.sequence != 0 ==> final(self)@.prefix == old(self)@.prefix,
            final(self)@.buffer == id_bytes(
                final(self)@.prefix,
                final(self)@.alphabet,
                final(self)@.sequence_length,
                final(self)@.sequence,
            ),
            id@ == ascii_chars(final(self)@.buffer),
            id@.len() == final(self)@.prefix_length + final(self)@.sequence_length,
            forall|i: int|
                0 <= i < id@.len() ==> ascii_chars(final(self)@.alphabet).contains(
                    #[trigger] id@[i],
                ),
    {
        self.advance_and_render();
        proof {
            lemma_buffer_ascii(self@);
        }
        let id = ascii_string(&self.inner_buffer);
        proof {
            lemma_chars_closure(self@.buffer, self@.alphabet);
        }
        id
    }

    /// The validating mode of [`Self::generate`]: confirms at run time that
    /// every rendered byte belongs to the configured alphabet, and reports
    /// `InvalidEncoding` otherwise. With a validated alphabet the check is
    /// proved to always pass, so the result is always `Ok`; the counter has
    /// advanced either way.
    pub fn generate_checked(&mut self) -> (r: Result<String, InvalidEncoding>)
        requires
            old(self).wf(),
        ensures
            final(self).wf(),
            final(self)@.alphabet == old(self)@.alphabet,
            final(self)@.prefix_length == old(self)@.prefix_length,
            final(self)@.sequence_length == old(self)@.sequence_length,
            final(self)@.max_sequence == old(self)@.max_sequence,
            final(self)@.increment == old(self)@.increment,
            final(self)@.sequence == next_sequence(
                old(self)@.sequence,
                old(self)@.increment,
                old(self)@.max_sequence,
            ),
            final(self)@.sequence != 0 ==> final(self)@.prefix == old(self)@.prefix,
            final(self)@.buffer == id_bytes(
                final(self)@.prefix,
                final(self)@.alphabet,
                final(self)@.sequence_length,
                final(self)@.sequence,
            ),
            r is Ok,
            match r {
                Ok(id) => {
                    &&& id@ == ascii_chars(final(self)@.buffer)
                    &&& id@.len() == final(self)@.prefix_length + final(self)@.sequence_length
                    &&& forall|i: int|
                        0 <= i < id@.len() ==> ascii_chars(final(self)@.alphabet).contains(
                            #[trigger] id@[i],
                        )
                },
                Err(_) => false,
            },
    {
        self.advance_and_render();
        let n = self.inner_buffer.len();
        let mut i: usize = 0;
        while i < n
            invariant
                self.wf(),
                n == self@.buffer.len(),
                i <= n,
                forall|k: int|
                    0 <= k < self@.buffer.len() ==> self@.alphabet.contains(
                        #[trigger] self@.buffer[k],
                    ),
            decreases n - i,
        {
            let b = self.inner_buffer[i];
            if !self.alphabet.contains_byte(b) {
                return Err(InvalidEncoding);
            }
            i += 1;
        }
        proof {
            lemma_buffer_ascii(self@);
        }
        let id = ascii_string(&self.inner_buffer);
        proof {
            lemma_chars_closure(self@.buffer, self@.alphabet);
        }
        Ok(id)
    }

    /// Builds a generator from an explicit state: the given prefix, counter
    /// value and increment, instead of randomly drawn ones. The prefix
    /// length is the length of the given prefix. Rejects states that
    /// violate the generator's invariant.
    #[verifier::loop_isolation(false)]
    pub fn from_parts(
        alphabet: Alphabet,
        prefix: Vec<u8>,
        sequence_length: usize,
        sequence: u64,
        increment: u64,
    ) -> (r: Result<LID, ConfigError>)
        requires
            alphabet.wf(),
        ensures
            r is Ok <==> {
                &&& prefix@.len() >= 1
                &&& sequence_length >= 1
                &&& increment >= 1
                &&& prefix@.len() + sequence_length <= usize::MAX
                &&& pow_nat(alphabet@.len(), sequence_length as nat) <= u64::MAX
                &&& sequence < pow_nat(alphabet@.len(), sequence_length as nat)
                &&& (forall|i: int|
                    0 <= i < prefix@.len() ==> alphabet@.contains(#[trigger] prefix@[i]))
            },
            match r {
                Ok(lid) => {
                    &&& lid.wf()
                    &&& lid@.alphabet == alphabet@
                    &&& lid@.prefix == prefix@
                    &&& lid@.prefix_length == prefix@.len()
                    &&& lid@.sequence_length == sequence_length
                    &&& lid@.max_sequence == pow_nat(alphabet@.len(), sequence_length as nat)
                    &&& lid@.sequence == sequence
                    &&& lid@.increment == increment
                },
                Err(e) => {
                    &&& (e == ConfigError::ZeroPrefixLength <==> prefix@.len() == 0)
                    &&& (e == ConfigError::ZeroSequenceLength <==> prefix@.len() >= 1
                        && sequence_length == 0)
                    &&& (e == ConfigError::InvalidIncrementRange <==> prefix@.len() >= 1
                        && sequence_length >= 1 && increment == 0)
                    &&& (e == ConfigError::IdLengthOverflow <==> prefix@.len() >= 1
                        && sequence_length >= 1 && increment >= 1 && prefix@.len()
                        + sequence_length > usize::MAX)
                    &&& (e == ConfigError::SequenceRangeOverflow <==> prefix@.len() >= 1
                        && sequence_length >= 1 && increment >= 1 && prefix@.len()
                        + sequence_length <= usize::MAX && pow_nat(
                        alphabet@.len(),
                        sequence_length as nat,
                    ) > u64::MAX)
                    &&& (e == ConfigError::SequenceOutOfRange <==> prefix@.len() >= 1
                        && sequence_length >= 1 && increment >= 1 && prefix@.len()
                        + sequence_length <= usize::MAX && pow_nat(
                        alphabet@.len(),
                        sequence_length as nat,
                    ) <= u64::MAX && sequence >= pow_nat(
                        alphabet@.len(),
                        sequence_length as nat,
                    ))
                    &&& (e == ConfigError::ForeignPrefixSymbol <==> prefix@.len() >= 1
                        && sequence_length >= 1 && increment >= 1 && prefix@.len()
                        + sequence_length <= usize::MAX && pow_nat(
                        alphabet@.len(),
                        sequence_length as nat,
                    ) <= u64::MAX && sequence < pow_nat(alphabet@.len(), sequence_length as nat)
                        && !(forall|i: int|
                        0 <= i < prefix@.len() ==> alphabet@.contains(#[trigger] prefix@[i])))
                    &&& (e == ConfigError::ZeroPrefixLength || e == ConfigError::ZeroSequenceLength
                        || e == ConfigError::InvalidIncrementRange
                        || e == ConfigError::IdLengthOverflow
                        || e == ConfigError::SequenceRangeOverflow
                        || e == ConfigError::SequenceOutOfRange
                        || e == ConfigError::ForeignPrefixSymbol)
                },
            },
    {
        let prefix_length = prefix.len();
        if prefix_length == 0 {
            return Err(ConfigError::ZeroPrefixLength);
        }
        if sequence_length == 0 {
            return Err(ConfigError::ZeroSequenceLength);
        }
        if increment == 0 {
            return Err(ConfigError::InvalidIncrementRange);
        }
        let id_length = match prefix_length.checked_add(sequence_length) {
            Some(n) => n,
            None => {
                return Err(ConfigError::IdLengthOverflow);
            },
        };
        let base = alphabet.base() as u64;
        let max_sequence = match codec::pow_checked(base, sequence_length) {
            Some(m) => m,
            None => {
                return Err(ConfigError::SequenceRangeOverflow);
            },
        };
        if sequence >= max_sequence {
            return Err(ConfigError::SequenceOutOfRange);
        }
        let mut i: usize = 0;
        while i < prefix_length
            invariant
                prefix_length == prefix@.len(),
                i <= prefix_length,
                forall|k: int| 0 <= k < i ==> alphabet@.contains(#[trigger] prefix@[k]),
            decreases prefix_length - i,
        {
            if !alphabet.contains_byte(prefix[i]) {
                return Err(ConfigError::ForeignPrefixSymbol);
            }
            i += 1;
        }
        let mut inner_buffer: Vec<u8> = Vec::new();
        let mut i: usize = 0;
        while i < id_length
            invariant
                inner_buffer@.len() == i,
                i <= id_length,
            decreases id_length - i,
        {
            inner_buffer.push(0u8);
            i += 1;
        }
        Ok(
            LID {
                alphabet,
                prefix_length,
                sequence_length,
                max_sequence,
                prefix,
                sequence,
                increment,
                inner_buffer,
            },
        )
    }
}

/// Every byte of a well-formed generator's rendered buffer is printable,
/// hence below `0x80`.
proof fn lemma_buffer_ascii(m: LidModel)
    requires
        alpha_wf(m.alphabet),
        forall|i: int| 0 <= i < m.buffer.len() ==> m.alphabet.contains(#[trigger] m.buffer[i]),
    ensures
        forall|i: int| 0 <= i < m.buffer.len() ==> m.buffer[i] < 0x80,
{
    assert forall|i: int| 0 <= i < m.buffer.len() implies m.buffer[i] < 0x80 by {
        assert(m.alphabet.contains(m.buffer[i]));
        let j = choose|j: int| 0 <= j < m.alphabet.len() && m.alphabet[j] == m.buffer[i];
        assert(printable(m.alphabet[j]));
    }
}

/// The counter value after `n` calls on a generator that started at
/// `start`: each call adds `increment`, modulo `max_sequence`.
pub open spec fn nth_sequence(start: nat, increment: nat, max_sequence: nat, n: nat) -> nat {
    (((start + n * increment) as int) % (max_sequence as int)) as nat
}

/// Before any call, the counter is at its starting value.
pub proof fn lemma_nth_sequence_zero(start: nat, increment: nat, max_sequence: nat)
    requires
        start < max_sequence,
    ensures
        nth_sequence(start, increment, max_sequence, 0) == start,
{
    lemma_small_mod(start, max_sequence);
}

/// The closed form of `nth_sequence` follows the step that each
/// [`LID::generate`] call makes: one more call advances the counter by
/// `increment`, modulo `max_sequence`.
pub proof fn lemma_nth_sequence_step(start: nat, increment: nat, max_sequence: nat, n: nat)
    requires
        max_sequence >= 1,
    ensures
        nth_sequence(start, increment, max_sequence, n + 1) == next_sequence(
            nth_sequence(start, increment, max_sequence, n),
            increment,
            max_sequence,
        ),
{
    let m = max_sequence as int;
    let a = (start + n * increment) as int;
    lemma_mul_is_distributive_add_other_way(increment as int, n as int, 1);
    assert((n + 1) * increment == n * increment + increment);
    lemma_add_mod_noop_right(increment as int, a, m);
    lemma_mod_division_less_than_divisor(a, m);
}

/// Distinctness within an epoch: two distinct calls, the `i`-th and the
/// `j`-th, of a generator whose prefix has not rotated in between render
/// distinct identifiers, as long as the total advance `j * increment` has
/// not yet wrapped the counter range `BASE^S`.
pub proof fn lemma_distinct_within_epoch(
    alpha: Seq<u8>,
    prefix: Seq<u8>,
    sequence_length: nat,
    start: nat,
    increment: nat,
    i: nat,
    j: nat,
)
    requires
        alpha_wf(alpha),
        start < pow_nat(alpha.len(), sequence_length),
        increment >= 1,
        i < j,
        j * increment < pow_nat(alpha.len(), sequence_length),
    ensures
        ({
            let m = pow_nat(alpha.len(), sequence_length);
            id_bytes(prefix, alpha, sequence_length, nth_sequence(start, increment, m, i))
                != id_bytes(prefix, alpha, sequence_length, nth_sequence(start, increment, m, j))
        }),
{
    let m = pow_nat(alpha.len(), sequence_length);
    let mi = m as int;
    let k = increment as int;
    let a = (start + i * increment) as int;
    let bb = (start + j * increment) as int;
    let d = bb - a;
    codec::lemma_pow_nat_pos(alpha.len(), sequence_length);
    lemma_mul_is_distributive_sub(k, j as int, i as int);
    assert(k * (j - i) == k * j - k * i);
    assert(d == (j - i) * increment);
    lemma_mul_inequality(1, (j - i) as int, k);
    lemma_mul_inequality((j - i) as int, j as int, k);
    assert(1 <= d < mi);
    let s1 = nth_sequence(start, increment, m, i);
    let s2 = nth_sequence(start, increment, m, j);
    lemma_mod_division_less_than_divisor(a, mi);
    lemma_mod_division_less_than_divisor(bb, mi);
    if s1 == s2 {
        let ra = a % mi;
        lemma_add_mod_noop_right(d, a, mi);
        assert((d + ra) % mi == bb % mi);
        if ra + d < mi {
            lemma_small_mod((ra + d) as nat, m);
            assert(false);
        } else {
            lemma_mod_sub_multiples_vanish(ra + d, mi);
            lemma_small_mod((ra + d - mi) as nat, m);
            assert(false);
        }
    }
    codec::lemma_encode_injective(alpha, sequence_length, s1, s2);
    codec::lemma_encode_len(alpha, sequence_length, s1);
    codec::lemma_encode_len(alpha, sequence_length, s2);
    let e1 = encode(alpha, sequence_length, s1);
    let e2 = encode(alpha, sequence_length, s2);
    if id_bytes(prefix, alpha, sequence_length, s1) == id_bytes(prefix, alpha, sequence_length, s2) {
        assert(e1 =~= e2) by {
            assert forall|t: int| 0 <= t < e1.len() implies e1[t] == e2[t] by {
                assert((prefix + e1)[prefix.len() + t] == e1[t]);
                assert((prefix + e2)[prefix.len() + t] == e2[t]);
            }
        }
    }
}

/// Prepending one common prefix to both runs does not change their order.
proof fn lemma_lex_lt_common_prefix(alpha: Seq<u8>, prefix: Seq<u8>, a: Seq<u8>, b: Seq<u8>)
    requires
        lex_lt(alpha, a, b),
    ensures
        lex_lt(alpha, prefix + a, prefix + b),
    decreases prefix.len(),
{
    if prefix.len() == 0 {
        assert(prefix + a =~= a);
        assert(prefix + b =~= b);
    } else {
        lemma_lex_lt_common_prefix(alpha, prefix.drop_first(), a, b);
        assert((prefix + a)[0] == prefix[0]);
        assert((prefix + b)[0] == prefix[0]);
        assert((prefix + a).drop_first() =~= prefix.drop_first() + a);
        assert((prefix + b).drop_first() =~= prefix.drop_first() + b);
    }
}

/// Ordering within an epoch: while the prefix has not rotated, the call
/// with the greater counter value renders the lexicographically greater
/// identifier, digits ordered by their position in the alphabet. Across a
/// rotation no such guarantee holds.
pub proof fn lemma_ordered_within_epoch(
    alpha: Seq<u8>,
    prefix: Seq<u8>,
    sequence_length: nat,
    v1: nat,
    v2: nat,
)
    requires
        alpha_wf(alpha),
        v1 < v2,
        v2 < pow_nat(alpha.len(), sequence_length),
    ensures
        lex_lt(
            alpha,
            id_bytes(prefix, alpha, sequence_length, v1),
            id_bytes(prefix, alpha, sequence_length, v2),
        ),
{
    codec::lemma_encode_preserves_order(alpha, sequence_length, v1, v2);
    lemma_lex_lt_common_prefix(
        alpha,
        prefix,
        encode(alpha, sequence_length, v1),
        encode(alpha, sequence_length, v2),
    );
}

/// Bytes drawn from the alphabet, read as text, are characters of the
/// alphabet read as text.
proof fn lemma_chars_closure(bytes: Seq<u8>, alpha: Seq<u8>)
    requires
        forall|i: int| 0 <= i < bytes.len() ==> alpha.contains(#[trigger] bytes[i]),
    ensures
        forall|i: int|
            0 <= i < ascii_chars(bytes).len() ==> ascii_chars(alpha).contains(
                #[trigger] ascii_chars(bytes)[i],
            ),
{
    assert forall|i: int|
        0 <= i < ascii_chars(bytes).len() implies ascii_chars(alpha).contains(
        #[trigger] ascii_chars(bytes)[i],
    ) by {
        assert(alpha.contains(bytes[i]));
        let j = choose|j: int| 0 <= j < alpha.len() && alpha[j] == bytes[i];
        assert(ascii_chars(alpha)[j] == ascii_chars(bytes)[i]);
    }
}

} // verus!
