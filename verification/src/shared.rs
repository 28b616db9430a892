//! The shared instance wrapper: one generator behind an exclusive lock, so
//! concurrent callers are fully serialized. Each call holds the lock across
//! both the state mutation and the read of the rendered buffer, so no caller
//! can observe a half-updated buffer or receive another caller's output.
//!
//! This is a convenience layer over the private-instance path: it trades
//! throughput under contention for freedom from per-caller bookkeeping. A
//! process-wide singleton is one `SharedLid` value that the embedding
//! program keeps for its whole lifetime.

use vstd::prelude::*;
use vstd::rwlock::RwLock;

use crate::generator::{ascii_chars, LID};

verus! {

/// A generator shared behind an exclusive lock; `generate_shared` may be
/// called through a shared reference from any number of threads.
pub struct SharedLid {
    prefix_length: usize,
    sequence_length: usize,
    alphabet_ghost: Ghost<Seq<u8>>,
    inner: RwLock<LID, spec_fn(LID) -> bool>,
}

impl SharedLid {
    /// The alphabet of the wrapped generator.
    pub closed spec fn spec_alphabet(&self) -> Seq<u8> {
        self.alphabet_ghost@
    }

    /// Number of prefix symbols of the wrapped generator.
    pub closed spec fn spec_prefix_length(&self) -> nat {
        self.prefix_length as nat
    }

    /// Number of counter symbols of the wrapped generator.
    pub closed spec fn spec_sequence_length(&self) -> nat {
        self.sequence_length as nat
    }

    /// Validity: whatever sits in the lock is a well-formed generator with
    /// this wrapper's configuration.
    pub closed spec fn wf(&self) -> bool {
        forall|l: LID| #[trigger]
            self.inner.inv(l) <==> {
                &&& l.wf()
                &&& l@.alphabet == self.alphabet_ghost@
                &&& l@.prefix_length == self.prefix_length
                &&& l@.sequence_length == self.sequence_length
            }
    }

    /// Wraps a generator for shared use.
    pub fn new(lid: LID) -> (r: SharedLid)
        requires
            lid.wf(),
        ensures
            r.wf(),
            r.spec_alphabet() == lid@.alphabet,
            r.spec_prefix_length() == lid@.prefix_length,
            r.spec_sequence_length() == lid@.sequence_length,
    {
        let prefix_length = lid.prefix_length();
        let sequence_length = lid.sequence_length();
        let ghost alpha = lid@.alphabet;
        let ghost pred = |l: LID|
            {
                &&& l.wf()
                &&& l@.alphabet == alpha
                &&& l@.prefix_length == prefix_length
                &&& l@.sequence_length == sequence_length
            };
        let inner = RwLock::<LID, spec_fn(LID) -> bool>::new(lid, Ghost(pred));
        SharedLid { prefix_length, sequence_length, alphabet_ghost: Ghost(alpha), inner }
    }

    /// Generates a new identifier from the wrapped generator, serialized by
    /// the lock: the counter step, any prefix rotation, the rendering and
    /// the read of the buffer all happen while the lock is held.
    pub fn generate_shared(&self) -> (id: String)
        requires
            self.wf(),
        ensures
            id@.len() == self.spec_prefix_length() + self.spec_sequence_length(),
            forall|i: int|
                0 <= i < id@.len() ==> ascii_chars(self.spec_alphabet()).contains(
                    #[trigger] id@[i],
                ),
    {
        let (mut lid, handle) = self.inner.acquire_write();
        let id = lid.generate();
        handle.release_write(lid);
        id
    }
}

} // verus!
