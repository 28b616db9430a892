use std::collections::HashSet;

use lid::codec::decode_digits;
use lid::configs::new_distributed;
use lid::{Alphabet, SharedLid, LID};

/// Scenario: 36-symbol alphabet, 16-symbol prefix, 12-symbol counter,
/// increment 250, counter starting at 0. The first call advances to 250 and
/// renders it as the last 12 characters; the second yields 500.
#[test]
fn scenario_base36_increment_250() {
    let alphabet = Alphabet::base36();
    let prefix = vec![b'A'; 16];
    let mut g = LID::from_parts(alphabet, prefix, 12, 0, 250).unwrap();

    let id1 = g.generate();
    assert_eq!(id1.len(), 28);
    assert_eq!(&id1[..16], "AAAAAAAAAAAAAAAA");
    assert_eq!(&id1[16..], "AAAAAAAAAAG9");
    assert_eq!(g.sequence(), 250);

    let id2 = g.generate();
    assert_eq!(&id2[..16], "AAAAAAAAAAAAAAAA");
    assert_eq!(&id2[16..], "AAAAAAAAAAN7");
    assert_eq!(g.sequence(), 500);
}

/// Scenario: when the counter would pass `36^12 - 1` it wraps to 0 and the
/// prefix changes (up to the `36^-16` chance of drawing the same prefix).
#[test]
fn scenario_base36_wraparound() {
    let max: u64 = 36u64.pow(12);
    let alphabet = Alphabet::base36();
    let prefix = vec![b'A'; 16];
    let mut g = LID::from_parts(alphabet, prefix, 12, max - 250, 250).unwrap();

    let id = g.generate();
    assert_eq!(g.sequence(), 0);
    assert_eq!(&id[16..], "AAAAAAAAAAAA");
    assert_ne!(&id[..16], "AAAAAAAAAAAAAAAA");
}

/// Distinctness within an epoch: with increment k and N calls, N * k below
/// the counter range, all outputs differ and the prefix never rotates.
#[test]
fn distinct_within_epoch_scenario() {
    let alphabet = Alphabet::base36();
    let mut g = LID::from_parts(alphabet, vec![b'Q'; 4], 3, 0, 7).unwrap();

    // 6000 * 7 = 42000 < 36^3 = 46656
    let mut ids = HashSet::new();
    for _ in 0..6000 {
        let id = g.generate();
        assert_eq!(&id[..4], "QQQQ");
        assert!(ids.insert(id));
    }
    assert_eq!(ids.len(), 6000);
}

/// Rotation behavior: with increment `36^2 - 1` the counter wraps every 1296
/// calls; each wrap draws a fresh prefix, which differs from the previous
/// one (up to the `36^-8` chance per rotation of an identical draw).
#[test]
fn rotation_draws_fresh_prefix() {
    let alphabet = Alphabet::base36();
    let mut g = LID::from_parts(alphabet, vec![b'A'; 8], 2, 0, 36 * 36 - 1).unwrap();

    let mut prev_prefix = String::from("AAAAAAAA");
    let mut rotations = 0;
    for _ in 0..(1296 * 5) {
        let id = g.generate();
        if g.sequence() == 0 {
            rotations += 1;
            let p = &id[..8];
            assert_ne!(p, prev_prefix);
            prev_prefix = p.to_string();
        }
    }
    assert_eq!(rotations, 5);
}

/// Round-trip: decoding the trailing S characters as a base-BASE numeral
/// recovers exactly the sequence value that produced the output.
#[test]
fn round_trip_recovers_sequence() {
    let alphabet = Alphabet::base36();
    let mut g = LID::from_parts(alphabet, vec![b'B'; 5], 12, 123_456_789, 997).unwrap();

    let decoder = Alphabet::base36();
    for _ in 0..200 {
        let id = g.generate();
        let digits: Vec<u8> = id.as_bytes()[5..].to_vec();
        let v = decode_digits(&decoder, &digits).unwrap();
        assert_eq!(v, g.sequence());
    }
}

/// Stress scenario: ten million consecutive calls on one generator with a
/// 16-symbol prefix, 12-symbol counter and the 36-symbol alphabet yield no
/// duplicate.
#[test]
fn stress_ten_million_unique() {
    let mut g = LID::new(16, 12, 100, 1000, Alphabet::base36()).unwrap();

    let n = 10_000_000;
    let mut ids = HashSet::with_capacity(n);
    for _ in 0..n {
        assert!(ids.insert(g.generate()));
    }
    assert_eq!(ids.len(), n);
}

/// Eight independent generators, one million identifiers each: the union of
/// all eight million outputs holds no duplicate (probabilistic criterion
/// resting on the `32^-16` odds of two generators sharing a prefix).
#[test]
fn independent_generators_disjoint() {
    let mut gens: Vec<LID> = Vec::new();
    for _ in 0..8 {
        gens.push(new_distributed());
    }

    let n = 1_000_000;
    let mut ids = HashSet::with_capacity(8 * n);
    for g in &mut gens {
        for _ in 0..n {
            assert!(ids.insert(g.generate()));
        }
    }
    assert_eq!(ids.len(), 8 * n);
}

/// Shared-instance serialization: every call through the wrapper covers the
/// whole mutate-then-read step, so repeated calls never repeat an output.
#[test]
fn shared_instance_outputs_distinct() {
    let shared = SharedLid::new(new_distributed());

    let n = 200_000;
    let mut ids = HashSet::with_capacity(n);
    for _ in 0..n {
        assert!(ids.insert(shared.generate_shared()));
    }
    assert_eq!(ids.len(), n);
}

/// Ordering within an epoch: with an alphabet whose symbols are already in
/// byte order, plain string comparison agrees with digit order, so
/// successive identifiers under one prefix strictly increase.
#[test]
fn ordered_within_epoch_for_byte_ordered_alphabet() {
    let hex = Alphabet::from_symbols(b"0123456789ABCDEF".to_vec()).unwrap();
    let mut g = LID::from_parts(hex, vec![b'7'; 4], 8, 0, 1000).unwrap();

    // 2001 * 1000 stays far below 16^8, so the counter never wraps
    let mut prev = g.generate();
    for _ in 0..2000 {
        let next = g.generate();
        assert!(prev < next);
        prev = next;
    }
}

/// Fixed width and alphabet closure, observed over every preset alphabet.
#[test]
fn width_and_closure_hold() {
    let configs = [
        (Alphabet::base32(), 16usize, 12usize),
        (Alphabet::base36(), 7, 9),
        (Alphabet::base62(), 4, 8),
    ];
    for (alphabet, p, s) in configs {
        let reference = alphabet.symbols();
        let mut g = LID::new(p, s, 100, 1000, alphabet).unwrap();
        for _ in 0..1000 {
            let id = g.generate();
            assert_eq!(id.len(), p + s);
            assert!(id.bytes().all(|b| reference.contains(&b)));
        }
    }
}
