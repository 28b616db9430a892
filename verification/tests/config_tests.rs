use lid::codec::decode_digits;
use lid::configs::{new_distributed, new_random};
use lid::{Alphabet, ConfigError, LID};

#[test]
fn rejects_zero_prefix_length() {
    let r = LID::new(0, 12, 100, 1000, Alphabet::base32());
    assert_eq!(r.err(), Some(ConfigError::ZeroPrefixLength));
}

#[test]
fn rejects_zero_sequence_length() {
    let r = LID::new(16, 0, 100, 1000, Alphabet::base32());
    assert_eq!(r.err(), Some(ConfigError::ZeroSequenceLength));
}

#[test]
fn rejects_zero_min_increment() {
    let r = LID::new(16, 12, 0, 1000, Alphabet::base32());
    assert_eq!(r.err(), Some(ConfigError::InvalidIncrementRange));
}

#[test]
fn rejects_inverted_increment_bounds() {
    let r = LID::new(16, 12, 1000, 100, Alphabet::base32());
    assert_eq!(r.err(), Some(ConfigError::InvalidIncrementRange));
}

#[test]
fn rejects_sequence_range_overflow() {
    // 32^13 exceeds u64::MAX
    let r = LID::new(16, 13, 100, 1000, Alphabet::base32());
    assert_eq!(r.err(), Some(ConfigError::SequenceRangeOverflow));
}

#[test]
fn rejects_id_length_overflow() {
    let r = LID::new(usize::MAX, 2, 100, 1000, Alphabet::base32());
    assert_eq!(r.err(), Some(ConfigError::IdLengthOverflow));
}

#[test]
fn rejects_empty_alphabet() {
    let r = Alphabet::from_symbols(Vec::new());
    assert_eq!(r.err(), Some(ConfigError::EmptyAlphabet));
}

#[test]
fn rejects_unprintable_symbol() {
    let r = Alphabet::from_symbols(vec![b'A', 0x07, b'B']);
    assert_eq!(r.err(), Some(ConfigError::UnprintableSymbol));
}

#[test]
fn rejects_duplicate_symbol() {
    let r = Alphabet::from_symbols(vec![b'A', b'B', b'A']);
    assert_eq!(r.err(), Some(ConfigError::DuplicateSymbol));
}

#[test]
fn rejects_out_of_range_sequence() {
    let r = LID::from_parts(Alphabet::base36(), vec![b'A'; 4], 2, 36 * 36, 5);
    assert_eq!(r.err(), Some(ConfigError::SequenceOutOfRange));
}

#[test]
fn rejects_foreign_prefix_symbol() {
    // lower-case letters are not in the upper-case 36-symbol table
    let r = LID::from_parts(Alphabet::base36(), vec![b'a'; 4], 2, 0, 5);
    assert_eq!(r.err(), Some(ConfigError::ForeignPrefixSymbol));
}

#[test]
fn preset_alphabets_as_published() {
    assert_eq!(Alphabet::base32().symbols(), b"ABCDEFGHIJKLMNOPQRSTUVWXYZ234567".to_vec());
    assert_eq!(
        Alphabet::base36().symbols(),
        b"ABCDEFGHIJKLMNOPQRSTUVWXYZ1234567890".to_vec()
    );
    assert_eq!(
        Alphabet::base62().symbols(),
        b"abcdefghijklmnopqrstuvwxyzABCDEFGHIJKLMNOPQRSTUVWXYZ1234567890".to_vec()
    );
    assert_eq!(Alphabet::base32().base(), 32);
    assert_eq!(Alphabet::base36().base(), 36);
    assert_eq!(Alphabet::base62().base(), 62);
}

#[test]
fn alphabet_membership() {
    let a = Alphabet::base32();
    assert!(a.contains_byte(b'A'));
    assert!(a.contains_byte(b'7'));
    assert!(!a.contains_byte(b'1'));
    assert!(!a.contains_byte(b'a'));
    assert_eq!(a.symbol_index(b'C'), Some(2));
    assert_eq!(a.symbol_index(b'2'), Some(26));
    assert_eq!(a.symbol_index(b'z'), None);
}

#[test]
fn custom_alphabet_generates() {
    let hex = Alphabet::from_symbols(b"0123456789ABCDEF".to_vec()).unwrap();
    let reference = hex.symbols();
    let mut g = LID::new(6, 10, 100, 1000, hex).unwrap();
    for _ in 0..100 {
        let id = g.generate();
        assert_eq!(id.len(), 16);
        assert!(id.bytes().all(|b| reference.contains(&b)));
    }
}

#[test]
fn increment_drawn_within_bounds() {
    let g = new_distributed();
    assert!((100..1000).contains(&g.increment()));
    assert!(g.sequence() < 32u64.pow(12));

    let h = LID::new(4, 4, 7, 9, Alphabet::base32()).unwrap();
    assert!((7..9).contains(&h.increment()));
}

#[test]
fn new_random_draws_large_increment() {
    let g = new_random(12, 8).unwrap();
    assert!(g.increment() >= 10_000_000);
    let mut g = g;
    assert_eq!(g.generate().len(), 20);

    // 32^13 overflows the counter range
    let r = new_random(12, 13);
    assert_eq!(r.err(), Some(ConfigError::SequenceRangeOverflow));
    assert_eq!(new_random(0, 8).err(), Some(ConfigError::ZeroPrefixLength));
}

#[test]
fn default_is_distributed_configuration() {
    let mut g = LID::default();
    let id = g.generate();
    assert_eq!(id.len(), 28);
    assert!((100..1000).contains(&g.increment()));
}

#[test]
fn generate_checked_always_succeeds() {
    let mut g = new_distributed();
    for _ in 0..1000 {
        let id = g.generate_checked().unwrap();
        assert_eq!(id.len(), 28);
    }
}

#[test]
fn decode_rejects_foreign_bytes() {
    let a = Alphabet::base36();
    assert_eq!(decode_digits(&a, &vec![b'A', b'?', b'B']), None);
}

#[test]
fn decode_rejects_overflow() {
    let a = Alphabet::base36();
    // thirteen digits of the highest value exceed u64
    assert_eq!(decode_digits(&a, &vec![b'0'; 13]), None);
}

#[test]
fn decode_concrete_values() {
    let a = Alphabet::base36();
    assert_eq!(decode_digits(&a, &Vec::new()), Some(0));
    assert_eq!(decode_digits(&a, &vec![b'A']), Some(0));
    // 'G' is digit 6, '9' is digit 34: 6 * 36 + 34 == 250
    assert_eq!(decode_digits(&a, &vec![b'G', b'9']), Some(250));
    assert_eq!(decode_digits(&a, &vec![b'A', b'A', b'G', b'9']), Some(250));
}
