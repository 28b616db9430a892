//! The alphabet table: an ordered set of distinct printable one-byte symbols
//! that defines the numeral system identifiers are rendered in.

use vstd::prelude::*;

use crate::ConfigError;

verus! {

/// A byte that is a printable ASCII character, so a rendered identifier is
/// always valid text with one character per byte.
pub open spec fn printable(b: u8) -> bool {
    0x21 <= b <= 0x7e
}

/// What a well-formed symbol table is: non-empty, all symbols printable
/// one-byte characters, no symbol repeated.
pub open spec fn alpha_wf(s: Seq<u8>) -> bool {
    &&& s.len() >= 1
    &&& s.no_duplicates()
    &&& forall|i: int| 0 <= i < s.len() ==> printable(#[trigger] s[i])
}

/// The 32-symbol table `A`-`Z`, `2`-`7`.
pub open spec fn base32_spec() -> Seq<u8> {
    Seq::new(32, |i: int| if i < 26 { (65 + i) as u8 } else { (24 + i) as u8 })
}

/// The 36-symbol table `A`-`Z`, `1`-`9`, `0`.
pub open spec fn base36_spec() -> Seq<u8> {
    Seq::new(
        36,
        |i: int|
            if i < 26 {
                (65 + i) as u8
            } else if i < 35 {
                (23 + i) as u8
            } else {
                48u8
            },
    )
}

/// The 62-symbol table `a`-`z`, `A`-`Z`, `1`-`9`, `0`.
pub open spec fn base62_spec() -> Seq<u8> {
    Seq::new(
        62,
        |i: int|
            if i < 26 {
                (97 + i) as u8
            } else if i < 52 {
                (39 + i) as u8
            } else if i < 61 {
                (i - 3) as u8
            } else {
                48u8
            },
    )
}

/// An immutable table of `BASE` distinct printable symbols; digit value `d`
/// is rendered as the symbol at position `d`.
pub struct Alphabet {
    symbols: Vec<u8>,
}

impl View for Alphabet {
    type V = Seq<u8>;

    closed spec fn view(&self) -> Seq<u8> {
        self.symbols@
    }
}

impl Alphabet {
    /// Validity of the table; every constructor establishes it.
    pub open spec fn wf(&self) -> bool {
        alpha_wf(self@)
    }

    /// The number of symbols, i.e. the base of the numeral system.
    pub fn base(&self) -> (r: usize)
        ensures
            r == self@.len(),
    {
        self.symbols.len()
    }

    /// The symbol that renders digit value `d`.
    pub fn symbol(&self, d: usize) -> (r: u8)
        requires
            d < self@.len(),
        ensures
            r == self@[d as int],
    {
        self.symbols[d]
    }

    /// A copy of the symbol table, in digit-value order.
    pub fn symbols(&self) -> (v: Vec<u8>)
        ensures
            v@ == self@,
    {
        let mut v: Vec<u8> = Vec::new();
        let mut i: usize = 0;
        while i < self.symbols.len()
            invariant
                v@.len() == i,
                i <= self@.len(),
                forall|k: int| 0 <= k < i ==> v@[k] == self@[k],
            decreases self@.len() - i,
        {
            v.push(self.symbols[i]);
            i += 1;
        }
        proof {
            assert(v@ =~= self@);
        }
        v
    }

    /// Whether `b` is one of the table's symbols.
    pub fn contains_byte(&self, b: u8) -> (r: bool)
        ensures
            r == self@.contains(b),
    {
        let mut i: usize = 0;
        while i < self.symbols.len()
            invariant
                i <= self@.len(),
                forall|k: int| 0 <= k < i ==> self@[k] != b,
            decreases self@.len() - i,
        {
            if self.symbols[i] == b {
                return true;
            }
            i += 1;
        }
        false
    }

    /// The position of `b` in the table, if `b` is a symbol of it.
    pub fn symbol_index(&self, b: u8) -> (r: Option<usize>)
        ensures
            match r {
                Some(d) => d < self@.len() && self@[d as int] == b,
                None => !self@.contains(b),
            },
    {
        let mut i: usize = 0;
        while i < self.symbols.len()
            invariant
                i <= self@.len(),
                forall|k: int| 0 <= k < i ==> self@[k] != b,
            decreases self@.len() - i,
        {
            if self.symbols[i] == b {
                return Some(i);
            }
            i += 1;
        }
        None
    }

    /// Builds a table from caller-supplied symbols, validating that at least
    /// one symbol is given, that every symbol is a printable one-byte
    /// character, and that no symbol repeats. Fails fast otherwise.
    pub fn from_symbols(symbols: Vec<u8>) -> (r: Result<Alphabet, ConfigError>)
        ensures
            r is Ok <==> alpha_wf(symbols@),
            match r {
                Ok(a) => a@ == symbols@,
                Err(e) => {
                    &&& (e == ConfigError::EmptyAlphabet <==> symbols@.len() == 0)
                    &&& (e == ConfigError::UnprintableSymbol <==> symbols@.len() >= 1
                        && exists|i: int|
                        0 <= i < symbols@.len() && !printable(#[trigger] symbols@[i]))
                    &&& (e == ConfigError::DuplicateSymbol <==> symbols@.len() >= 1 && (forall|
                        i: int,
                    |
                        0 <= i < symbols@.len() ==> printable(#[trigger] symbols@[i]))
                        && !symbols@.no_duplicates())
                },
            },
    {
        if symbols.len() == 0 {
            return Err(ConfigError::EmptyAlphabet);
        }
        let n = symbols.len();
        let mut i: usize = 0;
        while i < n
            invariant
                n == symbols@.len(),
                i <= n,
                forall|k: int| 0 <= k < i ==> printable(#[trigger] symbols@[k]),
            decreases n - i,
        {
            let b = symbols[i];
            if b < 0x21 || b > 0x7e {
                return Err(ConfigError::UnprintableSymbol);
            }
            i += 1;
        }
        let mut i: usize = 1;
        while i < n
            invariant
                n == symbols@.len(),
                1 <= i <= n || n == 0,
                forall|k: int| 0 <= k < n ==> printable(#[trigger] symbols@[k]),
                forall|p: int, q: int| 0 <= p < q < i ==> symbols@[p] != symbols@[q],
            decreases n - i,
        {
            let mut j: usize = 0;
            while j < i
                invariant
                    n == symbols@.len(),
                    j <= i < n,
                    forall|k: int| 0 <= k < n ==> printable(#[trigger] symbols@[k]),
                    forall|p: int| 0 <= p < j ==> symbols@[p] != symbols@[i as int],
                decreases i - j,
            {
                if symbols[j] == symbols[i] {
                    return Err(ConfigError::DuplicateSymbol);
                }
                j += 1;
            }
            i += 1;
        }
        Ok(Alphabet { symbols })
    }

    /// The pre-defined 32-symbol table `A`-`Z`, `2`-`7`.
    pub fn base32() -> (r: Alphabet)
        ensures
            r@ == base32_spec(),
            r.wf(),
    {
        let mut v: Vec<u8> = Vec::new();
        let mut i: usize = 0;
        while i < 32
            invariant
                v@.len() == i,
                i <= 32,
                forall|k: int| 0 <= k < i ==> v@[k] == base32_spec()[k],
            decreases 32 - i,
        {
            if i < 26 {
                v.push((65 + i) as u8);
            } else {
                v.push((24 + i) as u8);
            }
            i += 1;
        }
        proof {
            assert(v@ =~= base32_spec());
        }
        Alphabet { symbols: v }
    }

    /// The pre-defined 36-symbol table `A`-`Z`, `1`-`9`, `0`.
    pub fn base36() -> (r: Alphabet)
        ensures
            r@ == base36_spec(),
            r.wf(),
    {
        let mut v: Vec<u8> = Vec::new();
        let mut i: usize = 0;
        while i < 36
            invariant
                v@.len() == i,
                i <= 36,
                forall|k: int| 0 <= k < i ==> v@[k] == base36_spec()[k],
            decreases 36 - i,
        {
            if i < 26 {
                v.push((65 + i) as u8);
            } else if i < 35 {
                v.push((23 + i) as u8);
            } else {
                v.push(48u8);
            }
            i += 1;
        }
        proof {
            assert(v@ =~= base36_spec());
        }
        Alphabet { symbols: v }
    }

    /// The pre-defined 62-symbol table `a`-`z`, `A`-`Z`, `1`-`9`, `0`.
    pub fn base62() -> (r: Alphabet)
        ensures
            r@ == base62_spec(),
            r.wf(),
    {
        let mut v: Vec<u8> = Vec::new();
        let mut i: usize = 0;
        while i < 62
            invariant
                v@.len() == i,
                i <= 62,
                forall|k: int| 0 <= k < i ==> v@[k] == base62_spec()[k],
            decreases 62 - i,
        {
            if i < 26 {
                v.push((97 + i) as u8);
            } else if i < 52 {
                v.push((39 + i) as u8);
            } else if i < 61 {
                v.push((i - 3) as u8);
            } else {
                v.push(48u8);
            }
            i += 1;
        }
        proof {
            assert(v@ =~= base62_spec());
        }
        Alphabet { symbols: v }
    }
}

} // verus!
