//! The tagged machine-word value representation.
//!
//! A `ValueRef` is a single 64-bit word. The low two bits tag the variant:
//! `00` a heap pointer (the payload is a granule address; the all-zero word
//! is the null reference), `01` a signed integer (62-bit two's complement),
//! `10` a character (the payload is the scalar value), `11` a boolean.
//! Heap pointers are granule addresses, so a non-null pointer word is a
//! nonzero multiple of four and never collides with an immediate.

use vstd::prelude::*;

verus! {

/// Lowest integer representable as an immediate: `-(2^61)`.
pub const INT_MIN: i64 = -2305843009213693952;

/// One past the highest integer representable as an immediate: `2^61`.
pub const INT_END: i64 = 2305843009213693952;

/// Modulus of the 62-bit payload: `2^62`.
pub const INT_MOD: i64 = 4611686018427387904;

/// A tagged machine word: an immediate or a heap pointer.
#[derive(Clone, Copy, PartialEq, Eq, Structural, Debug)]
pub struct ValueRef {
    pub word: u64,
}

/// Does the word denote a heap pointer (non-null, pointer-tagged)?
pub open spec fn spec_is_pointer(w: u64) -> bool {
    w % 4 == 0 && w != 0
}

/// The granule address a pointer word denotes.
pub open spec fn spec_ptr_addr(w: u64) -> int {
    w as int / 4
}

/// The pointer word for granule address `a`.
pub open spec fn spec_ptr_word(a: int) -> int {
    a * 4
}

/// Is the word an integer immediate?
pub open spec fn spec_is_int(w: u64) -> bool {
    w % 4 == 1
}

/// The integer an integer-immediate word denotes.
pub open spec fn spec_int_value(w: u64) -> int {
    if w as int / 4 < INT_END as int {
        w as int / 4
    } else {
        w as int / 4 - INT_MOD as int
    }
}

/// The word encoding integer `i`.
pub open spec fn spec_int_word(i: int) -> int {
    if i >= 0 {
        i * 4 + 1
    } else {
        (i + INT_MOD as int) * 4 + 1
    }
}

/// Is the word a character immediate?
pub open spec fn spec_is_char(w: u64) -> bool {
    w % 4 == 2
}

/// Is the word a boolean immediate?
pub open spec fn spec_is_bool(w: u64) -> bool {
    w % 4 == 3
}

/// Is `v` a Unicode scalar value, the payload of a character immediate?
pub open spec fn spec_is_scalar(v: int) -> bool {
    0 <= v < 0xD800 || 0xE000 <= v <= 0x10FFFF
}

impl ValueRef {
    /// The null reference: the all-zero word.
    pub fn null() -> (r: ValueRef)
        ensures
            r.word == 0,
    {
        ValueRef { word: 0 }
    }

    /// Is this the null reference?
    pub fn is_null(&self) -> (r: bool)
        ensures
            r == (self.word == 0),
    {
        self.word == 0
    }

    /// Tag disjointness: true exactly when the low tag bits are the pointer
    /// tag and the word is non-zero.
    pub fn is_pointer(&self) -> (r: bool)
        ensures
            r == spec_is_pointer(self.word),
    {
        self.word % 4 == 0 && self.word != 0
    }

    /// The granule address of a pointer word, or `None` for anything else.
    pub fn as_pointer(&self) -> (r: Option<u64>)
        ensures
            spec_is_pointer(self.word) ==> r == Some((self.word / 4) as u64),
            !spec_is_pointer(self.word) ==> r is None,
    {
        if self.word % 4 == 0 && self.word != 0 {
            Some(self.word / 4)
        } else {
            None
        }
    }

    /// The pointer to granule address `a`.
    pub fn from_addr(a: u64) -> (r: ValueRef)
        requires
            a >= 1,
            a <= u64::MAX as int / 4,
        ensures
            r.word == a * 4,
            spec_is_pointer(r.word),
            spec_ptr_addr(r.word) == a,
    {
        ValueRef { word: a * 4 }
    }

    /// Encode an integer immediate.
    pub fn from_int(i: i64) -> (r: ValueRef)
        requires
            INT_MIN as int <= i < INT_END as int,
        ensures
            r.word == spec_int_word(i as int),
            spec_is_int(r.word),
            spec_int_value(r.word) == i,
    {
        if i >= 0 {
            ValueRef { word: (i as u64) * 4 + 1 }
        } else {
            ValueRef { word: ((i + INT_MOD) as u64) * 4 + 1 }
        }
    }

    /// Decode an integer immediate; `None` for any other word.
    pub fn as_int(&self) -> (r: Option<i64>)
        ensures
            spec_is_int(self.word) ==> r == Some((spec_int_value(self.word)) as i64),
            !spec_is_int(self.word) ==> r is None,
            r matches Some(i) ==> INT_MIN as int <= i < INT_END as int,
    {
        if self.word % 4 == 1 {
            let x = self.word / 4;
            if x < INT_END as u64 {
                Some(x as i64)
            } else {
                Some((x as i64) - INT_MOD)
            }
        } else {
            None
        }
    }

    /// Encode a boolean immediate.
    pub fn from_bool(b: bool) -> (r: ValueRef)
        ensures
            spec_is_bool(r.word),
            r.word == (if b {
                7int
            } else {
                3int
            }),
    {
        if b {
            ValueRef { word: 7 }
        } else {
            ValueRef { word: 3 }
        }
    }

    /// Decode a boolean immediate; `None` for any other word.
    pub fn as_bool(&self) -> (r: Option<bool>)
        ensures
            self.word == 3 ==> r == Some(false),
            self.word == 7 ==> r == Some(true),
            !(self.word == 3 || self.word == 7) ==> r is None,
    {
        if self.word == 3 {
            Some(false)
        } else if self.word == 7 {
            Some(true)
        } else {
            None
        }
    }

    /// Encode a character immediate.
    pub fn from_char(c: char) -> (r: ValueRef)
        ensures
            spec_is_char(r.word),
            r.word == (c as int) * 4 + 2,
            r.word as int / 4 == c as int,
    {
        proof {
            assert(((c as int) * 4 + 2) % 4 == 2 && ((c as int) * 4 + 2) / 4 == c as int)
                by (nonlinear_arith);
        }
        ValueRef { word: (c as u64) * 4 + 2 }
    }

    /// Decode a character immediate; `None` for any other word or for a
    /// payload that is no scalar value.
    pub fn as_char(&self) -> (r: Option<char>)
        ensures
            r is Some <==> (spec_is_char(self.word) && spec_is_scalar(self.word as int / 4)),
            r matches Some(c) ==> c as int == self.word as int / 4,
    {
        if self.word % 4 == 2 {
            let x = self.word / 4;
            if x <= 0x10FFFF {
                char_from_u32(x as u32)
            } else {
                None
            }
        } else {
            None
        }
    }
}

/// Relies on char::from_u32: it returns `Some` exactly on Unicode scalar
/// values, and the returned character has the given scalar value.
#[verifier::external_body]
fn char_from_u32(x: u32) -> (r: Option<char>)
    ensures
        r is Some <==> spec_is_scalar(x as int),
        r matches Some(c) ==> c as int == x as int,
{
    char::from_u32(x)
}

/// Round trip of the integer immediates: decoding an encoded integer gives
/// the integer back, for every representable integer.
pub proof fn lemma_int_round_trip(i: int)
    requires
        INT_MIN as int <= i < INT_END as int,
    ensures
        0 <= spec_int_word(i) <= u64::MAX,
        spec_is_int(spec_int_word(i) as u64),
        spec_int_value(spec_int_word(i) as u64) == i,
{
}

/// The word encoding is injective: distinct values of distinct kinds, or
/// distinct payloads of one kind, never share a word. Two `ValueRef`s are
/// therefore equal as words exactly when they denote the same value.
pub proof fn lemma_encoding_disjoint(i: int, j: int, a: int, b: int)
    requires
        INT_MIN as int <= i < INT_END as int,
        INT_MIN as int <= j < INT_END as int,
        1 <= a,
        1 <= b,
    ensures
        spec_int_word(i) != spec_ptr_word(a),
        spec_int_word(i) % 4 != 3,
        spec_int_word(i) % 4 != 2,
        i != j ==> spec_int_word(i) != spec_int_word(j),
        a != b ==> spec_ptr_word(a) != spec_ptr_word(b),
{
    assert(spec_int_word(i) % 4 == 1) by (nonlinear_arith)
        requires
            INT_MIN as int <= i < INT_END as int,
            INT_MOD == 4611686018427387904i64,
            INT_MIN == -2305843009213693952i64,
            INT_END == 2305843009213693952i64,
    ;
    assert(spec_ptr_word(a) % 4 == 0) by (nonlinear_arith)
        requires
            a >= 1,
    ;
    assert(i != j ==> spec_int_word(i) != spec_int_word(j)) by (nonlinear_arith)
        requires
            INT_MIN as int <= i < INT_END as int,
            INT_MIN as int <= j < INT_END as int,
            INT_MOD == 4611686018427387904i64,
            INT_MIN == -2305843009213693952i64,
            INT_END == 2305843009213693952i64,
    ;
    assert(a != b ==> a * 4 != b * 4) by (nonlinear_arith);
}

} // verus!
