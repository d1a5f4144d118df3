//! 160-bit digests: the identity of file contents and entities.
//!
//! A digest is stored as five 32-bit big-endian words. The SHA-1 function
//! itself comes from the `sha1` crate; everything around it (packing the
//! digest bytes into words, hexadecimal rendering and parsing) is verified.

use vstd::prelude::*;
use vstd::string::StringSliceAdditionalSpecFns;

use sha1::Digest;

use crate::strutil::string_push;

verus! {

/// What the SHA-1 function of the `sha1` crate returns for a byte sequence.
/// The digest depends on the input bytes alone.
pub uninterp spec fn sha1_of(bytes: Seq<u8>) -> Seq<u8>;

/// Relies on `sha1::Sha1::digest`: the SHA-1 digest of the input bytes,
/// always 20 bytes long, a pure function of the input.
#[verifier::external_body]
fn sha1_digest(bytes: &[u8]) -> (r: Vec<u8>)
    ensures
        r@ == sha1_of(bytes@),
        r@.len() == 20,
{
    sha1::Sha1::digest(bytes).to_vec()
}

/// A 160 bit SHA-1 hash, packed into five big-endian 32-bit words.
#[derive(Clone, Copy, Debug, Hash, PartialEq, Eq, Structural)]
pub struct Sha1Hash {
    pub w0: u32,
    pub w1: u32,
    pub w2: u32,
    pub w3: u32,
    pub w4: u32,
}

/// Four bytes packed big-endian into one word.
pub open spec fn pack_word(b0: u8, b1: u8, b2: u8, b3: u8) -> u32 {
    (b0 as u32 * 0x1000000 + b1 as u32 * 0x10000 + b2 as u32 * 0x100 + b3 as u32) as u32
}

/// The hash whose words pack the 20 bytes of `d` big-endian.
pub open spec fn hash_of_bytes(d: Seq<u8>) -> Sha1Hash
    recommends
        d.len() == 20,
{
    Sha1Hash {
        w0: pack_word(d[0], d[1], d[2], d[3]),
        w1: pack_word(d[4], d[5], d[6], d[7]),
        w2: pack_word(d[8], d[9], d[10], d[11]),
        w3: pack_word(d[12], d[13], d[14], d[15]),
        w4: pack_word(d[16], d[17], d[18], d[19]),
    }
}

/// The hash of a byte sequence: its SHA-1 digest, packed into words.
pub open spec fn spec_sha1(bytes: Seq<u8>) -> Sha1Hash {
    hash_of_bytes(sha1_of(bytes))
}

/// The all-zero hash, standing in for an absent parent when ids are chained.
pub open spec fn zero_hash() -> Sha1Hash {
    Sha1Hash { w0: 0, w1: 0, w2: 0, w3: 0, w4: 0 }
}

/// The byte of word `w` at big-endian position `j`.
pub open spec fn word_byte(w: u32, j: int) -> u8
    recommends
        0 <= j < 4,
{
    if j == 0 {
        (w / 0x1000000) as u8
    } else if j == 1 {
        ((w / 0x10000) % 0x100) as u8
    } else if j == 2 {
        ((w / 0x100) % 0x100) as u8
    } else {
        (w % 0x100) as u8
    }
}

impl Sha1Hash {
    /// The 20 bytes of this hash, big-endian word by word.
    pub open spec fn byte_seq(self) -> Seq<u8> {
        Seq::new(20, |i: int| word_byte(self.word(i / 4), i % 4))
    }

    /// The word at index `k` of five.
    pub open spec fn word(self, k: int) -> u32
        recommends
            0 <= k < 5,
    {
        if k == 0 {
            self.w0
        } else if k == 1 {
            self.w1
        } else if k == 2 {
            self.w2
        } else if k == 3 {
            self.w3
        } else {
            self.w4
        }
    }

    /// Build a hash from its 20 raw digest bytes.
    pub fn new(arr: [u8; 20]) -> (h: Sha1Hash)
        ensures
            h == hash_of_bytes(arr@),
    {
        let mut v: Vec<u8> = Vec::new();
        let mut i: usize = 0;
        while i < 20
            invariant
                v@ == arr@.take(i as int),
                i <= 20,
            decreases 20 - i,
        {
            v.push(arr[i]);
            i = i + 1;
            proof {
                assert(arr@.take(i as int) =~= arr@.take(i - 1).push(arr@[i - 1]));
            }
        }
        proof {
            assert(v@ =~= arr@);
        }
        Self::from_digest(&v)
    }

    /// Pack a 20-byte digest into a hash value.
    fn from_digest(d: &Vec<u8>) -> (h: Sha1Hash)
        requires
            d@.len() == 20,
        ensures
            h == hash_of_bytes(d@),
    {
        Sha1Hash {
            w0: Self::word_from(d, 0),
            w1: Self::word_from(d, 4),
            w2: Self::word_from(d, 8),
            w3: Self::word_from(d, 12),
            w4: Self::word_from(d, 16),
        }
    }

    fn word_from(d: &Vec<u8>, at: usize) -> (w: u32)
        requires
            at + 4 <= d@.len(),
        ensures
            w == pack_word(d@[at as int], d@[at + 1], d@[at + 2], d@[at + 3]),
    {
        let n = d.len();
        d[at] as u32 * 0x1000000 + d[at + 1] as u32 * 0x10000 + d[at + 2] as u32 * 0x100 + d[at
            + 3] as u32
    }

    /// Hash arbitrary bytes with SHA-1.
    pub fn hash(bytes: &[u8]) -> (h: Sha1Hash)
        ensures
            h == spec_sha1(bytes@),
    {
        let d = sha1_digest(bytes);
        Self::from_digest(&d)
    }

    /// Parse a 40-digit hexadecimal string, rejecting anything else.
    pub fn from_str(s: &str) -> (r: Option<Sha1Hash>)
        ensures
            r is Some <==> is_hex_hash_str(s.spec_bytes()),
            r is Some ==> r->0 == hash_of_bytes(bytes_of_hex(s.spec_bytes())),
    {
        let b = s.as_bytes();
        if b.len() != 40 {
            return None;
        }
        let mut d: Vec<u8> = Vec::new();
        let mut i: usize = 0;
        while i < 20
            invariant
                b@.len() == 40,
                b@ == s.spec_bytes(),
                i <= 20,
                forall|j: int| 0 <= j < 2 * i ==> is_hex_digit(b@[j]),
                d@ =~= bytes_of_hex(b@.take(2 * i as int)),
                d@.len() == i,
            decreases 20 - i,
        {
            let hi = hex_val(b[2 * i]);
            let lo = hex_val(b[2 * i + 1]);
            match (hi, lo) {
                (Some(h), Some(l)) => {
                    d.push(h * 16 + l);
                    proof {
                        let t = b@.take(2 * (i + 1) as int);
                        assert(t.len() % 2 == 0);
                        assert(t.skip(t.len() - 2) =~= seq![b@[2 * i as int], b@[2 * i + 1]]);
                        assert(t.take(t.len() - 2) =~= b@.take(2 * i as int));
                        assert(bytes_of_hex(t) =~= bytes_of_hex(b@.take(2 * i as int)).push(
                            (spec_hex_val(b@[2 * i as int]) * 16 + spec_hex_val(b@[2 * i + 1])) as u8,
                        ));
                    }
                },
                _ => {
                    proof {
                        assert(is_hex_hash_str(s.spec_bytes()) ==> is_hex_digit(b@[2 * i as int])
                            && is_hex_digit(b@[2 * i + 1]));
                    }
                    return None;
                },
            }
            i = i + 1;
        }
        proof {
            assert(b@.take(40) =~= b@);
        }
        Some(Self::from_digest(&d))
    }

    /// Render as 40 lower-case hexadecimal digits.
    pub fn to_string(&self) -> (s: String)
        ensures
            s@ == hex_of(self.byte_seq()),
    {
        let bytes = self.to_bytes();
        let mut s = String::new();
        let n = bytes.len();
        let mut i: usize = 0;
        while i < n
            invariant
                n == bytes@.len(),
                i <= n,
                s@ =~= hex_of(bytes@.take(i as int)),
            decreases n - i,
        {
            let hi = (bytes[i] / 16) as u8;
            let lo = (bytes[i] % 16) as u8;
            string_push(&mut s, hex_digit_char_x(hi));
            string_push(&mut s, hex_digit_char_x(lo));
            i = i + 1;
            proof {
                let t = bytes@.take(i as int);
                assert(t.drop_last() =~= bytes@.take(i - 1));
                assert(hex_of(t) =~= hex_of(bytes@.take(i - 1)) + seq![
                    hex_digit_char((t.last() as int / 16) as u8),
                    hex_digit_char((t.last() as int % 16) as u8),
                ]);
            }
        }
        proof {
            assert(bytes@.take(n as int) =~= bytes@);
        }
        s
    }

    /// The 20 digest bytes back out of the five words.
    pub fn to_bytes(&self) -> (v: Vec<u8>)
        ensures
            v@ == self.byte_seq(),
    {
        let mut v: Vec<u8> = Vec::new();
        push_be_word(&mut v, self.w0);
        push_be_word(&mut v, self.w1);
        push_be_word(&mut v, self.w2);
        push_be_word(&mut v, self.w3);
        push_be_word(&mut v, self.w4);
        proof {
            assert(v@ =~= self.byte_seq());
        }
        v
    }
}

/// The four big-endian bytes of a word.
pub open spec fn be_word_bytes(w: u32) -> Seq<u8> {
    seq![word_byte(w, 0), word_byte(w, 1), word_byte(w, 2), word_byte(w, 3)]
}

/// Append a word's bytes, most significant first.
pub fn push_be_word(v: &mut Vec<u8>, w: u32)
    ensures
        final(v)@ == old(v)@ + be_word_bytes(w),
{
    v.push((w / 0x1000000) as u8);
    v.push(((w / 0x10000) % 0x100) as u8);
    v.push(((w / 0x100) % 0x100) as u8);
    v.push((w % 0x100) as u8);
    proof {
        assert(v@ =~= old(v)@ + be_word_bytes(w));
    }
}

/// Append the 20 bytes of a hash.
pub fn push_hash_bytes(v: &mut Vec<u8>, h: &Sha1Hash)
    ensures
        final(v)@ == old(v)@ + h.byte_seq(),
{
    push_be_word(v, h.w0);
    push_be_word(v, h.w1);
    push_be_word(v, h.w2);
    push_be_word(v, h.w3);
    push_be_word(v, h.w4);
    proof {
        assert(v@ =~= old(v)@ + h.byte_seq());
    }
}

impl Default for Sha1Hash {
    /// The all-zero hash.
    fn default() -> (h: Sha1Hash)
        ensures
            h == zero_hash(),
    {
        Sha1Hash { w0: 0, w1: 0, w2: 0, w3: 0, w4: 0 }
    }
}

/// A byte that is an ASCII hexadecimal digit, either case.
pub open spec fn is_hex_digit(b: u8) -> bool {
    (0x30 <= b <= 0x39) || (0x41 <= b <= 0x46) || (0x61 <= b <= 0x66)
}

/// The numeric value of a hexadecimal digit byte.
pub open spec fn spec_hex_val(b: u8) -> int
    recommends
        is_hex_digit(b),
{
    if 0x30 <= b <= 0x39 {
        b - 0x30
    } else if 0x41 <= b <= 0x46 {
        b - 0x41 + 10
    } else {
        b - 0x61 + 10
    }
}

/// Exactly 40 hexadecimal digit bytes.
pub open spec fn is_hex_hash_str(s: Seq<u8>) -> bool {
    s.len() == 40 && forall|j: int| 0 <= j < 40 ==> is_hex_digit(s[j])
}

/// The bytes encoded by an even-length run of hexadecimal digits,
/// defined from the tail so that parsing loops extend it on the right.
pub open spec fn bytes_of_hex(s: Seq<u8>) -> Seq<u8>
    recommends
        s.len() % 2 == 0,
    decreases s.len(),
{
    if s.len() < 2 {
        Seq::empty()
    } else {
        bytes_of_hex(s.take(s.len() - 2)).push(
            (spec_hex_val(s[s.len() - 2]) * 16 + spec_hex_val(s[s.len() - 1])) as u8,
        )
    }
}

/// The lower-case hexadecimal digit for a value below 16.
pub open spec fn hex_digit_char(n: u8) -> char
    recommends
        n < 16,
{
    if n == 0 {
        '0'
    } else if n == 1 {
        '1'
    } else if n == 2 {
        '2'
    } else if n == 3 {
        '3'
    } else if n == 4 {
        '4'
    } else if n == 5 {
        '5'
    } else if n == 6 {
        '6'
    } else if n == 7 {
        '7'
    } else if n == 8 {
        '8'
    } else if n == 9 {
        '9'
    } else if n == 10 {
        'a'
    } else if n == 11 {
        'b'
    } else if n == 12 {
        'c'
    } else if n == 13 {
        'd'
    } else if n == 14 {
        'e'
    } else {
        'f'
    }
}

/// Two lower-case hexadecimal digits for every byte, defined from the tail.
pub open spec fn hex_of(d: Seq<u8>) -> Seq<char>
    decreases d.len(),
{
    if d.len() == 0 {
        Seq::empty()
    } else {
        hex_of(d.drop_last()) + seq![
            hex_digit_char((d.last() as int / 16) as u8),
            hex_digit_char((d.last() as int % 16) as u8),
        ]
    }
}

/// The numeric value of a hexadecimal digit byte, or nothing.
fn hex_val(b: u8) -> (r: Option<u8>)
    ensures
        r is Some <==> is_hex_digit(b),
        r is Some ==> r->0 == spec_hex_val(b),
{
    if 0x30 <= b && b <= 0x39 {
        Some(b - 0x30)
    } else if 0x41 <= b && b <= 0x46 {
        Some(b - 0x41 + 10)
    } else if 0x61 <= b && b <= 0x66 {
        Some(b - 0x61 + 10)
    } else {
        None
    }
}

/// The lower-case hexadecimal digit for a value below 16.
fn hex_digit_char_x(n: u8) -> (c: char)
    requires
        n < 16,
    ensures
        c == hex_digit_char(n),
{
    if n == 0 {
        '0'
    } else if n == 1 {
        '1'
    } else if n == 2 {
        '2'
    } else if n == 3 {
        '3'
    } else if n == 4 {
        '4'
    } else if n == 5 {
        '5'
    } else if n == 6 {
        '6'
    } else if n == 7 {
        '7'
    } else if n == 8 {
        '8'
    } else if n == 9 {
        '9'
    } else if n == 10 {
        'a'
    } else if n == 11 {
        'b'
    } else if n == 12 {
        'c'
    } else if n == 13 {
        'd'
    } else if n == 14 {
        'e'
    } else {
        'f'
    }
}

} // verus!
