//! Single-bit views of bytes and a cursor that walks a byte buffer bit by bit,
//! least significant bit first within each byte.

use vstd::prelude::*;

verus! {

use vstd::arithmetic::power2::pow2;
use vstd::arithmetic::div_mod::lemma_fundamental_div_mod_converse;
use vstd::bits::lemma_u8_shr_is_div;

/// The least significant bit of `b`: 0 or 1.
pub open spec fn lsb(b: u8) -> u8 {
    b % 2
}

/// Bit `k` of byte `b`, counting from the least significant end: 0 or 1.
pub open spec fn bit_of(b: u8, k: nat) -> u8 {
    (((b as nat) / pow2(k)) % 2) as u8
}

/// Bit `j` of the buffer `bytes` read LSB-first within each byte: bit `j`
/// lives in byte `j / 8` at position `j % 8`.
pub open spec fn stream_bit(bytes: Seq<u8>, j: int) -> u8 {
    bit_of(bytes[j / 8], (j % 8) as nat)
}

/// Reads the bits of a byte buffer one at a time, least significant bit first
/// within each byte, advancing byte by byte. Exhaustion is signalled by
/// `None`; a fresh reader must be built to re-read the buffer.
pub struct BitReader<'a> {
    bytes: &'a [u8],
    byte_idx: usize,
    bit_idx: usize,
}

impl<'a> BitReader<'a> {
    /// The byte buffer the reader draws its bits from.
    pub closed spec fn source(self) -> Seq<u8> {
        self.bytes@
    }

    /// How many bits have been handed out so far.
    pub closed spec fn consumed(self) -> nat {
        (self.byte_idx * 8 + self.bit_idx) as nat
    }

    /// The cursor sits inside the buffer, or exactly at its end.
    pub closed spec fn wf(self) -> bool {
        &&& self.bit_idx < 8
        &&& self.byte_idx <= self.bytes@.len()
        &&& self.byte_idx == self.bytes@.len() ==> self.bit_idx == 0
    }

    pub fn new(bytes: &'a [u8]) -> (r: BitReader<'a>)
        ensures
            r.wf(),
            r.source() == bytes@,
            r.consumed() == 0,
    {
        BitReader { bytes, byte_idx: 0, bit_idx: 0 }
    }

    /// Hands out the next bit, or `None` once every bit of the buffer has
    /// been produced.
    pub fn next(&mut self) -> (r: Option<u8>)
        requires
            old(self).wf(),
        ensures
            final(self).wf(),
            final(self).source() == old(self).source(),
            final(self).consumed() <= 8 * final(self).source().len(),
            old(self).consumed() < 8 * old(self).source().len() ==> {
                &&& r == Some(stream_bit(old(self).source(), old(self).consumed() as int))
                &&& final(self).consumed() == old(self).consumed() + 1
            },
            old(self).consumed() >= 8 * old(self).source().len() ==> {
                &&& r is None
                &&& final(self).consumed() == old(self).consumed()
            },
    {
        if self.byte_idx >= self.bytes.len() {
            return None;
        }

        let sh: u8 = self.bit_idx as u8;
        let cur = (self.bytes[self.byte_idx] >> sh) & 1;

        proof {
            let b = self.bytes@[self.byte_idx as int];
            let j = self.consumed() as int;
            lemma_fundamental_div_mod_converse(
                j,
                8,
                self.byte_idx as int,
                self.bit_idx as int,
            );
            lemma_u8_shr_is_div(b, sh);
            assert((b >> sh) & 1 == (b >> sh) % 2) by (bit_vector);
            assert(cur == bit_of(b, self.bit_idx as nat));
        }

        if self.bit_idx == 7 {
            self.byte_idx = self.byte_idx + 1;
        }
        self.bit_idx = (self.bit_idx + 1) % 8;

        Some(cur)
    }
}

} // verus!
