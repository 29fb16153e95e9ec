//! Embedding a length-prefixed payload into the least significant bits of a
//! carrier buffer, and recovering it.
//!
//! The first 32 carrier bytes receive the payload length, one bit per byte,
//! LSB-first across the 32-bit field; the following `payload.len() * 8` bytes
//! receive the payload's bits in stream order. Each bit is ORed into the
//! carrier byte's least significant bit, so a carrier byte whose LSB is
//! already 1 keeps it even where the embedded bit is 0.

use vstd::prelude::*;

verus! {

use vstd::arithmetic::power2::pow2;
use vstd::arithmetic::power2::{
    lemma2_to64,
    lemma_pow2_adds,
    lemma_pow2_pos,
    lemma_pow2_strictly_increases,
};
use vstd::arithmetic::div_mod::lemma_mod_breakdown;
use vstd::arithmetic::mul::{lemma_mul_basics, lemma_mul_is_commutative};
use vstd::bits::{lemma_u64_shr_is_div, lemma_u8_shl_is_mul, lemma_u32_shl_is_mul};
use vstd::pervasive::VecAdditionalExecFns;
use crate::bits::{lsb, stream_bit, BitReader};

/// Why embedding a payload failed.
#[derive(Clone, Copy, Debug, PartialEq, Eq, Structural)]
pub enum EncodeError {
    /// The payload length cannot be represented in the 32-bit length field.
    OversizedPayload,
    /// The carrier is too short to hold the length field and the payload bits.
    InsufficientCapacity,
}

/// Why recovering a payload failed.
#[derive(Clone, Copy, Debug, PartialEq, Eq, Structural)]
pub enum DecodeError {
    /// The carrier is shorter than the 32 bytes holding the length field.
    TruncatedHeader,
    /// The embedded length claims more payload bits than the carrier holds.
    TruncatedPayload,
}

/// Bit `k` of the length value `len`, LSB first: the bit that lands in
/// carrier byte `k` of the length field.
pub open spec fn length_bit(len: nat, k: nat) -> u8 {
    ((len / pow2(k)) % 2) as u8
}

/// The carrier after embedding `payload`: each of the first 32 bytes gets one
/// bit of the payload length ORed into its least significant bit, the next
/// `payload.len() * 8` bytes each get one payload bit, and the rest is
/// untouched.
pub open spec fn embedded(carrier: Seq<u8>, payload: Seq<u8>) -> Seq<u8> {
    Seq::new(
        carrier.len(),
        |i: int|
            if i < 32 {
                carrier[i] | length_bit(payload.len(), i as nat)
            } else if i < 32 + payload.len() * 8 {
                carrier[i] | stream_bit(payload, i - 32)
            } else {
                carrier[i]
            },
    )
}

/// The least significant bits of `n` carrier bytes starting at `base`, read
/// as an LSB-first binary number.
pub open spec fn lsbs_value(carrier: Seq<u8>, base: int, n: nat) -> nat
    decreases n,
{
    if n == 0 {
        0
    } else {
        lsbs_value(carrier, base, (n - 1) as nat) + (lsb(carrier[base + n - 1]) as nat) * pow2(
            (n - 1) as nat,
        )
    }
}

/// The payload length recorded in the carrier's first 32 least significant
/// bits.
pub open spec fn recorded_len(carrier: Seq<u8>) -> nat {
    lsbs_value(carrier, 0, 32)
}

/// Payload byte `i` as recovered from the least significant bits of the eight
/// carrier bytes that hold it.
pub open spec fn recovered_byte(carrier: Seq<u8>, i: int) -> u8 {
    lsbs_value(carrier, 32 + 8 * i, 8) as u8
}

/// The whole payload recovered from the carrier: `recorded_len` bytes, each
/// rebuilt from eight least significant bits.
pub open spec fn recovered(carrier: Seq<u8>) -> Seq<u8> {
    Seq::new(recorded_len(carrier), |i: int| recovered_byte(carrier, i))
}

/// An LSB-first binary number of `n` bits is below `pow2(n)`.
pub proof fn lemma_lsbs_value_bound(carrier: Seq<u8>, base: int, n: nat)
    ensures
        lsbs_value(carrier, base, n) < pow2(n),
    decreases n,
{
    if n == 0 {
        assert(pow2(0) == 1) by {
            lemma2_to64();
        }
    } else {
        let m = (n - 1) as nat;
        lemma_lsbs_value_bound(carrier, base, m);
        lemma_pow2_adds(m, 1);
        assert(pow2(1) == 2) by {
            lemma2_to64();
        }
    }
}

/// Powers of two grow monotonically.
proof fn lemma_pow2_le(e1: nat, e2: nat)
    requires
        e1 <= e2,
    ensures
        pow2(e1) <= pow2(e2),
{
    if e1 < e2 {
        lemma_pow2_strictly_increases(e1, e2);
    }
}

/// If the least significant bits of `n` consecutive carrier bytes spell out
/// the low `n` bits of `v`, their LSB-first value is `v % pow2(n)`.
pub proof fn lemma_lsbs_match_value(carrier: Seq<u8>, base: int, v: nat, n: nat)
    requires
        forall|k: int| 0 <= k < n ==> (#[trigger] lsb(carrier[base + k])) as nat == (v / pow2(
            k as nat,
        )) % 2,
    ensures
        lsbs_value(carrier, base, n) == v % pow2(n),
    decreases n,
{
    if n == 0 {
        assert(pow2(0) == 1) by {
            lemma2_to64();
        }
        assert(v % 1 == 0) by (nonlinear_arith);
    } else {
        let m = (n - 1) as nat;
        lemma_lsbs_match_value(carrier, base, v, m);
        lemma_pow2_pos(m);
        lemma_mod_breakdown(v as int, pow2(m) as int, 2);
        lemma_pow2_adds(m, 1);
        assert(pow2(1) == 2) by {
            lemma2_to64();
        }
        assert(pow2(n) == pow2(m) * 2);
        assert(lsb(carrier[base + m]) as nat == (v / pow2(m)) % 2);
        assert(lsbs_value(carrier, base, n) == v % pow2(m) + ((v / pow2(m)) % 2) * pow2(m));
        assert(v % pow2(n) == v % (pow2(m) * 2));
        assert(v % (pow2(m) * 2) == pow2(m) * ((v / pow2(m)) % 2) + v % pow2(m));
        lemma_mul_is_commutative(pow2(m) as int, ((v / pow2(m)) % 2) as int);
    }
}

/// ORing a single bit into a byte: the LSB absorbs the bit, everything else
/// stays; with a 0 bit nothing changes at all.
pub proof fn lemma_or_bit(a: u8, b: u8)
    requires
        b <= 1,
    ensures
        a % 2 == 0 ==> (a | b) % 2 == b,
        a % 2 != 0 ==> (a | b) % 2 == 1,
        b == 0 ==> (a | b) == a,
        (a | b) == a || (a | b) == (a | 1),
{
    assert((a % 2 == 0 ==> (a | b) % 2 == b) && (a % 2 != 0 ==> (a | b) % 2 == 1) && (b == 0 ==> (a
        | b) == a) && ((a | b) == a || (a | b) == (a | 1))) by (bit_vector)
        requires
            b <= 1,
    ;
}

/// Embeds `payload` into `carrier` in place: the payload length into the
/// least significant bits of the first 32 bytes, then the payload's bits into
/// the following `payload.len() * 8` bytes, each ORed in. Fails, leaving the
/// carrier untouched, when the length does not fit the 32-bit field or the
/// carrier is too short; it succeeds in every other case.
pub fn encode(carrier: &mut Vec<u8>, payload: &[u8]) -> (result: Result<(), EncodeError>)
    ensures
        final(carrier)@.len() == old(carrier)@.len(),
        result is Ok <==> payload@.len() < 0xffff_ffff && old(carrier)@.len() >= 32
            + payload@.len() * 8,
        payload@.len() >= 0xffff_ffff ==> result == Err::<(), EncodeError>(
            EncodeError::OversizedPayload,
        ) && final(carrier)@ == old(carrier)@,
        payload@.len() < 0xffff_ffff && old(carrier)@.len() < 32 + payload@.len() * 8 ==> result
            == Err::<(), EncodeError>(EncodeError::InsufficientCapacity) && final(carrier)@ == old(
            carrier,
        )@,
        result is Ok ==> final(carrier)@ == embedded(old(carrier)@, payload@),
{
    if payload.len() >= 0xffff_ffff {
        return Err(EncodeError::OversizedPayload);
    }
    let len64: u64 = payload.len() as u64;
    if (carrier.len() as u64) < len64 * 8 + 32 {
        return Err(EncodeError::InsufficientCapacity);
    }

    for k in 0..32usize
        invariant
            len64 == payload@.len(),
            payload@.len() < 0xffff_ffff,
            carrier@.len() == old(carrier)@.len(),
            carrier@.len() >= 32 + payload@.len() * 8,
            forall|i: int| 0 <= i < k ==> carrier@[i] == (old(carrier)@[i] | length_bit(
                payload@.len(), i as nat,
            )),
            forall|i: int| k <= i < carrier@.len() ==> carrier@[i] == old(carrier)@[i],
    {
        let bit: u8 = ((len64 >> (k as u64)) & 1) as u8;
        proof {
            lemma_u64_shr_is_div(len64, k as u64);
            assert((len64 >> (k as u64)) & 1 == (len64 >> (k as u64)) % 2) by (bit_vector);
            assert(bit == length_bit(payload@.len(), k as nat));
        }
        let b = carrier[k];
        carrier.set(k, b | bit);
    }

    let mut reader = BitReader::new(payload);
    let mut pos: usize = 32;
    loop
        invariant
            reader.wf(),
            reader.source() == payload@,
            payload@.len() < 0xffff_ffff,
            carrier@.len() == old(carrier)@.len(),
            carrier@.len() >= 32 + payload@.len() * 8,
            carrier@.len() <= usize::MAX,
            pos == 32 + reader.consumed(),
            reader.consumed() <= 8 * payload@.len(),
            forall|i: int| 0 <= i < 32 ==> carrier@[i] == (old(carrier)@[i] | length_bit(
                payload@.len(), i as nat,
            )),
            forall|j: int| 0 <= j < reader.consumed() ==> carrier@[32 + j] == (old(carrier)@[32 + j]
                | stream_bit(payload@, j)),
            forall|i: int| pos <= i < carrier@.len() ==> carrier@[i] == old(carrier)@[i],
        ensures
            reader.consumed() == 8 * payload@.len(),
            pos == 32 + reader.consumed(),
            carrier@.len() == old(carrier)@.len(),
            forall|i: int| 0 <= i < 32 ==> carrier@[i] == (old(carrier)@[i] | length_bit(
                payload@.len(), i as nat,
            )),
            forall|j: int| 0 <= j < reader.consumed() ==> carrier@[32 + j] == (old(carrier)@[32 + j]
                | stream_bit(payload@, j)),
            forall|i: int| pos <= i < carrier@.len() ==> carrier@[i] == old(carrier)@[i],
        decreases 8 * payload@.len() - reader.consumed(),
    {
        match reader.next() {
            None => {
                break ;
            },
            Some(bit) => {
                let b = carrier[pos];
                carrier.set(pos, b | bit);
                pos = pos + 1;
            },
        }
    }

    proof {
        assert(carrier@ =~= embedded(old(carrier)@, payload@));
    }
    Ok(())
}

/// Recovers the payload embedded in `carrier`: reads the 32-bit length field
/// out of the first 32 least significant bits, then rebuilds that many bytes
/// from the following bits. Fails when the carrier cannot even hold the
/// length field, or when the recorded length claims more bits than the
/// carrier has.
pub fn decode(carrier: &[u8]) -> (result: Result<Vec<u8>, DecodeError>)
    ensures
        carrier@.len() < 32 ==> result == Err::<Vec<u8>, DecodeError>(DecodeError::TruncatedHeader),
        carrier@.len() >= 32 && carrier@.len() < 32 + recorded_len(carrier@) * 8 ==> result == Err::<
            Vec<u8>,
            DecodeError,
        >(DecodeError::TruncatedPayload),
        carrier@.len() >= 32 + recorded_len(carrier@) * 8 ==> (result matches Ok(payload)
            && payload@ == recovered(carrier@)),
{
    if carrier.len() < 32 {
        return Err(DecodeError::TruncatedHeader);
    }

    let mut size: u32 = 0;
    for i in 0..32usize
        invariant
            carrier@.len() >= 32,
            size as nat == lsbs_value(carrier@, 0, i as nat),
    {
        let bit: u8 = carrier[i] & 1;
        proof {
            let c = carrier@[i as int];
            assert(c & 1 == c % 2) by (bit_vector);
            lemma_lsbs_value_bound(carrier@, 0, i as nat);
            lemma_pow2_le((i + 1) as nat, 32);
            lemma_pow2_adds(i as nat, 1);
            lemma2_to64();
            assert(bit == 0 || bit == 1);
            lemma_mul_basics(pow2(i as nat) as int);
            lemma_mul_is_commutative(bit as int, pow2(i as nat) as int);
            lemma_u32_shl_is_mul(bit as u32, i as u32);
        }
        size = size + ((bit as u32) << (i as u32));
    }
    proof {
        assert(size as nat == recorded_len(carrier@));
        lemma_lsbs_value_bound(carrier@, 0, 32);
    }

    if (carrier.len() as u64) < 32 + (size as u64) * 8 {
        return Err(DecodeError::TruncatedPayload);
    }

    let count: usize = size as usize;
    let mut decoded: Vec<u8> = Vec::new();
    for i in 0..count
        invariant
            count == size,
            size as nat == recorded_len(carrier@),
            carrier@.len() >= 32 + (size as nat) * 8,
            carrier@.len() <= usize::MAX,
            decoded@.len() == i,
            forall|m: int| 0 <= m < i ==> decoded@[m] == recovered_byte(carrier@, m),
    {
        let mut b: u8 = 0;
        for k in 0..8usize
            invariant
                count == size,
                i < count,
                carrier@.len() >= 32 + (size as nat) * 8,
                carrier@.len() <= usize::MAX,
                b as nat == lsbs_value(carrier@, 32 + 8 * (i as int), k as nat),
        {
            let bit: u8 = carrier[32 + i * 8 + k] & 1;
            proof {
                let c = carrier@[32 + 8 * (i as int) + k];
                assert(c & 1 == c % 2) by (bit_vector);
                lemma_lsbs_value_bound(carrier@, 32 + 8 * (i as int), k as nat);
                lemma_pow2_le((k + 1) as nat, 8);
                lemma_pow2_adds(k as nat, 1);
                lemma2_to64();
                assert(bit == 0 || bit == 1);
                lemma_mul_basics(pow2(k as nat) as int);
                lemma_mul_is_commutative(bit as int, pow2(k as nat) as int);
                lemma_u8_shl_is_mul(bit, k as u8);
            }
            b = b + (bit << (k as u8));
        }
        proof {
            lemma_lsbs_value_bound(carrier@, 32 + 8 * (i as int), 8);
            lemma2_to64();
            assert(b == recovered_byte(carrier@, i as int));
        }
        decoded.push(b);
    }

    proof {
        assert(decoded@ =~= recovered(carrier@));
    }
    Ok(decoded)
}

} // verus!
