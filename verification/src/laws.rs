//! Properties that tie embedding and recovery together.
//!
//! Embedding ORs bits into the carrier instead of overwriting them, so a
//! carrier byte whose least significant bit is already 1 cannot record a 0
//! bit. The recovery laws therefore ask for a carrier whose least significant
//! bits are clear over the written window; the remaining laws hold of every
//! carrier.

use vstd::prelude::*;

verus! {

use vstd::arithmetic::power2::pow2;
use vstd::arithmetic::power2::lemma2_to64;
use vstd::arithmetic::div_mod::{lemma_fundamental_div_mod_converse, lemma_small_mod};
use crate::bits::{lsb, bit_of, stream_bit};
use crate::codec::{
    embedded,
    length_bit,
    lsbs_value,
    recorded_len,
    recovered,
    recovered_byte,
    lemma_lsbs_match_value,
    lemma_or_bit,
};

/// Length fidelity: when the first 32 carrier bytes have clear least
/// significant bits, the length recorded by embedding a payload reads back as
/// exactly the payload's length.
pub proof fn lemma_length_fidelity(carrier: Seq<u8>, payload: Seq<u8>)
    requires
        payload.len() < 0xffff_ffff,
        carrier.len() >= 32,
        forall|i: int| 0 <= i < 32 ==> #[trigger] lsb(carrier[i]) == 0,
    ensures
        recorded_len(embedded(carrier, payload)) == payload.len(),
{
    let e = embedded(carrier, payload);
    assert forall|k: int| 0 <= k < 32 implies (#[trigger] lsb(e[k])) as nat == (payload.len()
        / pow2(k as nat)) % 2 by {
        lemma_or_bit(carrier[k], length_bit(payload.len(), k as nat));
    }
    lemma_lsbs_match_value(e, 0, payload.len(), 32);
    assert(pow2(32) == 0x1_0000_0000) by {
        lemma2_to64();
    }
    lemma_small_mod(payload.len(), pow2(32));
}

/// Round trip: a payload that fits the carrier, embedded into a carrier whose
/// least significant bits are clear over the whole written window, is
/// recovered exactly, and the embedded carrier passes both decoding checks.
pub proof fn lemma_round_trip(carrier: Seq<u8>, payload: Seq<u8>)
    requires
        payload.len() < 0xffff_ffff,
        carrier.len() >= 32 + payload.len() * 8,
        forall|i: int| 0 <= i < 32 + payload.len() * 8 ==> #[trigger] lsb(carrier[i]) == 0,
    ensures
        embedded(carrier, payload).len() >= 32 + recorded_len(embedded(carrier, payload)) * 8,
        recorded_len(embedded(carrier, payload)) == payload.len(),
        recovered(embedded(carrier, payload)) == payload,
{
    let e = embedded(carrier, payload);
    lemma_length_fidelity(carrier, payload);

    assert forall|i: int| 0 <= i < payload.len() implies recovered_byte(e, i) == payload[i] by {
        assert forall|k: int| 0 <= k < 8 implies (#[trigger] lsb(e[32 + 8 * i + k])) as nat == ((
        payload[i] as nat) / pow2(k as nat)) % 2 by {
            let j = 8 * i + k;
            lemma_fundamental_div_mod_converse(j, 8, i, k);
            assert(stream_bit(payload, j) == bit_of(payload[i], k as nat));
            lemma_or_bit(carrier[32 + j], stream_bit(payload, j));
        }
        lemma_lsbs_match_value(e, 32 + 8 * i, payload[i] as nat, 8);
        assert(pow2(8) == 256) by {
            lemma2_to64();
        }
        lemma_small_mod(payload[i] as nat, pow2(8));
    }
    assert(recovered(e) =~= payload);
}

/// Outside the written window the carrier is untouched, and inside it each
/// byte at most gains its least significant bit: embedding never clears
/// anything.
pub proof fn lemma_untouched_outside_window(carrier: Seq<u8>, payload: Seq<u8>)
    ensures
        embedded(carrier, payload).len() == carrier.len(),
        forall|i: int| 32 + payload.len() * 8 <= i < carrier.len()
            ==> #[trigger] embedded(carrier, payload)[i] == carrier[i],
        forall|i: int| 0 <= i < carrier.len() ==> (#[trigger] embedded(carrier, payload)[i]
            == carrier[i] || embedded(carrier, payload)[i] == (carrier[i] | 1)),
{
    let e = embedded(carrier, payload);
    assert forall|i: int| 0 <= i < carrier.len() implies (#[trigger] e[i] == carrier[i] || e[i] == (
    carrier[i] | 1)) by {
        if i < 32 {
            lemma_or_bit(carrier[i], length_bit(payload.len(), i as nat));
        } else if i < 32 + payload.len() * 8 {
            lemma_or_bit(carrier[i], stream_bit(payload, i - 32));
        }
    }
}

/// An empty payload leaves the carrier exactly as it was: every bit of the
/// all-zero length field ORs in a 0, and there are no payload bits.
pub proof fn lemma_empty_payload_identity(carrier: Seq<u8>)
    ensures
        embedded(carrier, Seq::<u8>::empty()) == carrier,
{
    let e = embedded(carrier, Seq::<u8>::empty());
    assert forall|i: int| 0 <= i < carrier.len() implies e[i] == carrier[i] by {
        if i < 32 {
            assert(pow2(i as nat) > 0) by {
                vstd::arithmetic::power2::lemma_pow2_pos(i as nat);
            }
            assert(length_bit(0, i as nat) == 0) by {
                assert(0nat / pow2(i as nat) == 0) by (nonlinear_arith)
                    requires
                        pow2(i as nat) > 0,
                ;
            }
            lemma_or_bit(carrier[i], 0);
        }
    }
    assert(e =~= carrier);
}

} // verus!
