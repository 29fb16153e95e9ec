use stegano::bits::BitReader;
use stegano::codec::{decode, encode, DecodeError, EncodeError};

#[test]
fn single_byte_scenario() {
    // Carrier of 40 zero bytes, payload of one byte 0x01: the length field
    // puts a single 1 in byte 0, the payload a single 1 in byte 32.
    let mut carrier: Vec<u8> = vec![0u8; 40];
    let payload: [u8; 1] = [0x01];
    assert_eq!(encode(&mut carrier, &payload), Ok(()));
    assert_eq!(carrier[0], 1);
    assert_eq!(&carrier[1..32], &[0u8; 31][..]);
    assert_eq!(carrier[32], 1);
    assert_eq!(&carrier[33..40], &[0u8; 7][..]);
    assert_eq!(decode(&carrier), Ok(vec![0x01]));
}

#[test]
fn empty_payload_roundtrip() {
    // All length bits are 0 and there are no payload bits, so an empty
    // payload leaves the carrier untouched.
    let mut carrier: Vec<u8> = vec![2, 4, 6, 8, 10, 12, 14, 16, 18, 20, 22, 24, 26, 28, 30, 32, 34,
        36, 38, 40, 42, 44, 46, 48, 50, 52, 54, 56, 58, 60, 62, 64, 66, 68, 70, 72];
    let before = carrier.clone();
    assert_eq!(encode(&mut carrier, &[]), Ok(()));
    assert_eq!(carrier, before);
    assert_eq!(decode(&carrier), Ok(vec![]));
}

#[test]
fn empty_payload_touches_nothing_even_on_dirty_carrier() {
    let mut carrier: Vec<u8> = vec![0xFFu8; 40];
    let before = carrier.clone();
    assert_eq!(encode(&mut carrier, &[]), Ok(()));
    assert_eq!(carrier, before);
}

#[test]
fn capacity_exactly_at_boundary_succeeds() {
    // One payload byte needs 32 + 8 carrier bytes: exactly 40 works.
    let mut carrier: Vec<u8> = vec![0u8; 40];
    assert_eq!(encode(&mut carrier, &[0xAB]), Ok(()));
    assert_eq!(decode(&carrier), Ok(vec![0xAB]));
}

#[test]
fn capacity_one_byte_short_fails() {
    let mut carrier: Vec<u8> = vec![0u8; 39];
    let before = carrier.clone();
    assert_eq!(
        encode(&mut carrier, &[0xAB]),
        Err(EncodeError::InsufficientCapacity)
    );
    assert_eq!(carrier, before);
}

#[test]
fn roundtrip_text_payload() {
    let payload: &[u8] = b"the quick brown fox jumps over the lazy dog";
    let mut carrier: Vec<u8> = vec![0u8; 32 + payload.len() * 8 + 13];
    assert_eq!(encode(&mut carrier, payload), Ok(()));
    assert_eq!(decode(&carrier), Ok(payload.to_vec()));
}

#[test]
fn length_field_is_lsb_first() {
    // Payload length 5 = 0b101: bits 0 and 2 of the length field are set.
    let mut carrier: Vec<u8> = vec![0u8; 200];
    assert_eq!(encode(&mut carrier, &[7, 7, 7, 7, 7]), Ok(()));
    assert_eq!(carrier[0] & 1, 1);
    assert_eq!(carrier[1] & 1, 0);
    assert_eq!(carrier[2] & 1, 1);
    assert_eq!(&carrier[3..32], &[0u8; 29][..]);
    assert_eq!(decode(&carrier).unwrap().len(), 5);
}

#[test]
fn untouched_outside_window() {
    // A two-byte payload owns bytes 0..48; everything after stays exactly
    // as it was, including high bits inside the window.
    let mut carrier: Vec<u8> = vec![0xAAu8; 100];
    carrier[50] = 0x55;
    assert_eq!(encode(&mut carrier, &[0xFF, 0x00]), Ok(()));
    assert_eq!(carrier[50], 0x55);
    assert_eq!(&carrier[51..100], &[0xAAu8; 49][..]);
    assert_eq!(&carrier[48..50], &[0xAAu8; 2][..]);
    // High bits of a touched byte survive: 0xAA gains at most its LSB.
    // Byte 32 takes bit 0 of 0xFF (a 1), byte 40 takes bit 0 of 0x00 (a 0).
    assert_eq!(carrier[32], 0xAB);
    assert_eq!(carrier[40], 0xAA);
}

#[test]
fn or_policy_never_clears_a_set_bit() {
    // A carrier byte whose LSB is already 1 keeps it even where the
    // embedded bit is 0, so this round trip reads back a spurious byte.
    let mut carrier: Vec<u8> = vec![0u8; 40];
    carrier[0] = 1;
    assert_eq!(encode(&mut carrier, &[]), Ok(()));
    assert_eq!(carrier[0], 1);
    assert_eq!(decode(&carrier), Ok(vec![0x00]));
}

#[test]
fn decode_short_buffer_is_truncated_header() {
    assert_eq!(decode(&[]), Err(DecodeError::TruncatedHeader));
    assert_eq!(decode(&[0u8; 31]), Err(DecodeError::TruncatedHeader));
}

#[test]
fn decode_overclaiming_length_is_truncated_payload() {
    // Recorded length 1 needs 40 bytes; 33 are there.
    let mut carrier: Vec<u8> = vec![0u8; 33];
    carrier[0] = 1;
    assert_eq!(decode(&carrier), Err(DecodeError::TruncatedPayload));
}

#[test]
fn decode_bare_header_of_zero_length_is_empty() {
    assert_eq!(decode(&[0u8; 32]), Ok(vec![]));
}

#[test]
fn bit_reader_is_lsb_first_per_byte() {
    let bytes: [u8; 2] = [0b1011_0001, 0b0000_0010];
    let mut reader = BitReader::new(&bytes);
    assert_eq!(reader.next(), Some(1));
    assert_eq!(reader.next(), Some(0));
    assert_eq!(reader.next(), Some(0));
    assert_eq!(reader.next(), Some(0));
    assert_eq!(reader.next(), Some(1));
    assert_eq!(reader.next(), Some(1));
    assert_eq!(reader.next(), Some(0));
    assert_eq!(reader.next(), Some(1));
    assert_eq!(reader.next(), Some(0));
    assert_eq!(reader.next(), Some(1));
    assert_eq!(reader.next(), Some(0));
    assert_eq!(reader.next(), Some(0));
    assert_eq!(reader.next(), Some(0));
    assert_eq!(reader.next(), Some(0));
    assert_eq!(reader.next(), Some(0));
    assert_eq!(reader.next(), Some(0));
    assert_eq!(reader.next(), None);
    assert_eq!(reader.next(), None);
}

#[test]
fn bit_reader_on_empty_buffer() {
    let bytes: [u8; 0] = [];
    let mut reader = BitReader::new(&bytes);
    assert_eq!(reader.next(), None);
}
