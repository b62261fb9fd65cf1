use rust_codec::blockheader::BlockHeader;
use rust_codec::codec::{Codec, DecodeError};
use rust_codec::compressor::Deque;
use sha2::{Digest, Sha256};

const MASK_PREV_BLOCK_HASH: u8 = 0x10;
const MASK_TIME: u8 = 0x08;
const MASK_NBITS: u8 = 0x04;

fn header_bytes(
    version: i32,
    prev_block_hash: &[u8; 32],
    merkle_root: &[u8; 32],
    time: u32,
    n_bits: u32,
    nonce: u32,
) -> Vec<u8> {
    let mut b: Vec<u8> = Vec::new();
    b.extend_from_slice(&version.to_le_bytes());
    b.extend_from_slice(prev_block_hash);
    b.extend_from_slice(merkle_root);
    b.extend_from_slice(&time.to_le_bytes());
    b.extend_from_slice(&n_bits.to_le_bytes());
    b.extend_from_slice(&nonce.to_le_bytes());
    b
}

fn sha256(bytes: &[u8]) -> [u8; 32] {
    let mut hasher = Sha256::new();
    hasher.update(bytes);
    hasher.finalize().into()
}

/// A chain of headers whose previous-hash fields link each header to the one
/// before it, starting from an arbitrary hash for the first.
fn chain(specs: &[(i32, u32, u32, u32)]) -> Vec<Vec<u8>> {
    let mut headers: Vec<Vec<u8>> = Vec::new();
    let mut prev_hash = [7u8; 32];
    for (k, &(version, time, n_bits, nonce)) in specs.iter().enumerate() {
        let merkle = [k as u8; 32];
        let h = header_bytes(version, &prev_hash, &merkle, time, n_bits, nonce);
        prev_hash = sha256(&h);
        headers.push(h);
    }
    headers
}

fn round_trip(headers: &[Vec<u8>]) -> Vec<Vec<u8>> {
    let mut codec = Codec::new();
    let records: Vec<Vec<u8>> = headers.iter().map(|h| codec.compress(h)).collect();
    records
        .iter()
        .map(|r| codec.decompress(r).expect("record should decode"))
        .collect()
}

#[test]
fn serialize_deserialize_round_trip() {
    let bytes = header_bytes(0x0102_0304, &[9u8; 32], &[13u8; 32], 0xdead_beef, 0x1d00_ffff, 42);
    assert_eq!(bytes.len(), 80);
    let header = BlockHeader::deserialize(&bytes);
    assert_eq!(header.serialize(), bytes);
}

#[test]
fn new_header_is_all_zero() {
    let header = BlockHeader::new();
    assert_eq!(header.serialize(), vec![0u8; 80]);
}

#[test]
fn header_hash_matches_sha256_of_serialization() {
    let bytes = header_bytes(2, &[1u8; 32], &[2u8; 32], 1000, 0x1d00_ffff, 7);
    let header = BlockHeader::deserialize(&bytes);
    assert_eq!(header.hash(), sha256(&bytes).to_vec());
}

#[test]
fn session_round_trip() {
    // Cache hits and misses, a time delta, a fallback to absolute time, and
    // equal and differing difficulty targets.
    let headers = chain(&[
        (1, 1000, 0x1d00_ffff, 1),
        (1, 1050, 0x1d00_ffff, 2),
        (2, 900, 0x1c00_aaaa, 3),
        (2, 1_000_000_000, 0x1c00_aaaa, 4),
        (1, 999_999_000, 0x1d00_ffff, 5),
    ]);
    let decompressed = round_trip(&headers);
    assert_eq!(decompressed, headers);
}

#[test]
fn first_record_carries_hash_and_absolute_time() {
    let headers = chain(&[(1, 1000, 0x1d00_ffff, 5)]);
    let mut codec = Codec::new();
    let record = codec.compress(&headers[0]);
    // New version, hash literal, absolute time, full difficulty target.
    assert_eq!(record[0], 0xe0);
    assert_eq!(record.len(), 81);
    // Version, previous hash and time sit literally in the payload.
    assert_eq!(&record[1..5], &headers[0][0..4]);
    assert_eq!(&record[5..37], &headers[0][4..36]);
    assert_eq!(&record[69..73], &headers[0][68..72]);
}

#[test]
fn version_cache_evicts_oldest_of_eight() {
    let mut deque = Deque::new();
    for v in 10..18 {
        deque.insert(v);
    }
    // v0 = 10 was evicted; 17..11 remain, most recent first.
    assert!(!deque.contains(10));
    for (slot, expected) in (0..7).zip((11..18).rev()) {
        assert_eq!(deque.lookup(slot), Some(expected));
        assert_eq!(deque.index_of(expected), slot);
    }
    assert_eq!(deque.lookup(7), None);
}

#[test]
fn time_offset_boundary_encodings() {
    let base: u32 = 1_000_000;
    for (delta, expect_offset_form) in [
        (32767i64, true),
        (-32768, true),
        (32768, false),
        (-32769, false),
    ] {
        let time2 = (base as i64 + delta) as u32;
        let headers = chain(&[(1, base, 0x1d00_ffff, 1), (1, time2, 0x1d00_ffff, 2)]);
        let mut codec = Codec::new();
        codec.compress(&headers[0]);
        let record = codec.compress(&headers[1]);
        assert_eq!(record[0] & MASK_TIME == MASK_TIME, expect_offset_form);
        // Control byte, merkle root, time, nonce; version and hash elided,
        // difficulty target unchanged.
        let expected_len = 1 + 32 + if expect_offset_form { 2 } else { 4 } + 4;
        assert_eq!(record.len(), expected_len);
        if expect_offset_form {
            let offset = i16::from_le_bytes([record[33], record[34]]);
            assert_eq!(offset as i64, delta);
        }
    }
}

#[test]
fn difficulty_target_elision() {
    let equal = chain(&[(1, 1000, 0x1d00_ffff, 1), (1, 1050, 0x1d00_ffff, 2)]);
    let mut codec = Codec::new();
    codec.compress(&equal[0]);
    let record = codec.compress(&equal[1]);
    assert_eq!(record[0] & MASK_NBITS, MASK_NBITS);
    assert_eq!(record.len(), 1 + 32 + 2 + 4);

    let differing = chain(&[(1, 1000, 0x1d00_ffff, 1), (1, 1050, 0x1c00_aaaa, 2)]);
    let mut codec = Codec::new();
    codec.compress(&differing[0]);
    let record = codec.compress(&differing[1]);
    assert_eq!(record[0] & MASK_NBITS, 0);
    assert_eq!(record.len(), 1 + 32 + 2 + 4 + 4);
    assert_eq!(&record[35..39], &0x1c00_aaaau32.to_le_bytes());
}

#[test]
fn three_header_scenario() {
    let headers = chain(&[
        (1, 1000, 0x1d00_ffff, 1),
        (1, 1050, 0x1d00_ffff, 2),
        (2, 1100, 0x1d00_ffff, 3),
    ]);
    let mut codec = Codec::new();
    let r1 = codec.compress(&headers[0]);
    let r2 = codec.compress(&headers[1]);
    let r3 = codec.compress(&headers[2]);
    // Version literal, hash literal, absolute time, full difficulty target.
    assert_eq!(r1[0], 0xe0);
    // Version cache hit at index 0, hash omitted, time delta, target elided.
    assert_eq!(r2[0], MASK_PREV_BLOCK_HASH | MASK_TIME | MASK_NBITS);
    assert_eq!(&r2[33..35], &50i16.to_le_bytes());
    // New version again: literal version bits plus all three elision flags.
    assert_eq!(r3[0], 0xe0 | MASK_PREV_BLOCK_HASH | MASK_TIME | MASK_NBITS);
    assert_eq!(&r3[1..5], &2i32.to_le_bytes());
    assert_eq!(&r3[37..39], &50i16.to_le_bytes());
    // After record 3 the cache holds [2, 1]: a fourth header with version 1
    // compresses to cache index 1.
    let prev_hash = sha256(&headers[2]);
    let h4 = header_bytes(1, &prev_hash, &[9u8; 32], 1150, 0x1d00_ffff, 4);
    let r4 = codec.compress(&h4);
    assert_eq!(r4[0] >> 5, 1);
    assert_eq!(
        round_trip(&[headers[0].clone(), headers[1].clone(), headers[2].clone(), h4.clone()]),
        vec![headers[0].clone(), headers[1].clone(), headers[2].clone(), h4]
    );
}

#[test]
fn decode_rejects_bad_length() {
    let mut codec = Codec::new();
    assert_eq!(codec.decompress(&Vec::new()), Err(DecodeError::BadLength));
    // A full first record, truncated by one byte.
    let headers = chain(&[(1, 1000, 0x1d00_ffff, 1)]);
    let mut compressor = Codec::new();
    let mut record = compressor.compress(&headers[0]);
    record.pop();
    assert_eq!(codec.decompress(&record), Err(DecodeError::BadLength));
}

#[test]
fn decode_rejects_unpopulated_version_index() {
    let mut codec = Codec::new();
    // Control byte 0x00: version index 0 on an empty cache. Length matches
    // the control byte: 1 + 32 + 32 + 4 + 4 + 4.
    let record = vec![0u8; 77];
    assert_eq!(codec.decompress(&record), Err(DecodeError::BadVersionIndex));
}

#[test]
fn decode_rejects_duplicate_literal_version() {
    let headers = chain(&[(5, 1000, 0x1d00_ffff, 1)]);
    let mut compressor = Codec::new();
    let first = compressor.compress(&headers[0]);
    let mut codec = Codec::new();
    codec.decompress(&first).expect("first record should decode");
    // A second record claiming version 5 is new, though the cache holds it:
    // literal version, all elisions. Length: 1 + 4 + 32 + 2 + 4.
    let mut record = vec![0xe0 | MASK_PREV_BLOCK_HASH | MASK_TIME | MASK_NBITS];
    record.extend_from_slice(&5i32.to_le_bytes());
    record.extend_from_slice(&[0u8; 38]);
    assert_eq!(codec.decompress(&record), Err(DecodeError::DuplicateVersion));
}

#[test]
fn decode_rejects_elision_without_previous_header() {
    let mut codec = Codec::new();
    for flag in [MASK_PREV_BLOCK_HASH, MASK_TIME, MASK_NBITS] {
        let mut record = vec![0xe0 | flag];
        record.extend_from_slice(&1i32.to_le_bytes());
        let payload = match flag {
            MASK_PREV_BLOCK_HASH => 32 + 4 + 4 + 4,
            MASK_TIME => 32 + 32 + 2 + 4 + 4,
            _ => 32 + 32 + 4 + 4,
        };
        record.extend_from_slice(&vec![0u8; payload]);
        assert_eq!(codec.decompress(&record), Err(DecodeError::MissingPrevHeader));
    }
}

#[test]
fn decode_error_leaves_session_state_usable() {
    let headers = chain(&[(1, 1000, 0x1d00_ffff, 1), (1, 1050, 0x1d00_ffff, 2)]);
    let mut compressor = Codec::new();
    let r1 = compressor.compress(&headers[0]);
    let r2 = compressor.compress(&headers[1]);
    let mut codec = Codec::new();
    assert_eq!(codec.decompress(&headers[0]), Err(DecodeError::BadLength));
    assert_eq!(codec.decompress(&r1).expect("should decode"), headers[0]);
    assert_eq!(codec.decompress(&Vec::new()), Err(DecodeError::BadLength));
    assert_eq!(codec.decompress(&r2).expect("should decode"), headers[1]);
}

#[test]
fn session_with_cache_eviction_round_trip() {
    // Nine distinct versions overflow the 7-slot cache; the tenth header
    // reuses the evicted first version, which must travel literally again.
    let mut specs: Vec<(i32, u32, u32, u32)> = (0..9)
        .map(|k| (100 + k as i32, 1000 + 10 * k as u32, 0x1d00_ffff, k as u32))
        .collect();
    specs.push((100, 2000, 0x1d00_ffff, 99));
    let headers = chain(&specs);
    let mut codec = Codec::new();
    let records: Vec<Vec<u8>> = headers.iter().map(|h| codec.compress(h)).collect();
    // Versions 100..109 are all new when first seen.
    for record in &records[..9] {
        assert_eq!(record[0] >> 5, 7);
    }
    // Version 100 was evicted when version 108 arrived, so it is new again.
    assert_eq!(records[9][0] >> 5, 7);
    let decompressed: Vec<Vec<u8>> = records
        .iter()
        .map(|r| codec.decompress(r).expect("record should decode"))
        .collect();
    assert_eq!(decompressed, headers);
}

#[test]
fn record_len_matches_compressed_records() {
    let headers = chain(&[
        (1, 1000, 0x1d00_ffff, 1),
        (1, 1050, 0x1d00_ffff, 2),
        (2, 200_000, 0x1c00_aaaa, 3),
    ]);
    let mut codec = Codec::new();
    for h in &headers {
        let record = codec.compress(h);
        assert_eq!(rust_codec::codec::record_len(record[0]), record.len());
    }
}
