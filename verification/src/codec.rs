//! The stateful codec: `compress` turns one 80-byte header into a
//! variable-length delta-encoded record, `decompress` turns one record back
//! into the canonical 80-byte form. The two directions are independent state
//! machines; one `Codec` holds both for a single session.

use vstd::prelude::*;
use vstd::bytes::*;
use crate::blockheader::{BlockHeader, HeaderModel, spec_parse, spec_serialize, sha256_of};
use crate::compressor::{
    CompressorState, StateModel, cache_insert, lemma_index_of_distinct,
};

verus! {

/// Version-bits sentinel: the version follows literally in the payload.
pub const NEW_VERSION: u8 = 7;

/// Control-byte mask for the version-cache index, bits 7 to 5.
pub const MASK_VERSION: u8 = 0xe0;

/// Control-byte flag: the previous-hash field is omitted, bit 4.
pub const MASK_PREV_BLOCK_HASH: u8 = 0x10;

/// Control-byte flag: the time field is a 2-byte signed offset, bit 3.
pub const MASK_TIME: u8 = 0x08;

/// Control-byte flag: the difficulty target equals the previous header's,
/// bit 2.
pub const MASK_NBITS: u8 = 0x04;

// ----------------------------------------------------------------------------
// The control byte
// ----------------------------------------------------------------------------

/// The version-cache index carried in bits 7 to 5 of a control byte.
pub open spec fn bf_version_bits(b: u8) -> u8 {
    b >> 5
}

/// Whether the control byte says the previous-hash field was omitted.
pub open spec fn bf_prev_hash_omitted(b: u8) -> bool {
    b & MASK_PREV_BLOCK_HASH == MASK_PREV_BLOCK_HASH
}

/// Whether the control byte says the time field is a 2-byte offset.
pub open spec fn bf_time_is_delta(b: u8) -> bool {
    b & MASK_TIME == MASK_TIME
}

/// Whether the control byte says the difficulty target was elided.
pub open spec fn bf_n_bits_same(b: u8) -> bool {
    b & MASK_NBITS == MASK_NBITS
}

/// A control byte assembled from its four bit groups; the reserved bits 1
/// and 0 are always zero.
pub open spec fn spec_bitfield(vbits: u8, hash_omitted: bool, time_delta: bool, n_bits_same:
    bool) -> u8 {
    (vbits << 5) | (if hash_omitted {
        MASK_PREV_BLOCK_HASH
    } else {
        0u8
    }) | (if time_delta {
        MASK_TIME
    } else {
        0u8
    }) | (if n_bits_same {
        MASK_NBITS
    } else {
        0u8
    })
}

/// Reading the bit groups back out of an assembled control byte gives the
/// groups it was assembled from, and the reserved bits are zero.
pub proof fn lemma_bitfield_fields(vbits: u8, hash_omitted: bool, time_delta: bool, n_bits_same:
    bool)
    requires
        vbits <= 7,
    ensures
        bf_version_bits(spec_bitfield(vbits, hash_omitted, time_delta, n_bits_same)) == vbits,
        bf_prev_hash_omitted(spec_bitfield(vbits, hash_omitted, time_delta, n_bits_same))
            == hash_omitted,
        bf_time_is_delta(spec_bitfield(vbits, hash_omitted, time_delta, n_bits_same))
            == time_delta,
        bf_n_bits_same(spec_bitfield(vbits, hash_omitted, time_delta, n_bits_same))
            == n_bits_same,
        spec_bitfield(vbits, hash_omitted, time_delta, n_bits_same) & 3 == 0,
{
    let a: u8 = if hash_omitted { 16u8 } else { 0u8 };
    let t: u8 = if time_delta { 8u8 } else { 0u8 };
    let n: u8 = if n_bits_same { 4u8 } else { 0u8 };
    let b = spec_bitfield(vbits, hash_omitted, time_delta, n_bits_same);
    assert(b == (vbits << 5) | a | t | n);
    assert(((vbits << 5) | a | t | n) >> 5 == vbits && ((((vbits << 5) | a | t | n) & 16 == 16)
        <==> a == 16) && ((((vbits << 5) | a | t | n) & 8 == 8) <==> t == 8) && ((((vbits << 5)
        | a | t | n) & 4 == 4) <==> n == 4) && ((vbits << 5) | a | t | n) & 3 == 0)
        by (bit_vector)
        requires
            vbits <= 7,
            a == 16 || a == 0,
            t == 8 || t == 0,
            n == 4 || n == 0,
    ;
}

/// Total record length (control byte included) determined by the control
/// byte alone — the format carries no length prefix.
pub open spec fn spec_record_len(b: u8) -> int {
    1 + (if bf_version_bits(b) == 7 {
        4int
    } else {
        0int
    }) + (if bf_prev_hash_omitted(b) {
        0int
    } else {
        32int
    }) + 32 + (if bf_time_is_delta(b) {
        2int
    } else {
        4int
    }) + (if bf_n_bits_same(b) {
        0int
    } else {
        4int
    }) + 4
}

/// Computes the total record length promised by a control byte, so that a
/// caller reading a stream knows how many payload bytes follow it.
pub fn record_len(bitfield: u8) -> (n: usize)
    ensures
        n == spec_record_len(bitfield),
        39 <= n <= 81,
{
    let mut n: usize = 1 + 32 + 4;
    if bitfield >> 5 == NEW_VERSION {
        n = n + 4;
    }
    if !(bitfield & MASK_PREV_BLOCK_HASH == MASK_PREV_BLOCK_HASH) {
        n = n + 32;
    }
    if bitfield & MASK_TIME == MASK_TIME {
        n = n + 2;
    } else {
        n = n + 4;
    }
    if !(bitfield & MASK_NBITS == MASK_NBITS) {
        n = n + 4;
    }
    n
}

// ----------------------------------------------------------------------------
// Time offsets
// ----------------------------------------------------------------------------

/// Whether a time difference fits the 2-byte signed offset form.
pub open spec fn fits_i16(d: int) -> bool {
    -32768 <= d <= 32767
}

/// The 2-byte wire form of a time difference: its 16-bit two's complement.
pub open spec fn encode_time_delta(d: int) -> u16
    recommends
        fits_i16(d),
{
    if d >= 0 {
        d as u16
    } else {
        (d + 0x10000) as u16
    }
}

/// The signed value read back from the 2-byte wire form.
pub open spec fn decode_time_delta(w: u16) -> int {
    if w < 0x8000 {
        w as int
    } else {
        w - 0x10000
    }
}

/// The time reconstructed from a previous time and a 2-byte offset; the sum
/// wraps at the 32-bit boundary.
pub open spec fn time_from_delta(prev_time: u32, w: u16) -> u32 {
    let s = prev_time + decode_time_delta(w);
    if s < 0 {
        (s + 0x1_0000_0000) as u32
    } else if s > 0xffff_ffff {
        (s - 0x1_0000_0000) as u32
    } else {
        s as u32
    }
}

/// A time difference in the signed 16-bit range survives the trip through
/// its wire form.
pub proof fn lemma_time_delta_round_trip(d: int)
    requires
        fits_i16(d),
    ensures
        decode_time_delta(encode_time_delta(d)) == d,
{
}

// ----------------------------------------------------------------------------
// Compression, at the model level
// ----------------------------------------------------------------------------

/// Whether the header's version must travel literally: it is not in the cache.
pub open spec fn version_is_literal(st: StateModel, h: HeaderModel) -> bool {
    !st.versions.contains(h.version)
}

/// The version bits the compressor puts in the control byte.
pub open spec fn spec_version_bits(st: StateModel, h: HeaderModel) -> u8 {
    if version_is_literal(st, h) {
        7u8
    } else {
        st.versions.index_of(h.version) as u8
    }
}

/// Whether the time field travels as a 2-byte offset: a previous header
/// exists and the true difference fits 16 signed bits.
pub open spec fn time_delta_ok(st: StateModel, h: HeaderModel) -> bool {
    match st.prev {
        Some(p) => fits_i16(h.time - p.time),
        None => false,
    }
}

/// Whether the difficulty target is elided: it equals the previous header's.
pub open spec fn n_bits_unchanged(st: StateModel, h: HeaderModel) -> bool {
    match st.prev {
        Some(p) => h.n_bits == p.n_bits,
        None => false,
    }
}

/// The control byte `compress` emits for header `h` in state `st`.
pub open spec fn spec_compress_bitfield(st: StateModel, h: HeaderModel) -> u8 {
    spec_bitfield(
        spec_version_bits(st, h),
        st.prev is Some,
        time_delta_ok(st, h),
        n_bits_unchanged(st, h),
    )
}

/// The payload `compress` emits: version (if literal), previous hash (first
/// record only), merkle root, time (2 or 4 bytes), difficulty target (if
/// changed), nonce — always in this order.
pub open spec fn spec_compress_payload(st: StateModel, h: HeaderModel) -> Seq<u8> {
    (if version_is_literal(st, h) {
        spec_u32_to_le_bytes(h.version as u32)
    } else {
        Seq::<u8>::empty()
    }) + (if st.prev is Some {
        Seq::<u8>::empty()
    } else {
        h.prev_block_hash
    }) + h.merkle_root + (if time_delta_ok(st, h) {
        spec_u16_to_le_bytes(encode_time_delta(h.time - st.prev->Some_0.time))
    } else {
        spec_u32_to_le_bytes(h.time)
    }) + (if n_bits_unchanged(st, h) {
        Seq::<u8>::empty()
    } else {
        spec_u32_to_le_bytes(h.n_bits)
    }) + spec_u32_to_le_bytes(h.nonce)
}

/// The whole record: control byte, then payload.
pub open spec fn spec_compress_record(st: StateModel, h: HeaderModel) -> Seq<u8> {
    seq![spec_compress_bitfield(st, h)] + spec_compress_payload(st, h)
}

/// The compressor state after one record: the cache gains a literal version,
/// and the header becomes the previous header.
pub open spec fn spec_compress_state(st: StateModel, h: HeaderModel) -> StateModel {
    StateModel {
        versions: if version_is_literal(st, h) {
            cache_insert(st.versions, h.version)
        } else {
            st.versions
        },
        prev: Some(h),
    }
}

/// The version bits are at most 7, and when the version is cached they are
/// a valid index holding that version.
proof fn lemma_version_bits_bound(st: StateModel, h: HeaderModel)
    requires
        st.wf(),
    ensures
        spec_version_bits(st, h) <= 7,
        !version_is_literal(st, h) ==> spec_version_bits(st, h) < st.versions.len()
            && st.versions[spec_version_bits(st, h) as int] == h.version,
{
    if !version_is_literal(st, h) {
        assert(st.versions.contains(h.version));
        let i = st.versions.index_of(h.version);
        assert(0 <= i < st.versions.len() && st.versions[i] == h.version) by {
            assert(exists|k: int| 0 <= k < st.versions.len() && st.versions[k] == h.version);
        }
    }
}

/// A compressed record is as long as its own control byte promises: the
/// format needs no length prefix.
pub proof fn lemma_record_len(st: StateModel, h: HeaderModel)
    requires
        st.wf(),
        h.wf(),
    ensures
        spec_compress_record(st, h).len() == spec_record_len(spec_compress_record(st, h)[0]),
{
    let rec = spec_compress_record(st, h);
    let vbits = spec_version_bits(st, h);
    lemma_version_bits_bound(st, h);
    lemma_bitfield_fields(vbits, st.prev is Some, time_delta_ok(st, h), n_bits_unchanged(st, h));
    lemma_auto_spec_u32_to_from_le_bytes();
    lemma_auto_spec_u16_to_from_le_bytes();
    assert(rec[0] == spec_compress_bitfield(st, h));
    assert(version_is_literal(st, h) <==> bf_version_bits(rec[0]) == 7);
}

// ----------------------------------------------------------------------------
// Decompression, at the model level
// ----------------------------------------------------------------------------

/// Why a compressed record was rejected. Any of these means the record is
/// corrupt with respect to the session state; the state is left unchanged.
#[derive(Clone, Copy, Debug, PartialEq, Eq, Structural)]
pub enum DecodeError {
    /// The record is empty or its length does not match its control byte.
    BadLength,
    /// The version index points at a cache slot never populated.
    BadVersionIndex,
    /// A literal version that the cache already holds; the compressor never
    /// sends one.
    DuplicateVersion,
    /// An elision flag is set but no previous header exists in this session.
    MissingPrevHeader,
}

/// Whether any control-byte flag refers back to a previous header.
pub open spec fn flags_need_prev(b: u8) -> bool {
    bf_prev_hash_omitted(b) || bf_time_is_delta(b) || bf_n_bits_same(b)
}

/// The literal version carried right after the control byte.
pub open spec fn spec_literal_version(rec: Seq<u8>) -> i32 {
    spec_u32_from_le_bytes(rec.subrange(1, 5)) as i32
}

/// The error a record decodes to in state `st`, or `None` when it decodes to
/// a header. Checks run in the order the fields are read: length first, then
/// the version, then the flags that need a previous header.
pub open spec fn spec_decode_err(st: StateModel, rec: Seq<u8>) -> Option<DecodeError> {
    if rec.len() == 0 || rec.len() != spec_record_len(rec[0]) {
        Some(DecodeError::BadLength)
    } else if bf_version_bits(rec[0]) != 7 && bf_version_bits(rec[0]) >= st.versions.len() {
        Some(DecodeError::BadVersionIndex)
    } else if bf_version_bits(rec[0]) == 7 && st.versions.contains(spec_literal_version(rec)) {
        Some(DecodeError::DuplicateVersion)
    } else if flags_need_prev(rec[0]) && st.prev is None {
        Some(DecodeError::MissingPrevHeader)
    } else {
        None
    }
}

/// The header a record decodes to in state `st`, and the state after it.
/// Meaningful only when `spec_decode_err` is `None`.
pub open spec fn spec_decompress(st: StateModel, rec: Seq<u8>) -> (HeaderModel, StateModel)
    recommends
        spec_decode_err(st, rec) is None,
{
    let b = rec[0];
    let version = if bf_version_bits(b) == 7 {
        spec_literal_version(rec)
    } else {
        st.versions[bf_version_bits(b) as int]
    };
    let off1: int = if bf_version_bits(b) == 7 {
        5
    } else {
        1
    };
    let prev_block_hash = if bf_prev_hash_omitted(b) {
        sha256_of(spec_serialize(st.prev->Some_0))
    } else {
        rec.subrange(off1, off1 + 32)
    };
    let off2 = off1 + (if bf_prev_hash_omitted(b) {
        0int
    } else {
        32int
    });
    let merkle_root = rec.subrange(off2, off2 + 32);
    let off3 = off2 + 32;
    let time = if bf_time_is_delta(b) {
        time_from_delta(st.prev->Some_0.time, spec_u16_from_le_bytes(rec.subrange(off3, off3 + 2)))
    } else {
        spec_u32_from_le_bytes(rec.subrange(off3, off3 + 4))
    };
    let off4 = off3 + (if bf_time_is_delta(b) {
        2int
    } else {
        4int
    });
    let n_bits = if bf_n_bits_same(b) {
        st.prev->Some_0.n_bits
    } else {
        spec_u32_from_le_bytes(rec.subrange(off4, off4 + 4))
    };
    let off5 = off4 + (if bf_n_bits_same(b) {
        0int
    } else {
        4int
    });
    let nonce = spec_u32_from_le_bytes(rec.subrange(off5, off5 + 4));
    let h = HeaderModel { version, prev_block_hash, merkle_root, time, n_bits, nonce };
    let versions2 = if bf_version_bits(b) == 7 {
        cache_insert(st.versions, version)
    } else {
        st.versions
    };
    (h, StateModel { versions: versions2, prev: Some(h) })
}

// ----------------------------------------------------------------------------
// Laws relating the two directions
// ----------------------------------------------------------------------------

/// Whether a header's previous-hash field is the identity hash of the
/// session's previous header. Trivially true at session start.
pub open spec fn linked(prev: Option<HeaderModel>, h: HeaderModel) -> bool {
    match prev {
        Some(p) => h.prev_block_hash == sha256_of(spec_serialize(p)),
        None => true,
    }
}

/// Round trip for one record: decompressing what `compress` produced, in the
/// same state, gives back exactly the header and drives the state to the
/// same place the compressor went.
pub proof fn lemma_round_trip(st: StateModel, h: HeaderModel)
    requires
        st.wf(),
        h.wf(),
        linked(st.prev, h),
    ensures
        spec_decode_err(st, spec_compress_record(st, h)) is None,
        spec_decompress(st, spec_compress_record(st, h)).0 == h,
        spec_decompress(st, spec_compress_record(st, h)).1 == spec_compress_state(st, h),
{
    let rec = spec_compress_record(st, h);
    let vbits = spec_version_bits(st, h);
    let literal = version_is_literal(st, h);
    let hash_om = st.prev is Some;
    let td = time_delta_ok(st, h);
    let nbs = n_bits_unchanged(st, h);
    lemma_version_bits_bound(st, h);
    lemma_bitfield_fields(vbits, hash_om, td, nbs);
    lemma_auto_spec_u32_to_from_le_bytes();
    lemma_auto_spec_u16_to_from_le_bytes();
    lemma_record_len(st, h);
    let b = spec_compress_bitfield(st, h);
    assert(rec[0] == b);
    assert(literal <==> bf_version_bits(b) == 7);

    let s1 = if literal {
        spec_u32_to_le_bytes(h.version as u32)
    } else {
        Seq::<u8>::empty()
    };
    let s2 = if hash_om {
        Seq::<u8>::empty()
    } else {
        h.prev_block_hash
    };
    let s3 = h.merkle_root;
    let s4 = if td {
        spec_u16_to_le_bytes(encode_time_delta(h.time - st.prev->Some_0.time))
    } else {
        spec_u32_to_le_bytes(h.time)
    };
    let s5 = if nbs {
        Seq::<u8>::empty()
    } else {
        spec_u32_to_le_bytes(h.n_bits)
    };
    let s6 = spec_u32_to_le_bytes(h.nonce);
    assert(rec =~= seq![b] + s1 + s2 + s3 + s4 + s5 + s6);
    let off1: int = 1 + s1.len() as int;
    let off2 = off1 + s2.len();
    let off3 = off2 + s3.len();
    let off4 = off3 + s4.len();
    let off5 = off4 + s5.len();

    // The record decodes: the length matches its control byte, a cached
    // version index is in range, a literal version is absent from the cache,
    // and every elision flag comes with a previous header.
    if literal {
        assert(rec.subrange(1, 5) =~= s1);
        let ver = h.version;
        assert((ver as u32) as i32 == ver) by (bit_vector);
        assert(spec_literal_version(rec) == h.version);
    }
    assert(spec_decode_err(st, rec) is None);

    // Each field reads back as the field compressed.
    let dh = spec_decompress(st, rec).0;
    assert(dh.version == h.version);
    if !hash_om {
        assert(rec.subrange(off1, off1 + 32) =~= s2);
    }
    assert(dh.prev_block_hash == h.prev_block_hash);
    assert(rec.subrange(off2, off2 + 32) =~= s3);
    assert(dh.merkle_root == h.merkle_root);
    if td {
        assert(rec.subrange(off3, off3 + 2) =~= s4);
        let p = st.prev->Some_0;
        let d = h.time - p.time;
        lemma_time_delta_round_trip(d);
        assert(spec_u16_from_le_bytes(rec.subrange(off3, off3 + 2)) == encode_time_delta(d));
        assert(dh.time == time_from_delta(p.time, encode_time_delta(d)));
        assert(dh.time == h.time);
    } else {
        assert(rec.subrange(off3, off3 + 4) =~= s4);
        assert(dh.time == h.time);
    }
    if !nbs {
        assert(rec.subrange(off4, off4 + 4) =~= s5);
    }
    assert(dh.n_bits == h.n_bits);
    assert(rec.subrange(off5, off5 + 4) =~= s6);
    assert(dh.nonce == h.nonce);
    assert(dh =~= h);
    assert(spec_decompress(st, rec).1 =~= spec_compress_state(st, h));
}

/// Every header of the sequence is well-formed.
pub open spec fn all_wf(hs: Seq<HeaderModel>) -> bool {
    forall|i: int| 0 <= i < hs.len() ==> hs[i].wf()
}

/// Each header's previous-hash field is the identity hash of the header
/// before it, the first being linked to `prev`.
pub open spec fn chain_linked(prev: Option<HeaderModel>, hs: Seq<HeaderModel>) -> bool
    decreases hs.len(),
{
    if hs.len() == 0 {
        true
    } else {
        linked(prev, hs[0]) && chain_linked(Some(hs[0]), hs.drop_first())
    }
}

/// The records of a whole session, compressed in order from state `st`, and
/// the final state.
pub open spec fn spec_compress_seq(st: StateModel, hs: Seq<HeaderModel>) -> (Seq<Seq<u8>>,
    StateModel)
    decreases hs.len(),
{
    if hs.len() == 0 {
        (Seq::<Seq<u8>>::empty(), st)
    } else {
        let rec = spec_compress_record(st, hs[0]);
        let rest = spec_compress_seq(spec_compress_state(st, hs[0]), hs.drop_first());
        (seq![rec] + rest.0, rest.1)
    }
}

/// The headers of a whole session, decompressed in order from state `st`,
/// and the final state; `None` as soon as one record is corrupt.
pub open spec fn spec_decompress_seq(st: StateModel, recs: Seq<Seq<u8>>) -> Option<(Seq<
    HeaderModel>, StateModel)>
    decreases recs.len(),
{
    if recs.len() == 0 {
        Some((Seq::<HeaderModel>::empty(), st))
    } else if spec_decode_err(st, recs[0]) is Some {
        None
    } else {
        let first = spec_decompress(st, recs[0]);
        match spec_decompress_seq(first.1, recs.drop_first()) {
            Some(rest) => Some((seq![first.0] + rest.0, rest.1)),
            None => None,
        }
    }
}

/// A compressed state is still well-formed.
pub proof fn lemma_compress_state_wf(st: StateModel, h: HeaderModel)
    requires
        st.wf(),
        h.wf(),
    ensures
        spec_compress_state(st, h).wf(),
{
    if version_is_literal(st, h) {
        crate::compressor::lemma_cache_insert_wf(st.versions, h.version);
    }
}

/// Round trip for a whole session: any chain-linked sequence of well-formed
/// headers fed through `compress` and then `decompress`, from the same state
/// and in the same order, comes back unchanged, and both directions end in
/// the same state.
pub proof fn lemma_session_round_trip(st: StateModel, hs: Seq<HeaderModel>)
    requires
        st.wf(),
        all_wf(hs),
        chain_linked(st.prev, hs),
    ensures
        spec_decompress_seq(st, spec_compress_seq(st, hs).0) == Some(
            (hs, spec_compress_seq(st, hs).1),
        ),
    decreases hs.len(),
{
    let out = spec_compress_seq(st, hs);
    if hs.len() == 0 {
        assert(out.0 =~= Seq::<Seq<u8>>::empty());
        assert(hs =~= Seq::<HeaderModel>::empty());
    } else {
        let h0 = hs[0];
        let rec0 = spec_compress_record(st, h0);
        let st2 = spec_compress_state(st, h0);
        lemma_round_trip(st, h0);
        lemma_compress_state_wf(st, h0);
        lemma_session_round_trip(st2, hs.drop_first());
        let rest = spec_compress_seq(st2, hs.drop_first());
        assert(out.0 =~= seq![rec0] + rest.0);
        assert(out.0.drop_first() =~= rest.0);
        assert(out.0[0] == rec0);
        let dec = spec_decompress_seq(st, out.0);
        assert(dec is Some);
        assert(dec->Some_0.0 =~= hs);
        assert(dec->Some_0.1 == out.1);
    }
}

/// The first record of a session carries the previous hash literally, at its
/// place in the payload, and the time as a full 4-byte absolute value.
pub proof fn lemma_first_record(st: StateModel, h: HeaderModel)
    requires
        st.wf(),
        h.wf(),
        st.prev is None,
    ensures
        !bf_prev_hash_omitted(spec_compress_record(st, h)[0]),
        !bf_time_is_delta(spec_compress_record(st, h)[0]),
        !bf_n_bits_same(spec_compress_record(st, h)[0]),
        ({
            let rec = spec_compress_record(st, h);
            let off1: int = if version_is_literal(st, h) {
                5
            } else {
                1
            };
            &&& rec.subrange(off1, off1 + 32) == h.prev_block_hash
            &&& rec.subrange(off1 + 64, off1 + 68) == spec_u32_to_le_bytes(h.time)
        }),
{
    let rec = spec_compress_record(st, h);
    let vbits = spec_version_bits(st, h);
    let literal = version_is_literal(st, h);
    lemma_version_bits_bound(st, h);
    lemma_bitfield_fields(vbits, false, false, false);
    lemma_auto_spec_u32_to_from_le_bytes();
    let s1 = if literal {
        spec_u32_to_le_bytes(h.version as u32)
    } else {
        Seq::<u8>::empty()
    };
    let off1: int = 1 + s1.len() as int;
    assert(rec.subrange(off1, off1 + 32) =~= h.prev_block_hash);
    assert(rec.subrange(off1 + 64, off1 + 68) =~= spec_u32_to_le_bytes(h.time));
}

/// The time field travels as a 2-byte offset exactly when the true signed
/// difference from the previous time fits 16 signed bits; at and just past
/// the boundary values the form changes.
pub proof fn lemma_time_offset_boundary(st: StateModel, h: HeaderModel)
    requires
        st.wf(),
        h.wf(),
        st.prev is Some,
    ensures
        bf_time_is_delta(spec_compress_record(st, h)[0]) <==> fits_i16(
            h.time - st.prev->Some_0.time,
        ),
        (h.time - st.prev->Some_0.time == 32767 || h.time - st.prev->Some_0.time == -32768)
            ==> bf_time_is_delta(spec_compress_record(st, h)[0]),
        (h.time - st.prev->Some_0.time == 32768 || h.time - st.prev->Some_0.time == -32769)
            ==> !bf_time_is_delta(spec_compress_record(st, h)[0]),
        spec_compress_record(st, h).len() == spec_record_len(spec_compress_record(st, h)[0]),
{
    lemma_version_bits_bound(st, h);
    lemma_bitfield_fields(
        spec_version_bits(st, h),
        true,
        time_delta_ok(st, h),
        n_bits_unchanged(st, h),
    );
    lemma_record_len(st, h);
}

/// The difficulty target is elided exactly when it equals the previous
/// header's: flag set and no payload bytes for the field, or flag clear and
/// its 4 little-endian bytes at their place in the payload.
pub proof fn lemma_n_bits_elision(st: StateModel, h: HeaderModel)
    requires
        st.wf(),
        h.wf(),
        st.prev is Some,
    ensures
        bf_n_bits_same(spec_compress_record(st, h)[0]) <==> h.n_bits == st.prev->Some_0.n_bits,
        spec_compress_record(st, h).len() == spec_record_len(spec_compress_record(st, h)[0]),
        h.n_bits != st.prev->Some_0.n_bits ==> ({
            let rec = spec_compress_record(st, h);
            let off4: int = 1 + (if version_is_literal(st, h) {
                4int
            } else {
                0int
            }) + 32 + (if time_delta_ok(st, h) {
                2int
            } else {
                4int
            });
            rec.subrange(off4, off4 + 4) == spec_u32_to_le_bytes(h.n_bits)
        }),
{
    let rec = spec_compress_record(st, h);
    let literal = version_is_literal(st, h);
    let td = time_delta_ok(st, h);
    let nbs = n_bits_unchanged(st, h);
    lemma_version_bits_bound(st, h);
    lemma_bitfield_fields(spec_version_bits(st, h), true, td, nbs);
    lemma_record_len(st, h);
    lemma_auto_spec_u32_to_from_le_bytes();
    lemma_auto_spec_u16_to_from_le_bytes();
    if !nbs {
        let s1 = if literal {
            spec_u32_to_le_bytes(h.version as u32)
        } else {
            Seq::<u8>::empty()
        };
        let s4 = if td {
            spec_u16_to_le_bytes(encode_time_delta(h.time - st.prev->Some_0.time))
        } else {
            spec_u32_to_le_bytes(h.time)
        };
        let off4: int = 1 + s1.len() as int + 32 + s4.len() as int;
        assert(rec.subrange(off4, off4 + 4) =~= spec_u32_to_le_bytes(h.n_bits));
    }
}

// ----------------------------------------------------------------------------
// The codec
// ----------------------------------------------------------------------------

/// Model of a codec: one state per direction.
#[verifier::ext_equal]
pub struct CodecModel {
    pub compressor: StateModel,
    pub decompressor: StateModel,
}

/// Stateful compressor/decompressor pair. One `Codec` is required per
/// session, to keep the two directions' accumulated state.
pub struct Codec {
    pub compressor: CompressorState,
    pub decompressor: CompressorState,
}

impl View for Codec {
    type V = CodecModel;

    open spec fn view(&self) -> CodecModel {
        CodecModel { compressor: self.compressor@, decompressor: self.decompressor@ }
    }
}

impl Codec {
    pub open spec fn wf(self) -> bool {
        &&& self@.compressor.wf()
        &&& self@.decompressor.wf()
    }

    /// A codec at session start: both directions empty.
    pub fn new() -> (r: Codec)
        ensures
            r@.compressor == StateModel::initial(),
            r@.decompressor == StateModel::initial(),
            r.wf(),
    {
        Codec { compressor: CompressorState::new(), decompressor: CompressorState::new() }
    }

    /// Compresses one 80-byte header into a variable-length record, updating
    /// the compressor-side session state.
    pub fn compress(&mut self, header_bytes: &Vec<u8>) -> (r: Vec<u8>)
        requires
            old(self).wf(),
            header_bytes@.len() == 80,
        ensures
            final(self).wf(),
            r@ == spec_compress_record(old(self)@.compressor, spec_parse(header_bytes@)),
            final(self)@.compressor == spec_compress_state(
                old(self)@.compressor,
                spec_parse(header_bytes@),
            ),
            final(self)@.decompressor == old(self)@.decompressor,
    {
        let ghost st0 = self@.compressor;
        let header = BlockHeader::deserialize(header_bytes);
        let ghost h = header@;

        // Version: cache hit gives a 3-bit index; a miss caches the version
        // and marks it literal.
        let mut vbits: u8 = NEW_VERSION;
        if self.compressor.prev_versions.contains(header.version) {
            let index = self.compressor.prev_versions.index_of(header.version);
            vbits = index as u8;
            proof {
                lemma_index_of_distinct(st0.versions, h.version, index as int);
            }
        } else {
            self.compressor.prev_versions.insert(header.version);
        }
        let version_literal = vbits == NEW_VERSION;
        proof {
            assert(version_literal == version_is_literal(st0, h));
            assert(vbits == spec_version_bits(st0, h));
        }

        // Previous hash travels only on the first record of the session;
        // time and difficulty target are elided against the previous header.
        let has_prev = self.compressor.prev_header.is_some();
        let mut time_delta = false;
        let mut delta_word: u16 = 0;
        let mut n_bits_same = false;
        match &self.compressor.prev_header {
            Some(prev) => {
                let d: i64 = header.time as i64 - prev.time as i64;
                if -32768 <= d && d <= 32767 {
                    time_delta = true;
                    delta_word = if d >= 0 {
                        d as u16
                    } else {
                        (d + 0x10000) as u16
                    };
                }
                n_bits_same = header.n_bits == prev.n_bits;
            },
            None => {},
        }
        proof {
            assert(has_prev == (st0.prev is Some));
            assert(time_delta == time_delta_ok(st0, h));
            assert(n_bits_same == n_bits_unchanged(st0, h));
            assert(time_delta ==> delta_word == encode_time_delta(
                h.time - st0.prev->Some_0.time,
            ));
        }

        let bitfield: u8 = (vbits << 5) | (if has_prev {
            MASK_PREV_BLOCK_HASH
        } else {
            0u8
        }) | (if time_delta {
            MASK_TIME
        } else {
            0u8
        }) | (if n_bits_same {
            MASK_NBITS
        } else {
            0u8
        });
        proof {
            assert(bitfield == spec_compress_bitfield(st0, h));
        }

        // Payload, in the fixed field order.
        let mut result: Vec<u8> = Vec::new();
        if version_literal {
            let version_bytes = u32_to_le_bytes(header.version as u32);
            crate::blockheader::extend_bytes(&mut result, version_bytes.as_slice());
        }
        if !has_prev {
            crate::blockheader::extend_bytes(&mut result, header.prev_block_hash.as_slice());
        }
        crate::blockheader::extend_bytes(&mut result, header.merkle_root.as_slice());
        if time_delta {
            let delta_bytes = u16_to_le_bytes(delta_word);
            crate::blockheader::extend_bytes(&mut result, delta_bytes.as_slice());
        } else {
            let time_bytes = u32_to_le_bytes(header.time);
            crate::blockheader::extend_bytes(&mut result, time_bytes.as_slice());
        }
        if !n_bits_same {
            let n_bits_bytes = u32_to_le_bytes(header.n_bits);
            crate::blockheader::extend_bytes(&mut result, n_bits_bytes.as_slice());
        }
        let nonce_bytes = u32_to_le_bytes(header.nonce);
        crate::blockheader::extend_bytes(&mut result, nonce_bytes.as_slice());
        proof {
            assert(result@ =~= spec_compress_payload(st0, h));
        }

        // Control byte goes in front; the header becomes the previous header.
        result.insert(0, bitfield);
        self.compressor.prev_header = Some(header);
        proof {
            assert(result@ =~= spec_compress_record(st0, h));
            assert(final(self)@.compressor =~= spec_compress_state(st0, h));
        }
        result
    }

    /// Decompresses one record back into the canonical 80-byte header form,
    /// updating the decompressor-side session state. A corrupt record is
    /// reported as an error and leaves the whole codec unchanged.
    pub fn decompress(&mut self, record: &Vec<u8>) -> (r: Result<Vec<u8>, DecodeError>)
        requires
            old(self).wf(),
        ensures
            final(self).wf(),
            final(self)@.compressor == old(self)@.compressor,
            match spec_decode_err(old(self)@.decompressor, record@) {
                Some(e) => r == Err::<Vec<u8>, DecodeError>(e) && final(self)@ == old(self)@,
                None => {
                    let (h, st2) = spec_decompress(old(self)@.decompressor, record@);
                    &&& h.wf()
                    &&& r is Ok
                    &&& r->Ok_0@ == spec_serialize(h)
                    &&& r->Ok_0@.len() == 80
                    &&& final(self)@.decompressor == st2
                },
            },
    {
        let ghost st0 = self@.decompressor;
        if record.len() == 0 {
            return Err(DecodeError::BadLength);
        }
        let bitfield: u8 = record[0];
        if record.len() != record_len(bitfield) {
            return Err(DecodeError::BadLength);
        }
        let vbits = bitfield >> 5;
        let hash_omitted = bitfield & MASK_PREV_BLOCK_HASH == MASK_PREV_BLOCK_HASH;
        let time_is_delta = bitfield & MASK_TIME == MASK_TIME;
        let n_bits_same = bitfield & MASK_NBITS == MASK_NBITS;

        // Version: literal after the control byte, or a cache index.
        let version: i32;
        let off_version: usize;
        if vbits == NEW_VERSION {
            let version_bytes = vstd::slice::slice_subrange(record.as_slice(), 1, 5);
            version = u32_from_le_bytes(version_bytes) as i32;
            if self.decompressor.prev_versions.contains(version) {
                return Err(DecodeError::DuplicateVersion);
            }
            off_version = 5;
        } else {
            match self.decompressor.prev_versions.lookup(vbits as usize) {
                Some(v) => {
                    version = v;
                },
                None => {
                    return Err(DecodeError::BadVersionIndex);
                },
            }
            off_version = 1;
        }

        // Every elision flag needs a previous header in this session.
        if (hash_omitted || time_is_delta || n_bits_same) && self.decompressor.prev_header.is_none() {
            return Err(DecodeError::MissingPrevHeader);
        }
        proof {
            assert(spec_decode_err(st0, record@) is None);
        }
        let ghost decoded = spec_decompress(st0, record@);

        // Previous hash: reconstructed from the previous header, or literal.
        let prev_block_hash: Vec<u8>;
        let off_hash: usize;
        if hash_omitted {
            let p = match &self.decompressor.prev_header {
                Some(p) => p,
                None => unreached(),
            };
            prev_block_hash = p.hash();
            off_hash = off_version;
        } else {
            prev_block_hash = crate::blockheader::bytes_subrange(
                record,
                off_version,
                off_version + 32,
            );
            off_hash = off_version + 32;
        }

        // Merkle root: always literal.
        let merkle_root = crate::blockheader::bytes_subrange(record, off_hash, off_hash + 32);
        let off_time = off_hash + 32;

        // Time: a 2-byte signed offset from the previous time, or absolute.
        let time: u32;
        let off_n_bits: usize;
        if time_is_delta {
            let delta_bytes = vstd::slice::slice_subrange(record.as_slice(), off_time, off_time
                + 2);
            let w = u16_from_le_bytes(delta_bytes);
            let p = match &self.decompressor.prev_header {
                Some(p) => p,
                None => unreached(),
            };
            let s: i64 = p.time as i64 + (if w < 0x8000 {
                w as i64
            } else {
                w as i64 - 0x10000
            });
            time = if s < 0 {
                (s + 0x1_0000_0000) as u32
            } else if s > 0xffff_ffff {
                (s - 0x1_0000_0000) as u32
            } else {
                s as u32
            };
            off_n_bits = off_time + 2;
        } else {
            let time_bytes = vstd::slice::slice_subrange(record.as_slice(), off_time, off_time
                + 4);
            time = u32_from_le_bytes(time_bytes);
            off_n_bits = off_time + 4;
        }

        // Difficulty target: copied from the previous header, or literal.
        let n_bits: u32;
        let off_nonce: usize;
        if n_bits_same {
            let p = match &self.decompressor.prev_header {
                Some(p) => p,
                None => unreached(),
            };
            n_bits = p.n_bits;
            off_nonce = off_n_bits;
        } else {
            let n_bits_bytes = vstd::slice::slice_subrange(record.as_slice(), off_n_bits,
                off_n_bits + 4);
            n_bits = u32_from_le_bytes(n_bits_bytes);
            off_nonce = off_n_bits + 4;
        }

        // Nonce: always literal.
        let nonce_bytes = vstd::slice::slice_subrange(record.as_slice(), off_nonce, off_nonce + 4);
        let nonce = u32_from_le_bytes(nonce_bytes);

        let header = BlockHeader { version, prev_block_hash, merkle_root, time, n_bits, nonce };
        proof {
            assert(header@ =~= decoded.0);
        }
        if vbits == NEW_VERSION {
            self.decompressor.prev_versions.insert(version);
        }
        let out = header.serialize();
        self.decompressor.prev_header = Some(header);
        proof {
            assert(final(self)@.decompressor =~= decoded.1);
        }
        Ok(out)
    }
}

} // verus!
