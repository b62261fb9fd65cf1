//! The fixed 80-byte block header: parsing, serialization, and the identity
//! hash derived from its canonical byte layout.

use vstd::prelude::*;
use vstd::bytes::*;
use sha2::Digest;

verus! {

/// Total serialized size of a header, in bytes.
pub const HEADER_LEN: usize = 80;

/// Mathematical model of a block header: six fields, fixed widths.
#[verifier::ext_equal]
pub struct HeaderModel {
    pub version: i32,
    pub prev_block_hash: Seq<u8>,
    pub merkle_root: Seq<u8>,
    pub time: u32,
    pub n_bits: u32,
    pub nonce: u32,
}

impl HeaderModel {
    /// A well-formed header carries full-width hash fields.
    pub open spec fn wf(self) -> bool {
        &&& self.prev_block_hash.len() == 32
        &&& self.merkle_root.len() == 32
    }
}

/// Canonical little-endian byte layout of a header: version, previous hash,
/// merkle root, time, difficulty target, nonce, with no padding.
pub open spec fn spec_serialize(h: HeaderModel) -> Seq<u8> {
    spec_u32_to_le_bytes(h.version as u32) + h.prev_block_hash + h.merkle_root
        + spec_u32_to_le_bytes(h.time) + spec_u32_to_le_bytes(h.n_bits)
        + spec_u32_to_le_bytes(h.nonce)
}

/// Inverse of `spec_serialize` on 80-byte sequences.
pub open spec fn spec_parse(b: Seq<u8>) -> HeaderModel
    recommends
        b.len() == 80,
{
    HeaderModel {
        version: spec_u32_from_le_bytes(b.subrange(0, 4)) as i32,
        prev_block_hash: b.subrange(4, 36),
        merkle_root: b.subrange(36, 68),
        time: spec_u32_from_le_bytes(b.subrange(68, 72)),
        n_bits: spec_u32_from_le_bytes(b.subrange(72, 76)),
        nonce: spec_u32_from_le_bytes(b.subrange(76, 80)),
    }
}

/// A block header holding both fixed-width integer fields and the two
/// 32-byte hash commitments.
pub struct BlockHeader {
    pub version: i32,
    pub prev_block_hash: Vec<u8>,
    pub merkle_root: Vec<u8>,
    pub time: u32,
    pub n_bits: u32,
    pub nonce: u32,
}

impl View for BlockHeader {
    type V = HeaderModel;

    open spec fn view(&self) -> HeaderModel {
        HeaderModel {
            version: self.version,
            prev_block_hash: self.prev_block_hash@,
            merkle_root: self.merkle_root@,
            time: self.time,
            n_bits: self.n_bits,
            nonce: self.nonce,
        }
    }
}

/// A vector of `n` zero bytes.
fn zero_bytes(n: usize) -> (r: Vec<u8>)
    ensures
        r@ == Seq::new(n as nat, |i: int| 0u8),
{
    let mut r: Vec<u8> = Vec::new();
    let mut k: usize = 0;
    while k < n
        invariant
            k <= n,
            r@ == Seq::new(k as nat, |i: int| 0u8),
        decreases n - k,
    {
        r.push(0u8);
        k = k + 1;
        proof {
            assert(r@ =~= Seq::new(k as nat, |i: int| 0u8));
        }
    }
    r
}

/// Appends every byte of `src` to `dst`.
pub(crate) fn extend_bytes(dst: &mut Vec<u8>, src: &[u8])
    ensures
        final(dst)@ == old(dst)@ + src@,
{
    let mut k: usize = 0;
    while k < src.len()
        invariant
            k <= src@.len(),
            dst@ == old(dst)@ + src@.subrange(0, k as int),
        decreases src@.len() - k,
    {
        let b = src[k];
        dst.push(b);
        k = k + 1;
        proof {
            assert(dst@ =~= old(dst)@ + src@.subrange(0, k as int));
        }
    }
    proof {
        assert(dst@ =~= old(dst)@ + src@);
    }
}

/// Copies the bytes of `v` between indices `i` (inclusive) and `j` (exclusive)
/// into a fresh vector.
pub(crate) fn bytes_subrange(v: &Vec<u8>, i: usize, j: usize) -> (r: Vec<u8>)
    requires
        i <= j <= v@.len(),
    ensures
        r@ == v@.subrange(i as int, j as int),
{
    let s = vstd::slice::slice_subrange(v.as_slice(), i, j);
    vstd::slice::slice_to_vec(s)
}

impl BlockHeader {
    /// An all-zero header.
    pub fn new() -> (r: BlockHeader)
        ensures
            r@ == (HeaderModel {
                version: 0i32,
                prev_block_hash: Seq::new(32, |i: int| 0u8),
                merkle_root: Seq::new(32, |i: int| 0u8),
                time: 0u32,
                n_bits: 0u32,
                nonce: 0u32,
            }),
            r@.wf(),
    {
        BlockHeader {
            version: 0,
            prev_block_hash: zero_bytes(32),
            merkle_root: zero_bytes(32),
            time: 0,
            n_bits: 0,
            nonce: 0,
        }
    }

    /// Reads a header from its canonical 80-byte form.
    pub fn deserialize(header: &Vec<u8>) -> (r: BlockHeader)
        requires
            header@.len() == 80,
        ensures
            r@ == spec_parse(header@),
            r@.wf(),
    {
        let version_bytes = vstd::slice::slice_subrange(header.as_slice(), 0, 4);
        let time_bytes = vstd::slice::slice_subrange(header.as_slice(), 68, 72);
        let n_bits_bytes = vstd::slice::slice_subrange(header.as_slice(), 72, 76);
        let nonce_bytes = vstd::slice::slice_subrange(header.as_slice(), 76, 80);
        BlockHeader {
            version: u32_from_le_bytes(version_bytes) as i32,
            prev_block_hash: bytes_subrange(header, 4, 36),
            merkle_root: bytes_subrange(header, 36, 68),
            time: u32_from_le_bytes(time_bytes),
            n_bits: u32_from_le_bytes(n_bits_bytes),
            nonce: u32_from_le_bytes(nonce_bytes),
        }
    }

    /// Writes the header in its canonical 80-byte form.
    pub fn serialize(&self) -> (r: Vec<u8>)
        requires
            self@.wf(),
        ensures
            r@ == spec_serialize(self@),
            r@.len() == 80,
    {
        let mut buffer: Vec<u8> = u32_to_le_bytes(self.version as u32);
        extend_bytes(&mut buffer, self.prev_block_hash.as_slice());
        extend_bytes(&mut buffer, self.merkle_root.as_slice());
        let time_bytes = u32_to_le_bytes(self.time);
        extend_bytes(&mut buffer, time_bytes.as_slice());
        let n_bits_bytes = u32_to_le_bytes(self.n_bits);
        extend_bytes(&mut buffer, n_bits_bytes.as_slice());
        let nonce_bytes = u32_to_le_bytes(self.nonce);
        extend_bytes(&mut buffer, nonce_bytes.as_slice());
        proof {
            assert(buffer@ =~= spec_serialize(self@));
        }
        buffer
    }

    /// The identity hash of the header: a SHA-256 digest of its canonical
    /// 80-byte serialization.
    pub fn hash(&self) -> (r: Vec<u8>)
        requires
            self@.wf(),
        ensures
            r@ == sha256_of(spec_serialize(self@)),
            r@.len() == 32,
    {
        let bytes = self.serialize();
        sha256(bytes.as_slice())
    }
}

/// The SHA-256 digest of a byte sequence. The digest is a pure function of
/// the input bytes; its value is not axiomatized here.
pub uninterp spec fn sha256_of(data: Seq<u8>) -> Seq<u8>;

/// Relies on sha2's `Sha256` (through the `Digest` trait): the digest is
/// 32 bytes long and depends on the input bytes alone.
#[verifier::external_body]
fn sha256(data: &[u8]) -> (r: Vec<u8>)
    ensures
        r@ == sha256_of(data@),
        r@.len() == 32,
{
    let mut hasher = sha2::Sha256::new();
    hasher.update(data);
    hasher.finalize().to_vec()
}

/// Parsing a serialized well-formed header gives back the header.
pub proof fn lemma_parse_serialize(h: HeaderModel)
    requires
        h.wf(),
    ensures
        spec_serialize(h).len() == 80,
        spec_parse(spec_serialize(h)) == h,
{
    lemma_auto_spec_u32_to_from_le_bytes();
    let b = spec_serialize(h);
    let ver = h.version;
    assert((ver as u32) as i32 == ver) by (bit_vector);
    assert(b.subrange(0, 4) =~= spec_u32_to_le_bytes(h.version as u32));
    assert(b.subrange(4, 36) =~= h.prev_block_hash);
    assert(b.subrange(36, 68) =~= h.merkle_root);
    assert(b.subrange(68, 72) =~= spec_u32_to_le_bytes(h.time));
    assert(b.subrange(72, 76) =~= spec_u32_to_le_bytes(h.n_bits));
    assert(b.subrange(76, 80) =~= spec_u32_to_le_bytes(h.nonce));
    assert(spec_parse(b) =~= h);
}

/// Serializing a parsed 80-byte sequence gives back the bytes.
pub proof fn lemma_serialize_parse(b: Seq<u8>)
    requires
        b.len() == 80,
    ensures
        spec_parse(b).wf(),
        spec_serialize(spec_parse(b)) == b,
{
    lemma_auto_spec_u32_to_from_le_bytes();
    let h = spec_parse(b);
    let v = spec_u32_from_le_bytes(b.subrange(0, 4));
    assert((v as i32) as u32 == v) by (bit_vector);
    assert(spec_serialize(h) =~= b);
}

} // verus!
