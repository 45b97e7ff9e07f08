//! Spatial index files: their binary frame, the embedded source metadata,
//! and the freshness check against the dataset they were built from.
//!
//! A file is a 16-byte header (magic `EFSI`, version, flags, node count as a
//! little-endian `u32`, six reserved bytes), then for version 2 with the
//! metadata flag a metadata section (dataset checksum, tag length as a
//! little-endian `u16`, tag bytes, build timestamp as a little-endian `i64`),
//! then the zstd-compressed node payload and the SHA-256 digest of that
//! compressed payload.

use vstd::prelude::*;
use vstd::utf8::{decode_utf8, encode_utf8, valid_utf8};

use crate::digest::{hex_encode, hex_text, sha256, sha256_of};
use crate::error::{Error, IndexFormatError};
use crate::text::opt_text;

verus! {

/// Version of files without source metadata.
pub const INDEX_VERSION: u8 = 1;
/// Version of files that may carry source metadata.
pub const INDEX_VERSION_V2: u8 = 2;
/// Flag bit: nodes carry temperatures.
pub const FLAG_HAS_TEMPERATURE: u8 = 0x01;
/// Flag bit: a metadata section follows the header.
pub const FLAG_HAS_METADATA: u8 = 0x02;
/// Size of the fixed header in bytes.
pub const HEADER_SIZE: usize = 16;
/// Size of the trailing checksum in bytes.
pub const CHECKSUM_SIZE: usize = 32;
/// zstd compression level used for the node payload.
pub const COMPRESSION_LEVEL: i32 = 3;

/// The magic bytes `EFSI` that open every index file.
pub open spec fn index_magic() -> Seq<u8> {
    seq![0x45u8, 0x46u8, 0x53u8, 0x49u8]
}

// ---------------------------------------------------------------------------
// Little-endian integers
// ---------------------------------------------------------------------------

/// Little-endian bytes of a `u16`.
pub open spec fn u16_le(x: u16) -> Seq<u8> {
    seq![(x & 0xff) as u8, ((x >> 8) & 0xff) as u8]
}

/// Little-endian bytes of a `u32`.
pub open spec fn u32_le(x: u32) -> Seq<u8> {
    seq![(x & 0xff) as u8, ((x >> 8) & 0xff) as u8, ((x >> 16) & 0xff) as u8, ((x >> 24) & 0xff) as u8]
}

/// Little-endian bytes of a `u64`.
pub open spec fn u64_le(x: u64) -> Seq<u8> {
    seq![
        (x & 0xff) as u8,
        ((x >> 8) & 0xff) as u8,
        ((x >> 16) & 0xff) as u8,
        ((x >> 24) & 0xff) as u8,
        ((x >> 32) & 0xff) as u8,
        ((x >> 40) & 0xff) as u8,
        ((x >> 48) & 0xff) as u8,
        ((x >> 56) & 0xff) as u8,
    ]
}

/// The two's-complement bit pattern of an `i64`, read as a `u64`.
pub open spec fn i64_bits(x: i64) -> u64 {
    if x < 0 {
        (x + 0x1_0000_0000_0000_0000int) as u64
    } else {
        x as u64
    }
}

/// Little-endian bytes of an `i64` in two's complement.
pub open spec fn i64_le(x: i64) -> Seq<u8> {
    u64_le(i64_bits(x))
}

/// Value of two little-endian bytes.
pub open spec fn le_u16(b: Seq<u8>) -> int {
    b[0] + 256 * b[1]
}

/// Value of four little-endian bytes.
pub open spec fn le_u32(b: Seq<u8>) -> int {
    b[0] + 256 * b[1] + 65536 * b[2] + 16777216 * b[3]
}

/// Value of eight little-endian bytes, unsigned.
pub open spec fn le_u64(b: Seq<u8>) -> int {
    le_u32(b) + 4294967296 * le_u32(b.subrange(4, 8))
}

/// Value of eight little-endian bytes in two's complement.
pub open spec fn le_i64(b: Seq<u8>) -> int {
    if le_u64(b) < 0x8000_0000_0000_0000 {
        le_u64(b)
    } else {
        le_u64(b) - 0x1_0000_0000_0000_0000
    }
}

proof fn lemma_u16_le(x: u16)
    ensures
        le_u16(u16_le(x)) == x,
{
    assert(((x & 0xff) as u8) as int + 256 * (((x >> 8) & 0xff) as u8) as int == x) by (bit_vector);
}

proof fn lemma_u32_le(x: u32)
    ensures
        le_u32(u32_le(x)) == x,
{
    assert(((x & 0xff) as u8) as int + 256 * (((x >> 8) & 0xff) as u8) as int
        + 65536 * (((x >> 16) & 0xff) as u8) as int + 16777216 * (((x >> 24) & 0xff) as u8) as int == x)
        by (bit_vector);
}

proof fn lemma_u64_le(x: u64)
    ensures
        le_u64(u64_le(x)) == x,
{
    let b = u64_le(x);
    assert(b.subrange(4, 8) =~= seq![b[4], b[5], b[6], b[7]]);
    assert(((x & 0xff) as u8) as int + 256 * (((x >> 8) & 0xff) as u8) as int
        + 65536 * (((x >> 16) & 0xff) as u8) as int + 16777216 * (((x >> 24) & 0xff) as u8) as int
        + 4294967296 * ((((x >> 32) & 0xff) as u8) as int + 256 * (((x >> 40) & 0xff) as u8) as int
        + 65536 * (((x >> 48) & 0xff) as u8) as int + 16777216 * (((x >> 56) & 0xff) as u8) as int) == x)
        by (bit_vector);
}

proof fn lemma_i64_le(x: i64)
    ensures
        le_i64(i64_le(x)) == x,
{
    lemma_u64_le(i64_bits(x));
}

fn encode_u16(x: u16) -> (r: Vec<u8>)
    ensures
        r@ == u16_le(x),
{
    let mut r: Vec<u8> = Vec::new();
    r.push((x & 0xff) as u8);
    r.push(((x >> 8) & 0xff) as u8);
    proof {
        assert(r@ =~= u16_le(x));
    }
    r
}

fn encode_u32(x: u32) -> (r: Vec<u8>)
    ensures
        r@ == u32_le(x),
{
    let mut r: Vec<u8> = Vec::new();
    r.push((x & 0xff) as u8);
    r.push(((x >> 8) & 0xff) as u8);
    r.push(((x >> 16) & 0xff) as u8);
    r.push(((x >> 24) & 0xff) as u8);
    proof {
        assert(r@ =~= u32_le(x));
    }
    r
}

fn encode_i64(x: i64) -> (r: Vec<u8>)
    ensures
        r@ == i64_le(x),
{
    let u: u64 = if x < 0 {
        ((x - i64::MIN) as u64) + 0x8000_0000_0000_0000u64
    } else {
        x as u64
    };
    assert(u == i64_bits(x));
    let mut r: Vec<u8> = Vec::new();
    r.push((u & 0xff) as u8);
    r.push(((u >> 8) & 0xff) as u8);
    r.push(((u >> 16) & 0xff) as u8);
    r.push(((u >> 24) & 0xff) as u8);
    r.push(((u >> 32) & 0xff) as u8);
    r.push(((u >> 40) & 0xff) as u8);
    r.push(((u >> 48) & 0xff) as u8);
    r.push(((u >> 56) & 0xff) as u8);
    proof {
        assert(r@ =~= u64_le(u));
    }
    r
}

fn decode_u16(b: &[u8], at: usize) -> (r: u16)
    requires
        at + 2 <= b@.len(),
    ensures
        r == le_u16(b@.subrange(at as int, at + 2)),
{
    (b[at] as u16) + (b[at + 1] as u16) * 256
}

fn decode_u32(b: &[u8], at: usize) -> (r: u32)
    requires
        at + 4 <= b@.len(),
    ensures
        r == le_u32(b@.subrange(at as int, at + 4)),
{
    (b[at] as u32) + (b[at + 1] as u32) * 256 + (b[at + 2] as u32) * 65536 + (b[at + 3] as u32) * 16777216
}

fn decode_i64(b: &[u8], at: usize) -> (r: i64)
    requires
        at + 8 <= b@.len(),
    ensures
        r == le_i64(b@.subrange(at as int, at + 8)),
{
    let _n = b.len();
    let lo: u64 = decode_u32(b, at) as u64;
    let hi: u64 = decode_u32(b, at + 4) as u64;
    proof {
        let s = b@.subrange(at as int, at + 8);
        assert(s.subrange(0, 4) =~= b@.subrange(at as int, at + 4));
        assert(s.subrange(4, 8) =~= b@.subrange(at + 4, at + 8));
    }
    let u: u64 = lo + hi * 4294967296;
    if u < 0x8000_0000_0000_0000u64 {
        u as i64
    } else {
        ((u - 0x8000_0000_0000_0000u64) as i64) + i64::MIN
    }
}

// ---------------------------------------------------------------------------
// The file frame
// ---------------------------------------------------------------------------

/// Header fields of an index file.
#[derive(Debug, Clone, Copy, PartialEq, Eq, Structural)]
pub struct IndexHeader {
    pub version: u8,
    pub flags: u8,
    pub node_count: u32,
}

/// Source metadata as stored in an index file: dataset checksum, release tag
/// bytes (empty when there is no tag) and build timestamp.
#[derive(Debug, Clone)]
pub struct MetadataSection {
    pub checksum: [u8; 32],
    pub tag: Vec<u8>,
    pub build_timestamp: i64,
}

impl View for MetadataSection {
    type V = (Seq<u8>, Seq<u8>, i64);

    open spec fn view(&self) -> (Seq<u8>, Seq<u8>, i64) {
        (self.checksum@, self.tag@, self.build_timestamp)
    }
}

/// The parts of an index file.
#[derive(Debug, Clone)]
pub struct IndexFrame {
    pub header: IndexHeader,
    pub metadata: Option<MetadataSection>,
    /// The compressed node payload.
    pub body: Vec<u8>,
}

/// Metadata seen as plain values.
pub open spec fn meta_view(m: Option<MetadataSection>) -> Option<(Seq<u8>, Seq<u8>, i64)> {
    match m {
        Some(x) => Some(x@),
        None => None,
    }
}

/// Bytes of the fixed header.
pub open spec fn header_bytes(h: IndexHeader) -> Seq<u8> {
    index_magic() + seq![h.version, h.flags] + u32_le(h.node_count) + seq![0u8, 0u8, 0u8, 0u8, 0u8, 0u8]
}

/// Bytes of the metadata section. The tag length is stored modulo 2^16.
pub open spec fn metadata_bytes(m: (Seq<u8>, Seq<u8>, i64)) -> Seq<u8> {
    m.0 + u16_le((m.1.len() % 65536) as u16) + m.1 + i64_le(m.2)
}

/// A metadata section follows the header: version 2 with the metadata flag.
pub open spec fn has_metadata_section(h: IndexHeader) -> bool {
    h.version == INDEX_VERSION_V2 && h.flags & FLAG_HAS_METADATA != 0
}

/// Bytes of a whole file with body `body` and trailing digest `digest`.
pub open spec fn frame_bytes(h: IndexHeader, m: Option<(Seq<u8>, Seq<u8>, i64)>, body: Seq<u8>, digest: Seq<u8>) -> Seq<u8> {
    header_bytes(h) + (match m {
        Some(x) => metadata_bytes(x),
        None => Seq::empty(),
    }) + body + digest
}

/// Reading the body and trailing checksum that start at `pos`.
pub open spec fn parse_body(
    b: Seq<u8>,
    h: IndexHeader,
    m: Option<(Seq<u8>, Seq<u8>, i64)>,
    pos: int,
) -> Result<(IndexHeader, Option<(Seq<u8>, Seq<u8>, i64)>, Seq<u8>), IndexFormatError> {
    if b.len() - pos < CHECKSUM_SIZE {
        Err(IndexFormatError::TruncatedChecksum)
    } else {
        let body = b.subrange(pos, b.len() - 32);
        if sha256_of(body) != b.subrange(b.len() - 32, b.len() as int) {
            Err(IndexFormatError::ChecksumMismatch)
        } else {
            Ok((h, m, body))
        }
    }
}

/// Reading an index file: header, optional metadata, body and checksum.
pub open spec fn parse_frame(b: Seq<u8>) -> Result<(IndexHeader, Option<(Seq<u8>, Seq<u8>, i64)>, Seq<u8>), IndexFormatError> {
    if b.len() < HEADER_SIZE {
        Err(IndexFormatError::TruncatedHeader)
    } else if b.subrange(0, 4) != index_magic() {
        Err(IndexFormatError::InvalidMagic)
    } else if b[4] != INDEX_VERSION && b[4] != INDEX_VERSION_V2 {
        Err(IndexFormatError::UnsupportedVersion { version: b[4] })
    } else {
        let h = IndexHeader { version: b[4], flags: b[5], node_count: le_u32(b.subrange(6, 10)) as u32 };
        if has_metadata_section(h) {
            if b.len() < 50 {
                Err(IndexFormatError::TruncatedMetadata)
            } else {
                let tl = le_u16(b.subrange(48, 50));
                if b.len() < 58 + tl {
                    Err(IndexFormatError::TruncatedMetadata)
                } else {
                    let m = (b.subrange(16, 48), b.subrange(50, 50 + tl), le_i64(b.subrange(50 + tl, 58 + tl)) as i64);
                    parse_body(b, h, Some(m), 58 + tl)
                }
            }
        } else {
            parse_body(b, h, None, 16)
        }
    }
}

/// Append the bytes of `s` to `v`.
fn extend(v: &mut Vec<u8>, s: &[u8])
    ensures
        final(v)@ == old(v)@ + s@,
{
    let mut k: usize = 0;
    while k < s.len()
        invariant
            k <= s@.len(),
            v@ == old(v)@ + s@.take(k as int),
        decreases s@.len() - k,
    {
        v.push(s[k]);
        k = k + 1;
        proof {
            assert(s@.take(k as int) =~= s@.take(k - 1).push(s@[k - 1]));
        }
    }
    proof {
        assert(s@.take(s@.len() as int) =~= s@);
    }
}

/// Copy of the bytes `b[from..to]`.
fn copy_range(b: &[u8], from: usize, to: usize) -> (r: Vec<u8>)
    requires
        from <= to <= b@.len(),
    ensures
        r@ == b@.subrange(from as int, to as int),
{
    let mut r: Vec<u8> = Vec::new();
    let mut k: usize = from;
    while k < to
        invariant
            from <= k <= to <= b@.len(),
            r@ == b@.subrange(from as int, k as int),
        decreases to - k,
    {
        r.push(b[k]);
        k = k + 1;
        proof {
            assert(b@.subrange(from as int, k as int) =~= b@.subrange(from as int, k - 1).push(b@[k - 1]));
        }
    }
    r
}

/// Whether `a` equals the bytes of `b` that start at `at` and run to its end.
fn bytes_match(a: &[u8], b: &[u8], at: usize) -> (r: bool)
    requires
        at + a@.len() == b@.len(),
    ensures
        r == (a@ == b@.subrange(at as int, b@.len() as int)),
{
    let n = a.len();
    let bl = b.len();
    let mut k: usize = 0;
    while k < n
        invariant
            k <= n,
            n == a@.len(),
            bl == b@.len(),
            at + a@.len() == b@.len(),
            forall|i: int| 0 <= i < k ==> #[trigger] a@[i] == b@[at + i],
        decreases n - k,
    {
        if a[k] != b[at + k] {
            proof {
                assert(b@.subrange(at as int, b@.len() as int)[k as int] == b@[at + k]);
            }
            return false;
        }
        k = k + 1;
    }
    proof {
        assert(a@ =~= b@.subrange(at as int, b@.len() as int));
    }
    true
}

/// Lay out an index file around the compressed body `body`.
pub fn encode_frame(header: IndexHeader, metadata: &Option<MetadataSection>, body: &[u8]) -> (r: Vec<u8>)
    ensures
        r@ == frame_bytes(header, meta_view(*metadata), body@, sha256_of(body@)),
        sha256_of(body@).len() == 32,
{
    let mut out: Vec<u8> = Vec::new();
    out.push(0x45);
    out.push(0x46);
    out.push(0x53);
    out.push(0x49);
    out.push(header.version);
    out.push(header.flags);
    let nc = encode_u32(header.node_count);
    extend(&mut out, nc.as_slice());
    let mut k: usize = 0;
    while k < 6
        invariant
            k <= 6,
            out@ == index_magic() + seq![header.version, header.flags] + u32_le(header.node_count)
                + Seq::new(k as nat, |i: int| 0u8),
        decreases 6 - k,
    {
        out.push(0);
        k = k + 1;
        proof {
            assert(Seq::new(k as nat, |i: int| 0u8) =~= Seq::new((k - 1) as nat, |i: int| 0u8).push(0u8));
        }
    }
    proof {
        assert(Seq::new(6nat, |i: int| 0u8) =~= seq![0u8, 0u8, 0u8, 0u8, 0u8, 0u8]);
        assert(out@ =~= header_bytes(header));
    }
    match metadata {
        Some(m) => {
            extend(&mut out, m.checksum.as_slice());
            let tl: u16 = (m.tag.len() % 65536) as u16;
            let tlb = encode_u16(tl);
            extend(&mut out, tlb.as_slice());
            extend(&mut out, m.tag.as_slice());
            let tsb = encode_i64(m.build_timestamp);
            extend(&mut out, tsb.as_slice());
            proof {
                assert(out@ =~= header_bytes(header) + metadata_bytes(m@));
            }
        },
        None => {
            proof {
                assert(out@ =~= header_bytes(header) + Seq::<u8>::empty());
            }
        },
    }
    extend(&mut out, body);
    let digest = sha256(body);
    extend(&mut out, digest.as_slice());
    out
}

/// Read the parts of an index file.
pub fn decode_frame(bytes: &[u8]) -> (r: Result<IndexFrame, IndexFormatError>)
    ensures
        match r {
            Ok(f) => parse_frame(bytes@) == Ok::<(IndexHeader, Option<(Seq<u8>, Seq<u8>, i64)>, Seq<u8>), IndexFormatError>(
                (f.header, meta_view(f.metadata), f.body@)),
            Err(e) => parse_frame(bytes@) == Err::<(IndexHeader, Option<(Seq<u8>, Seq<u8>, i64)>, Seq<u8>), IndexFormatError>(e),
        },
{
    let n = bytes.len();
    if n < HEADER_SIZE {
        return Err(IndexFormatError::TruncatedHeader);
    }
    if bytes[0] != 0x45 || bytes[1] != 0x46 || bytes[2] != 0x53 || bytes[3] != 0x49 {
        proof {
            if bytes@.subrange(0, 4) == index_magic() {
                assert(bytes@.subrange(0, 4)[0] == bytes@[0]);
                assert(bytes@.subrange(0, 4)[1] == bytes@[1]);
                assert(bytes@.subrange(0, 4)[2] == bytes@[2]);
                assert(bytes@.subrange(0, 4)[3] == bytes@[3]);
            }
        }
        return Err(IndexFormatError::InvalidMagic);
    }
    proof {
        assert(bytes@.subrange(0, 4) =~= index_magic());
    }
    let version = bytes[4];
    if version != INDEX_VERSION && version != INDEX_VERSION_V2 {
        return Err(IndexFormatError::UnsupportedVersion { version });
    }
    let flags = bytes[5];
    let node_count = decode_u32(bytes, 6);
    let header = IndexHeader { version, flags, node_count };
    let mut pos: usize = HEADER_SIZE;
    let mut metadata: Option<MetadataSection> = None;
    if version == INDEX_VERSION_V2 && flags & FLAG_HAS_METADATA != 0 {
        if n < 50 {
            return Err(IndexFormatError::TruncatedMetadata);
        }
        let mut checksum = [0u8; 32];
        let mut k: usize = 0;
        while k < 32
            invariant
                k <= 32,
                n == bytes@.len(),
                n >= 50,
                forall|i: int| 0 <= i < k ==> #[trigger] checksum@[i] == bytes@[16 + i],
            decreases 32 - k,
        {
            checksum[k] = bytes[16 + k];
            k = k + 1;
        }
        proof {
            assert(checksum@ =~= bytes@.subrange(16, 48));
        }
        let tl = decode_u16(bytes, 48) as usize;
        if n < 58 + tl {
            return Err(IndexFormatError::TruncatedMetadata);
        }
        let tag = copy_range(bytes, 50, 50 + tl);
        let ts = decode_i64(bytes, 50 + tl);
        metadata = Some(MetadataSection { checksum, tag, build_timestamp: ts });
        pos = 58 + tl;
    }
    if n - pos < CHECKSUM_SIZE {
        return Err(IndexFormatError::TruncatedChecksum);
    }
    let end = n - CHECKSUM_SIZE;
    let body = copy_range(bytes, pos, end);
    let digest = sha256(body.as_slice());
    if !bytes_match(digest.as_slice(), bytes, end) {
        return Err(IndexFormatError::ChecksumMismatch);
    }
    Ok(IndexFrame { header, metadata, body })
}

/// Reading back a laid-out index file gives its header, metadata and body.
///
/// Holds for a supported version whose metadata flag agrees with the
/// presence of metadata, a 32-byte dataset checksum and a tag shorter than
/// 2^16 bytes; `digest` is the (32-byte) SHA-256 digest of the body.
pub proof fn lemma_frame_roundtrip(h: IndexHeader, m: Option<(Seq<u8>, Seq<u8>, i64)>, body: Seq<u8>, digest: Seq<u8>)
    requires
        h.version == INDEX_VERSION || h.version == INDEX_VERSION_V2,
        (m is Some) == has_metadata_section(h),
        m matches Some(x) ==> x.0.len() == 32 && x.1.len() < 65536,
        digest == sha256_of(body),
        digest.len() == 32,
    ensures
        parse_frame(frame_bytes(h, m, body, digest)) == Ok::<(IndexHeader, Option<(Seq<u8>, Seq<u8>, i64)>, Seq<u8>), IndexFormatError>((h, m, body)),
{
    let b = frame_bytes(h, m, body, digest);
    let hb = header_bytes(h);
    assert(hb.len() == 16);
    assert(b.subrange(0, 4) =~= index_magic());
    assert(b[4] == h.version);
    assert(b[5] == h.flags);
    assert(b.subrange(6, 10) =~= u32_le(h.node_count));
    lemma_u32_le(h.node_count);
    let h2 = IndexHeader { version: b[4], flags: b[5], node_count: le_u32(b.subrange(6, 10)) as u32 };
    assert(h2 == h);
    match m {
        Some(x) => {
            let mb = metadata_bytes(x);
            let tl = x.1.len() as int;
            assert(b =~= hb + mb + body + digest);
            assert((tl % 65536) as u16 == tl);
            lemma_u16_le(tl as u16);
            assert(b.subrange(16, 48) =~= x.0);
            assert(b.subrange(48, 50) =~= u16_le(tl as u16));
            assert(b.subrange(50, 50 + tl) =~= x.1);
            assert(b.subrange(50 + tl, 58 + tl) =~= i64_le(x.2));
            lemma_i64_le(x.2);
            assert(b.subrange(58 + tl, b.len() - 32) =~= body);
            assert(b.subrange(b.len() - 32, b.len() as int) =~= digest);
        },
        None => {
            assert(b.subrange(16, b.len() - 32) =~= body);
            assert(b.subrange(b.len() - 32, b.len() as int) =~= digest);
        },
    }
}

// ---------------------------------------------------------------------------
// Compression and text
// ---------------------------------------------------------------------------

/// zstd frame that `zstd::encode_all` produces from `data` at the index's
/// compression level.
pub uninterp spec fn zstd_frame(data: Seq<u8>) -> Seq<u8>;

/// Bytes that `zstd::decode_all` reads out of `data`, or `None` on an error.
pub uninterp spec fn zstd_content(data: Seq<u8>) -> Option<Seq<u8>>;

/// Text that `String::from_utf8_lossy` makes of `bytes`.
pub uninterp spec fn lossy_text(bytes: Seq<u8>) -> Seq<char>;

/// Calls `zstd::encode_all` at `COMPRESSION_LEVEL`, mapping an I/O error to
/// `None`. Trusted: compressing an in-memory slice at this fixed, valid level
/// succeeds, and the frame is the crate's compression of `data`.
#[verifier::external_body]
fn zstd_compress(data: &[u8]) -> (r: Option<Vec<u8>>)
    ensures
        r is Some,
        r matches Some(v) ==> v@ == zstd_frame(data@),
{
    zstd::encode_all(data, COMPRESSION_LEVEL).ok()
}

/// Calls `zstd::decode_all`, mapping an I/O error to `None`. Trusted: the
/// result is the crate's decompression of `data`, and a frame the encoder
/// produced decompresses to the bytes it was made from.
#[verifier::external_body]
fn zstd_decompress(data: &[u8]) -> (r: Option<Vec<u8>>)
    ensures
        match r {
            Some(v) => zstd_content(data@) == Some(v@),
            None => zstd_content(data@) is None,
        },
        forall|x: Seq<u8>| data@ == #[trigger] zstd_frame(x) ==> r is Some && r->Some_0@ == x,
{
    zstd::decode_all(data).ok()
}

/// Calls `String::from_utf8_lossy(..).into_owned()`. Trusted: the text is
/// std's lossy decoding of `bytes`, which for valid UTF-8 is the decoded text
/// itself.
#[verifier::external_body]
fn text_from_utf8_lossy(bytes: &[u8]) -> (r: String)
    ensures
        r@ == lossy_text(bytes@),
        valid_utf8(bytes@) ==> r@ == decode_utf8(bytes@),
{
    String::from_utf8_lossy(bytes).into_owned()
}

// ---------------------------------------------------------------------------
// Source metadata and whole index files
// ---------------------------------------------------------------------------

/// Metadata about the source dataset used to build a spatial index.
#[derive(Debug, Clone)]
pub struct DatasetMetadata {
    /// SHA-256 checksum of the source dataset file.
    pub checksum: [u8; 32],
    /// Release tag from the dataset's release marker, if any.
    pub release_tag: Option<String>,
    /// Unix timestamp (seconds) when the index was built.
    pub build_timestamp: i64,
}

/// The tag bytes stored for a metadata record: its UTF-8 encoding, or
/// nothing without a tag.
pub open spec fn tag_bytes(m: &DatasetMetadata) -> Seq<u8> {
    match m.release_tag {
        Some(t) => encode_utf8(t@),
        None => Seq::empty(),
    }
}

/// The metadata section stored for `m`.
pub fn metadata_section(m: &DatasetMetadata) -> (r: MetadataSection)
    ensures
        r@ == (m.checksum@, tag_bytes(m), m.build_timestamp),
{
    let tag: Vec<u8> = match &m.release_tag {
        Some(t) => {
            let b = t.as_str().as_bytes();
            copy_range(b, 0, b.len())
        },
        None => Vec::new(),
    };
    proof {
        if let Some(t) = &m.release_tag {
            assert(tag@ =~= encode_utf8(t@));
        }
    }
    MetadataSection { checksum: m.checksum, tag, build_timestamp: m.build_timestamp }
}

/// Metadata read back from a section: an empty tag means no tag.
pub fn section_metadata(s: &MetadataSection) -> (r: DatasetMetadata)
    ensures
        r.checksum@ == s.checksum@,
        r.build_timestamp == s.build_timestamp,
        s.tag@.len() == 0 ==> r.release_tag is None,
        s.tag@.len() > 0 ==> (r.release_tag matches Some(t) && t@ == lossy_text(s.tag@)),
        s.tag@.len() > 0 && valid_utf8(s.tag@) ==> (r.release_tag matches Some(t) && t@ == decode_utf8(s.tag@)),
{
    let release_tag = if s.tag.len() > 0 {
        Some(text_from_utf8_lossy(s.tag.as_slice()))
    } else {
        None
    };
    DatasetMetadata { checksum: s.checksum, release_tag, build_timestamp: s.build_timestamp }
}

/// Header that a file with `node_count` nodes gets: version 2 with the
/// metadata flag when it carries metadata, version 1 otherwise; the
/// temperature flag when nodes carry temperatures. The count is stored
/// modulo 2^32.
pub open spec fn header_for(node_count: usize, has_temperature: bool, has_metadata: bool) -> IndexHeader {
    IndexHeader {
        version: if has_metadata { INDEX_VERSION_V2 } else { INDEX_VERSION },
        flags: ((if has_temperature { FLAG_HAS_TEMPERATURE } else { 0u8 }) | (if has_metadata { FLAG_HAS_METADATA } else { 0u8 })) as u8,
        node_count: (node_count as int % 0x1_0000_0000) as u32,
    }
}

/// Metadata as it is stored in a file.
pub open spec fn meta_record(meta: Option<DatasetMetadata>) -> Option<(Seq<u8>, Seq<u8>, i64)> {
    match meta {
        Some(m) => Some((m.checksum@, tag_bytes(&m), m.build_timestamp)),
        None => None,
    }
}

/// Bytes of an index file for node payload `p`.
pub open spec fn file_layout(p: Seq<u8>, node_count: usize, has_temperature: bool, meta: Option<DatasetMetadata>) -> Seq<u8> {
    frame_bytes(
        header_for(node_count, has_temperature, meta is Some),
        meta_record(meta),
        zstd_frame(p),
        sha256_of(zstd_frame(p)),
    )
}

/// Metadata read back from a file agrees with the metadata written: same
/// checksum and timestamp, and the same release tag, except that an empty
/// tag reads back as no tag.
pub open spec fn same_metadata(read: Option<DatasetMetadata>, written: Option<DatasetMetadata>) -> bool {
    match (read, written) {
        (None, None) => true,
        (Some(r), Some(w)) => {
            &&& r.checksum@ == w.checksum@
            &&& r.build_timestamp == w.build_timestamp
            &&& match w.release_tag {
                Some(t) => if t@.len() > 0 {
                    r.release_tag matches Some(rt) && rt@ == t@
                } else {
                    r.release_tag is None
                },
                None => r.release_tag is None,
            }
        },
        _ => false,
    }
}

/// A metadata record fits the file format: its tag is shorter than 2^16 bytes.
pub open spec fn meta_fits(meta: Option<DatasetMetadata>) -> bool {
    meta matches Some(m) ==> tag_bytes(&m).len() < 65536
}

/// Bytes of an index file for the serialized node payload `payload`.
///
/// The payload is compressed with zstd, which always succeeds here.
pub fn index_file_bytes(payload: &[u8], node_count: usize, has_temperature: bool, metadata: &Option<DatasetMetadata>) -> (r: Result<Vec<u8>, Error>)
    ensures
        r is Ok,
        match r {
            Ok(bytes) => bytes@ == file_layout(payload@, node_count, has_temperature, *metadata)
                && sha256_of(zstd_frame(payload@)).len() == 32,
            Err(e) => e matches Error::SpatialIndexSerialize { .. },
        },
{
    let compressed = match zstd_compress(payload) {
        Some(c) => c,
        None => {
            return Err(Error::SpatialIndexSerialize { message: "zstd compression failed".to_owned() });
        },
    };
    let has_metadata = metadata.is_some();
    let temp_flag: u8 = if has_temperature { FLAG_HAS_TEMPERATURE } else { 0 };
    let meta_flag: u8 = if has_metadata { FLAG_HAS_METADATA } else { 0 };
    let header = IndexHeader {
        version: if has_metadata { INDEX_VERSION_V2 } else { INDEX_VERSION },
        flags: temp_flag | meta_flag,
        node_count: ((node_count as u64) % 0x1_0000_0000u64) as u32,
    };
    let section: Option<MetadataSection> = match metadata {
        Some(m) => Some(metadata_section(m)),
        None => None,
    };
    let bytes = encode_frame(header, &section, compressed.as_slice());
    Ok(bytes)
}

/// An index file read back: its header, source metadata and the
/// decompressed node payload.
#[derive(Debug, Clone)]
pub struct IndexFile {
    pub header: IndexHeader,
    pub metadata: Option<DatasetMetadata>,
    pub payload: Vec<u8>,
}

/// A file laid out by `index_file_bytes` parses back into its parts.
proof fn lemma_file_layout(p: Seq<u8>, n: usize, temp: bool, meta: Option<DatasetMetadata>)
    requires
        meta_fits(meta),
        sha256_of(zstd_frame(p)).len() == 32,
    ensures
        parse_frame(file_layout(p, n, temp, meta)) == Ok::<(IndexHeader, Option<(Seq<u8>, Seq<u8>, i64)>, Seq<u8>), IndexFormatError>(
            (header_for(n, temp, meta is Some), meta_record(meta), zstd_frame(p))),
{
    let h = header_for(n, temp, meta is Some);
    let tf: u8 = if temp { FLAG_HAS_TEMPERATURE } else { 0u8 };
    if meta is Some {
        assert((tf | 2u8) & 2u8 != 0) by (bit_vector);
        assert(has_metadata_section(h));
    }
    lemma_frame_roundtrip(h, meta_record(meta), zstd_frame(p), sha256_of(zstd_frame(p)));
}

/// The tag read back from the bytes stored for a tag is that tag.
proof fn lemma_tag_roundtrip(m: DatasetMetadata)
    ensures
        valid_utf8(tag_bytes(&m)),
        m.release_tag matches Some(t) ==> decode_utf8(tag_bytes(&m)) == t@ && (tag_bytes(&m).len() == 0 <==> t@.len() == 0),
{
    match m.release_tag {
        Some(t) => {
            vstd::utf8::encode_utf8_valid_utf8(t@);
            vstd::utf8::encode_utf8_decode_utf8(t@);
            if t@.len() == 0 {
                assert(t@ =~= Seq::<char>::empty());
                assert(encode_utf8(t@) =~= Seq::<u8>::empty()) by {
                    reveal_with_fuel(encode_utf8, 1);
                }
            } else {
                if encode_utf8(t@).len() == 0 {
                    assert(decode_utf8(encode_utf8(t@)) =~= Seq::<char>::empty()) by {
                        reveal_with_fuel(decode_utf8, 1);
                    }
                }
            }
        },
        None => {
            assert(valid_utf8(Seq::<u8>::empty())) by {
                reveal_with_fuel(valid_utf8, 1);
            }
        },
    }
}

/// Read an index file: check its frame and checksum and decompress its
/// node payload.
///
/// Reading the bytes that `index_file_bytes` wrote gives back the header,
/// the node payload and the metadata (an empty tag reads back as no tag).
pub fn read_index_file(bytes: &[u8]) -> (r: Result<IndexFile, Error>)
    ensures
        match parse_frame(bytes@) {
            Err(reason) => r == Err::<IndexFile, Error>(Error::SpatialIndexDeserialize { reason }),
            Ok((h, m, body)) => match zstd_content(body) {
                None => r == Err::<IndexFile, Error>(Error::SpatialIndexDeserialize { reason: IndexFormatError::Decompression }),
                Some(p) => r matches Ok(f) && {
                    &&& f.header == h
                    &&& f.payload@ == p
                    &&& (f.metadata is Some) == (m is Some)
                    &&& (m matches Some(x) ==> f.metadata matches Some(fm) && {
                        &&& fm.checksum@ == x.0
                        &&& fm.build_timestamp == x.2
                        &&& x.1.len() == 0 ==> fm.release_tag is None
                        &&& x.1.len() > 0 ==> (fm.release_tag matches Some(t) && t@ == lossy_text(x.1))
                        &&& x.1.len() > 0 && valid_utf8(x.1) ==> (fm.release_tag matches Some(t) && t@ == decode_utf8(x.1))
                    })
                },
            },
        },
        forall|p: Seq<u8>, n: usize, temp: bool, meta: Option<DatasetMetadata>|
            meta_fits(meta) && sha256_of(zstd_frame(p)).len() == 32 && bytes@ == #[trigger] file_layout(p, n, temp, meta)
            ==> (r matches Ok(f) && f.header == header_for(n, temp, meta is Some) && f.payload@ == p
                && same_metadata(f.metadata, meta)),
{
    let frame = match decode_frame(bytes) {
        Ok(f) => f,
        Err(reason) => {
            proof {
                assert forall|p: Seq<u8>, n: usize, temp: bool, meta: Option<DatasetMetadata>|
                    meta_fits(meta) && sha256_of(zstd_frame(p)).len() == 32 && bytes@ == #[trigger] file_layout(p, n, temp, meta)
                    implies false by {
                    lemma_file_layout(p, n, temp, meta);
                }
            }
            return Err(Error::SpatialIndexDeserialize { reason });
        },
    };
    let payload = match zstd_decompress(frame.body.as_slice()) {
        Some(p) => p,
        None => {
            proof {
                assert forall|p: Seq<u8>, n: usize, temp: bool, meta: Option<DatasetMetadata>|
                    meta_fits(meta) && sha256_of(zstd_frame(p)).len() == 32 && bytes@ == #[trigger] file_layout(p, n, temp, meta)
                    implies false by {
                    lemma_file_layout(p, n, temp, meta);
                    assert(frame.body@ == zstd_frame(p));
                }
            }
            return Err(Error::SpatialIndexDeserialize { reason: IndexFormatError::Decompression });
        },
    };
    let metadata = match &frame.metadata {
        Some(s) => Some(section_metadata(s)),
        None => None,
    };
    let result = IndexFile { header: frame.header, metadata, payload };
    proof {
        assert forall|p: Seq<u8>, n: usize, temp: bool, meta: Option<DatasetMetadata>|
            meta_fits(meta) && sha256_of(zstd_frame(p)).len() == 32 && bytes@ == #[trigger] file_layout(p, n, temp, meta)
            implies result.header == header_for(n, temp, meta is Some) && result.payload@ == p
                && same_metadata(result.metadata, meta) by {
            lemma_file_layout(p, n, temp, meta);
            assert(frame.body@ == zstd_frame(p));
            if let Some(m) = meta {
                lemma_tag_roundtrip(m);
            }
        }
    }
    Ok(result)
}

// ---------------------------------------------------------------------------
// Freshness of an index against its dataset
// ---------------------------------------------------------------------------

/// Result of verifying spatial index freshness against the current dataset.
#[derive(Debug, Clone)]
pub enum FreshnessResult {
    /// The index's source checksum matches the dataset.
    Fresh {
        /// The matching checksum (hex-encoded, 64 characters).
        checksum: String,
        /// The dataset's release tag, if present.
        release_tag: Option<String>,
    },
    /// The index's source checksum differs from the dataset's.
    Stale {
        /// Checksum recorded in the index (hex-encoded).
        expected_checksum: String,
        /// Checksum of the current dataset (hex-encoded).
        actual_checksum: String,
        /// Release tag recorded in the index, if any.
        expected_tag: Option<String>,
        /// Release tag of the current dataset, if any.
        actual_tag: Option<String>,
    },
    /// The index is in the version 1 format, without source metadata.
    LegacyFormat {
        /// Index file path.
        index_path: String,
        /// Human-readable explanation.
        message: String,
    },
    /// The spatial index file is missing.
    Missing {
        /// Expected index file path.
        expected_path: String,
    },
    /// The dataset file is missing.
    DatasetMissing {
        /// Expected dataset file path.
        expected_path: String,
    },
    /// An error occurred during verification.
    Error {
        /// Error message.
        message: String,
    },
}

/// Structured output of an index verification.
#[derive(Debug, Clone)]
pub struct VerifyOutput {
    /// Verification result.
    pub result: FreshnessResult,
    /// Whether the index is considered fresh.
    pub is_fresh: bool,
    /// Recommended action, if any.
    pub recommended_action: Option<String>,
    /// Additional diagnostic information.
    pub diagnostics: Option<VerifyDiagnostics>,
}

/// Diagnostic information for troubleshooting freshness issues.
#[derive(Debug, Clone)]
pub struct VerifyDiagnostics {
    /// Path to the dataset file checked.
    pub dataset_path: String,
    /// Path to the spatial index file checked.
    pub index_path: String,
    /// Dataset file size in bytes.
    pub dataset_size: Option<u64>,
    /// Index file size in bytes.
    pub index_size: Option<u64>,
    /// Index format version.
    pub index_version: Option<u8>,
    /// Time taken for verification in milliseconds.
    pub verification_time_ms: u64,
}

/// What was found on disk when checking an index against its dataset.
#[derive(Debug)]
pub struct FreshnessProbe {
    /// The dataset file exists.
    pub dataset_exists: bool,
    /// The index file exists.
    pub index_exists: bool,
    /// Loading the index: its source metadata (`None` for the version 1
    /// format), or the text of the load error.
    pub index_metadata: Result<Option<DatasetMetadata>, String>,
    /// Checksum of the dataset file, or the text of the error.
    pub dataset_checksum: Result<[u8; 32], String>,
    /// Release tag of the dataset, from its release marker.
    pub dataset_tag: Option<String>,
}

/// Text of the result for an index in the version 1 format.
pub open spec fn legacy_message() -> Seq<char> {
    "Index is v1 format without embedded metadata. Rebuild with --metadata to enable freshness verification."@
}

fn same_checksum(a: &[u8; 32], b: &[u8; 32]) -> (r: bool)
    ensures
        r == (a@ == b@),
{
    let mut k: usize = 0;
    while k < 32
        invariant
            k <= 32,
            a@.len() == 32,
            b@.len() == 32,
            forall|i: int| 0 <= i < k ==> #[trigger] a@[i] == b@[i],
        decreases 32 - k,
    {
        if a[k] != b[k] {
            return false;
        }
        k = k + 1;
    }
    proof {
        assert(a@ =~= b@);
    }
    true
}

fn clone_tag(t: &Option<String>) -> (r: Option<String>)
    ensures
        opt_text(r) == opt_text(*t),
{
    match t {
        Some(s) => Some(s.clone()),
        None => None,
    }
}

/// What verifying the freshness of the index at `index_path` for the
/// dataset at `db_path` reports, given what was learned of both files.
pub open spec fn freshness_report(index_path: Seq<char>, db_path: Seq<char>, probe: FreshnessProbe, r: FreshnessResult) -> bool {
    &&& !probe.dataset_exists ==> (r matches FreshnessResult::DatasetMissing { expected_path } && expected_path@ == db_path)
    &&& probe.dataset_exists && !probe.index_exists ==> (r matches FreshnessResult::Missing { expected_path } && expected_path@ == index_path)
    &&& probe.dataset_exists && probe.index_exists ==> match probe.index_metadata {
        Err(e) => r matches FreshnessResult::Error { message } && message@ == "failed to load index: "@ + e@,
        Ok(None) => r matches FreshnessResult::LegacyFormat { index_path: p, message } && p@ == index_path && message@ == legacy_message(),
        Ok(Some(meta)) => match probe.dataset_checksum {
            Err(e) => r matches FreshnessResult::Error { message } && message@ == "failed to compute dataset checksum: "@ + e@,
            Ok(actual) => if meta.checksum@ == actual@ {
                r matches FreshnessResult::Fresh { checksum, release_tag } && checksum@ == hex_text(actual@)
                    && opt_text(release_tag) == opt_text(probe.dataset_tag)
            } else {
                r matches FreshnessResult::Stale { expected_checksum, actual_checksum, expected_tag, actual_tag }
                    && expected_checksum@ == hex_text(meta.checksum@) && actual_checksum@ == hex_text(actual@)
                    && opt_text(expected_tag) == opt_text(meta.release_tag) && opt_text(actual_tag) == opt_text(probe.dataset_tag)
            },
        },
    }
}

/// Verify that a spatial index matches its source dataset.
///
/// In order: a missing dataset, a missing index, an index that fails to
/// load, an index without source metadata and a dataset whose checksum
/// cannot be computed are reported as such; otherwise the index is fresh
/// when its recorded checksum equals the dataset's and stale when not.
pub fn verify_freshness(index_path: &str, db_path: &str, probe: &FreshnessProbe) -> (r: FreshnessResult)
    ensures
        freshness_report(index_path@, db_path@, *probe, r),
{
    if !probe.dataset_exists {
        return FreshnessResult::DatasetMissing { expected_path: db_path.to_owned() };
    }
    if !probe.index_exists {
        return FreshnessResult::Missing { expected_path: index_path.to_owned() };
    }
    let meta = match &probe.index_metadata {
        Err(e) => {
            return FreshnessResult::Error { message: crate::text::concat_str("failed to load index: ", e.as_str()) };
        },
        Ok(None) => {
            return FreshnessResult::LegacyFormat {
                index_path: index_path.to_owned(),
                message: "Index is v1 format without embedded metadata. Rebuild with --metadata to enable freshness verification.".to_owned(),
            };
        },
        Ok(Some(m)) => m,
    };
    let actual = match &probe.dataset_checksum {
        Err(e) => {
            return FreshnessResult::Error { message: crate::text::concat_str("failed to compute dataset checksum: ", e.as_str()) };
        },
        Ok(c) => c,
    };
    let actual_tag = clone_tag(&probe.dataset_tag);
    let actual_hex = hex_encode(actual.as_slice());
    if same_checksum(&meta.checksum, actual) {
        FreshnessResult::Fresh { checksum: actual_hex, release_tag: actual_tag }
    } else {
        FreshnessResult::Stale {
            expected_checksum: hex_encode(meta.checksum.as_slice()),
            actual_checksum: actual_hex,
            expected_tag: clone_tag(&meta.release_tag),
            actual_tag,
        }
    }
}

/// A fresh index reports the checksum of the dataset's own bytes: when the
/// metadata records the SHA-256 digest of `data` and the dataset is `data`,
/// verification reports it fresh, with the hex text of that digest.
pub proof fn lemma_fresh_checksum_is_dataset_digest(
    index_path: Seq<char>,
    db_path: Seq<char>,
    probe: FreshnessProbe,
    data: Seq<u8>,
    r: FreshnessResult,
)
    requires
        freshness_report(index_path, db_path, probe, r),
        probe.dataset_exists,
        probe.index_exists,
        probe.index_metadata matches Ok(Some(meta)) && meta.checksum@ == sha256_of(data),
        probe.dataset_checksum matches Ok(c) && c@ == sha256_of(data),
    ensures
        r matches FreshnessResult::Fresh { checksum, .. } && checksum@ == hex_text(sha256_of(data)),
{
}

/// Path of the spatial index stored alongside a database: the database path
/// followed by `.spatial.bin`.
pub fn spatial_index_path(db_path: &str) -> (r: String)
    ensures
        r@ == db_path@ + ".spatial.bin"@,
{
    crate::text::concat_str(db_path, ".spatial.bin")
}

/// The tag on the first `resolved=` line of a release marker that carries a
/// non-blank value (trimmed).
pub open spec fn first_resolved(lines: Seq<Seq<char>>) -> Option<Seq<char>>
    decreases lines.len(),
{
    if lines.len() == 0 {
        None
    } else if crate::text::has_prefix(lines[0], "resolved="@) && crate::text::trimmed(lines[0].skip(9)).len() > 0 {
        Some(crate::text::trimmed(lines[0].skip(9)))
    } else {
        first_resolved(lines.drop_first())
    }
}

/// Read the release tag from the text of a release marker: the value of the
/// first `resolved=` line with a non-blank value.
pub fn read_release_tag(marker: &str) -> (r: Option<String>)
    ensures
        opt_text(r) == first_resolved(crate::text::split_lines(marker@)),
{
    let all = crate::text::chars_of(marker);
    let lines = crate::text::lines_of(all.as_slice());
    let ghost views = lines@.map_values(|l: Vec<char>| l@);
    let prefix = crate::text::chars_of("resolved=");
    let mut k: usize = 0;
    proof {
        assert(views.skip(0) =~= views);
    }
    while k < lines.len()
        invariant
            k <= lines@.len(),
            views == lines@.map_values(|l: Vec<char>| l@),
            views == crate::text::split_lines(marker@),
            prefix@ == "resolved="@,
            first_resolved(views) == first_resolved(views.skip(k as int)),
        decreases lines@.len() - k,
    {
        let line = lines[k].as_slice();
        proof {
            reveal_strlit("resolved=");
            assert(views.skip(k as int)[0] == line@);
            assert(views.skip(k as int).drop_first() =~= views.skip(k + 1));
        }
        if crate::text::starts_with(line, prefix.as_slice()) {
            let rest = crate::text::skip_chars(line, 9);
            let t = crate::text::trim(rest.as_slice());
            if t.len() > 0 {
                return Some(crate::text::string_of(t.as_slice()));
            }
        }
        k = k + 1;
    }
    proof {
        assert(views.skip(lines@.len() as int) =~= Seq::<Seq<char>>::empty());
    }
    None
}

} // verus!
