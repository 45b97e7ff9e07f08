//! Bit-packed route tokens (`fmap` format).
//!
//! Layout of the raw token before compression and base64url encoding:
//! - byte 0: format version (1)
//! - byte 1: bit width `k` of the system-id offsets (1..=30)
//! - bytes 2-3: waypoint count, big-endian `u16`
//! - payload: for each waypoint, `k` bits of `system_id - BASE_SYSTEM_ID`
//!   followed by 3 bits of waypoint type, most significant bit first,
//!   zero-padded to a whole byte.

use vstd::prelude::*;
use vstd::arithmetic::power2::{pow2, lemma_pow2_unfold, lemma_pow2_strictly_increases};
use vstd::arithmetic::div_mod::lemma_div_denominator;
use vstd::bits::{lemma_u32_shr_is_div, lemma_u8_shr_is_div};

use crate::bits::{
    bits_msb, bytes_to_bits, from_bits, zero_bits, pad_len, bit_len, lemma_bits_msb_len,
    lemma_bits_msb_shift_in, lemma_from_bits_msb, lemma_from_bits_bound, lemma_from_bits_push,
    lemma_bits_msb_index, lemma_bytes_to_bits_len, lemma_bytes_to_bits_push,
    lemma_bytes_to_bits_index, lemma_bytes_to_bits_injective, lemma_bit_len_bound,
    lemma_bit_len_lower, lemma_bits_msb_shift_zero,
};
use crate::error::Error;
use base64::Engine;
use std::io::{Read, Write};

verus! {

/// Base ID for EVE Frontier solar systems.
/// All system IDs are encoded as offsets from this value.
pub const BASE_SYSTEM_ID: u32 = 30_000_000;

/// Current fmap format version.
pub const FMAP_VERSION: u8 = 1;

/// Header size in bytes (version + k + count).
pub const FMAP_HEADER_SIZE: usize = 4;

/// Maximum bit width for system ID offsets.
pub const MAX_BIT_WIDTH: u8 = 30;

/// Bits used to encode waypoint type (5 types: 0-4 requires 3 bits).
pub const WAYPOINT_TYPE_BITS: u8 = 3;

/// Waypoint type for fmap route encoding.
#[derive(Debug, Clone, Copy, PartialEq, Eq, Hash, Structural)]
pub enum WaypointType {
    /// Route starting point (type code 0)
    Start,
    /// Spatial jump without gate (type code 1)
    Jump,
    /// Jump via NPC-controlled gate (type code 2)
    NpcGate,
    /// Jump via player-deployed smart gate (type code 3)
    SmartGate,
    /// Final destination marker (type code 4)
    SetDestination,
}

impl WaypointType {
    /// Numeric code of the waypoint type in the token format.
    pub open spec fn code(self) -> nat {
        match self {
            WaypointType::Start => 0,
            WaypointType::Jump => 1,
            WaypointType::NpcGate => 2,
            WaypointType::SmartGate => 3,
            WaypointType::SetDestination => 4,
        }
    }

    /// The waypoint type with numeric code `value`, if any.
    pub open spec fn spec_from_code(value: nat) -> Option<WaypointType> {
        if value == 0 {
            Some(WaypointType::Start)
        } else if value == 1 {
            Some(WaypointType::Jump)
        } else if value == 2 {
            Some(WaypointType::NpcGate)
        } else if value == 3 {
            Some(WaypointType::SmartGate)
        } else if value == 4 {
            Some(WaypointType::SetDestination)
        } else {
            None
        }
    }

    /// Create from numeric value.
    pub fn from_u8(value: u8) -> (r: Option<Self>)
        ensures
            r == Self::spec_from_code(value as nat),
    {
        match value {
            0 => Some(WaypointType::Start),
            1 => Some(WaypointType::Jump),
            2 => Some(WaypointType::NpcGate),
            3 => Some(WaypointType::SmartGate),
            4 => Some(WaypointType::SetDestination),
            _ => None,
        }
    }

    /// Numeric code of this waypoint type.
    pub fn to_u8(self) -> (r: u8)
        ensures
            r as nat == self.code(),
    {
        match self {
            WaypointType::Start => 0,
            WaypointType::Jump => 1,
            WaypointType::NpcGate => 2,
            WaypointType::SmartGate => 3,
            WaypointType::SetDestination => 4,
        }
    }
}

/// A waypoint in an fmap-encoded route.
#[derive(Debug, Clone, Copy, PartialEq, Eq, Structural)]
pub struct Waypoint {
    /// EVE Frontier solar system ID (e.g., 30000142).
    pub system_id: u32,
    /// Type of waypoint (Start, Jump, NpcGate, etc.).
    pub waypoint_type: WaypointType,
}

/// An encoded fmap route token with metadata.
#[derive(Debug, Clone)]
pub struct FmapToken {
    /// The base64url-encoded, gzipped token string.
    pub token: String,
    /// Number of waypoints encoded.
    pub waypoint_count: usize,
    /// Bit width used for system ID offsets.
    pub bit_width: u8,
    /// Format version (currently always 1).
    pub version: u8,
}

/// Decoded fmap token with extracted waypoints.
#[derive(Debug, Clone)]
pub struct DecodedFmapToken {
    pub version: u8,
    pub bit_width: u8,
    pub waypoint_count: usize,
    pub waypoints: Vec<Waypoint>,
}

// ---------------------------------------------------------------------------
// Specification of the raw format
// ---------------------------------------------------------------------------

/// Offset of a waypoint's system id from the base id.
pub open spec fn offset_of(w: Waypoint) -> nat {
    (w.system_id - BASE_SYSTEM_ID) as nat
}

/// Bits of one waypoint: `k` bits of offset, then 3 bits of type code.
pub open spec fn waypoint_bits(w: Waypoint, k: nat) -> Seq<bool> {
    bits_msb(offset_of(w), k) + bits_msb(w.waypoint_type.code(), 3)
}

/// Bits of a whole route, waypoint after waypoint.
pub open spec fn route_bits(ws: Seq<Waypoint>, k: nat) -> Seq<bool>
    decreases ws.len(),
{
    if ws.len() == 0 {
        Seq::empty()
    } else {
        waypoint_bits(ws[0], k) + route_bits(ws.drop_first(), k)
    }
}

/// Checks the waypoints in order: the first system id below the base id, or
/// else the largest offset.
pub open spec fn scan_offsets(ws: Seq<Waypoint>) -> Result<nat, u32>
    decreases ws.len(),
{
    if ws.len() == 0 {
        Ok(0)
    } else {
        match scan_offsets(ws.drop_last()) {
            Err(id) => Err(id),
            Ok(m) => {
                if ws.last().system_id < BASE_SYSTEM_ID {
                    Err(ws.last().system_id)
                } else if offset_of(ws.last()) > m {
                    Ok(offset_of(ws.last()))
                } else {
                    Ok(m)
                }
            },
        }
    }
}

/// Bit width used for a largest offset `m`: its number of binary digits, at least one.
pub open spec fn width_for(m: nat) -> nat {
    if m == 0 {
        1
    } else {
        bit_len(m)
    }
}

/// Groups a bit sequence, zero-padded to whole bytes, into bytes.
pub open spec fn pack_bits(s: Seq<bool>) -> Seq<u8> {
    let p = s + zero_bits(pad_len(s.len()));
    Seq::new(p.len() / 8, |i: int| from_bits(p.subrange(8 * i, 8 * i + 8)) as u8)
}

/// The four header bytes for bit width `k` and `n` waypoints (count kept modulo 2^16).
pub open spec fn fmap_header(k: nat, n: nat) -> Seq<u8> {
    let count = n % 65536;
    seq![FMAP_VERSION, k as u8, (count / 256) as u8, (count % 256) as u8]
}

/// The raw (uncompressed) token for a route with bit width `k`.
pub open spec fn fmap_raw(ws: Seq<Waypoint>, k: nat) -> Seq<u8> {
    fmap_header(k, ws.len()) + pack_bits(route_bits(ws, k))
}

/// What `encode_raw_bitpacked` computes.
pub open spec fn encode_raw_spec(ws: Seq<Waypoint>) -> Result<Seq<u8>, Error> {
    match scan_offsets(ws) {
        Err(id) => Err(Error::FmapInvalidSystemId { system_id: id, base_id: BASE_SYSTEM_ID }),
        Ok(m) => {
            if width_for(m) > MAX_BIT_WIDTH {
                Err(Error::FmapInvalidBitWidth { k: width_for(m) as u8 })
            } else {
                Ok(fmap_raw(ws, width_for(m)))
            }
        },
    }
}

/// The error reported when a payload of `plen` bytes runs out.
pub open spec fn truncated_payload(plen: nat) -> Error {
    Error::FmapTruncatedData {
        expected: (if plen == 0 { 2 } else { plen + 1 }) as usize,
        actual: plen as usize,
    }
}

/// The `n`-bit field of `bits` starting at `pos`.
pub open spec fn field(bits: Seq<bool>, pos: int, n: nat) -> nat {
    from_bits(bits.subrange(pos, pos + n))
}

/// Decodes `remaining` waypoints of width `k` from `bits` starting at bit `pos`.
pub open spec fn decode_from(bits: Seq<bool>, pos: nat, k: nat, remaining: nat, plen: nat) -> Result<Seq<Waypoint>, Error>
    decreases remaining,
{
    if remaining == 0 {
        Ok(Seq::empty())
    } else if pos + k + 3 > bits.len() {
        Err(truncated_payload(plen))
    } else {
        let off = field(bits, pos as int, k);
        let code = field(bits, (pos + k) as int, 3);
        match WaypointType::spec_from_code(code) {
            None => Err(Error::FmapInvalidBitWidth { k: code as u8 }),
            Some(t) => {
                let w = Waypoint { system_id: (off + BASE_SYSTEM_ID) as u32, waypoint_type: t };
                match decode_from(bits, pos + k + 3, k, (remaining - 1) as nat, plen) {
                    Ok(rest) => Ok(seq![w] + rest),
                    Err(e) => Err(e),
                }
            },
        }
    }
}

/// What `decode_raw` computes from a raw token: version, bit width, count and waypoints.
pub open spec fn decode_raw_spec(raw: Seq<u8>) -> Result<(u8, u8, nat, Seq<Waypoint>), Error> {
    if raw.len() < 4 {
        Err(Error::FmapTruncatedData { expected: 4, actual: raw.len() as usize })
    } else if raw[0] != FMAP_VERSION {
        Err(Error::FmapUnsupportedVersion { version: raw[0], expected: FMAP_VERSION })
    } else if raw[1] == 0 || raw[1] > MAX_BIT_WIDTH {
        Err(Error::FmapInvalidBitWidth { k: raw[1] })
    } else {
        let count = raw[2] as nat * 256 + raw[3] as nat;
        let payload = raw.skip(4);
        match decode_from(bytes_to_bits(payload), 0, raw[1] as nat, count, payload.len()) {
            Ok(ws) => Ok((raw[0], raw[1], count, ws)),
            Err(e) => Err(e),
        }
    }
}

// ---------------------------------------------------------------------------
// Lemmas
// ---------------------------------------------------------------------------

proof fn lemma_waypoint_bits_len(w: Waypoint, k: nat)
    ensures
        waypoint_bits(w, k).len() == k + 3,
{
    lemma_bits_msb_len(offset_of(w), k);
    lemma_bits_msb_len(w.waypoint_type.code(), 3);
}

proof fn lemma_route_bits_len(ws: Seq<Waypoint>, k: nat)
    ensures
        route_bits(ws, k).len() == ws.len() * (k + 3),
    decreases ws.len(),
{
    if ws.len() > 0 {
        lemma_waypoint_bits_len(ws[0], k);
        lemma_route_bits_len(ws.drop_first(), k);
        assert(ws.len() * (k + 3) == (k + 3) + (ws.len() - 1) * (k + 3)) by (nonlinear_arith);
    }
}

/// Route bits of a prefix extended by one waypoint.
proof fn lemma_route_bits_snoc(ws: Seq<Waypoint>, i: int, k: nat)
    requires
        0 <= i < ws.len(),
    ensures
        route_bits(ws.take(i + 1), k) == route_bits(ws.take(i), k) + waypoint_bits(ws[i], k),
    decreases i,
{
    if i == 0 {
        let t1 = ws.take(1);
        assert(t1[0] == ws[0]);
        assert(t1.drop_first() =~= Seq::<Waypoint>::empty());
        assert(ws.take(0) =~= Seq::<Waypoint>::empty());
        assert(route_bits(Seq::<Waypoint>::empty(), k) =~= Seq::<bool>::empty());
        assert(route_bits(ws.take(1), k) =~= waypoint_bits(ws[0], k));
    } else {
        let t = ws.drop_first();
        lemma_route_bits_snoc(t, i - 1, k);
        assert(ws.take(i + 1).drop_first() =~= t.take(i));
        assert(ws.take(i).drop_first() =~= t.take(i - 1));
        assert(route_bits(ws.take(i + 1), k) =~= waypoint_bits(ws[0], k) + route_bits(t.take(i), k));
        assert(route_bits(ws.take(i), k) =~= waypoint_bits(ws[0], k) + route_bits(t.take(i - 1), k));
    }
}

/// Reading bits back from a chunk gives the chunk.
proof fn lemma_bits_of_from_bits(c: Seq<bool>)
    ensures
        bits_msb(from_bits(c), c.len()) == c,
    decreases c.len(),
{
    if c.len() > 0 {
        let d = c.drop_last();
        lemma_bits_of_from_bits(d);
        lemma_bits_msb_shift_in(from_bits(d), d.len(), if c.last() { 1nat } else { 0nat });
        assert(d.push(c.last()) =~= c);
    }
}

/// The bits of `pack_bits(s)` are `s` followed by padding zeros.
proof fn lemma_pack_bits(s: Seq<bool>)
    ensures
        bytes_to_bits(pack_bits(s)) == s + zero_bits(pad_len(s.len())),
        pack_bits(s).len() * 8 == s.len() + pad_len(s.len()),
{
    let p = s + zero_bits(pad_len(s.len()));
    let bs = pack_bits(s);
    assert(p.len() % 8 == 0);
    lemma_bytes_to_bits_len(bs);
    assert(pow2(8) == 256) by { vstd::arithmetic::power2::lemma2_to64(); }
    assert forall|j: int| 0 <= j < p.len() implies bytes_to_bits(bs)[j] == p[j] by {
        let i = j / 8;
        let t = j % 8;
        assert(j == 8 * i + t);
        let chunk = p.subrange(8 * i, 8 * i + 8);
        lemma_from_bits_bound(chunk);
        lemma_bits_of_from_bits(chunk);
        lemma_bytes_to_bits_index(bs, i, t);
        assert(bs[i] as nat == from_bits(chunk));
    }
    assert(bytes_to_bits(bs) =~= p);
}

/// Decoding is unaffected by bits placed in front of the read position.
proof fn lemma_decode_shift(a: Seq<bool>, r: Seq<bool>, pos: nat, k: nat, remaining: nat, plen: nat)
    ensures
        decode_from(a + r, a.len() + pos, k, remaining, plen) == decode_from(r, pos, k, remaining, plen),
    decreases remaining,
{
    if remaining > 0 && pos + k + 3 <= r.len() {
        let ar = a + r;
        let p2 = a.len() + pos;
        assert(ar.subrange(p2 as int, (p2 + k) as int) =~= r.subrange(pos as int, (pos + k) as int));
        assert(ar.subrange((p2 + k) as int, (p2 + k + 3) as int) =~= r.subrange((pos + k) as int, (pos + k + 3) as int));
        lemma_decode_shift(a, r, pos + k + 3, k, (remaining - 1) as nat, plen);
    }
}

/// Well-formed waypoints for width `k` can be encoded.
pub open spec fn encodable(ws: Seq<Waypoint>, k: nat) -> bool {
    forall|i: int| 0 <= i < ws.len() ==> #[trigger] ws[i].system_id >= BASE_SYSTEM_ID
        && offset_of(ws[i]) < pow2(k)
}

/// Decoding the bits of a route (followed by anything) gives back the route.
proof fn lemma_decode_route(ws: Seq<Waypoint>, k: nat, tail: Seq<bool>, plen: nat)
    requires
        encodable(ws, k),
        k <= 30,
    ensures
        decode_from(route_bits(ws, k) + tail, 0, k, ws.len(), plen) == Ok::<Seq<Waypoint>, Error>(ws),
    decreases ws.len(),
{
    if ws.len() > 0 {
        let w = ws[0];
        let rest = ws.drop_first();
        assert(encodable(rest, k)) by {
            assert forall|i: int| 0 <= i < rest.len() implies #[trigger] rest[i].system_id
                >= BASE_SYSTEM_ID && offset_of(rest[i]) < pow2(k) by {
                assert(rest[i] == ws[i + 1]);
            }
        }
        lemma_decode_route(rest, k, tail, plen);
        let wb = waypoint_bits(w, k);
        let all = route_bits(ws, k) + tail;
        lemma_waypoint_bits_len(w, k);
        lemma_route_bits_len(rest, k);
        assert(all =~= wb + (route_bits(rest, k) + tail));
        lemma_decode_shift(wb, route_bits(rest, k) + tail, 0, k, (ws.len() - 1) as nat, plen);
        lemma_bits_msb_len(offset_of(w), k);
        lemma_bits_msb_len(w.waypoint_type.code(), 3);
        assert(all.subrange(0, k as int) =~= bits_msb(offset_of(w), k));
        assert(all.subrange(k as int, (k + 3) as int) =~= bits_msb(w.waypoint_type.code(), 3));
        lemma_from_bits_msb(offset_of(w), k);
        assert(pow2(3) == 8) by { vstd::arithmetic::power2::lemma2_to64(); }
        lemma_from_bits_msb(w.waypoint_type.code(), 3);
        assert(WaypointType::spec_from_code(w.waypoint_type.code()) == Some(w.waypoint_type));
        assert(seq![w] + rest =~= ws);
    } else {
        assert(ws =~= Seq::<Waypoint>::empty());
    }
}

/// Law: a route encoded in the raw format decodes to the same waypoints, with
/// the same bit width and count.
pub proof fn lemma_raw_roundtrip(ws: Seq<Waypoint>)
    requires
        ws.len() < 65536,
        encode_raw_spec(ws) is Ok,
    ensures
        decode_raw_spec(encode_raw_spec(ws)->Ok_0) == Ok::<(u8, u8, nat, Seq<Waypoint>), Error>(
            (FMAP_VERSION, width_for(scan_offsets(ws)->Ok_0) as u8, ws.len(), ws),
        ),
{
    let m = scan_offsets(ws)->Ok_0;
    let k = width_for(m);
    lemma_scan_offsets_bound(ws);
    lemma_width_fits(m);
    assert(encodable(ws, k)) by {
        assert forall|i: int| 0 <= i < ws.len() implies #[trigger] ws[i].system_id
            >= BASE_SYSTEM_ID && offset_of(ws[i]) < pow2(k) by {
            if offset_of(ws[i]) < m {
                lemma_pow2_strictly_increases(0, k);
            }
        }
    }
    let raw = fmap_raw(ws, k);
    let rb = route_bits(ws, k);
    lemma_pack_bits(rb);
    assert(raw.skip(4) =~= pack_bits(rb));
    lemma_decode_route(ws, k, zero_bits(pad_len(rb.len())), pack_bits(rb).len());
}

/// Every waypoint of a route that scans successfully is at or above the base
/// and its offset is at most the reported maximum.
proof fn lemma_scan_offsets_bound(ws: Seq<Waypoint>)
    requires
        scan_offsets(ws) is Ok,
    ensures
        forall|i: int| 0 <= i < ws.len() ==> #[trigger] ws[i].system_id >= BASE_SYSTEM_ID
            && offset_of(ws[i]) <= scan_offsets(ws)->Ok_0,
    decreases ws.len(),
{
    if ws.len() > 0 {
        lemma_scan_offsets_bound(ws.drop_last());
        assert forall|i: int| 0 <= i < ws.len() implies #[trigger] ws[i].system_id
            >= BASE_SYSTEM_ID && offset_of(ws[i]) <= scan_offsets(ws)->Ok_0 by {
            if i < ws.len() - 1 {
                assert(ws[i] == ws.drop_last()[i]);
            }
        }
    }
}

/// A value at most `m` fits in `width_for(m)` bits.
proof fn lemma_width_fits(m: nat)
    ensures
        m < pow2(width_for(m)),
{
    if m == 0 {
        lemma_pow2_unfold(1);
        assert(pow2(0) == 1) by { vstd::arithmetic::power2::lemma2_to64(); }
    } else {
        lemma_bit_len_bound(m);
    }
}

// ---------------------------------------------------------------------------
// Bit writer and reader
// ---------------------------------------------------------------------------

/// Helper for writing bits at a time to a byte buffer.
struct BitWriter {
    bytes: Vec<u8>,
    cur: u8,
    bits: usize,
}

impl BitWriter {
    /// The bits written so far.
    closed spec fn written(&self) -> Seq<bool> {
        bytes_to_bits(self.bytes@) + bits_msb(self.cur as nat, self.bits as nat)
    }

    closed spec fn wf(&self) -> bool {
        &&& self.bits < 8
        &&& (self.cur as nat) < pow2(self.bits as nat)
    }

    fn new() -> (w: Self)
        ensures
            w.wf(),
            w.written() == Seq::<bool>::empty(),
    {
        assert(pow2(0) == 1) by { vstd::arithmetic::power2::lemma2_to64(); }
        let w = BitWriter { bytes: Vec::new(), cur: 0, bits: 0 };
        assert(w.written() =~= Seq::<bool>::empty());
        w
    }

    fn write_bit(&mut self, bit: u8)
        requires
            old(self).wf(),
            bit < 2,
        ensures
            final(self).wf(),
            final(self).written() == old(self).written().push(bit == 1),
    {
        let ghost before = self.written();
        proof {
            lemma_pow2_unfold((self.bits + 1) as nat);
            assert(pow2(8) == 256) by { vstd::arithmetic::power2::lemma2_to64(); }
            assert(pow2((self.bits + 1) as nat) <= 256) by {
                if self.bits + 1 < 8 {
                    lemma_pow2_strictly_increases((self.bits + 1) as nat, 8);
                }
            }
            lemma_bits_msb_shift_in(self.cur as nat, self.bits as nat, bit as nat);
        }
        self.cur = self.cur * 2 + bit;
        self.bits = self.bits + 1;
        if self.bits == 8 {
            let ghost old_bytes = self.bytes@;
            proof {
                lemma_bytes_to_bits_push(old_bytes, self.cur);
            }
            self.bytes.push(self.cur);
            self.cur = 0;
            self.bits = 0;
            assert(bits_msb(0, 0) =~= Seq::<bool>::empty());
            assert(pow2(0) == 1) by { vstd::arithmetic::power2::lemma2_to64(); }
            assert(self.written() =~= before.push(bit == 1));
        } else {
            assert(self.written() =~= before.push(bit == 1));
        }
    }

    /// Write the `bit_count` low bits of `value`, most significant first.
    fn write_bits(&mut self, value: u32, bit_count: u8)
        requires
            old(self).wf(),
            bit_count <= 32,
            (value as nat) < pow2(bit_count as nat),
        ensures
            final(self).wf(),
            final(self).written() == old(self).written() + bits_msb(value as nat, bit_count as nat),
    {
        let ghost start = self.written();
        let mut i: u8 = bit_count;
        proof {
            vstd::arithmetic::div_mod::lemma_basic_div(value as int, pow2(bit_count as nat) as int);
            assert(bits_msb(0, 0) =~= Seq::<bool>::empty());
            assert(self.written() =~= start + bits_msb(value as nat / pow2(i as nat), 0));
        }
        while i > 0
            invariant
                self.wf(),
                i <= bit_count <= 32,
                self.written() == start + bits_msb(value as nat / pow2(i as nat), (bit_count - i) as nat),
            decreases i,
        {
            i = i - 1;
            proof {
                lemma_u32_shr_is_div(value, i as u32);
            }
            let bit = ((value >> (i as u32)) % 2) as u8;
            let ghost q = value as nat / pow2(i as nat);
            proof {
                lemma_pow2_unfold((i + 1) as nat);
                vstd::arithmetic::power2::lemma_pow2_pos(i as nat);
                lemma_div_denominator(value as int, pow2(i as nat) as int, 2);
                assert(q / 2 == value as nat / pow2((i + 1) as nat));
                assert(bits_msb(q, (bit_count - i) as nat) == bits_msb(q / 2, (bit_count - i - 1) as nat).push(q % 2 == 1));
            }
            self.write_bit(bit);
        }
        proof {
            assert(pow2(0) == 1) by { vstd::arithmetic::power2::lemma2_to64(); }
            assert(value as nat / 1 == value as nat);
        }
    }

    /// Flush the partial byte (zero-padded) and return all bytes.
    fn finish(self) -> (bytes: Vec<u8>)
        requires
            self.wf(),
        ensures
            bytes_to_bits(bytes@) == self.written() + zero_bits(pad_len(self.written().len())),
    {
        let ghost w = self.written();
        let mut bytes = self.bytes;
        let mut cur = self.cur;
        let mut bits = self.bits;
        proof {
            lemma_bytes_to_bits_len(bytes@);
            lemma_bits_msb_len(cur as nat, bits as nat);
            assert((8 * bytes@.len() + bits) % 8 == bits) by (nonlinear_arith)
                requires bits < 8;
        }
        if bits > 0 {
            let ghost pad = (8 - bits) as nat;
            while bits < 8
                invariant
                    0 < bits <= 8,
                    (cur as nat) < pow2(bits as nat),
                    bytes_to_bits(bytes@) + bits_msb(cur as nat, bits as nat) == w + zero_bits((bits - self.bits) as nat),
                    self.bits > 0,
                    self.bits <= bits,
                decreases 8 - bits,
            {
                let ghost prev = bytes_to_bits(bytes@) + bits_msb(cur as nat, bits as nat);
                proof {
                    lemma_pow2_unfold((bits + 1) as nat);
                    assert(pow2(8) == 256) by { vstd::arithmetic::power2::lemma2_to64(); }
                    assert(pow2((bits + 1) as nat) <= 256) by {
                        if bits + 1 < 8 {
                            lemma_pow2_strictly_increases((bits + 1) as nat, 8);
                        }
                    }
                    lemma_bits_msb_shift_zero(cur as nat, bits as nat);
                }
                cur = cur * 2;
                bits = bits + 1;
                assert(bytes_to_bits(bytes@) + bits_msb(cur as nat, bits as nat) =~= prev.push(false));
                assert(w + zero_bits((bits - self.bits) as nat) =~= (w + zero_bits((bits - 1 - self.bits) as nat)).push(false));
            }
            proof {
                lemma_bytes_to_bits_push(bytes@, cur);
            }
            bytes.push(cur);
            assert(pad_len(w.len()) == 8 - self.bits);
        } else {
            assert(bits_msb(cur as nat, 0) =~= Seq::<bool>::empty());
            assert(w + zero_bits(0) =~= bytes_to_bits(bytes@));
        }
        bytes
    }
}

/// Helper for reading bits at a time from a byte buffer.
struct BitReader<'a> {
    buf: &'a [u8],
    idx: usize,
    cur: u8,
    bits_left: usize,
}

impl<'a> BitReader<'a> {
    /// Bit position of the next bit to read.
    closed spec fn pos(&self) -> nat {
        if self.buf@.len() == 0 {
            0
        } else {
            ((self.idx + 1) * 8 - self.bits_left) as nat
        }
    }

    closed spec fn wf(&self) -> bool {
        &&& self.buf@.len() + 2 < usize::MAX
        &&& self.buf@.len() == 0 ==> self.idx == 0 && self.bits_left == 0
        &&& self.buf@.len() > 0 ==> {
            &&& self.idx < self.buf@.len()
            &&& self.bits_left <= 8
            &&& self.cur == self.buf@[self.idx as int]
        }
    }

    fn new(buf: &'a [u8]) -> (r: Self)
        requires
            buf@.len() + 2 < usize::MAX,
        ensures
            r.wf(),
            r.pos() == 0,
            r.buf@ == buf@,
    {
        BitReader {
            buf,
            idx: 0,
            cur: if buf.len() > 0 { buf[0] } else { 0 },
            bits_left: if buf.len() > 0 { 8 } else { 0 },
        }
    }

    /// Read `bit_count` bits as an unsigned number, most significant bit first.
    fn read_bits(&mut self, bit_count: u8) -> (r: Result<u32, Error>)
        requires
            old(self).wf(),
            bit_count <= 32,
        ensures
            final(self).buf@ == old(self).buf@,
            match r {
                Ok(v) => {
                    &&& old(self).pos() + bit_count <= 8 * old(self).buf@.len()
                    &&& v as nat == field(bytes_to_bits(old(self).buf@), old(self).pos() as int, bit_count as nat)
                    &&& final(self).wf()
                    &&& final(self).pos() == old(self).pos() + bit_count
                },
                Err(e) => {
                    &&& old(self).pos() + bit_count > 8 * old(self).buf@.len()
                    &&& e == truncated_payload(old(self).buf@.len())
                },
            },
    {
        let ghost bits = bytes_to_bits(self.buf@);
        let ghost p0 = self.pos();
        proof {
            lemma_bytes_to_bits_len(self.buf@);
        }
        let mut v: u32 = 0;
        let mut j: u8 = 0;
        proof {
            assert(bits.subrange(p0 as int, p0 as int) =~= Seq::<bool>::empty());
            assert(pow2(0) == 1) by { vstd::arithmetic::power2::lemma2_to64(); }
        }
        while j < bit_count
            invariant
                self.wf(),
                self.buf@ == old(self).buf@,
                bits == bytes_to_bits(self.buf@),
                bits.len() == 8 * self.buf@.len(),
                j <= bit_count <= 32,
                self.pos() == p0 + j,
                p0 + j <= bits.len(),
                p0 == old(self).pos(),
                v as nat == from_bits(bits.subrange(p0 as int, p0 + j)),
                (v as nat) < pow2(j as nat),
            decreases bit_count - j,
        {
            if self.bits_left == 0 {
                if self.idx + 1 >= self.buf.len() {
                    return Err(Error::FmapTruncatedData {
                        expected: self.idx + 2,
                        actual: self.buf.len(),
                    });
                }
                self.idx = self.idx + 1;
                self.cur = self.buf[self.idx];
                self.bits_left = 8;
            }
            let ghost p = self.pos();
            proof {
                lemma_u8_shr_is_div(self.cur, (self.bits_left - 1) as u8);
                let t = 8 - self.bits_left;
                lemma_bytes_to_bits_index(self.buf@, self.idx as int, t);
                lemma_bits_msb_index(self.cur as nat, 8, t);
                assert(p == 8 * self.idx + t);
            }
            let bit = ((self.cur >> ((self.bits_left - 1) as u8)) % 2) as u32;
            self.bits_left = self.bits_left - 1;
            proof {
                assert(bits.subrange(p0 as int, p0 + j + 1) =~= bits.subrange(p0 as int, p0 + j).push(bits[p as int]));
                lemma_from_bits_push(bits.subrange(p0 as int, p0 + j), bits[p as int]);
                lemma_pow2_unfold((j + 1) as nat);
                assert(pow2(32) == 0x1_0000_0000) by { vstd::arithmetic::power2::lemma2_to64(); }
                if j + 1 < 32 {
                    lemma_pow2_strictly_increases((j + 1) as nat, 32);
                }
            }
            v = v * 2 + bit;
            j = j + 1;
        }
        Ok(v)
    }
}

// ---------------------------------------------------------------------------
// Encoding and decoding
// ---------------------------------------------------------------------------

/// Calculate the required bit width for encoding a maximum offset.
fn calculate_bit_width(max_offset: u32) -> (k: u8)
    ensures
        k as nat == width_for(max_offset as nat),
{
    if max_offset == 0 {
        return 1;
    }
    let mut m = max_offset;
    let mut n: u8 = 0;
    proof {
        assert(pow2(32) == 0x1_0000_0000) by { vstd::arithmetic::power2::lemma2_to64(); }
        lemma_bit_len_lower(max_offset as nat);
        if bit_len(max_offset as nat) > 33 {
            lemma_pow2_strictly_increases(32, (bit_len(max_offset as nat) - 1) as nat);
        }
    }
    while m > 0
        invariant
            n as nat + bit_len(m as nat) == bit_len(max_offset as nat),
            bit_len(max_offset as nat) <= 33,
        decreases m,
    {
        m = m / 2;
        n = n + 1;
    }
    n
}

/// Encode waypoints to raw bitpacked bytes with header and payload.
pub fn encode_raw_bitpacked(waypoints: &[Waypoint]) -> (r: Result<Vec<u8>, Error>)
    ensures
        match r {
            Ok(v) => encode_raw_spec(waypoints@) == Ok::<Seq<u8>, Error>(v@),
            Err(e) => encode_raw_spec(waypoints@) == Err::<Seq<u8>, Error>(e),
        },
{
    let ghost ws = waypoints@;
    let mut max_offset: u32 = 0;
    let mut i: usize = 0;
    proof {
        assert(ws.take(0) =~= Seq::<Waypoint>::empty());
    }
    while i < waypoints.len()
        invariant
            0 <= i <= waypoints.len(),
            ws == waypoints@,
            scan_offsets(ws.take(i as int)) == Ok::<nat, u32>(max_offset as nat),
        decreases waypoints.len() - i,
    {
        let wp = waypoints[i];
        proof {
            assert(ws.take(i + 1).drop_last() =~= ws.take(i as int));
            assert(ws.take(i + 1).last() == wp);
        }
        if wp.system_id < BASE_SYSTEM_ID {
            proof {
                lemma_scan_prefix_err(ws, i as int + 1);
            }
            return Err(Error::FmapInvalidSystemId { system_id: wp.system_id, base_id: BASE_SYSTEM_ID });
        }
        let offset = wp.system_id - BASE_SYSTEM_ID;
        if offset > max_offset {
            max_offset = offset;
        }
        i = i + 1;
    }
    proof {
        assert(ws.take(ws.len() as int) =~= ws);
    }
    let k = calculate_bit_width(max_offset);
    if k > MAX_BIT_WIDTH {
        return Err(Error::FmapInvalidBitWidth { k });
    }

    let count: u16 = (waypoints.len() % 65536) as u16;
    let mut header: Vec<u8> = Vec::new();
    header.push(FMAP_VERSION);
    header.push(k);
    header.push((count / 256) as u8);
    header.push((count % 256) as u8);

    proof {
        lemma_scan_offsets_bound(ws);
        lemma_width_fits(max_offset as nat);
        assert(pow2(3) == 8) by { vstd::arithmetic::power2::lemma2_to64(); }
    }
    let mut writer = BitWriter::new();
    let mut j: usize = 0;
    proof {
        assert(ws.take(0) =~= Seq::<Waypoint>::empty());
    }
    while j < waypoints.len()
        invariant
            0 <= j <= waypoints.len(),
            ws == waypoints@,
            writer.wf(),
            writer.written() == route_bits(ws.take(j as int), k as nat),
            k <= 30,
            k as nat == width_for(max_offset as nat),
            (max_offset as nat) < pow2(k as nat),
            forall|t: int| 0 <= t < ws.len() ==> #[trigger] ws[t].system_id >= BASE_SYSTEM_ID
                && offset_of(ws[t]) <= max_offset,
        decreases waypoints.len() - j,
    {
        let wp = waypoints[j];
        let offset = wp.system_id - BASE_SYSTEM_ID;
        let ghost before = writer.written();
        proof {
            assert(pow2(3) == 8) by { vstd::arithmetic::power2::lemma2_to64(); }
            assert(ws[j as int] == wp);
            if offset < max_offset {
                lemma_pow2_strictly_increases(0, k as nat);
            }
        }
        writer.write_bits(offset, k);
        writer.write_bits(wp.waypoint_type.to_u8() as u32, WAYPOINT_TYPE_BITS);
        proof {
            lemma_route_bits_snoc(ws, j as int, k as nat);
            assert(writer.written() =~= before + waypoint_bits(wp, k as nat));
        }
        j = j + 1;
    }
    proof {
        assert(ws.take(ws.len() as int) =~= ws);
    }
    let ghost rb = writer.written();
    let payload = writer.finish();
    proof {
        lemma_pack_bits(rb);
        lemma_bytes_to_bits_injective(payload@, pack_bits(rb));
    }
    let mut raw = header;
    let mut t: usize = 0;
    let ghost h = raw@;
    while t < payload.len()
        invariant
            0 <= t <= payload.len(),
            raw@ == h + payload@.take(t as int),
        decreases payload.len() - t,
    {
        raw.push(payload[t]);
        proof {
            assert(payload@.take(t + 1) =~= payload@.take(t as int).push(payload@[t as int]));
        }
        t = t + 1;
    }
    proof {
        assert(payload@.take(payload@.len() as int) =~= payload@);
        assert(count as nat == ws.len() % 65536);
        assert(h =~= fmap_header(k as nat, ws.len()));
        assert(raw@ =~= fmap_raw(ws, k as nat));
    }
    Ok(raw)
}

/// When the scan of a prefix fails, the scan of the whole route fails the same way.
proof fn lemma_scan_prefix_err(ws: Seq<Waypoint>, n: int)
    requires
        0 < n <= ws.len(),
        scan_offsets(ws.take(n)) is Err,
    ensures
        scan_offsets(ws) == scan_offsets(ws.take(n)),
    decreases ws.len() - n,
{
    if n < ws.len() {
        assert(ws.take(n + 1).drop_last() =~= ws.take(n));
        lemma_scan_prefix_err(ws, n + 1);
    } else {
        assert(ws.take(n) =~= ws);
    }
}

/// Decode the raw (decompressed) token bytes.
pub fn decode_raw(raw: &[u8]) -> (r: Result<DecodedFmapToken, Error>)
    ensures
        match r {
            Ok(d) => decode_raw_spec(raw@) == Ok::<(u8, u8, nat, Seq<Waypoint>), Error>(
                (d.version, d.bit_width, d.waypoint_count as nat, d.waypoints@),
            ),
            Err(e) => decode_raw_spec(raw@) == Err::<(u8, u8, nat, Seq<Waypoint>), Error>(e),
        },
{
    if raw.len() < FMAP_HEADER_SIZE {
        return Err(Error::FmapTruncatedData { expected: FMAP_HEADER_SIZE, actual: raw.len() });
    }
    let version = raw[0];
    let bit_width = raw[1];
    let count = (raw[2] as usize) * 256 + (raw[3] as usize);

    if version != FMAP_VERSION {
        return Err(Error::FmapUnsupportedVersion { version, expected: FMAP_VERSION });
    }
    if bit_width == 0 || bit_width > MAX_BIT_WIDTH {
        return Err(Error::FmapInvalidBitWidth { k: bit_width });
    }

    let payload = &raw[FMAP_HEADER_SIZE..raw.len()];
    assert(payload@ =~= raw@.skip(4));
    let ghost bits = bytes_to_bits(payload@);
    let ghost plen = payload@.len();
    let ghost k = bit_width as nat;
    proof {
        assert(count as nat == raw@[2] as nat * 256 + raw@[3] as nat);
        assert(raw@[0] == version && raw@[1] == bit_width);
        assert(decode_raw_spec(raw@) == match decode_from(bits, 0, k, count as nat, plen) {
            Ok(ws) => Ok::<(u8, u8, nat, Seq<Waypoint>), Error>((version, bit_width, count as nat, ws)),
            Err(e) => Err(e),
        });
    }
    let mut reader = BitReader::new(payload);
    let mut waypoints: Vec<Waypoint> = Vec::new();
    let mut i: usize = 0;
    proof {
        lemma_bytes_to_bits_len(payload@);
        assert(waypoints@ + Seq::<Waypoint>::empty() =~= waypoints@);
    }
    while i < count
        invariant
            0 <= i <= count,
            reader.wf(),
            reader.buf@ == payload@,
            bits == bytes_to_bits(payload@),
            bits.len() == 8 * plen,
            plen == payload@.len(),
            1 <= bit_width <= 30,
            k == bit_width as nat,
            reader.pos() == i * (k + 3),
            i > 0 ==> plen > 0,
            decode_from(bits, 0, k, count as nat, plen) == prepend(waypoints@, decode_from(bits, reader.pos(), k, (count - i) as nat, plen)),
            decode_raw_spec(raw@) == match decode_from(bits, 0, k, count as nat, plen) {
                Ok(ws) => Ok::<(u8, u8, nat, Seq<Waypoint>), Error>((version, bit_width, count as nat, ws)),
                Err(e) => Err(e),
            },
        decreases count - i,
    {
        let ghost p = reader.pos();
        let offset = match reader.read_bits(bit_width) {
            Ok(v) => v,
            Err(e) => {
                proof {
                    assert(e == truncated_payload(plen));
                    assert(decode_from(bits, p, k, (count - i) as nat, plen) == Err::<Seq<Waypoint>, Error>(truncated_payload(plen)));
                    assert(decode_from(bits, 0, k, count as nat, plen) == Err::<Seq<Waypoint>, Error>(e));
                }
                return Err(e);
            },
        };
        let type_bits = match reader.read_bits(WAYPOINT_TYPE_BITS) {
            Ok(v) => v,
            Err(e) => {
                proof {
                    assert(e == truncated_payload(plen));
                    assert(decode_from(bits, p, k, (count - i) as nat, plen) == Err::<Seq<Waypoint>, Error>(truncated_payload(plen)));
                    assert(decode_from(bits, 0, k, count as nat, plen) == Err::<Seq<Waypoint>, Error>(e));
                }
                return Err(e);
            },
        };
        proof {
            lemma_from_bits_bound(bits.subrange(p as int, (p + k) as int));
            assert(pow2(30) == 0x4000_0000) by { vstd::arithmetic::power2::lemma2_to64(); }
            if k < 30 {
                lemma_pow2_strictly_increases(k, 30);
            }
            lemma_from_bits_bound(bits.subrange((p + k) as int, (p + k + 3) as int));
            assert(pow2(3) == 8) by { vstd::arithmetic::power2::lemma2_to64(); }
        }
        let system_id = offset + BASE_SYSTEM_ID;
        let waypoint_type = match WaypointType::from_u8(type_bits as u8) {
            Some(t) => t,
            None => {
                proof {
                    assert(type_bits as nat == field(bits, (p + k) as int, 3));
                    assert((type_bits as u8) as nat == type_bits as nat);
                    assert(decode_from(bits, p, k, (count - i) as nat, plen) == Err::<Seq<Waypoint>, Error>(Error::FmapInvalidBitWidth { k: type_bits as u8 }));
                }
                return Err(Error::FmapInvalidBitWidth { k: type_bits as u8 });
            },
        };
        proof {
            assert((type_bits as u8) as nat == type_bits as nat);
            assert(reader.pos() == p + k + 3);
            assert((i + 1) * (k + 3) == i * (k + 3) + k + 3) by (nonlinear_arith);
        }
        let ghost rest = decode_from(bits, reader.pos(), k, (count - i - 1) as nat, plen);
        let wp = Waypoint { system_id, waypoint_type };
        proof {
            lemma_prepend_assoc(waypoints@, wp, rest);
        }
        waypoints.push(wp);
        i = i + 1;
    }
    proof {
        assert(waypoints@ + Seq::<Waypoint>::empty() =~= waypoints@);
    }
    Ok(DecodedFmapToken { version, bit_width, waypoint_count: count, waypoints })
}

/// Prefix a decoding result with already-decoded waypoints.
pub open spec fn prepend(p: Seq<Waypoint>, r: Result<Seq<Waypoint>, Error>) -> Result<Seq<Waypoint>, Error> {
    match r {
        Ok(s) => Ok(p + s),
        Err(e) => Err(e),
    }
}

proof fn lemma_prepend_assoc(p: Seq<Waypoint>, w: Waypoint, r: Result<Seq<Waypoint>, Error>)
    ensures
        prepend(p, match r { Ok(s) => Ok(seq![w] + s), Err(e) => Err(e) }) == prepend(p.push(w), r),
{
    if let Ok(s) = r {
        assert(p + (seq![w] + s) =~= p.push(w) + s);
    }
}

// ---------------------------------------------------------------------------
// Compression and text encoding of tokens
// ---------------------------------------------------------------------------

/// Unpadded URL-safe base64 text of `bytes` (the `base64` crate's `URL_SAFE_NO_PAD` engine).
pub uninterp spec fn base64url_text(bytes: Seq<u8>) -> Seq<char>;

/// Bytes decoded from unpadded URL-safe base64 `text`, or `None` when the
/// `base64` crate rejects it.
pub uninterp spec fn base64url_bytes(text: Seq<char>) -> Option<Seq<u8>>;

/// Gzip stream produced by `flate2`'s `GzEncoder` at `Compression::best()`.
pub uninterp spec fn gzip_best(data: Seq<u8>) -> Seq<u8>;

/// Bytes that `flate2`'s `GzDecoder` reads out of `data`, or `None` on a read error.
pub uninterp spec fn gunzip(data: Seq<u8>) -> Option<Seq<u8>>;

/// Calls `base64::engine::general_purpose::URL_SAFE_NO_PAD.encode`.
/// Trusted: the text is the crate's encoding of exactly these bytes.
#[verifier::external_body]
fn to_base64url(bytes: &[u8]) -> (r: String)
    requires
        bytes@.len() <= usize::MAX / 4,
    ensures
        r@ == base64url_text(bytes@),
{
    base64::engine::general_purpose::URL_SAFE_NO_PAD.encode(bytes)
}

/// Calls `base64::engine::general_purpose::URL_SAFE_NO_PAD.decode`, mapping its
/// `DecodeError` to `None`. Trusted: the result is the crate's decoding of the
/// text, and decoding text that the same engine produced gives back the bytes.
#[verifier::external_body]
fn from_base64url(text: &str) -> (r: Option<Vec<u8>>)
    ensures
        match r {
            Some(v) => base64url_bytes(text@) == Some(v@),
            None => base64url_bytes(text@) is None,
        },
        forall|x: Seq<u8>| text@ == #[trigger] base64url_text(x) ==> r is Some && r->Some_0@ == x,
{
    base64::engine::general_purpose::URL_SAFE_NO_PAD.decode(text).ok()
}

/// Compresses with `flate2::write::GzEncoder` at `Compression::best()`
/// (`write_all`, then `finish`), mapping an I/O error to `None`.
/// Trusted: writing into an in-memory `Vec` cannot fail, so the result is
/// always the encoder's output for these bytes.
#[verifier::external_body]
fn gzip_compress(data: &[u8]) -> (r: Option<Vec<u8>>)
    ensures
        r is Some,
        r matches Some(v) ==> v@ == gzip_best(data@),
{
    let mut encoder = flate2::write::GzEncoder::new(Vec::new(), flate2::Compression::best());
    encoder.write_all(data).ok()?;
    encoder.finish().ok()
}

/// Decompresses with `flate2::read::GzDecoder` and `read_to_end`, mapping an
/// I/O error to `None`. Trusted: the result is the decoder's output, and a
/// stream that the encoder produced decodes to the bytes it was made from.
#[verifier::external_body]
fn gzip_decompress(data: &[u8]) -> (r: Option<Vec<u8>>)
    ensures
        match r {
            Some(v) => gunzip(data@) == Some(v@),
            None => gunzip(data@) is None,
        },
        forall|x: Seq<u8>| data@ == #[trigger] gzip_best(x) ==> r is Some && r->Some_0@ == x,
{
    let mut decoder = flate2::read::GzDecoder::new(data);
    let mut raw = Vec::new();
    decoder.read_to_end(&mut raw).ok()?;
    Some(raw)
}

/// The token text for a raw token.
pub open spec fn token_text(raw: Seq<u8>) -> Seq<char> {
    base64url_text(gzip_best(raw))
}

/// Encode waypoints to an fmap token string.
///
/// The raw token is gzip-compressed and written as unpadded URL-safe base64.
pub fn encode_fmap_token(waypoints: &[Waypoint]) -> (r: Result<FmapToken, Error>)
    ensures
        match encode_raw_spec(waypoints@) {
            Err(e) => r == Err::<FmapToken, Error>(e),
            Ok(raw) => match r {
                Ok(t) => {
                    &&& t.token@ == token_text(raw)
                    &&& t.waypoint_count == waypoints@.len()
                    &&& t.version == FMAP_VERSION
                    &&& t.bit_width as nat == width_for(scan_offsets(waypoints@)->Ok_0)
                },
                Err(e) => e == Error::FmapCompressionError && gzip_best(raw).len() > usize::MAX / 4,
            },
        },
{
    let raw = encode_raw_bitpacked(waypoints)?;
    let compressed = match gzip_compress(raw.as_slice()) {
        Some(c) => c,
        None => return Err(Error::FmapCompressionError),
    };
    if compressed.len() > usize::MAX / 4 {
        return Err(Error::FmapCompressionError);
    }
    let token = to_base64url(compressed.as_slice());
    let version = raw[0];
    let bit_width = raw[1];
    Ok(FmapToken { token, waypoint_count: waypoints.len(), bit_width, version })
}

/// Decode an fmap token string back to waypoints.
///
/// Law: the token of any route that encodes successfully (with fewer than
/// 65536 waypoints) decodes to exactly that route.
pub fn decode_fmap_token(token_str: &str) -> (r: Result<DecodedFmapToken, Error>)
    ensures
        match base64url_bytes(token_str@) {
            None => r == Err::<DecodedFmapToken, Error>(Error::FmapBase64DecodeError),
            Some(compressed) => match gunzip(compressed) {
                None => r == Err::<DecodedFmapToken, Error>(Error::FmapDecompressionError),
                Some(raw) => match r {
                    Ok(d) => decode_raw_spec(raw) == Ok::<(u8, u8, nat, Seq<Waypoint>), Error>(
                        (d.version, d.bit_width, d.waypoint_count as nat, d.waypoints@),
                    ),
                    Err(e) => decode_raw_spec(raw) == Err::<(u8, u8, nat, Seq<Waypoint>), Error>(e),
                },
            },
        },
        forall|ws: Seq<Waypoint>|
            ws.len() < 65536 && #[trigger] encode_raw_spec(ws) is Ok
                && token_str@ == token_text(encode_raw_spec(ws)->Ok_0)
                ==> (r matches Ok(d) && d.waypoints@ == ws && d.waypoint_count == ws.len()
                    && d.version == FMAP_VERSION
                    && d.bit_width as nat == width_for(scan_offsets(ws)->Ok_0)),
{
    let compressed = match from_base64url(token_str) {
        Some(c) => c,
        None => return Err(Error::FmapBase64DecodeError),
    };
    let raw = match gzip_decompress(compressed.as_slice()) {
        Some(r) => r,
        None => return Err(Error::FmapDecompressionError),
    };
    let r = decode_raw(raw.as_slice());
    proof {
        assert forall|ws: Seq<Waypoint>|
            ws.len() < 65536 && #[trigger] encode_raw_spec(ws) is Ok
                && token_str@ == token_text(encode_raw_spec(ws)->Ok_0)
            implies (r matches Ok(d) && d.waypoints@ == ws && d.waypoint_count == ws.len()
                && d.version == FMAP_VERSION
                && d.bit_width as nat == width_for(scan_offsets(ws)->Ok_0)) by {
            let raw0 = encode_raw_spec(ws)->Ok_0;
            assert(compressed@ == gzip_best(raw0));
            assert(raw@ == raw0);
            lemma_raw_roundtrip(ws);
            lemma_width_fits(scan_offsets(ws)->Ok_0);
        }
    }
    r
}

} // verus!
