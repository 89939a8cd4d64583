use vstd::prelude::*;
use crate::errors::Error;

verus! {

/// The logical fields of the 8-byte metadata trailer written at the end of
/// every cover that carries a payload chunk. On the wire the record is a
/// big-endian u64: bits 63..32 `payload_size`, bit 31 `encrypted`, bits
/// 30..16 `part`, bit 15 reserved (written 0), bits 14..0 `total_parts`.
#[derive(Clone, Copy, PartialEq, Eq, Structural, Debug)]
pub struct Metadata {
    /// Number of payload bytes immediately preceding the trailer.
    pub payload_size: u32,
    /// Whether the reassembled blob is ciphertext.
    pub encrypted: bool,
    /// 1-based index of this chunk, in [1, total_parts].
    pub part: u16,
    /// Total chunk count for this payload, in [1, 32767].
    pub total_parts: u16,
}

/// The fields fit their 15-bit wire slots, so the record can be encoded.
pub open spec fn meta_wf(m: Metadata) -> bool {
    m.part <= 0x7FFF && m.total_parts <= 0x7FFF
}

/// The semantic checks a decoded trailer must pass.
pub open spec fn meta_valid(m: Metadata) -> bool {
    1 <= m.part && m.part <= m.total_parts && m.total_parts <= 0x7FFF
}

/// The packed wire word, reserved bit zero.
pub open spec fn pack_spec(m: Metadata) -> u64 {
    ((m.payload_size as u64) << 32)
        | ((if m.encrypted { 1u64 } else { 0u64 }) << 31)
        | ((m.part as u64) << 16)
        | (m.total_parts as u64)
}

/// Big-endian byte image of a u64.
pub open spec fn be_bytes_spec(v: u64) -> Seq<u8> {
    seq![
        (v >> 56) as u8,
        (v >> 48) as u8,
        (v >> 40) as u8,
        (v >> 32) as u8,
        (v >> 24) as u8,
        (v >> 16) as u8,
        (v >> 8) as u8,
        v as u8,
    ]
}

/// The u64 read big-endian from 8 bytes.
pub open spec fn unpack_spec(b: Seq<u8>) -> u64 {
    ((b[0] as u64) << 56)
        | ((b[1] as u64) << 48)
        | ((b[2] as u64) << 40)
        | ((b[3] as u64) << 32)
        | ((b[4] as u64) << 24)
        | ((b[5] as u64) << 16)
        | ((b[6] as u64) << 8)
        | (b[7] as u64)
}

/// The fields read back from a packed word; the reserved bit is ignored.
pub open spec fn fields_spec(v: u64) -> Metadata {
    Metadata {
        payload_size: (v >> 32) as u32,
        encrypted: ((v >> 31) & 1) == 1,
        part: ((v >> 16) & 0x7FFF) as u16,
        total_parts: (v & 0x7FFF) as u16,
    }
}

/// The 8 trailer bytes that stand for `m`.
pub open spec fn encode_spec(m: Metadata) -> Seq<u8> {
    be_bytes_spec(pack_spec(m))
}

/// Decoding 8 trailer bytes: the fields, unless the semantic checks fail.
/// A zero `payload_size` is legitimate and accepted.
pub open spec fn decode_spec(b: Seq<u8>) -> Option<Metadata> {
    let m = fields_spec(unpack_spec(b));
    if m.part == 0 || m.total_parts == 0 || m.part > m.total_parts {
        None
    } else {
        Some(m)
    }
}

/// Encode a trailer record into its 8 wire bytes.
pub fn encode(m: &Metadata) -> (r: [u8; 8])
    requires
        meta_wf(*m),
    ensures
        r@ == encode_spec(*m),
        r@.len() == 8,
{
    let e: u64 = if m.encrypted { 1u64 } else { 0u64 };
    let v: u64 = ((m.payload_size as u64) << 32u64) | (e << 31u64) | ((m.part as u64) << 16u64)
        | (m.total_parts as u64);
    proof {
        assert(v == pack_spec(*m));
    }
    let r: [u8; 8] = [
        #[verifier::truncate] ((v >> 56u64) as u8),
        #[verifier::truncate] ((v >> 48u64) as u8),
        #[verifier::truncate] ((v >> 40u64) as u8),
        #[verifier::truncate] ((v >> 32u64) as u8),
        #[verifier::truncate] ((v >> 24u64) as u8),
        #[verifier::truncate] ((v >> 16u64) as u8),
        #[verifier::truncate] ((v >> 8u64) as u8),
        #[verifier::truncate] (v as u8),
    ];
    proof {
        assert(r@ =~= be_bytes_spec(v));
    }
    r
}

/// Decode 8 trailer bytes, rejecting records whose part numbering is
/// impossible: `part == 0`, `total_parts == 0`, or `part > total_parts`.
pub fn decode(b: &[u8; 8]) -> (r: Result<Metadata, Error>)
    ensures
        match r {
            Ok(m) => decode_spec(b@) == Some(m),
            Err(e) => decode_spec(b@) is None && e is InvalidTrailer,
        },
{
    let v: u64 = ((b[0] as u64) << 56u64) | ((b[1] as u64) << 48u64) | ((b[2] as u64) << 40u64)
        | ((b[3] as u64) << 32u64) | ((b[4] as u64) << 24u64) | ((b[5] as u64) << 16u64)
        | ((b[6] as u64) << 8u64) | (b[7] as u64);
    proof {
        assert(v == unpack_spec(b@));
    }
    assert((v >> 16u64) & 0x7FFF < 0x8000 && (v & 0x7FFF) < 0x8000) by (bit_vector);
    let m = Metadata {
        payload_size: #[verifier::truncate] ((v >> 32u64) as u32),
        encrypted: ((v >> 31u64) & 1) == 1,
        part: ((v >> 16u64) & 0x7FFF) as u16,
        total_parts: (v & 0x7FFF) as u16,
    };
    proof {
        assert(m == fields_spec(v));
    }
    if m.part == 0 || m.total_parts == 0 || m.part > m.total_parts {
        Err(Error::InvalidTrailer)
    } else {
        Ok(m)
    }
}

/// A decoded trailer always passes the semantic checks and fits the wire
/// slots again.
pub proof fn lemma_decode_valid(b: Seq<u8>)
    requires
        decode_spec(b) is Some,
    ensures
        meta_valid(decode_spec(b)->Some_0),
        meta_wf(decode_spec(b)->Some_0),
{
    let v = unpack_spec(b);
    assert((v >> 16u64) & 0x7FFF < 0x8000 && (v & 0x7FFF) < 0x8000) by (bit_vector);
}

/// Trailer round trip: every record whose part numbering is in range is
/// decoded back, field for field, from its own encoding.
pub proof fn lemma_trailer_round_trip(m: Metadata)
    requires
        meta_valid(m),
    ensures
        decode_spec(encode_spec(m)) == Some(m),
{
    let ps = m.payload_size;
    let e: u64 = if m.encrypted { 1u64 } else { 0u64 };
    let p = m.part;
    let t = m.total_parts;
    let v = pack_spec(m);
    assert(v == ((ps as u64) << 32) | (e << 31) | ((p as u64) << 16) | (t as u64));
    // The big-endian byte image reassembles to the same word.
    assert((((((v >> 56) as u8) as u64) << 56) | ((((v >> 48) as u8) as u64) << 48)
        | ((((v >> 40) as u8) as u64) << 40) | ((((v >> 32) as u8) as u64) << 32)
        | ((((v >> 24) as u8) as u64) << 24) | ((((v >> 16) as u8) as u64) << 16)
        | ((((v >> 8) as u8) as u64) << 8) | ((v as u8) as u64)) == v) by (bit_vector);
    assert(unpack_spec(be_bytes_spec(v)) == v);
    // Each field comes back unchanged from the packed word.
    let w = ((ps as u64) << 32) | (e << 31) | ((p as u64) << 16) | (t as u64);
    assert((w >> 32) as u32 == ps && ((w >> 31) & 1) == e && ((w >> 16) & 0x7FFF) as u16 == p
        && (w & 0x7FFF) as u16 == t) by (bit_vector)
        requires
            w == ((ps as u64) << 32) | (e << 31) | ((p as u64) << 16) | (t as u64),
            p < 0x8000,
            t < 0x8000,
            e <= 1,
    ;
    assert(fields_spec(v) == m);
}

} // verus!
