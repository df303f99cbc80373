use vstd::prelude::*;
use crate::protocol::{PacketType, be16, be32, push_be32, extend_bytes, frame_bytes, packet_type_of, be32_at, lemma_frame_fields, PROTOCOL_HEADER_SIZE};

verus! {

/// One FNV-1a step: XOR the byte in, then multiply by the 64-bit FNV prime, wrapping.
pub open spec fn fnv_step(h: u64, b: u8) -> u64 {
    ((h ^ (b as u64)) * 0x100000001b3u64) as u64
}

/// FNV-1a over `bytes`, starting from state `h`.
pub open spec fn fnv1a64_from(h: u64, bytes: Seq<u8>) -> u64
    decreases bytes.len(),
{
    if bytes.len() == 0 {
        h
    } else {
        fnv_step(fnv1a64_from(h, bytes.drop_last()), bytes.last())
    }
}

/// The 64-bit FNV-1a hash of a byte string: from the offset basis 0xcbf29ce484222325,
/// one step per byte.
pub open spec fn fnv1a64(bytes: Seq<u8>) -> u64 {
    fnv1a64_from(0xcbf29ce484222325u64, bytes)
}

/// Relies on fnv::FnvHasher (default key, `write`, `finish`): the default state is the
/// offset basis, `write` folds each byte in with an XOR and a wrapping multiply by the
/// prime, and `finish` returns the state.
#[verifier::external_body]
fn fnv1a_hash(bytes: &[u8]) -> (r: u64)
    ensures
        r == fnv1a64(bytes@),
{
    let mut hasher = <fnv::FnvHasher as Default>::default();
    std::hash::Hasher::write(&mut hasher, bytes);
    std::hash::Hasher::finish(&hasher)
}

/// The salt shared by endpoints that speak this protocol: the bytes of "ffmesh".
pub open spec fn salt() -> Seq<u8> {
    seq![0x66u8, 0x66u8, 0x6du8, 0x65u8, 0x73u8, 0x68u8]
}

/// The first 16 bytes of `data`, right-padded with zeros.
pub open spec fn prefix16(data: Seq<u8>) -> Seq<u8> {
    Seq::new(16, |i: int| if i < data.len() { data[i] } else { 0u8 })
}

/// The bytes the integrity tag is computed over: salt, type, sequence, the payload length
/// as 16 bits, and the padded first 16 payload bytes.
pub open spec fn tag_input(t: PacketType, seq: u32, data: Seq<u8>) -> Seq<u8> {
    salt() + seq![t.tag()] + be32(seq) + be16((data.len() % 0x10000) as u16) + prefix16(data)
}

/// The integrity tag of a frame: the low 32 bits of the hash of its tag input.
pub open spec fn security_code(t: PacketType, seq: u32, data: Seq<u8>) -> u32 {
    fnv1a64(tag_input(t, seq, data)) as u32
}

/// Integrity tag calculator.
pub struct SecurityCode;

impl SecurityCode {
    /// The integrity tag of a frame of type `packet_type` with sequence `seq` and payload `data`.
    pub fn calculate(packet_type: PacketType, seq: u32, data: &[u8]) -> (r: u32)
        ensures
            r == security_code(packet_type, seq, data@),
    {
        let mut input: Vec<u8> = Vec::new();
        input.push(0x66u8);
        input.push(0x66u8);
        input.push(0x6du8);
        input.push(0x65u8);
        input.push(0x73u8);
        input.push(0x68u8);
        input.push(packet_type.to_u8());
        push_be32(&mut input, seq);
        let len16 = (data.len() % 0x10000) as u16;
        input.push((len16 >> 8u16) as u8);
        input.push(len16 as u8);
        let ghost before = input@;
        let mut i: usize = 0;
        while i < 16
            invariant
                i <= 16,
                input@ == before + prefix16(data@).subrange(0, i as int),
            decreases 16 - i,
        {
            if i < data.len() {
                input.push(data[i]);
            } else {
                input.push(0u8);
            }
            i = i + 1;
            assert(prefix16(data@).subrange(0, i as int) == prefix16(data@).subrange(0, i - 1)
                + seq![prefix16(data@)[i - 1]]);
        }
        assert(prefix16(data@).subrange(0, 16) == prefix16(data@));
        assert(input@ == tag_input(packet_type, seq, data@));
        fnv1a_hash(input.as_slice()) as u32
    }

    /// Whether `expected_code` is the integrity tag of the frame's fields.
    pub fn verify(packet_type: PacketType, seq: u32, data: &[u8], expected_code: u32) -> (r: bool)
        ensures
            r == (expected_code == security_code(packet_type, seq, data@)),
    {
        let calculated_code = Self::calculate(packet_type, seq, data);
        calculated_code == expected_code
    }
}

/// The frame of type `t`, sequence `seq` and payload `data`, with its integrity tag.
pub open spec fn signed_frame_bytes(t: PacketType, seq: u32, data: Seq<u8>) -> Seq<u8> {
    frame_bytes(t, security_code(t, seq, data), seq, data)
}

/// Serialize a frame: the header with its computed integrity tag, then the payload.
pub fn signed_frame(packet_type: PacketType, seq: u32, data: &[u8]) -> (r: Vec<u8>)
    ensures
        r@ == signed_frame_bytes(packet_type, seq, data@),
{
    let code = SecurityCode::calculate(packet_type, seq, data);
    let mut frame: Vec<u8> = Vec::new();
    frame.push(packet_type.to_u8());
    push_be32(&mut frame, code);
    push_be32(&mut frame, seq);
    extend_bytes(&mut frame, data);
    frame
}

/// Parsing a serialized frame gives back its type, sequence and payload.
pub proof fn lemma_parse_serialize_round_trip(t: PacketType, seq: u32, data: Seq<u8>)
    ensures
        ({
            let f = signed_frame_bytes(t, seq, data);
            &&& f.len() >= PROTOCOL_HEADER_SIZE
            &&& packet_type_of(f[0]) == Some(t)
            &&& be32_at(f, 5) == seq
            &&& f.subrange(PROTOCOL_HEADER_SIZE as int, f.len() as int) == data
        }),
{
    lemma_frame_fields(t, security_code(t, seq, data), seq, data);
}

/// The integrity tag read from a serialized frame matches the tag recomputed from the
/// type, sequence and payload read from it.
pub proof fn lemma_serialized_frame_verifies(t: PacketType, seq: u32, data: Seq<u8>)
    ensures
        ({
            let f = signed_frame_bytes(t, seq, data);
            packet_type_of(f[0]) matches Some(pt) && be32_at(f, 1) == security_code(
                pt,
                be32_at(f, 5),
                f.subrange(PROTOCOL_HEADER_SIZE as int, f.len() as int),
            )
        }),
{
    lemma_frame_fields(t, security_code(t, seq, data), seq, data);
}



/// Multiplying by the FNV prime is invertible modulo 2^64 and its low 32 bits depend on the
/// low 32 bits alone, so it keeps low 32 bits apart.
proof fn lemma_mul_low_injective(x: u64, y: u64)
    requires
        (x & 0xffff_ffffu64) != (y & 0xffff_ffffu64),
    ensures
        (((x * 0x100000001b3u64) as u64) & 0xffff_ffffu64) != (((y * 0x100000001b3u64) as u64) & 0xffff_ffffu64),
{
    let u = (x * 0x100000001b3u64) as u64;
    let v = (y * 0x100000001b3u64) as u64;
    assert(((u * 0xce965057aff6957bu64) as u64) == x) by (bit_vector)
        requires u == (x * 0x100000001b3u64) as u64;
    assert(((v * 0xce965057aff6957bu64) as u64) == y) by (bit_vector)
        requires v == (y * 0x100000001b3u64) as u64;
    assert((((u * 0xce965057aff6957bu64) as u64) & 0xffff_ffffu64) == ((((u & 0xffff_ffffu64) * 0xce965057aff6957bu64) as u64) & 0xffff_ffffu64)) by (bit_vector);
    assert((((v * 0xce965057aff6957bu64) as u64) & 0xffff_ffffu64) == ((((v & 0xffff_ffffu64) * 0xce965057aff6957bu64) as u64) & 0xffff_ffffu64)) by (bit_vector);
}


/// The low 32 bits of two FNV states after the same byte differ if they differed before.
proof fn lemma_step_keeps_difference(h1: u64, h2: u64, b: u8)
    requires
        (h1 & 0xffff_ffffu64) != (h2 & 0xffff_ffffu64),
    ensures
        (fnv_step(h1, b) & 0xffff_ffffu64) != (fnv_step(h2, b) & 0xffff_ffffu64),
{
    let x = h1 ^ (b as u64);
    let y = h2 ^ (b as u64);
    assert((x & 0xffff_ffffu64) != (y & 0xffff_ffffu64)) by (bit_vector)
        requires
            (h1 & 0xffff_ffffu64) != (h2 & 0xffff_ffffu64),
            x == h1 ^ (b as u64),
            y == h2 ^ (b as u64),
    ;
    lemma_mul_low_injective(x, y);
}

/// Two different bytes taken into the same FNV state give states that differ in the low
/// 32 bits.
proof fn lemma_step_separates(h: u64, b1: u8, b2: u8)
    requires
        b1 != b2,
    ensures
        (fnv_step(h, b1) & 0xffff_ffffu64) != (fnv_step(h, b2) & 0xffff_ffffu64),
{
    let x = h ^ (b1 as u64);
    let y = h ^ (b2 as u64);
    let c1 = b1 as u64;
    let c2 = b2 as u64;
    assert((x & 0xffff_ffffu64) != (y & 0xffff_ffffu64)) by (bit_vector)
        requires
            c1 != c2,
            c1 < 256,
            c2 < 256,
            x == h ^ c1,
            y == h ^ c2,
    ;
    lemma_mul_low_injective(x, y);
}

/// FNV-1a over two strings of one length that differ at exactly one index gives hashes
/// whose low 32 bits differ.
proof fn lemma_fnv_one_byte(h: u64, a: Seq<u8>, c: Seq<u8>, i: int)
    requires
        a.len() == c.len(),
        0 <= i < a.len(),
        a[i] != c[i],
        forall|j: int| 0 <= j < a.len() && j != i ==> a[j] == c[j],
    ensures
        (fnv1a64_from(h, a) & 0xffff_ffffu64) != (fnv1a64_from(h, c) & 0xffff_ffffu64),
    decreases a.len(),
{
    let n = a.len() - 1;
    if i == n {
        assert(a.drop_last() =~= c.drop_last());
        lemma_step_separates(fnv1a64_from(h, a.drop_last()), a.last(), c.last());
    } else {
        lemma_fnv_one_byte(h, a.drop_last(), c.drop_last(), i);
        assert(a.last() == c.last());
        lemma_step_keeps_difference(fnv1a64_from(h, a.drop_last()), fnv1a64_from(h, c.drop_last()), a.last());
    }
}

/// Tag inputs that differ at exactly one index give different integrity tags.
pub proof fn lemma_one_byte_change_detected(
    t1: PacketType,
    s1: u32,
    d1: Seq<u8>,
    t2: PacketType,
    s2: u32,
    d2: Seq<u8>,
    i: int,
)
    requires
        0 <= i < tag_input(t1, s1, d1).len(),
        tag_input(t1, s1, d1)[i] != tag_input(t2, s2, d2)[i],
        forall|j: int| 0 <= j < tag_input(t1, s1, d1).len() && j != i ==> tag_input(t1, s1, d1)[j] == tag_input(t2, s2, d2)[j],
    ensures
        security_code(t1, s1, d1) != security_code(t2, s2, d2),
{
    let a = tag_input(t1, s1, d1);
    let c = tag_input(t2, s2, d2);
    lemma_fnv_one_byte(0xcbf29ce484222325u64, a, c, i);
    let x = fnv1a64(a);
    let y = fnv1a64(c);
    assert((x as u32) != (y as u32)) by (bit_vector)
        requires
            (x & 0xffff_ffffu64) != (y & 0xffff_ffffu64),
    ;
}

/// Replacing the middle part of `pre + m + post` by one of the same length that differs at
/// exactly index `k` changes the whole at exactly index `pre.len() + k`.
proof fn lemma_middle_change(pre: Seq<u8>, m1: Seq<u8>, m2: Seq<u8>, post: Seq<u8>, k: int)
    requires
        m1.len() == m2.len(),
        0 <= k < m1.len(),
        m1[k] != m2[k],
        forall|j: int| 0 <= j < m1.len() && j != k ==> m1[j] == m2[j],
    ensures
        (pre + m1 + post)[pre.len() + k] != (pre + m2 + post)[pre.len() + k],
        (pre + m1 + post).len() == (pre + m2 + post).len(),
        forall|j: int| 0 <= j < (pre + m1 + post).len() && j != pre.len() + k ==> (pre + m1 + post)[j] == (pre + m2 + post)[j],
{
}

/// Changing the packet type changes the integrity tag.
pub proof fn lemma_type_change_detected(t1: PacketType, t2: PacketType, seq: u32, data: Seq<u8>)
    requires
        t1 != t2,
    ensures
        security_code(t1, seq, data) != security_code(t2, seq, data),
{
    let post = be32(seq) + be16((data.len() % 0x10000) as u16) + prefix16(data);
    assert(tag_input(t1, seq, data) =~= salt() + seq![t1.tag()] + post);
    assert(tag_input(t2, seq, data) =~= salt() + seq![t2.tag()] + post);
    lemma_middle_change(salt(), seq![t1.tag()], seq![t2.tag()], post, 0);
    lemma_one_byte_change_detected(t1, seq, data, t2, seq, data, 6);
}

/// Changing one byte of the sequence's big-endian form changes the integrity tag.
pub proof fn lemma_seq_byte_change_detected(t: PacketType, s1: u32, s2: u32, data: Seq<u8>, k: int)
    requires
        0 <= k < 4,
        be32(s1)[k] != be32(s2)[k],
        forall|j: int| 0 <= j < 4 && j != k ==> be32(s1)[j] == be32(s2)[j],
    ensures
        security_code(t, s1, data) != security_code(t, s2, data),
{
    let pre = salt() + seq![t.tag()];
    let post = be16((data.len() % 0x10000) as u16) + prefix16(data);
    assert(tag_input(t, s1, data) =~= pre + be32(s1) + post);
    assert(tag_input(t, s2, data) =~= pre + be32(s2) + post);
    lemma_middle_change(pre, be32(s1), be32(s2), post, k);
    lemma_one_byte_change_detected(t, s1, data, t, s2, data, 7 + k);
}

/// Changing one of the first 16 payload bytes, at the same length, changes the integrity tag.
pub proof fn lemma_payload_byte_change_detected(t: PacketType, seq: u32, d1: Seq<u8>, d2: Seq<u8>, i: int)
    requires
        d1.len() == d2.len(),
        0 <= i < 16,
        i < d1.len(),
        d1[i] != d2[i],
        forall|j: int| 0 <= j < d1.len() && j != i ==> d1[j] == d2[j],
    ensures
        security_code(t, seq, d1) != security_code(t, seq, d2),
{
    let pre = salt() + seq![t.tag()] + be32(seq) + be16((d1.len() % 0x10000) as u16);
    assert(tag_input(t, seq, d1) =~= pre + prefix16(d1) + Seq::empty());
    assert(tag_input(t, seq, d2) =~= pre + prefix16(d2) + Seq::empty());
    lemma_middle_change(pre, prefix16(d1), prefix16(d2), Seq::empty(), i);
    lemma_one_byte_change_detected(t, seq, d1, t, seq, d2, 13 + i);
}
} // verus!
