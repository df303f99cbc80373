use vstd::prelude::*;
use crate::error::RudpError;

verus! {

/// Protocol header size in bytes: type (1), integrity tag (4), sequence (4).
pub const PROTOCOL_HEADER_SIZE: usize = 9;

/// Largest payload a frame carries, so that it fits in a standard MTU.
pub const MAX_BUFFER_SIZE: usize = 1200;

/// Largest number of sequences listed in one acknowledgement frame.
pub const MAX_LISTED_SEQS: usize = 255;

/// Packet types, each with its one-byte wire tag.
#[derive(Debug, Clone, Copy, PartialEq, Eq, Structural)]
pub enum PacketType {
    /// Ping packet for RTT measurement and keep-alive (tag 0)
    Ping,
    /// Ping acknowledgment (tag 1)
    PingAck,
    /// Data packet (tag 2)
    Data,
    /// Data acknowledgment (tag 3)
    DataAck,
    /// Negative acknowledgment, a request for retransmission (tag 4)
    DataNack,
    /// Close connection (tag 5)
    Close,
    /// Close acknowledgment (tag 6)
    CloseAck,
}

/// The packet type a wire tag stands for, if any.
pub open spec fn packet_type_of(tag: u8) -> Option<PacketType> {
    if tag == 0 {
        Some(PacketType::Ping)
    } else if tag == 1 {
        Some(PacketType::PingAck)
    } else if tag == 2 {
        Some(PacketType::Data)
    } else if tag == 3 {
        Some(PacketType::DataAck)
    } else if tag == 4 {
        Some(PacketType::DataNack)
    } else if tag == 5 {
        Some(PacketType::Close)
    } else if tag == 6 {
        Some(PacketType::CloseAck)
    } else {
        None
    }
}

impl PacketType {
    /// The wire tag of a packet type.
    pub open spec fn tag(self) -> u8 {
        match self {
            PacketType::Ping => 0,
            PacketType::PingAck => 1,
            PacketType::Data => 2,
            PacketType::DataAck => 3,
            PacketType::DataNack => 4,
            PacketType::Close => 5,
            PacketType::CloseAck => 6,
        }
    }

    /// Convert a wire tag to a packet type.
    pub fn from_u8(value: u8) -> (r: Option<PacketType>)
        ensures
            r == packet_type_of(value),
    {
        match value {
            0 => Some(PacketType::Ping),
            1 => Some(PacketType::PingAck),
            2 => Some(PacketType::Data),
            3 => Some(PacketType::DataAck),
            4 => Some(PacketType::DataNack),
            5 => Some(PacketType::Close),
            6 => Some(PacketType::CloseAck),
            _ => None,
        }
    }

    /// The wire tag of this packet type.
    pub fn to_u8(self) -> (r: u8)
        ensures
            r == self.tag(),
    {
        match self {
            PacketType::Ping => 0,
            PacketType::PingAck => 1,
            PacketType::Data => 2,
            PacketType::DataAck => 3,
            PacketType::DataNack => 4,
            PacketType::Close => 5,
            PacketType::CloseAck => 6,
        }
    }
}

/// Every type is read back from its own tag.
pub proof fn lemma_tag_round_trip(t: PacketType)
    ensures
        packet_type_of(t.tag()) == Some(t),
{
}

/// Big-endian bytes of a 16-bit value.
pub open spec fn be16(x: u16) -> Seq<u8> {
    seq![(x >> 8u16) as u8, x as u8]
}

/// Big-endian bytes of a 32-bit value.
pub open spec fn be32(x: u32) -> Seq<u8> {
    seq![(x >> 24u32) as u8, (x >> 16u32) as u8, (x >> 8u32) as u8, x as u8]
}

/// Big-endian bytes of a 64-bit value.
pub open spec fn be64(x: u64) -> Seq<u8> {
    be32((x >> 32u64) as u32) + be32(x as u32)
}

/// The 32-bit value held big-endian in `b` at `i..i + 4`.
pub open spec fn be32_at(b: Seq<u8>, i: int) -> u32 {
    ((b[i] as u32) << 24u32) | ((b[i + 1] as u32) << 16u32) | ((b[i + 2] as u32) << 8u32) | (
    b[i + 3] as u32)
}

/// The 64-bit value held big-endian in `b` at `i..i + 8`.
pub open spec fn be64_at(b: Seq<u8>, i: int) -> u64 {
    ((be32_at(b, i) as u64) << 32u64) | (be32_at(b, i + 4) as u64)
}

/// A 32-bit value is read back from its big-endian bytes.
pub proof fn lemma_be32_round_trip(x: u32)
    ensures
        be32_at(be32(x), 0) == x,
{
    let b0 = (x >> 24u32) as u8;
    let b1 = (x >> 16u32) as u8;
    let b2 = (x >> 8u32) as u8;
    let b3 = x as u8;
    assert(((b0 as u32) << 24u32) | ((b1 as u32) << 16u32) | ((b2 as u32) << 8u32) | (b3 as u32)
        == x) by (bit_vector)
        requires
            b0 == (x >> 24u32) as u8,
            b1 == (x >> 16u32) as u8,
            b2 == (x >> 8u32) as u8,
            b3 == x as u8,
    ;
}

/// A 32-bit value is read back from its big-endian bytes wherever they stand.
pub proof fn lemma_be32_at_shift(pre: Seq<u8>, x: u32, post: Seq<u8>)
    ensures
        be32_at(pre + be32(x) + post, pre.len() as int) == x,
{
    lemma_be32_round_trip(x);
    let s = pre + be32(x) + post;
    let i = pre.len() as int;
    assert(s[i] == be32(x)[0]);
    assert(s[i + 1] == be32(x)[1]);
    assert(s[i + 2] == be32(x)[2]);
    assert(s[i + 3] == be32(x)[3]);
}

/// A ping timestamp is read back from its big-endian bytes.
pub proof fn lemma_be64_round_trip(x: u64)
    ensures
        be64_at(be64(x), 0) == x,
{
    let hi = (x >> 32u64) as u32;
    let lo = x as u32;
    lemma_be32_at_shift(Seq::empty(), hi, be32(lo));
    lemma_be32_at_shift(be32(hi), lo, Seq::empty());
    assert(Seq::<u8>::empty() + be32(hi) + be32(lo) == be64(x));
    assert(be32(hi) + be32(lo) + Seq::<u8>::empty() == be64(x));
    assert((((hi as u64) << 32u64) | (lo as u64)) == x) by (bit_vector)
        requires
            hi == (x >> 32u64) as u32,
            lo == x as u32,
    ;
}

/// Append the big-endian bytes of `x`.
pub fn push_be32(v: &mut Vec<u8>, x: u32)
    ensures
        final(v)@ == old(v)@ + be32(x),
{
    v.push((x >> 24u32) as u8);
    v.push((x >> 16u32) as u8);
    v.push((x >> 8u32) as u8);
    v.push(x as u8);
}

/// Read the big-endian 32-bit value at `i..i + 4`.
pub fn read_be32(b: &[u8], i: usize) -> (r: u32)
    requires
        i + 4 <= b@.len(),
    ensures
        r == be32_at(b@, i as int),
{
    ((b[i] as u32) << 24u32) | ((b[i + 1] as u32) << 16u32) | ((b[i + 2] as u32) << 8u32) | (b[i
        + 3] as u32)
}

/// Append a copy of `src`.
pub fn extend_bytes(v: &mut Vec<u8>, src: &[u8])
    ensures
        final(v)@ == old(v)@ + src@,
{
    let mut i: usize = 0;
    while i < src.len()
        invariant
            i <= src@.len(),
            v@ == old(v)@ + src@.subrange(0, i as int),
        decreases src@.len() - i,
    {
        v.push(src[i]);
        i = i + 1;
        assert(src@.subrange(0, i as int) == src@.subrange(0, i - 1) + seq![src@[i - 1]]);
    }
    assert(src@.subrange(0, src@.len() as int) == src@);
}

/// Copy of `src[from..]`.
pub fn copy_tail(src: &[u8], from: usize) -> (r: Vec<u8>)
    requires
        from <= src@.len(),
    ensures
        r@ == src@.subrange(from as int, src@.len() as int),
{
    let mut v: Vec<u8> = Vec::new();
    let mut i: usize = from;
    while i < src.len()
        invariant
            from <= i <= src@.len(),
            v@ == src@.subrange(from as int, i as int),
        decreases src@.len() - i,
    {
        v.push(src[i]);
        i = i + 1;
        assert(src@.subrange(from as int, i as int) == src@.subrange(from as int, i - 1) + seq![
            src@[i - 1],
        ]);
    }
    v
}

/// Ping packet: a timestamp that the peer echoes back.
#[derive(Debug, Clone)]
pub struct PingPacket {
    pub timestamp: u64,
}

/// Relies on std::time::SystemTime::now: nanoseconds since the Unix epoch, or 0 if the
/// clock stands before it. Nothing is promised of the value.
#[verifier::external_body]
fn wall_clock_nanos() -> u64 {
    std::time::SystemTime::now().duration_since(std::time::UNIX_EPOCH).map(|d| d.as_nanos() as u64).unwrap_or(0)
}

impl PingPacket {
    /// A ping stamped with the current wall-clock time in nanoseconds.
    pub fn new() -> (r: Self) {
        PingPacket { timestamp: wall_clock_nanos() }
    }

    /// The ping payload: the timestamp, big-endian.
    pub fn serialize(&self) -> (r: Vec<u8>)
        ensures
            r@ == be64(self.timestamp),
    {
        let mut data: Vec<u8> = Vec::new();
        push_be32(&mut data, (self.timestamp >> 32u64) as u32);
        push_be32(&mut data, self.timestamp as u32);
        data
    }

    /// Read a ping payload: the first eight bytes, big-endian.
    pub fn deserialize(data: &[u8]) -> (r: Option<Self>)
        ensures
            data@.len() < 8 ==> r is None,
            data@.len() >= 8 ==> (r matches Some(p) && p.timestamp == be64_at(data@, 0)),
    {
        if data.len() >= 8 {
            let hi = read_be32(data, 0);
            let lo = read_be32(data, 4);
            Some(PingPacket { timestamp: ((hi as u64) << 32u64) | (lo as u64) })
        } else {
            None
        }
    }
}

/// Bytes of a list of sequences, each big-endian.
pub open spec fn seqs_bytes(s: Seq<u32>) -> Seq<u8>
    decreases s.len(),
{
    if s.len() == 0 {
        Seq::empty()
    } else {
        seqs_bytes(s.drop_last()) + be32(s.last())
    }
}

/// The payload of an acknowledgement frame listing `s`: a count byte, then the sequences.
pub open spec fn seq_list_payload(s: Seq<u32>) -> Seq<u8> {
    seq![s.len() as u8] + seqs_bytes(s)
}

/// The sequences that a payload lists, where it is well formed.
pub open spec fn seq_list_of(data: Seq<u8>) -> Option<Seq<u32>> {
    if data.len() == 0 || data.len() < 1 + 4 * data[0] {
        None
    } else {
        Some(Seq::new(data[0] as nat, |i: int| be32_at(data, 1 + 4 * i)))
    }
}

/// The first `MAX_LISTED_SEQS` entries of a list of sequences.
pub open spec fn capped(s: Seq<u32>) -> Seq<u32> {
    if s.len() <= MAX_LISTED_SEQS {
        s
    } else {
        s.subrange(0, MAX_LISTED_SEQS as int)
    }
}

/// Each listed sequence takes four bytes.
pub proof fn lemma_seqs_bytes_len(s: Seq<u32>)
    ensures
        seqs_bytes(s).len() == 4 * s.len(),
    decreases s.len(),
{
    if s.len() > 0 {
        lemma_seqs_bytes_len(s.drop_last());
    }
}

/// The `i`-th listed sequence is read back at offset `4 * i`.
pub proof fn lemma_seqs_bytes_at(s: Seq<u32>, pre: Seq<u8>, i: int)
    requires
        0 <= i < s.len(),
    ensures
        be32_at(pre + seqs_bytes(s), pre.len() + 4 * i) == s[i],
    decreases s.len(),
{
    lemma_seqs_bytes_len(s.drop_last());
    if i == s.len() - 1 {
        assert(pre + seqs_bytes(s) == pre + seqs_bytes(s.drop_last()) + be32(s.last())
            + Seq::empty());
        lemma_be32_at_shift(pre + seqs_bytes(s.drop_last()), s.last(), Seq::empty());
    } else {
        lemma_seqs_bytes_at(s.drop_last(), pre, i);
        let a = pre + seqs_bytes(s.drop_last());
        let b = pre + seqs_bytes(s);
        assert(b == a + be32(s.last()));
        let k = pre.len() + 4 * i;
        assert(b[k] == a[k] && b[k + 1] == a[k + 1] && b[k + 2] == a[k + 2] && b[k + 3] == a[k
            + 3]);
    }
}

/// A list of at most `MAX_LISTED_SEQS` sequences is read back from its payload.
pub proof fn lemma_seq_list_round_trip(s: Seq<u32>)
    requires
        s.len() <= MAX_LISTED_SEQS,
    ensures
        seq_list_of(seq_list_payload(s)) == Some(s),
{
    let p = seq_list_payload(s);
    lemma_seqs_bytes_len(s);
    assert(p[0] == s.len() as u8);
    let r = Seq::new(p[0] as nat, |i: int| be32_at(p, 1 + 4 * i));
    assert forall|i: int| 0 <= i < s.len() implies r[i] == s[i] by {
        lemma_seqs_bytes_at(s, seq![s.len() as u8], i);
    }
    assert(r == s);
}

fn encode_seq_list(seqs: &Vec<u32>) -> (r: Vec<u8>)
    ensures
        r@ == seq_list_payload(capped(seqs@)),
{
    let n: usize = if seqs.len() <= MAX_LISTED_SEQS {
        seqs.len()
    } else {
        MAX_LISTED_SEQS
    };
    let ghost listed = capped(seqs@);
    let mut data: Vec<u8> = Vec::new();
    data.push(n as u8);
    let mut i: usize = 0;
    while i < n
        invariant
            n == listed.len(),
            n <= seqs@.len(),
            i <= n,
            listed == seqs@.subrange(0, n as int),
            data@ == seq![n as u8] + seqs_bytes(listed.subrange(0, i as int)),
        decreases n - i,
    {
        push_be32(&mut data, seqs[i]);
        i = i + 1;
        assert(listed.subrange(0, i as int).drop_last() == listed.subrange(0, i - 1));
    }
    assert(listed.subrange(0, n as int) == listed);
    data
}

fn decode_seq_list(data: &[u8]) -> (r: Option<Vec<u32>>)
    ensures
        match r {
            Some(v) => seq_list_of(data@) == Some(v@),
            None => seq_list_of(data@) is None,
        },
{
    if data.len() == 0 {
        return None;
    }
    let count = data[0] as usize;
    if data.len() < 1 + count * 4 {
        return None;
    }
    let mut seqs: Vec<u32> = Vec::new();
    let mut i: usize = 0;
    while i < count
        invariant
            count == data@[0],
            1 + 4 * count <= data@.len(),
            i <= count,
            seqs@.len() == i,
            forall|j: int| 0 <= j < i ==> seqs@[j] == be32_at(data@, 1 + 4 * j),
        decreases count - i,
    {
        let seq = read_be32(data, 1 + i * 4);
        seqs.push(seq);
        i = i + 1;
    }
    assert(seqs@ == Seq::new(data@[0] as nat, |j: int| be32_at(data@, 1 + 4 * j)));
    Some(seqs)
}

/// Data acknowledgment packet structure
#[derive(Debug, Clone)]
pub struct DataAckPacket {
    pub ack_seqs: Vec<u32>,
}

impl DataAckPacket {
    pub fn new(seqs: Vec<u32>) -> (r: Self)
        ensures
            r.ack_seqs@ == seqs@,
    {
        Self { ack_seqs: seqs }
    }

    /// The payload: a count byte, then each sequence big-endian; at most
    /// `MAX_LISTED_SEQS` sequences are listed.
    pub fn serialize(&self) -> (r: Vec<u8>)
        ensures
            r@ == seq_list_payload(capped(self.ack_seqs@)),
    {
        encode_seq_list(&self.ack_seqs)
    }

    /// Read a payload; `None` where it is empty or shorter than its count says.
    pub fn deserialize(data: &[u8]) -> (r: Option<Self>)
        ensures
            r is Some <==> seq_list_of(data@) is Some,
            r matches Some(p) ==> seq_list_of(data@) == Some(p.ack_seqs@),
    {
        match decode_seq_list(data) {
            Some(v) => Some(DataAckPacket { ack_seqs: v }),
            None => None,
        }
    }
}

/// Data negative acknowledgment packet structure
#[derive(Debug, Clone)]
pub struct DataNackPacket {
    pub nack_seqs: Vec<u32>,
}

impl DataNackPacket {
    pub fn new(seqs: Vec<u32>) -> (r: Self)
        ensures
            r.nack_seqs@ == seqs@,
    {
        Self { nack_seqs: seqs }
    }

    /// The payload: a count byte, then each sequence big-endian; at most
    /// `MAX_LISTED_SEQS` sequences are listed.
    pub fn serialize(&self) -> (r: Vec<u8>)
        ensures
            r@ == seq_list_payload(capped(self.nack_seqs@)),
    {
        encode_seq_list(&self.nack_seqs)
    }

    /// Read a payload; `None` where it is empty or shorter than its count says.
    pub fn deserialize(data: &[u8]) -> (r: Option<Self>)
        ensures
            r is Some <==> seq_list_of(data@) is Some,
            r matches Some(p) ==> seq_list_of(data@) == Some(p.nack_seqs@),
    {
        match decode_seq_list(data) {
            Some(v) => Some(DataNackPacket { nack_seqs: v }),
            None => None,
        }
    }
}

/// The bytes of a frame.
pub open spec fn frame_bytes(t: PacketType, code: u32, seq: u32, data: Seq<u8>) -> Seq<u8> {
    seq![t.tag()] + be32(code) + be32(seq) + data
}

/// A frame, split into its fields.
#[derive(Debug, Clone)]
pub struct RawPacket {
    pub packet_type: PacketType,
    pub security_code: u32,
    pub seq: u32,
    pub data: Vec<u8>,
}

impl RawPacket {
    pub open spec fn bytes(&self) -> Seq<u8> {
        frame_bytes(self.packet_type, self.security_code, self.seq, self.data@)
    }

    /// Split a datagram into the fields of a frame. The integrity tag is not checked here.
    pub fn parse(packet: &[u8]) -> (r: Result<Self, RudpError>)
        ensures
            packet@.len() < PROTOCOL_HEADER_SIZE ==> (r matches Err(RudpError::PacketTooSmall {
                size,
                min,
            }) && size == packet@.len() && min == PROTOCOL_HEADER_SIZE),
            packet@.len() >= PROTOCOL_HEADER_SIZE && packet_type_of(packet@[0]) is None ==> r matches Err(
                RudpError::Protocol { .. },
            ),
            packet@.len() >= PROTOCOL_HEADER_SIZE && packet_type_of(packet@[0]) is Some ==> (r matches Ok(p)
                && Some(p.packet_type) == packet_type_of(packet@[0]) && p.security_code == be32_at(
                packet@,
                1,
            ) && p.seq == be32_at(packet@, 5) && p.data@ == packet@.subrange(
                PROTOCOL_HEADER_SIZE as int,
                packet@.len() as int,
            )),
    {
        if packet.len() < PROTOCOL_HEADER_SIZE {
            return Err(RudpError::PacketTooSmall { size: packet.len(), min: PROTOCOL_HEADER_SIZE });
        }
        let packet_type = match PacketType::from_u8(packet[0]) {
            Some(t) => t,
            None => {
                return Err(RudpError::Protocol { message: String::from_str("unknown packet type") });
            },
        };
        let security_code = read_be32(packet, 1);
        let seq = read_be32(packet, 5);
        let data = copy_tail(packet, PROTOCOL_HEADER_SIZE);
        Ok(Self { packet_type, security_code, seq, data })
    }

    /// The frame bytes: type tag, integrity tag, sequence, payload.
    pub fn serialize(&self) -> (r: Vec<u8>)
        ensures
            r@ == self.bytes(),
    {
        let mut packet: Vec<u8> = Vec::new();
        packet.push(self.packet_type.to_u8());
        push_be32(&mut packet, self.security_code);
        push_be32(&mut packet, self.seq);
        extend_bytes(&mut packet, self.data.as_slice());
        packet
    }
}

/// Parsing the bytes of a frame gives back its fields.
pub proof fn lemma_frame_fields(t: PacketType, code: u32, seq: u32, data: Seq<u8>)
    ensures
        ({
            let f = frame_bytes(t, code, seq, data);
            &&& f.len() == PROTOCOL_HEADER_SIZE + data.len()
            &&& packet_type_of(f[0]) == Some(t)
            &&& be32_at(f, 1) == code
            &&& be32_at(f, 5) == seq
            &&& f.subrange(PROTOCOL_HEADER_SIZE as int, f.len() as int) == data
        }),
{
    let f = frame_bytes(t, code, seq, data);
    assert(f == seq![t.tag()] + be32(code) + (be32(seq) + data));
    lemma_be32_at_shift(seq![t.tag()], code, be32(seq) + data);
    assert(f == seq![t.tag()] + be32(code) + be32(seq) + data);
    lemma_be32_at_shift(seq![t.tag()] + be32(code), seq, data);
    assert(f.subrange(PROTOCOL_HEADER_SIZE as int, f.len() as int) =~= data);
}

} // verus!
