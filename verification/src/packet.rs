//! Packets of the noise-resilient datagram protocol: a 16-byte header
//! followed by the payload, protected by an additive checksum.
use vstd::prelude::*;

verus! {

/// The kind of a packet.
#[derive(Clone, Copy, Debug, PartialEq, Eq, Structural)]
pub enum PacketType {
    Connect,
    ConnectAck,
    Data,
    Ack,
    Disconnect,
}

/// Errors of packet decoding and of connection handling.
#[derive(Clone, Copy, Debug, PartialEq, Eq, Structural)]
pub enum ProtocolError {
    /// Fewer than 16 bytes were given for a header.
    HeaderTooShort,
    /// Fewer than 16 bytes were given for a packet.
    PacketTooShort,
    /// The bytes after the header are not as many as the header's payload size.
    InvalidPayloadSize,
    /// The checksum in the header does not match the packet.
    ChecksumMismatch,
    /// A connection to the peer already exists.
    AlreadyConnected,
    /// The connection to the peer is not established.
    NotConnected,
    /// There is no connection to the peer.
    ConnectionNotFound,
    /// The largest datagram leaves no room for payload after the header.
    PacketSizeTooSmall,
    /// The datagram could not be handed to the network.
    SendFailed,
}

/// Number of bytes of a packet header.
pub const HEADER_LEN: usize = 16;

/// Flag bit: the packet carries no acknowledgement number, because its
/// sender has not yet received any data packet in order.
pub const NO_ACK: u8 = 1;

impl PacketType {
    /// The wire code of the packet type.
    pub open spec fn code(self) -> u8 {
        match self {
            PacketType::Connect => 0,
            PacketType::ConnectAck => 1,
            PacketType::Data => 2,
            PacketType::Ack => 3,
            PacketType::Disconnect => 4,
        }
    }

    /// The packet type a wire code stands for; unknown codes read as `Data`.
    pub open spec fn from_code(b: u8) -> PacketType {
        if b == 0 {
            PacketType::Connect
        } else if b == 1 {
            PacketType::ConnectAck
        } else if b == 3 {
            PacketType::Ack
        } else if b == 4 {
            PacketType::Disconnect
        } else {
            PacketType::Data
        }
    }

    /// The wire code of the packet type.
    pub fn to_u8(&self) -> (r: u8)
        ensures
            r == self.code(),
    {
        match self {
            PacketType::Connect => 0,
            PacketType::ConnectAck => 1,
            PacketType::Data => 2,
            PacketType::Ack => 3,
            PacketType::Disconnect => 4,
        }
    }
}

impl From<u8> for PacketType {
    fn from(value: u8) -> (r: Self) {
        if value == 0 {
            PacketType::Connect
        } else if value == 1 {
            PacketType::ConnectAck
        } else if value == 3 {
            PacketType::Ack
        } else if value == 4 {
            PacketType::Disconnect
        } else {
            PacketType::Data
        }
    }
}

impl vstd::std_specs::convert::FromSpecImpl<u8> for PacketType {
    open spec fn obeys_from_spec() -> bool {
        true
    }

    open spec fn from_spec(v: u8) -> Self {
        PacketType::from_code(v)
    }
}

/// The fixed 16-byte header of every packet.
#[derive(Clone, Copy, Debug, PartialEq, Eq, Structural)]
pub struct PacketHeader {
    pub packet_type: PacketType,
    pub seq_num: u32,
    pub ack_num: u32,
    pub flags: u8,
    pub checksum: u16,
    pub payload_size: u16,
}

/// A packet: its header and its payload.
#[derive(Debug)]
pub struct Packet {
    pub header: PacketHeader,
    pub payload: Vec<u8>,
}

/// Big-endian bytes of a 32-bit number.
pub open spec fn be32(x: u32) -> Seq<u8> {
    seq![
        (x / 0x100_0000) as u8,
        ((x / 0x1_0000) % 0x100) as u8,
        ((x / 0x100) % 0x100) as u8,
        (x % 0x100) as u8,
    ]
}

/// Big-endian bytes of a 16-bit number.
pub open spec fn be16(x: u16) -> Seq<u8> {
    seq![(x / 0x100) as u8, (x % 0x100) as u8]
}

/// The 32-bit number with big-endian bytes `b[at..at + 4]`.
pub open spec fn read_be32(b: Seq<u8>, at: int) -> u32 {
    (b[at] * 0x100_0000 + b[at + 1] * 0x1_0000 + b[at + 2] * 0x100 + b[at + 3]) as u32
}

/// The 16-bit number with big-endian bytes `b[at..at + 2]`.
pub open spec fn read_be16(b: Seq<u8>, at: int) -> u16 {
    (b[at] * 0x100 + b[at + 1]) as u16
}

/// The wire form of a header: type, sequence number, ack number, flags,
/// checksum, payload size, and two reserved zero bytes.
pub open spec fn header_bytes(h: PacketHeader) -> Seq<u8> {
    seq![h.packet_type.code()] + be32(h.seq_num) + be32(h.ack_num) + seq![h.flags] + be16(
        h.checksum,
    ) + be16(h.payload_size) + seq![0u8, 0u8]
}

/// The header that the first 16 bytes of `b` encode.
pub open spec fn header_from_bytes(b: Seq<u8>) -> PacketHeader {
    PacketHeader {
        packet_type: PacketType::from_code(b[0]),
        seq_num: read_be32(b, 1),
        ack_num: read_be32(b, 5),
        flags: b[9],
        checksum: read_be16(b, 10),
        payload_size: read_be16(b, 12),
    }
}

/// The sum of the bytes of `s`.
pub open spec fn byte_sum(s: Seq<u8>) -> int
    decreases s.len(),
{
    if s.len() == 0 {
        0
    } else {
        byte_sum(s.drop_last()) + s.last()
    }
}

/// The checksum of a header (its own checksum field excluded) and a payload:
/// the sum of the type code, sequence number, ack number, flags, payload
/// size and every payload byte, truncated to 16 bits.
pub open spec fn checksum_of(h: PacketHeader, payload: Seq<u8>) -> u16 {
    ((h.packet_type.code() + h.seq_num + h.ack_num + h.flags + h.payload_size + byte_sum(payload))
        % 0x1_0000) as u16
}

/// The header a new packet carries.
pub open spec fn new_header(
    packet_type: PacketType,
    seq_num: u32,
    ack_num: u32,
    payload_size: u16,
) -> PacketHeader {
    PacketHeader { packet_type, seq_num, ack_num, flags: 0, checksum: 0, payload_size }
}

/// The header of a packet built from its fields and payload, with the
/// payload size truncated to 16 bits and the checksum filled in.
pub open spec fn sealed_header(
    packet_type: PacketType,
    seq_num: u32,
    ack_num: u32,
    payload: Seq<u8>,
) -> PacketHeader {
    let h = new_header(packet_type, seq_num, ack_num, (payload.len() % 0x1_0000) as u16);
    PacketHeader { checksum: checksum_of(h, payload), ..h }
}

/// The header of a packet built from its fields, flags and payload, with
/// the payload size truncated to 16 bits and the checksum filled in.
pub open spec fn flagged_header(
    packet_type: PacketType,
    seq_num: u32,
    ack_num: u32,
    flags: u8,
    payload: Seq<u8>,
) -> PacketHeader {
    let h = PacketHeader {
        packet_type,
        seq_num,
        ack_num,
        flags,
        checksum: 0,
        payload_size: (payload.len() % 0x1_0000) as u16,
    };
    PacketHeader { checksum: checksum_of(h, payload), ..h }
}

/// The wire form of a packet.
pub open spec fn packet_bytes(h: PacketHeader, payload: Seq<u8>) -> Seq<u8> {
    header_bytes(h) + payload
}

/// The result of decoding bytes as a packet: the header and payload, or the
/// first check that fails.
pub open spec fn decode_packet(b: Seq<u8>) -> Result<(PacketHeader, Seq<u8>), ProtocolError> {
    if b.len() < 16 {
        Err(ProtocolError::PacketTooShort)
    } else {
        let h = header_from_bytes(b);
        if b.len() != 16 + h.payload_size {
            Err(ProtocolError::InvalidPayloadSize)
        } else {
            let payload = b.subrange(16, 16 + h.payload_size);
            if checksum_of(h, payload) != h.checksum {
                Err(ProtocolError::ChecksumMismatch)
            } else {
                Ok((h, payload))
            }
        }
    }
}

fn be32_bytes(x: u32) -> (r: (u8, u8, u8, u8))
    ensures
        seq![r.0, r.1, r.2, r.3] == be32(x),
{
    ((x / 0x100_0000) as u8, ((x / 0x1_0000) % 0x100) as u8, ((x / 0x100) % 0x100) as u8, (x
        % 0x100) as u8)
}

fn be16_bytes(x: u16) -> (r: (u8, u8))
    ensures
        seq![r.0, r.1] == be16(x),
{
    ((x / 0x100) as u8, (x % 0x100) as u8)
}

impl PacketHeader {
    /// A header with zero flags and a checksum still to be computed.
    pub fn new(packet_type: PacketType, seq_num: u32, ack_num: u32, payload_size: u16) -> (r: Self)
        ensures
            r == new_header(packet_type, seq_num, ack_num, payload_size),
    {
        PacketHeader { packet_type, seq_num, ack_num, flags: 0, checksum: 0, payload_size }
    }

    /// The 16-byte wire form of the header.
    pub fn to_bytes(&self) -> (r: [u8; 16])
        ensures
            r@ == header_bytes(*self),
    {
        let t = self.packet_type.to_u8();
        let s = be32_bytes(self.seq_num);
        let a = be32_bytes(self.ack_num);
        let c = be16_bytes(self.checksum);
        let p = be16_bytes(self.payload_size);
        let r = [t, s.0, s.1, s.2, s.3, a.0, a.1, a.2, a.3, self.flags, c.0, c.1, p.0, p.1, 0, 0];
        assert(r@ =~= header_bytes(*self));
        r
    }

    /// Decodes a header from the first 16 bytes of `bytes`.
    pub fn from_bytes(bytes: &[u8]) -> (r: Result<Self, ProtocolError>)
        ensures
            bytes@.len() < 16 ==> r == Err::<Self, ProtocolError>(ProtocolError::HeaderTooShort),
            bytes@.len() >= 16 ==> r == Ok::<Self, ProtocolError>(header_from_bytes(bytes@)),
    {
        if bytes.len() < 16 {
            return Err(ProtocolError::HeaderTooShort);
        }
        let packet_type = PacketType::from(bytes[0]);
        let seq_num = (bytes[1] as u32) * 0x100_0000 + (bytes[2] as u32) * 0x1_0000 + (bytes[3]
            as u32) * 0x100 + bytes[4] as u32;
        let ack_num = (bytes[5] as u32) * 0x100_0000 + (bytes[6] as u32) * 0x1_0000 + (bytes[7]
            as u32) * 0x100 + bytes[8] as u32;
        let flags = bytes[9];
        let checksum = (bytes[10] as u16) * 0x100 + bytes[11] as u16;
        let payload_size = (bytes[12] as u16) * 0x100 + bytes[13] as u16;
        Ok(PacketHeader { packet_type, seq_num, ack_num, flags, checksum, payload_size })
    }

    /// The checksum of this header (its checksum field excluded) and `payload`.
    pub fn calculate_checksum(&self, payload: &[u8]) -> (r: u16)
        ensures
            r == checksum_of(*self, payload@),
    {
        let base: u64 = self.packet_type.to_u8() as u64 + self.seq_num as u64 + self.ack_num as u64
            + self.flags as u64 + self.payload_size as u64;
        let mut sum: u64 = base % 0x1_0000;
        let mut i: usize = 0;
        assert(payload@.take(0) =~= Seq::<u8>::empty());
        while i < payload.len()
            invariant
                i <= payload@.len(),
                sum < 0x1_0000,
                sum == (base + byte_sum(payload@.take(i as int))) % 0x1_0000,
            decreases payload@.len() - i,
        {
            proof {
                assert(payload@.take(i + 1).drop_last() =~= payload@.take(i as int));
                let t = base + byte_sum(payload@.take(i as int));
                vstd::arithmetic::div_mod::lemma_add_mod_noop(t, payload@[i as int] as int, 0x1_0000);
                vstd::arithmetic::div_mod::lemma_mod_twice(payload@[i as int] as int, 0x1_0000);
                vstd::arithmetic::div_mod::lemma_small_mod(payload@[i as int] as nat, 0x1_0000);
            }
            sum = (sum + payload[i] as u64) % 0x1_0000;
            i = i + 1;
        }
        assert(payload@.take(i as int) =~= payload@);
        sum as u16
    }
}

impl Packet {
    /// A packet with the given fields and payload; the payload size is the
    /// payload length truncated to 16 bits and the checksum is filled in.
    pub fn new(packet_type: PacketType, seq_num: u32, ack_num: u32, payload: Vec<u8>) -> (r: Self)
        ensures
            r.header == sealed_header(packet_type, seq_num, ack_num, payload@),
            r.payload@ == payload@,
    {
        let payload_size = (payload.len() % 0x1_0000) as u16;
        let mut header = PacketHeader::new(packet_type, seq_num, ack_num, payload_size);
        header.checksum = header.calculate_checksum(payload.as_slice());
        Packet { header, payload }
    }

    /// A packet with the given fields, flags and payload; the payload size
    /// is the payload length truncated to 16 bits and the checksum is filled in.
    pub fn with_flags(
        packet_type: PacketType,
        seq_num: u32,
        ack_num: u32,
        flags: u8,
        payload: Vec<u8>,
    ) -> (r: Self)
        ensures
            r.header == flagged_header(packet_type, seq_num, ack_num, flags, payload@),
            r.payload@ == payload@,
    {
        let payload_size = (payload.len() % 0x1_0000) as u16;
        let mut header = PacketHeader::new(packet_type, seq_num, ack_num, payload_size);
        header.flags = flags;
        header.checksum = header.calculate_checksum(payload.as_slice());
        Packet { header, payload }
    }

    /// The wire form of the packet: the header followed by the whole payload.
    pub fn to_bytes(&self) -> (r: Vec<u8>)
        ensures
            r@ == packet_bytes(self.header, self.payload@),
    {
        let mut bytes: Vec<u8> = Vec::with_capacity(16);
        let h = self.header.to_bytes();
        bytes.extend_from_slice(h.as_slice());
        bytes.extend_from_slice(self.payload.as_slice());
        assert(bytes@ =~= packet_bytes(self.header, self.payload@));
        bytes
    }

    /// Decodes a packet, checking its length, that its payload is exactly
    /// as long as the header says, and its checksum.
    pub fn from_bytes(bytes: &[u8]) -> (r: Result<Self, ProtocolError>)
        ensures
            r matches Ok(p) ==> decode_packet(bytes@) == Ok::<
                (PacketHeader, Seq<u8>),
                ProtocolError,
            >((p.header, p.payload@)),
            r matches Err(e) ==> decode_packet(bytes@) == Err::<
                (PacketHeader, Seq<u8>),
                ProtocolError,
            >(e),
    {
        if bytes.len() < 16 {
            return Err(ProtocolError::PacketTooShort);
        }
        let header = match PacketHeader::from_bytes(bytes) {
            Ok(h) => h,
            Err(e) => {
                return Err(e);
            },
        };
        let size = header.payload_size as usize;
        if bytes.len() != 16 + size {
            return Err(ProtocolError::InvalidPayloadSize);
        }
        let mut payload: Vec<u8> = Vec::with_capacity(size);
        let mut i: usize = 0;
        while i < size
            invariant
                16 + size <= bytes@.len(),
                size <= 0xffff,
                i <= size,
                payload@ == bytes@.subrange(16, 16 + i),
            decreases size - i,
        {
            payload.push(bytes[16 + i]);
            i = i + 1;
            assert(payload@ =~= bytes@.subrange(16, 16 + i));
        }
        let calculated = header.calculate_checksum(payload.as_slice());
        if calculated != header.checksum {
            return Err(ProtocolError::ChecksumMismatch);
        }
        Ok(Packet { header, payload })
    }
}

proof fn lemma_be32_roundtrip(x: u32, b: Seq<u8>, at: int)
    requires
        0 <= at,
        at + 4 <= b.len(),
        b.subrange(at, at + 4) == be32(x),
    ensures
        read_be32(b, at) == x,
{
    assert(b[at] == be32(x)[0]);
    assert(b[at + 1] == be32(x)[1]);
    assert(b[at + 2] == be32(x)[2]);
    assert(b[at + 3] == be32(x)[3]);
    assert(x == (x / 0x100_0000) * 0x100_0000 + ((x / 0x1_0000) % 0x100) * 0x1_0000 + ((x
        / 0x100) % 0x100) * 0x100 + x % 0x100) by (bit_vector);
    assert(x / 0x100_0000 < 0x100) by (bit_vector);
}

proof fn lemma_be16_roundtrip(x: u16, b: Seq<u8>, at: int)
    requires
        0 <= at,
        at + 2 <= b.len(),
        b.subrange(at, at + 2) == be16(x),
    ensures
        read_be16(b, at) == x,
{
    assert(b[at] == be16(x)[0]);
    assert(b[at + 1] == be16(x)[1]);
    assert(x == (x / 0x100) * 0x100 + x % 0x100) by (bit_vector);
    assert(x / 0x100 < 0x100) by (bit_vector);
}

/// Decoding the wire form of a header gives the header back.
pub proof fn lemma_header_roundtrip(h: PacketHeader)
    ensures
        header_bytes(h).len() == 16,
        header_from_bytes(header_bytes(h)) == h,
{
    let b = header_bytes(h);
    assert(b.len() == 16);
    assert(b.subrange(1, 5) =~= be32(h.seq_num));
    assert(b.subrange(5, 9) =~= be32(h.ack_num));
    assert(b.subrange(10, 12) =~= be16(h.checksum));
    assert(b.subrange(12, 14) =~= be16(h.payload_size));
    lemma_be32_roundtrip(h.seq_num, b, 1);
    lemma_be32_roundtrip(h.ack_num, b, 5);
    lemma_be16_roundtrip(h.checksum, b, 10);
    lemma_be16_roundtrip(h.payload_size, b, 12);
    assert(b[0] == h.packet_type.code());
    assert(b[9] == h.flags);
    assert(PacketType::from_code(h.packet_type.code()) == h.packet_type);
}

/// A packet built from fields and a payload of at most 65535 bytes decodes
/// from its wire form to the same header and payload.
pub proof fn lemma_packet_roundtrip(
    packet_type: PacketType,
    seq_num: u32,
    ack_num: u32,
    payload: Seq<u8>,
)
    requires
        payload.len() <= 0xffff,
    ensures
        decode_packet(packet_bytes(sealed_header(packet_type, seq_num, ack_num, payload), payload))
            == Ok::<(PacketHeader, Seq<u8>), ProtocolError>(
            (sealed_header(packet_type, seq_num, ack_num, payload), payload),
        ),
{
    let h = sealed_header(packet_type, seq_num, ack_num, payload);
    let b = packet_bytes(h, payload);
    lemma_header_roundtrip(h);
    assert(b.subrange(0, 16) =~= header_bytes(h));
    assert(header_from_bytes(b) == header_from_bytes(header_bytes(h)));
    assert(h.payload_size == payload.len());
    assert(b.subrange(16, 16 + h.payload_size) =~= payload);
    let h0 = new_header(packet_type, seq_num, ack_num, (payload.len() % 0x1_0000) as u16);
    assert(checksum_of(h, payload) == checksum_of(h0, payload));
}

proof fn lemma_byte_sum_update(s: Seq<u8>, i: int, v: u8)
    requires
        0 <= i < s.len(),
    ensures
        byte_sum(s.update(i, v)) == byte_sum(s) - s[i] + v,
    decreases s.len(),
{
    let t = s.update(i, v);
    if i == s.len() - 1 {
        assert(t.drop_last() =~= s.drop_last());
    } else {
        assert(t.drop_last() =~= s.drop_last().update(i, v));
        lemma_byte_sum_update(s.drop_last(), i, v);
    }
}

/// Changing one payload byte of a packet that decodes, and whose header
/// declares its whole payload, makes the checksum check fail.
pub proof fn lemma_payload_corruption_detected(h: PacketHeader, payload: Seq<u8>, i: int, v: u8)
    requires
        decode_packet(packet_bytes(h, payload)) is Ok,
        h.payload_size == payload.len(),
        0 <= i < payload.len(),
        v != payload[i],
    ensures
        decode_packet(packet_bytes(h, payload.update(i, v))) == Err::<
            (PacketHeader, Seq<u8>),
            ProtocolError,
        >(ProtocolError::ChecksumMismatch),
{
    let b = packet_bytes(h, payload);
    let p2 = payload.update(i, v);
    let b2 = packet_bytes(h, p2);
    assert(b.subrange(0, 16) =~= header_bytes(h));
    assert(b2.subrange(0, 16) =~= header_bytes(h));
    assert(b2.subrange(0, 16) =~= b.subrange(0, 16));
    assert(header_from_bytes(b2) == header_from_bytes(b)) by {
        assert forall|k: int| 0 <= k < 16 implies b2[k] == b[k] by {
            assert(b2.subrange(0, 16)[k] == b.subrange(0, 16)[k]);
        }
    }
    lemma_header_roundtrip(h);
    assert(header_from_bytes(b) == header_from_bytes(header_bytes(h)));
    let hd = header_from_bytes(b);
    assert(hd == h);
    assert(b.len() >= 16 + hd.payload_size);
    assert(b2.len() == b.len());
    let q = b.subrange(16, 16 + hd.payload_size);
    let q2 = b2.subrange(16, 16 + hd.payload_size);
    assert(checksum_of(hd, q) == hd.checksum);
    assert(i < hd.payload_size);
    {
        assert(q2 =~= q.update(i, v));
        lemma_byte_sum_update(q, i, v);
        assert(q[i] == payload[i]);
        let base = hd.packet_type.code() + hd.seq_num + hd.ack_num + hd.flags + hd.payload_size;
        let s1 = base + byte_sum(q);
        let s2 = base + byte_sum(q2);
        assert(s2 == s1 - payload[i] + v);
        assert(s1 % 0x1_0000 != s2 % 0x1_0000) by {
            let d = v - payload[i];
            assert(-0x100 < d < 0x100 && d != 0);
            assert(s2 == s1 + d);
            vstd::arithmetic::div_mod::lemma_fundamental_div_mod(s1, 0x1_0000);
            vstd::arithmetic::div_mod::lemma_fundamental_div_mod(s2, 0x1_0000);
            if s1 % 0x1_0000 == s2 % 0x1_0000 {
                assert((s2 / 0x1_0000 - s1 / 0x1_0000) * 0x1_0000 == d);
                if s2 / 0x1_0000 - s1 / 0x1_0000 > 0 {
                    assert((s2 / 0x1_0000 - s1 / 0x1_0000) * 0x1_0000 >= 0x1_0000) by (nonlinear_arith)
                        requires
                            s2 / 0x1_0000 - s1 / 0x1_0000 > 0,
                    ;
                } else if s2 / 0x1_0000 - s1 / 0x1_0000 < 0 {
                    assert((s2 / 0x1_0000 - s1 / 0x1_0000) * 0x1_0000 <= -0x1_0000) by (nonlinear_arith)
                        requires
                            s2 / 0x1_0000 - s1 / 0x1_0000 < 0,
                    ;
                }
            }
        }
        assert(s1 >= 0 && s2 >= 0) by {
            lemma_byte_sum_nonneg(q);
            lemma_byte_sum_nonneg(q2);
        }
        assert((s1 % 0x1_0000) as u16 != (s2 % 0x1_0000) as u16);
    }
}

proof fn lemma_byte_sum_nonneg(s: Seq<u8>)
    ensures
        byte_sum(s) >= 0,
    decreases s.len(),
{
    if s.len() > 0 {
        lemma_byte_sum_nonneg(s.drop_last());
    }
}

} // verus!
