use echelon::packet::{Packet, PacketHeader, PacketType, ProtocolError, HEADER_LEN};

#[test]
fn header_bytes_are_big_endian_with_reserved_zeros() {
    let h = PacketHeader::new(PacketType::Ack, 0x0102_0304, 0x0A0B_0C0D, 0x0102);
    assert_eq!(h.checksum, 0);
    assert_eq!(h.flags, 0);
    assert_eq!(
        h.to_bytes(),
        [3, 1, 2, 3, 4, 10, 11, 12, 13, 0, 0, 0, 1, 2, 0, 0]
    );
}

#[test]
fn header_round_trip() {
    let mut h = PacketHeader::new(PacketType::Disconnect, 77, 88, 999);
    h.flags = 5;
    h.checksum = 0xBEEF;
    let back = PacketHeader::from_bytes(&h.to_bytes()).unwrap();
    assert_eq!(back, h);
}

#[test]
fn header_from_short_bytes_fails() {
    assert_eq!(PacketHeader::from_bytes(&[0u8; 15]), Err(ProtocolError::HeaderTooShort));
}

#[test]
fn header_reads_only_first_sixteen_bytes() {
    let mut bytes = vec![1u8, 0, 0, 0, 9, 0, 0, 0, 8, 0, 0, 0, 0, 0, 0, 0];
    bytes.extend_from_slice(&[42, 43]);
    let h = PacketHeader::from_bytes(&bytes).unwrap();
    assert_eq!(h.packet_type, PacketType::ConnectAck);
    assert_eq!(h.seq_num, 9);
    assert_eq!(h.ack_num, 8);
}

#[test]
fn checksum_adds_fields_and_payload() {
    let h = PacketHeader::new(PacketType::Data, 1, 2, 3);
    assert_eq!(h.calculate_checksum(&[10, 20, 30]), 2 + 1 + 2 + 3 + 60);
}

#[test]
fn checksum_truncates_to_sixteen_bits() {
    let h = PacketHeader::new(PacketType::Data, 0xFFFF_FFFF, 0xFFFF_FFFF, 0);
    assert_eq!(h.calculate_checksum(&[]), 0);
    let h2 = PacketHeader::new(PacketType::Connect, 0x1_0005, 0, 0);
    assert_eq!(h2.calculate_checksum(&[]), 5);
}

#[test]
fn packet_new_fills_size_and_checksum() {
    let p = Packet::new(PacketType::Data, 1, 2, vec![10, 20, 30]);
    assert_eq!(p.header.payload_size, 3);
    assert_eq!(p.header.checksum, 68);
    assert_eq!(p.payload, vec![10, 20, 30]);
}

#[test]
fn packet_bytes_are_header_then_payload() {
    let p = Packet::new(PacketType::Data, 1, 2, vec![10, 20, 30]);
    assert_eq!(
        p.to_bytes(),
        vec![2, 0, 0, 0, 1, 0, 0, 0, 2, 0, 0, 68, 0, 3, 0, 0, 10, 20, 30]
    );
    assert_eq!(p.to_bytes().len(), HEADER_LEN + 3);
}

#[test]
fn packet_round_trip() {
    let p = Packet::new(PacketType::Connect, 123456, 654321, b"hello".to_vec());
    let q = Packet::from_bytes(&p.to_bytes()).unwrap();
    assert_eq!(q.header, p.header);
    assert_eq!(q.payload, p.payload);
}

#[test]
fn packet_too_short() {
    assert_eq!(Packet::from_bytes(&[0u8; 10]).unwrap_err(), ProtocolError::PacketTooShort);
}

#[test]
fn packet_payload_shorter_than_declared() {
    let p = Packet::new(PacketType::Data, 1, 2, vec![1, 2, 3, 4, 5]);
    let bytes = p.to_bytes();
    assert_eq!(
        Packet::from_bytes(&bytes[..bytes.len() - 2]).unwrap_err(),
        ProtocolError::InvalidPayloadSize
    );
}

#[test]
fn packet_longer_than_declared_is_rejected() {
    let p = Packet::new(PacketType::Data, 1, 2, vec![1, 2, 3]);
    let mut bytes = p.to_bytes();
    bytes.push(99);
    assert_eq!(Packet::from_bytes(&bytes).unwrap_err(), ProtocolError::InvalidPayloadSize);
}

#[test]
fn corrupted_payload_is_rejected() {
    let p = Packet::new(PacketType::Data, 1, 2, vec![1, 2, 3]);
    let mut bytes = p.to_bytes();
    bytes[17] = 7;
    assert_eq!(Packet::from_bytes(&bytes).unwrap_err(), ProtocolError::ChecksumMismatch);
}

#[test]
fn packet_type_codes() {
    assert_eq!(PacketType::Connect.to_u8(), 0);
    assert_eq!(PacketType::ConnectAck.to_u8(), 1);
    assert_eq!(PacketType::Data.to_u8(), 2);
    assert_eq!(PacketType::Ack.to_u8(), 3);
    assert_eq!(PacketType::Disconnect.to_u8(), 4);
    assert_eq!(PacketType::from(4u8), PacketType::Disconnect);
    assert_eq!(PacketType::from(0u8), PacketType::Connect);
    assert_eq!(PacketType::from(200u8), PacketType::Data);
}
