use echelon::connection::{ConnectionConfig, ConnectionState, Link, PacketSink, PeerAddr};
use echelon::packet::{Packet, PacketType, ProtocolError};
use echelon::protocol::ConnectionTable;

struct Wire {
    sent: Vec<(Vec<u8>, PeerAddr)>,
    accept: bool,
}

impl Wire {
    fn new() -> Self {
        Wire { sent: Vec::new(), accept: true }
    }

    fn packet(&self, i: usize) -> Packet {
        Packet::from_bytes(&self.sent[i].0).unwrap()
    }
}

impl PacketSink for Wire {
    fn send_to(&mut self, bytes: &[u8], peer: PeerAddr) -> bool {
        if self.accept {
            self.sent.push((bytes.to_vec(), peer));
        }
        self.accept
    }
}

fn addr(port: u16) -> PeerAddr {
    PeerAddr { ip: 0x7f00_0001, is_v6: false, port, flowinfo: 0, scope_id: 0 }
}

fn connected_client(wire: &mut Link<Wire>) -> ConnectionTable {
    let mut t = ConnectionTable::new(ConnectionConfig::default());
    t.connect(wire, addr(1), 0).unwrap();
    let ack = Packet::new(PacketType::ConnectAck, 0, 0, vec![]);
    t.receiver_receive(wire, addr(1), ack, 1);
    t
}

#[test]
fn connect_sends_request_and_waits() {
    let mut wire = Link::new(Wire::new());
    let mut t = ConnectionTable::new(ConnectionConfig::default());
    assert_eq!(t.connect(&mut wire, addr(1), 0), Ok(()));
    assert_eq!(t.find(addr(1)), Some(0));
    assert_eq!(t.connections[0].state, ConnectionState::Connecting);
    assert!(!t.is_connected(addr(1)));
    let p = wire.sink.packet(0);
    assert_eq!(p.header.packet_type, PacketType::Connect);
    assert_eq!(p.header.seq_num, 0);
    assert_eq!(wire.sink.sent[0].1, addr(1));
}

#[test]
fn second_connect_is_refused() {
    let mut wire = Link::new(Wire::new());
    let mut t = ConnectionTable::new(ConnectionConfig::default());
    t.connect(&mut wire, addr(1), 0).unwrap();
    assert_eq!(t.connect(&mut wire, addr(1), 5), Err(ProtocolError::AlreadyConnected));
    assert_eq!(t.connections.len(), 1);
}

#[test]
fn connect_that_cannot_be_sent_leaves_no_connection() {
    let mut wire = Link::new(Wire::new());
    wire.sink.accept = false;
    let mut t = ConnectionTable::new(ConnectionConfig::default());
    assert_eq!(t.connect(&mut wire, addr(1), 0), Err(ProtocolError::SendFailed));
    assert!(t.connections.is_empty());
}

#[test]
fn handshake_connects_client() {
    let mut wire = Link::new(Wire::new());
    let t = connected_client(&mut wire);
    assert!(t.is_connected(addr(1)));
    assert!(t.connections[0].pending_packets.is_empty());
    assert!(!t.is_connected(addr(2)));
}

#[test]
fn send_splits_into_payload_sized_packets() {
    let mut wire = Link::new(Wire::new());
    let mut t = connected_client(&mut wire);
    let data: Vec<u8> = (0..3000u32).map(|i| (i % 251) as u8).collect();
    let before = wire.sink.sent.len();
    assert_eq!(t.send(&mut wire, addr(1), &data, 10), Ok(()));
    assert_eq!(wire.sink.sent.len(), before + 3);
    let mut joined = Vec::new();
    let mut sizes = Vec::new();
    for i in before..wire.sink.sent.len() {
        let p = wire.sink.packet(i);
        assert_eq!(p.header.packet_type, PacketType::Data);
        sizes.push(p.payload.len());
        joined.extend_from_slice(&p.payload);
    }
    assert_eq!(sizes, vec![1384, 1384, 232]);
    assert_eq!(joined, data);
    assert_eq!(t.connections[0].pending_packets.len(), 3);
}

#[test]
fn send_to_unknown_peer() {
    let mut wire = Link::new(Wire::new());
    let mut t = ConnectionTable::new(ConnectionConfig::default());
    assert_eq!(t.send(&mut wire, addr(9), b"x", 0), Err(ProtocolError::ConnectionNotFound));
}

#[test]
fn send_before_established() {
    let mut wire = Link::new(Wire::new());
    let mut t = ConnectionTable::new(ConnectionConfig::default());
    t.connect(&mut wire, addr(1), 0).unwrap();
    assert_eq!(t.send(&mut wire, addr(1), b"x", 0), Err(ProtocolError::NotConnected));
}

#[test]
fn send_with_no_room_for_payload() {
    let mut wire = Link::new(Wire::new());
    let mut cfg = ConnectionConfig::default();
    cfg.max_packet_size = 16;
    let mut t = ConnectionTable::new(cfg);
    t.connect(&mut wire, addr(1), 0).unwrap();
    t.receiver_receive(&mut wire, addr(1), Packet::new(PacketType::ConnectAck, 0, 0, vec![]), 1);
    assert!(t.is_connected(addr(1)));
    assert_eq!(t.send(&mut wire, addr(1), b"x", 2), Err(ProtocolError::PacketSizeTooSmall));
}

#[test]
fn disconnect_sends_request() {
    let mut wire = Link::new(Wire::new());
    let mut t = connected_client(&mut wire);
    assert_eq!(t.disconnect(&mut wire, addr(1), 5), Ok(()));
    assert_eq!(t.connections[0].state, ConnectionState::Disconnecting);
    let last = wire.sink.packet(wire.sink.sent.len() - 1);
    assert_eq!(last.header.packet_type, PacketType::Disconnect);
}

#[test]
fn disconnect_unknown_peer() {
    let mut wire = Link::new(Wire::new());
    let mut t = ConnectionTable::new(ConnectionConfig::default());
    assert_eq!(t.disconnect(&mut wire, addr(3), 0), Err(ProtocolError::ConnectionNotFound));
}

#[test]
fn server_accepts_new_connect_request() {
    let mut wire = Link::new(Wire::new());
    let mut t = ConnectionTable::new(ConnectionConfig::default());
    t.server_receive(&mut wire, addr(7), Packet::new(PacketType::Connect, 0, 0, vec![]), 3);
    assert_eq!(t.find(addr(7)), Some(0));
    assert_eq!(t.connections[0].state, ConnectionState::Connecting);
    assert_eq!(t.connections[0].next_expected_seq, 1);
    let ack = wire.sink.packet(0);
    assert_eq!(ack.header.packet_type, PacketType::ConnectAck);
    assert_eq!(ack.header.ack_num, 0);
}

#[test]
fn server_opens_connections_with_its_own_settings() {
    let mut wire = Link::new(Wire::new());
    let mut cfg = ConnectionConfig::default();
    cfg.max_retransmissions = 9;
    cfg.initial_rtt = 40_000_000;
    let mut t = ConnectionTable::new(cfg);
    t.server_receive(&mut wire, addr(7), Packet::new(PacketType::Connect, 0, 0, vec![]), 3);
    assert_eq!(t.connections[0].config, cfg);
    assert_eq!(t.connections[0].rtt, 40_000_000);
}

#[test]
fn server_ignores_data_from_unknown_peer() {
    let mut wire = Link::new(Wire::new());
    let mut t = ConnectionTable::new(ConnectionConfig::default());
    t.server_receive(&mut wire, addr(7), Packet::new(PacketType::Data, 0, 0, vec![1]), 3);
    assert!(t.connections.is_empty());
    assert!(wire.sink.sent.is_empty());
}

#[test]
fn receiver_hands_over_data() {
    let mut wire = Link::new(Wire::new());
    let mut t = connected_client(&mut wire);
    let d = t.receiver_receive(&mut wire, addr(1), Packet::new(PacketType::Data, 0, 0, b"hi".to_vec()), 2);
    assert_eq!(d, Some(b"hi".to_vec()));
    let none = t.receiver_receive(&mut wire, addr(2), Packet::new(PacketType::Data, 1, 0, b"x".to_vec()), 3);
    assert_eq!(none, None);
}

#[test]
fn maintenance_removes_closed_connections() {
    let mut wire = Link::new(Wire::new());
    let mut t = connected_client(&mut wire);
    t.connect(&mut wire, addr(2), 0).unwrap();
    t.receiver_receive(&mut wire, addr(1), Packet::new(PacketType::Disconnect, 5, 0, vec![]), 2);
    assert_eq!(t.connections[0].state, ConnectionState::Closed);
    let outcomes = t.maintain(&mut wire, 3);
    assert_eq!(outcomes.len(), 2);
    assert_eq!(t.connections.len(), 1);
    assert_eq!(t.find(addr(2)), Some(0));
    assert_eq!(t.find(addr(1)), None);
}

#[test]
fn maintenance_removes_idle_connections() {
    let mut wire = Link::new(Wire::new());
    let mut t = connected_client(&mut wire);
    t.maintain(&mut wire, 20_000_000_000);
    assert_eq!(t.connections.len(), 1);
    t.maintain(&mut wire, 40_000_000_000);
    assert!(t.connections.is_empty());
}

#[test]
fn peer_timeouts_checked_only_for_known_peers() {
    let mut wire = Link::new(Wire::new());
    let mut t = connected_client(&mut wire);
    assert_eq!(t.check_peer_timeouts(&mut wire, addr(1), 2), Some(Ok(())));
    assert_eq!(t.check_peer_timeouts(&mut wire, addr(5), 2), None);
}

#[test]
fn refused_send_is_reported_and_recorded() {
    let mut wire = Link::new(Wire::new());
    let mut t = connected_client(&mut wire);
    let before = wire.sent.len();
    wire.sink.accept = false;
    assert_eq!(t.send(&mut wire, addr(1), b"abc", 5), Err(ProtocolError::SendFailed));
    assert_eq!(wire.sent.len(), before + 1);
    assert!(!wire.sent[before].2);
    assert!(t.connections[0].pending_packets.is_empty());
}

#[test]
fn errors_before_sending_hand_over_nothing() {
    let mut wire = Link::new(Wire::new());
    let mut t = ConnectionTable::new(ConnectionConfig::default());
    t.connect(&mut wire, addr(1), 0).unwrap();
    let before = wire.sent.len();
    assert_eq!(t.send(&mut wire, addr(1), b"x", 0), Err(ProtocolError::NotConnected));
    assert_eq!(t.send(&mut wire, addr(4), b"x", 0), Err(ProtocolError::ConnectionNotFound));
    assert_eq!(wire.sent.len(), before);
}
