use echelon::connection::{
    duration_div, Connection, ConnectionConfig, ConnectionState, Link, PacketSink, PeerAddr,
};
use echelon::packet::{Packet, PacketType, ProtocolError, NO_ACK};

struct Recorder {
    sent: Vec<(Vec<u8>, PeerAddr)>,
    accept: bool,
}

impl Recorder {
    fn new() -> Self {
        Recorder { sent: Vec::new(), accept: true }
    }

    fn packet(&self, i: usize) -> Packet {
        Packet::from_bytes(&self.sent[i].0).unwrap()
    }
}

impl PacketSink for Recorder {
    fn send_to(&mut self, bytes: &[u8], peer: PeerAddr) -> bool {
        if self.accept {
            self.sent.push((bytes.to_vec(), peer));
        }
        self.accept
    }
}

fn peer() -> PeerAddr {
    PeerAddr { ip: 0x7f00_0001, is_v6: false, port: 12345, flowinfo: 0, scope_id: 0 }
}

const MS: u64 = 1_000_000;

#[test]
fn default_config_values() {
    let c = ConnectionConfig::default();
    assert_eq!(c.initial_rtt, 100 * MS);
    assert_eq!(c.min_rto, 50 * MS);
    assert_eq!(c.max_rto, 10_000 * MS);
    assert_eq!(c.max_retransmissions, 10);
    assert_eq!(c.receive_window_size, 64);
    assert_eq!(c.max_packet_size, 1400);
    assert_eq!(c.connection_timeout, 30_000 * MS);
}

#[test]
fn duration_division_matches_std() {
    assert_eq!(duration_div(350_000_000, 4), 87_500_000);
    assert_eq!(duration_div(1_000_000_000, 8), 125_000_000);
    assert_eq!(duration_div(7, 2), 3);
    let d = std::time::Duration::from_nanos(12_345_678_901) / 7;
    assert_eq!(duration_div(12_345_678_901, 7), d.as_nanos());
}

#[test]
fn new_connection_is_closed_with_initial_estimates() {
    let c = Connection::new(peer(), ConnectionConfig::default(), 5);
    assert_eq!(c.state, ConnectionState::Closed);
    assert_eq!(c.next_seq_num, 0);
    assert_eq!(c.next_expected_seq, 0);
    assert_eq!(c.rtt, 100_000_000);
    assert_eq!(c.rtt_var, 50_000_000);
    assert_eq!(c.rto, 200_000_000);
    assert!(c.pending_packets.is_empty());
    assert!(c.received_packets.is_empty());
    assert_eq!(c.last_activity, 5);
    assert_eq!(c.created_at, 5);
}

#[test]
fn sending_data_keeps_it_pending() {
    let mut sink = Link::new(Recorder::new());
    let mut c = Connection::new(peer(), ConnectionConfig::default(), 0);
    c.state = ConnectionState::Connected;
    assert_eq!(c.send_packet(&mut sink, PacketType::Data, vec![1, 2, 3], 7), Ok(0));
    assert_eq!(c.send_packet(&mut sink, PacketType::Ack, vec![], 8), Ok(1));
    assert_eq!(c.next_seq_num, 2);
    assert_eq!(c.pending_packets.len(), 1);
    assert_eq!(c.pending_packets[0].packet.header.seq_num, 0);
    assert_eq!(c.pending_packets[0].transmissions, 1);
    assert_eq!(c.pending_packets[0].first_sent, 7);
    assert_eq!(c.last_activity, 8);
    assert_eq!(sink.sink.sent.len(), 2);
    assert_eq!(sink.sink.sent[0].1, peer());
    let p = sink.sink.packet(0);
    assert_eq!(p.header.packet_type, PacketType::Data);
    assert_eq!(p.payload, vec![1, 2, 3]);
}

#[test]
fn failed_send_uses_up_the_number() {
    let mut sink = Link::new(Recorder::new());
    sink.sink.accept = false;
    let mut c = Connection::new(peer(), ConnectionConfig::default(), 0);
    assert_eq!(
        c.send_packet(&mut sink, PacketType::Data, vec![1], 3),
        Err(ProtocolError::SendFailed)
    );
    assert_eq!(c.next_seq_num, 1);
    assert!(c.pending_packets.is_empty());
    assert_eq!(c.last_activity, 0);
}

#[test]
fn acknowledgement_updates_estimates() {
    let mut sink = Link::new(Recorder::new());
    let mut c = Connection::new(peer(), ConnectionConfig::default(), 0);
    c.state = ConnectionState::Connected;
    c.send_packet(&mut sink, PacketType::Data, vec![9], 0).unwrap();
    c.send_packet(&mut sink, PacketType::Data, vec![8], 0).unwrap();
    c.handle_ack(0, 300 * MS);
    assert_eq!(c.pending_packets.len(), 1);
    assert_eq!(c.pending_packets[0].packet.header.seq_num, 1);
    assert_eq!(c.rtt, 125_000_000);
    assert_eq!(c.rtt_var, 87_500_000);
    assert_eq!(c.rto, 475_000_000);
}

#[test]
fn rto_is_clamped_to_minimum() {
    let mut sink = Link::new(Recorder::new());
    let mut c = Connection::new(peer(), ConnectionConfig::default(), 0);
    c.rtt = 0;
    c.rtt_var = 0;
    c.send_packet(&mut sink, PacketType::Data, vec![9], 0).unwrap();
    c.handle_ack(5, 0);
    assert!(c.pending_packets.is_empty());
    assert_eq!(c.rto, 50_000_000u128);
}

#[test]
fn connect_request_on_closed_connection() {
    let mut sink = Link::new(Recorder::new());
    let mut c = Connection::new(peer(), ConnectionConfig::default(), 0);
    let r = c.receive_packet(&mut sink, Packet::new(PacketType::Connect, 5, 0, vec![]), 10);
    assert_eq!(r, Ok(Some(vec![])));
    assert_eq!(c.state, ConnectionState::Connecting);
    assert_eq!(c.next_expected_seq, 6);
    assert_eq!(c.last_activity, 10);
    let p = sink.sink.packet(0);
    assert_eq!(p.header.packet_type, PacketType::ConnectAck);
    assert_eq!(p.header.seq_num, 0);
    assert_eq!(p.header.ack_num, 5);
    assert!(c.pending_packets.is_empty());
}

#[test]
fn connect_request_on_open_connection_is_ignored() {
    let mut sink = Link::new(Recorder::new());
    let mut c = Connection::new(peer(), ConnectionConfig::default(), 0);
    c.state = ConnectionState::Connected;
    let r = c.receive_packet(&mut sink, Packet::new(PacketType::Connect, 5, 0, vec![]), 10);
    assert_eq!(r, Ok(None));
    assert!(sink.sink.sent.is_empty());
    assert_eq!(c.state, ConnectionState::Connected);
}

#[test]
fn connect_ack_establishes_connection() {
    let mut sink = Link::new(Recorder::new());
    let mut c = Connection::new(peer(), ConnectionConfig::default(), 0);
    c.send_packet(&mut sink, PacketType::Connect, vec![], 0).unwrap();
    c.state = ConnectionState::Connecting;
    let r = c.receive_packet(&mut sink, Packet::new(PacketType::ConnectAck, 0, 0, vec![]), 40 * MS);
    assert_eq!(r, Ok(Some(vec![])));
    assert_eq!(c.state, ConnectionState::Connected);
    assert!(c.pending_packets.is_empty());
}

#[test]
fn data_in_order_is_delivered_and_acknowledged() {
    let mut sink = Link::new(Recorder::new());
    let mut c = Connection::new(peer(), ConnectionConfig::default(), 0);
    c.state = ConnectionState::Connected;
    let r = c.receive_packet(&mut sink, Packet::new(PacketType::Data, 0, 0, vec![1, 2]), 1);
    assert_eq!(r, Ok(Some(vec![1, 2])));
    assert_eq!(c.next_expected_seq, 1);
    let ack = sink.sink.packet(0);
    assert_eq!(ack.header.packet_type, PacketType::Ack);
    assert_eq!(ack.header.ack_num, 0);
    assert_eq!(ack.header.flags, 0);
}

#[test]
fn reordered_data_is_delivered_in_order() {
    let mut sink = Link::new(Recorder::new());
    let mut c = Connection::new(peer(), ConnectionConfig::default(), 0);
    c.state = ConnectionState::Connected;
    let r1 = c.receive_packet(&mut sink, Packet::new(PacketType::Data, 1, 0, vec![3, 4]), 1);
    assert_eq!(r1, Ok(None));
    assert_eq!(c.received_packets.len(), 1);
    let r2 = c.receive_packet(&mut sink, Packet::new(PacketType::Data, 0, 0, vec![1, 2]), 2);
    assert_eq!(r2, Ok(Some(vec![1, 2, 3, 4])));
    assert_eq!(c.next_expected_seq, 2);
    assert!(c.received_packets.is_empty());
    assert_eq!(sink.sink.sent.len(), 2);
}

#[test]
fn old_data_is_dropped() {
    let mut sink = Link::new(Recorder::new());
    let mut c = Connection::new(peer(), ConnectionConfig::default(), 0);
    c.state = ConnectionState::Connected;
    c.next_expected_seq = 5;
    let r = c.receive_packet(&mut sink, Packet::new(PacketType::Data, 3, 0, vec![1]), 1);
    assert_eq!(r, Ok(None));
    assert_eq!(c.next_expected_seq, 5);
    assert_eq!(sink.sink.sent.len(), 1);
}

#[test]
fn disconnect_request_closes_and_is_acknowledged() {
    let mut sink = Link::new(Recorder::new());
    let mut c = Connection::new(peer(), ConnectionConfig::default(), 0);
    c.state = ConnectionState::Connected;
    let r = c.receive_packet(&mut sink, Packet::new(PacketType::Disconnect, 0, 0, vec![]), 1);
    assert_eq!(r, Ok(Some(vec![])));
    assert_eq!(c.state, ConnectionState::Closed);
    assert_eq!(sink.sink.packet(0).header.packet_type, PacketType::Ack);
}

#[test]
fn reply_that_cannot_be_sent_is_an_error() {
    let mut sink = Link::new(Recorder::new());
    sink.sink.accept = false;
    let mut c = Connection::new(peer(), ConnectionConfig::default(), 0);
    c.state = ConnectionState::Connected;
    let r = c.receive_packet(&mut sink, Packet::new(PacketType::Data, 0, 0, vec![1]), 1);
    assert_eq!(r, Err(ProtocolError::SendFailed));
    assert_eq!(c.next_expected_seq, 0);
    let refused = Packet::from_bytes(&sink.sent[0].0).unwrap();
    assert_eq!(refused.header.packet_type, PacketType::Ack);
    assert_eq!(refused.header.ack_num, 0);
    assert_eq!(refused.header.flags, 0);
    assert!(!sink.sent[0].2);
    sink.sink.accept = true;
    let again = c.receive_packet(&mut sink, Packet::new(PacketType::Data, 0, 0, vec![1]), 2);
    assert_eq!(again, Ok(Some(vec![1])));
    assert_eq!(c.next_expected_seq, 1);
}

#[test]
fn timed_out_packet_is_retransmitted_with_backoff() {
    let mut sink = Link::new(Recorder::new());
    let mut c = Connection::new(peer(), ConnectionConfig::default(), 0);
    c.state = ConnectionState::Connected;
    c.send_packet(&mut sink, PacketType::Data, vec![5, 6], 0).unwrap();
    assert_eq!(c.check_timeouts(&mut sink, 100 * MS), Ok(()));
    assert_eq!(sink.sink.sent.len(), 1);
    assert_eq!(c.check_timeouts(&mut sink, 300 * MS), Ok(()));
    assert_eq!(sink.sink.sent.len(), 2);
    assert_eq!(sink.sink.sent[1].0, sink.sink.sent[0].0);
    assert_eq!(c.pending_packets[0].transmissions, 2);
    assert_eq!(c.pending_packets[0].last_sent, 300 * MS);
    assert_eq!(c.rto, 400_000_000u128);
    assert_eq!(c.state, ConnectionState::Connected);
}

#[test]
fn backoff_is_capped_at_max_rto() {
    let mut sink = Link::new(Recorder::new());
    let mut c = Connection::new(peer(), ConnectionConfig::default(), 0);
    c.state = ConnectionState::Connected;
    c.rto = 9_000_000_000u128;
    c.send_packet(&mut sink, PacketType::Data, vec![5], 0).unwrap();
    c.check_timeouts(&mut sink, 9_500 * MS).unwrap();
    assert_eq!(c.rto, 10_000_000_000u128);
}

#[test]
fn exhausted_connect_request_closes_connection() {
    let mut sink = Link::new(Recorder::new());
    let mut cfg = ConnectionConfig::default();
    cfg.max_retransmissions = 1;
    let mut c = Connection::new(peer(), cfg, 0);
    c.send_packet(&mut sink, PacketType::Connect, vec![], 0).unwrap();
    c.state = ConnectionState::Connecting;
    assert_eq!(c.check_timeouts(&mut sink, 300 * MS), Ok(()));
    assert!(c.pending_packets.is_empty());
    assert_eq!(c.state, ConnectionState::Closed);
    assert_eq!(sink.sink.sent.len(), 1);
}

#[test]
fn idle_connection_times_out() {
    let mut sink = Link::new(Recorder::new());
    let mut c = Connection::new(peer(), ConnectionConfig::default(), 0);
    c.state = ConnectionState::Connected;
    assert_eq!(c.check_timeouts(&mut sink, 30_000 * MS), Ok(()));
    assert_eq!(c.state, ConnectionState::Connected);
    assert_eq!(c.check_timeouts(&mut sink, 30_001 * MS), Ok(()));
    assert_eq!(c.state, ConnectionState::Closed);
}

#[test]
fn failed_retransmission_is_reported() {
    let mut sink = Link::new(Recorder::new());
    let mut c = Connection::new(peer(), ConnectionConfig::default(), 0);
    c.state = ConnectionState::Connected;
    c.send_packet(&mut sink, PacketType::Data, vec![5], 0).unwrap();
    sink.sink.accept = false;
    assert_eq!(c.check_timeouts(&mut sink, 300 * MS), Err(ProtocolError::SendFailed));
    assert_eq!(c.pending_packets[0].transmissions, 1);
}

#[test]
fn packet_is_dropped_after_its_last_transmission() {
    let mut sink = Link::new(Recorder::new());
    let mut cfg = ConnectionConfig::default();
    cfg.max_retransmissions = 2;
    let mut c = Connection::new(peer(), cfg, 0);
    c.state = ConnectionState::Connected;
    c.send_packet(&mut sink, PacketType::Data, vec![1], 0).unwrap();
    c.check_timeouts(&mut sink, 300 * MS).unwrap();
    assert_eq!(c.pending_packets[0].transmissions, 2);
    assert_eq!(sink.sink.sent.len(), 2);
    c.check_timeouts(&mut sink, 800 * MS).unwrap();
    assert!(c.pending_packets.is_empty());
    assert_eq!(sink.sink.sent.len(), 2);
    assert_eq!(c.state, ConnectionState::Connected);
}

#[test]
fn duplicate_data_is_not_delivered_again() {
    let mut sink = Link::new(Recorder::new());
    let mut c = Connection::new(peer(), ConnectionConfig::default(), 0);
    c.state = ConnectionState::Connected;
    let first = c.receive_packet(&mut sink, Packet::new(PacketType::Data, 0, 0, vec![7]), 1);
    assert_eq!(first, Ok(Some(vec![7])));
    let again = c.receive_packet(&mut sink, Packet::new(PacketType::Data, 0, 0, vec![7]), 2);
    assert_eq!(again, Ok(None));
    assert_eq!(c.next_expected_seq, 1);
    assert!(c.received_packets.is_empty());
    assert_eq!(sink.sink.sent.len(), 2);
}

#[test]
fn acknowledgement_number_is_last_packet_received_in_order() {
    let mut sink = Link::new(Recorder::new());
    let mut c = Connection::new(peer(), ConnectionConfig::default(), 0);
    c.state = ConnectionState::Connected;
    c.next_expected_seq = 4;
    c.send_packet(&mut sink, PacketType::Data, vec![1], 0).unwrap();
    assert_eq!(sink.sink.packet(0).header.ack_num, 3);
    assert_eq!(sink.sink.packet(0).header.flags, 0);
}

#[test]
fn nothing_received_is_flagged() {
    let mut sink = Link::new(Recorder::new());
    let mut c = Connection::new(peer(), ConnectionConfig::default(), 0);
    c.send_packet(&mut sink, PacketType::Data, vec![1], 0).unwrap();
    assert_eq!(sink.sink.packet(0).header.ack_num, 0);
    assert_eq!(sink.sink.packet(0).header.flags, NO_ACK);
}

#[test]
fn flagged_packet_acknowledges_nothing() {
    let mut sink = Link::new(Recorder::new());
    let mut c = Connection::new(peer(), ConnectionConfig::default(), 0);
    c.state = ConnectionState::Connected;
    c.send_packet(&mut sink, PacketType::Data, vec![1], 0).unwrap();
    let flagged = Packet::with_flags(PacketType::Ack, 0, 0, NO_ACK, vec![]);
    assert_eq!(c.receive_packet(&mut sink, flagged, 10), Ok(None));
    assert_eq!(c.pending_packets.len(), 1);
    let plain = Packet::new(PacketType::Ack, 1, 0, vec![]);
    assert_eq!(c.receive_packet(&mut sink, plain, 10), Ok(None));
    assert!(c.pending_packets.is_empty());
}

#[test]
fn largest_number_acknowledges_everything() {
    let mut sink = Link::new(Recorder::new());
    let mut c = Connection::new(peer(), ConnectionConfig::default(), 0);
    c.send_packet(&mut sink, PacketType::Data, vec![1], 0).unwrap();
    c.send_packet(&mut sink, PacketType::Data, vec![2], 0).unwrap();
    c.handle_ack(u32::MAX, 300 * MS);
    assert!(c.pending_packets.is_empty());
    assert_eq!(c.rtt, 146_875_000);
    assert_eq!(c.rtt_var, 109_375_000);
    assert_eq!(c.rto, 584_375_000);
}

#[test]
fn link_records_datagrams_and_answers() {
    let mut sink = Link::new(Recorder::new());
    let mut c = Connection::new(peer(), ConnectionConfig::default(), 0);
    c.send_packet(&mut sink, PacketType::Data, vec![9, 8], 0).unwrap();
    sink.sink.accept = false;
    assert_eq!(
        c.send_packet(&mut sink, PacketType::Data, vec![7], 0),
        Err(ProtocolError::SendFailed)
    );
    assert_eq!(sink.sent.len(), 2);
    assert_eq!(sink.sent[0].0, Packet::with_flags(PacketType::Data, 0, 0, NO_ACK, vec![9, 8]).to_bytes());
    assert_eq!(sink.sent[0].1, peer());
    assert!(sink.sent[0].2);
    assert_eq!(sink.sent[1].0, Packet::with_flags(PacketType::Data, 1, 0, NO_ACK, vec![7]).to_bytes());
    assert!(!sink.sent[1].2);
}

#[test]
fn retransmission_carries_the_original_bytes() {
    let mut sink = Link::new(Recorder::new());
    let mut c = Connection::new(peer(), ConnectionConfig::default(), 0);
    c.state = ConnectionState::Connected;
    c.send_packet(&mut sink, PacketType::Data, vec![3, 1, 4], 0).unwrap();
    c.check_timeouts(&mut sink, 300 * MS).unwrap();
    assert_eq!(sink.sent.len(), 2);
    assert_eq!(sink.sent[1].0, sink.sent[0].0);
    assert!(sink.sent[1].2);
}
