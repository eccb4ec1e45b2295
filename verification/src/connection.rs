//! One connection of the protocol: sequence numbers, acknowledgement,
//! round-trip estimation, retransmission and in-order delivery.
//!
//! Times are nanoseconds: instants are counted from a clock origin chosen by
//! the caller, durations are plain counts.
use vstd::prelude::*;
use std::collections::HashMap;
use crate::packet::{
    NO_ACK, Packet, PacketHeader, PacketType, ProtocolError, flagged_header, packet_bytes,
};

verus! {

broadcast use vstd::std_specs::hash::group_hash_axioms;

/// The address of a peer: an IPv4 or IPv6 address and a port.  For IPv4 the
/// address is held in the low 32 bits and `flowinfo` and `scope_id` are zero.
#[derive(Clone, Copy, Debug, PartialEq, Eq, Structural)]
pub struct PeerAddr {
    pub ip: u128,
    pub is_v6: bool,
    pub port: u16,
    pub flowinfo: u32,
    pub scope_id: u32,
}

/// The state of a connection.
#[derive(Clone, Copy, Debug, PartialEq, Eq, Structural)]
pub enum ConnectionState {
    Closed,
    Connecting,
    Connected,
    Disconnecting,
}

/// The settings of a connection; durations in nanoseconds.
#[derive(Clone, Copy, Debug, PartialEq, Eq, Structural)]
pub struct ConnectionConfig {
    /// Round-trip time assumed before any measurement.
    pub initial_rtt: u64,
    /// Lower bound of the retransmission timeout.
    pub min_rto: u64,
    /// Upper bound of the retransmission timeout.
    pub max_rto: u64,
    /// Number of transmissions after which an unacknowledged packet is dropped.
    pub max_retransmissions: u32,
    /// Receive window size (kept for flow control; not used).
    pub receive_window_size: u32,
    /// Largest datagram, header included.
    pub max_packet_size: usize,
    /// Idle time after which a connection is closed.
    pub connection_timeout: u64,
}

impl Default for ConnectionConfig {
    fn default() -> (r: Self)
        ensures
            r == default_config(),
    {
        ConnectionConfig {
            initial_rtt: 100_000_000,
            min_rto: 50_000_000,
            max_rto: 10_000_000_000,
            max_retransmissions: 10,
            receive_window_size: 64,
            max_packet_size: 1400,
            connection_timeout: 30_000_000_000,
        }
    }
}

/// The default settings: 100 ms initial RTT, RTO between 50 ms and 10 s,
/// 10 transmissions, window 64, 1400-byte datagrams, 30 s idle timeout.
pub open spec fn default_config() -> ConnectionConfig {
    ConnectionConfig {
        initial_rtt: 100_000_000,
        min_rto: 50_000_000,
        max_rto: 10_000_000_000,
        max_retransmissions: 10,
        receive_window_size: 64,
        max_packet_size: 1400,
        connection_timeout: 30_000_000_000,
    }
}

/// A sent packet that awaits its acknowledgement.
#[derive(Debug)]
pub struct PendingPacket {
    pub packet: Packet,
    pub first_sent: u64,
    pub last_sent: u64,
    pub transmissions: u32,
}

/// Hands datagrams to the network.
pub trait PacketSink {
    /// Sends `bytes` to `peer`; `true` when the datagram was handed over.
    fn send_to(&mut self, bytes: &[u8], peer: PeerAddr) -> bool;
}

/// Datagrams handed to the network, each with its peer and the network's
/// answer (`true` when it was taken).
pub type Wire = Seq<(Seq<u8>, PeerAddr, bool)>;

/// A packet sink together with the record of every datagram handed to it,
/// the peer it was for, and the sink's answer.
pub struct Link<S: PacketSink> {
    pub sink: S,
    pub sent: Vec<(Vec<u8>, PeerAddr, bool)>,
}

impl<S: PacketSink> Link<S> {
    /// What was handed to the sink, in order.
    pub open spec fn log(&self) -> Wire {
        self.sent@.map_values(|e: (Vec<u8>, PeerAddr, bool)| (e.0@, e.1, e.2))
    }

    /// A link over `sink` through which nothing was sent yet.
    pub fn new(sink: S) -> (r: Self)
        ensures
            r.sink == sink,
            r.log() == Seq::<(Seq<u8>, PeerAddr, bool)>::empty(),
    {
        Link { sink, sent: Vec::new() }
    }

    /// Hands `bytes` to the sink for `peer` and records them with the
    /// sink's answer, which it returns.
    pub fn transmit(&mut self, bytes: Vec<u8>, peer: PeerAddr) -> (ok: bool)
        ensures
            final(self).log() == old(self).log().push((bytes@, peer, ok)),
    {
        let ok = self.sink.send_to(bytes.as_slice(), peer);
        let ghost before = self.log();
        self.sent.push((bytes, peer, ok));
        assert(self.log() =~= before.push((bytes@, peer, ok)));
        ok
    }
}

/// The datagrams added to `before` to give `after`.
pub open spec fn added(before: Wire, after: Wire) -> Wire {
    after.skip(before.len() as int)
}

/// `after` is `before` with datagrams added at the end.
pub open spec fn extends(before: Wire, after: Wire) -> bool {
    after.len() >= before.len() && after.take(before.len() as int) == before
}

/// The header of a packet of type `t` numbered `seq` that a connection
/// expecting `next_expected` sends with `payload`: it acknowledges the last
/// data packet received in order (number `next_expected - 1`); before any
/// was received it carries the `NO_ACK` flag and number 0.
pub open spec fn outgoing_header(
    t: PacketType,
    seq: u32,
    next_expected: u32,
    payload: Seq<u8>,
) -> PacketHeader {
    if next_expected == 0 {
        flagged_header(t, seq, 0, NO_ACK, payload)
    } else {
        flagged_header(t, seq, (next_expected - 1) as u32, 0, payload)
    }
}

/// The acknowledgement number a received header carries, if any.
pub open spec fn header_ack(h: PacketHeader) -> Option<u32> {
    if h.flags % 2 == 1 {
        None
    } else {
        Some(h.ack_num)
    }
}

/// An acknowledgement number `ack` covers the packet numbered `seq`: every
/// packet numbered up to it is acknowledged.
pub open spec fn acknowledges(ack: u32, seq: u32) -> bool {
    seq <= ack
}

/// The state of the exchange with one peer.
#[derive(Debug)]
pub struct Connection {
    pub peer_addr: PeerAddr,
    pub state: ConnectionState,
    pub config: ConnectionConfig,
    pub next_seq_num: u32,
    pub next_expected_seq: u32,
    pub rtt: u128,
    pub rtt_var: u128,
    pub rto: u128,
    pub pending_packets: Vec<PendingPacket>,
    pub received_packets: HashMap<u32, Vec<u8>>,
    pub last_activity: u64,
    pub created_at: u64,
}

pub open spec fn nanos_per_sec() -> int {
    1_000_000_000
}

/// `Duration / u32` as std computes it: whole seconds and the nanosecond
/// part are divided separately, the remainder seconds carried over.
pub open spec fn dur_div(d: int, r: int) -> int {
    let secs = d / nanos_per_sec();
    let n = d % nanos_per_sec();
    (secs / r) * nanos_per_sec() + ((secs % r) * nanos_per_sec()) / r + n / r
}

/// `Instant::duration_since`, which saturates at zero.
pub open spec fn since(now: u64, earlier: u64) -> int {
    if now >= earlier {
        now - earlier
    } else {
        0
    }
}

/// One round-trip sample folded into `(rtt, rtt_var, rto)` (Jacobson's
/// estimator): the variance from the old estimate, then the estimate, then
/// `rto = rtt + 4 * rtt_var` clamped to `[min_rto, max_rto]`.
pub open spec fn rtt_step(est: (int, int, int), sample: int, cfg: ConnectionConfig) -> (
    int,
    int,
    int,
) {
    let (rtt, var, _) = est;
    let delta = if sample > rtt {
        sample - rtt
    } else {
        rtt - sample
    };
    let var2 = dur_div(3 * var + delta, 4);
    let rtt2 = dur_div(7 * rtt + sample, 8);
    let rto0 = rtt2 + 4 * var2;
    let rto2 = if rto0 < cfg.min_rto {
        cfg.min_rto as int
    } else if rto0 > cfg.max_rto {
        cfg.max_rto as int
    } else {
        rto0
    };
    (rtt2, var2, rto2)
}

/// The estimates after the acknowledged packets `acked`, in order.
pub open spec fn rtt_after(
    est: (int, int, int),
    acked: Seq<PendingPacket>,
    cfg: ConnectionConfig,
    now: u64,
) -> (int, int, int)
    decreases acked.len(),
{
    if acked.len() == 0 {
        est
    } else {
        rtt_step(
            rtt_after(est, acked.drop_last(), cfg, now),
            since(now, acked.last().first_sent),
            cfg,
        )
    }
}

pub open spec fn seq_of(p: PendingPacket) -> u32 {
    p.packet.header.seq_num
}

/// The leading pending packets that `ack` acknowledges.
pub open spec fn acked_count(ps: Seq<PendingPacket>, ack: u32) -> nat
    decreases ps.len(),
{
    if ps.len() > 0 && acknowledges(ack, seq_of(ps[0])) {
        1 + acked_count(ps.drop_first(), ack)
    } else {
        0
    }
}

/// Pending packets are in increasing order of sequence number, all below `next`.
pub open spec fn pending_ordered(ps: Seq<PendingPacket>, next: u32) -> bool {
    &&& forall|i: int, j: int| 0 <= i < j < ps.len() ==> seq_of(ps[i]) < seq_of(ps[j])
    &&& forall|i: int| 0 <= i < ps.len() ==> seq_of(#[trigger] ps[i]) < next
}

pub open spec fn est_of(c: &Connection) -> (int, int, int) {
    (c.rtt as int, c.rtt_var as int, c.rto as int)
}

/// Peer, settings and creation time never change.
pub open spec fn same_identity(a: &Connection, b: &Connection) -> bool {
    &&& b.peer_addr == a.peer_addr
    &&& b.config == a.config
    &&& b.created_at == a.created_at
}

/// Sequence numbers and buffered out-of-order data are unchanged.
pub open spec fn same_flow(a: &Connection, b: &Connection) -> bool {
    &&& b.next_seq_num == a.next_seq_num
    &&& b.next_expected_seq == a.next_expected_seq
    &&& b.received_packets@ == a.received_packets@
}

pub open spec fn same_estimates(a: &Connection, b: &Connection) -> bool {
    &&& b.rtt == a.rtt
    &&& b.rtt_var == a.rtt_var
    &&& b.rto == a.rto
}

/// The effect of the acknowledgement a received header carries: applied
/// when it carries a number, nothing otherwise.
pub open spec fn ack_received(a: &Connection, b: &Connection, h: PacketHeader, now: u64) -> bool {
    match header_ack(h) {
        Some(n) => ack_applied(a, b, n, now),
        None => b.pending_packets@ == a.pending_packets@ && est_of(b) == est_of(a),
    }
}

/// The pending packets after acknowledging `ack`: those with larger numbers.
pub open spec fn ack_applied(a: &Connection, b: &Connection, ack: u32, now: u64) -> bool {
    let k = acked_count(a.pending_packets@, ack) as int;
    &&& b.pending_packets@ == a.pending_packets@.skip(k)
    &&& est_of(b) == rtt_after(est_of(a), a.pending_packets@.take(k), a.config, now)
}

proof fn lemma_dur_div_le(d: int, r: int)
    requires
        d >= 0,
        r > 0,
    ensures
        0 <= dur_div(d, r) <= d / r,
{
    let s = d / nanos_per_sec();
    let n = d % nanos_per_sec();
    let q = s / r;
    let t = s % r;
    let g = nanos_per_sec();
    assert(d == s * g + n) by {
        vstd::arithmetic::div_mod::lemma_fundamental_div_mod(d, g);
    }
    assert(s == r * q + t && 0 <= t < r) by {
        vstd::arithmetic::div_mod::lemma_fundamental_div_mod(s, r);
    }
    assert(s >= 0 && 0 <= n < g) by {
        vstd::arithmetic::div_mod::lemma_div_pos_is_pos(d, g);
    }
    assert(d == r * (q * g) + (t * g + n)) by (nonlinear_arith)
        requires
            d == s * g + n,
            s == r * q + t,
    ;
    assert(d / r == q * g + (t * g + n) / r) by {
        let w = t * g + n;
        vstd::arithmetic::div_mod::lemma_fundamental_div_mod(w, r);
        vstd::arithmetic::div_mod::lemma_mod_bound(w, r);
        assert(d == (q * g + w / r) * r + w % r) by (nonlinear_arith)
            requires
                d == r * (q * g) + w,
                w == r * (w / r) + w % r,
        ;
        vstd::arithmetic::div_mod::lemma_fundamental_div_mod_converse_div(
            d,
            r,
            q * g + w / r,
            w % r,
        );
    }
    assert((t * g) / r + n / r <= (t * g + n) / r) by {
        vstd::arithmetic::div_mod::lemma_fundamental_div_mod(t * g, r);
        vstd::arithmetic::div_mod::lemma_fundamental_div_mod(n, r);
        vstd::arithmetic::div_mod::lemma_fundamental_div_mod(t * g + n, r);
        let a1 = (t * g) / r;
        let a2 = n / r;
        let a3 = (t * g + n) / r;
        assert(t * g >= 0) by (nonlinear_arith)
            requires
                t >= 0,
                g > 0,
        ;
        assert(r * (a1 + a2) <= t * g + n) by (nonlinear_arith)
            requires
                t * g == r * a1 + (t * g) % r,
                n == r * a2 + n % r,
                (t * g) % r >= 0,
                n % r >= 0,
        ;
        assert(t * g + n == r * a3 + (t * g + n) % r);
        assert((t * g + n) % r < r) by {
            vstd::arithmetic::div_mod::lemma_mod_bound(t * g + n, r);
        }
        assert(a1 + a2 <= a3) by (nonlinear_arith)
            requires
                r * (a1 + a2) <= t * g + n,
                t * g + n == r * a3 + (t * g + n) % r,
                (t * g + n) % r < r,
                r > 0,
        ;
    }
    assert(q >= 0 && (t * g) / r >= 0 && n / r >= 0) by {
        vstd::arithmetic::div_mod::lemma_div_pos_is_pos(s, r);
        assert(t * g >= 0) by (nonlinear_arith)
            requires
                t >= 0,
                g > 0,
        ;
        vstd::arithmetic::div_mod::lemma_div_pos_is_pos(t * g, r);
        vstd::arithmetic::div_mod::lemma_div_pos_is_pos(n, r);
    }
    assert(q * g >= 0) by (nonlinear_arith)
        requires
            q >= 0,
            g > 0,
    ;
}

/// `Duration / r` on nanosecond counts.
pub fn duration_div(d: u128, r: u32) -> (q: u128)
    requires
        r > 0,
        d <= 0x10_0000_0000_0000_0000,
    ensures
        q == dur_div(d as int, r as int),
        q <= d / (r as u128),
{
    let g: u128 = 1_000_000_000;
    let secs = d / g;
    let n = d % g;
    let rr = r as u128;
    proof {
        lemma_dur_div_le(d as int, r as int);
        assert((secs % rr) * g <= rr * g) by (nonlinear_arith)
            requires
                secs % rr < rr,
                g > 0,
        ;
        assert((secs / rr) * g <= secs * g) by (nonlinear_arith)
            requires
                secs / rr <= secs,
                g > 0,
        ;
        assert(secs * g <= d) by (nonlinear_arith)
            requires
                secs == d / g,
                g > 0,
        ;
    }
    (secs / rr) * g + ((secs % rr) * g) / rr + n / rr
}

proof fn lemma_rtt_step_bounds(est: (int, int, int), sample: int, cfg: ConnectionConfig)
    requires
        0 <= est.0 <= u64::MAX,
        0 <= est.1 <= u64::MAX,
        0 <= sample <= u64::MAX,
    ensures
        0 <= rtt_step(est, sample, cfg).0 <= u64::MAX,
        0 <= rtt_step(est, sample, cfg).1 <= u64::MAX,
        0 <= rtt_step(est, sample, cfg).2 <= u64::MAX,
{
    let (rtt, var, _) = est;
    let delta = if sample > rtt {
        sample - rtt
    } else {
        rtt - sample
    };
    lemma_dur_div_le(3 * var + delta, 4);
    lemma_dur_div_le(7 * rtt + sample, 8);
}

/// The packet types that are kept for retransmission until acknowledged.
pub open spec fn is_reliable(t: PacketType) -> bool {
    t == PacketType::Data || t == PacketType::Connect
}

/// `after` is `before` with one more pending packet: header `h`, payload
/// `payload`, sent once at `now`.
pub open spec fn pending_pushed(
    before: Seq<PendingPacket>,
    after: Seq<PendingPacket>,
    h: PacketHeader,
    payload: Seq<u8>,
    now: u64,
) -> bool {
    &&& after.len() == before.len() + 1
    &&& after.take(before.len() as int) == before
    &&& after.last().packet.header == h
    &&& after.last().packet.payload@ == payload
    &&& after.last().first_sent == now
    &&& after.last().last_sent == now
    &&& after.last().transmissions == 1
}

/// The first position at or after `k` that holds no buffered packet
/// (`2^32` when every number from `k` on is buffered).
pub open spec fn chain_end(m: Map<u32, Vec<u8>>, k: int) -> int
    decreases 0x1_0000_0000 - k,
{
    if 0 <= k < 0x1_0000_0000 && m.contains_key(k as u32) {
        chain_end(m, k + 1)
    } else {
        k
    }
}

proof fn lemma_chain_end_ge(m: Map<u32, Vec<u8>>, k: int)
    requires
        k >= 0,
    ensures
        chain_end(m, k) >= k,
    decreases 0x1_0000_0000 - k,
{
    if 0 <= k < 0x1_0000_0000 && m.contains_key(k as u32) {
        lemma_chain_end_ge(m, k + 1);
    }
}

/// The buffered payloads numbered `k`, `k + 1`, ... up to the first gap, joined.
pub open spec fn chain_data(m: Map<u32, Vec<u8>>, k: int) -> Seq<u8>
    decreases 0x1_0000_0000 - k,
{
    if 0 <= k < 0x1_0000_0000 && m.contains_key(k as u32) {
        m[k as u32]@ + chain_data(m, k + 1)
    } else {
        Seq::<u8>::empty()
    }
}

/// The numbers in `(lo, hi)`.
pub open spec fn between(lo: int, hi: int) -> Set<u32> {
    Set::new(|j: u32| lo < j && j < hi)
}

/// Receiving a packet with this header causes no arithmetic overflow: a
/// reply (connect acknowledgement to a connect request when closed, and an
/// acknowledgement of every data packet and disconnect request) needs a
/// free sequence number, and the next expected data packet must not lead
/// the expected number past `u32::MAX`.
pub open spec fn receive_fits(c: &Connection, h: PacketHeader) -> bool {
    &&& (h.packet_type == PacketType::Connect && c.state == ConnectionState::Closed) ==> {
        &&& h.seq_num < u32::MAX
        &&& c.next_seq_num < u32::MAX
    }
    &&& (h.packet_type == PacketType::Data || h.packet_type == PacketType::Disconnect)
        ==> c.next_seq_num < u32::MAX
    &&& (h.packet_type == PacketType::Data && h.seq_num == c.next_expected_seq) ==> {
        &&& h.seq_num < u32::MAX
        &&& chain_end(c.received_packets@, h.seq_num + 1) < 0x1_0000_0000
    }
}

/// The connection with its activity time set to `now`.
pub open spec fn touched(o: Connection, now: u64) -> Connection {
    Connection { last_activity: now, ..o }
}

/// The pending packet has waited longer than `rto` since it was last sent.
pub open spec fn timed_out(p: PendingPacket, rto: u128, now: u64) -> bool {
    since(now, p.last_sent) > rto
}

pub open spec fn retransmits(p: PendingPacket, rto: u128, max_retx: u32, now: u64) -> bool {
    timed_out(p, rto, now) && p.transmissions < max_retx
}

pub open spec fn expires(p: PendingPacket, rto: u128, max_retx: u32, now: u64) -> bool {
    timed_out(p, rto, now) && p.transmissions >= max_retx
}

/// The number of packets of `ps` due for retransmission.
pub open spec fn retransmit_count(ps: Seq<PendingPacket>, rto: u128, max_retx: u32, now: u64) -> nat
    decreases ps.len(),
{
    if ps.len() == 0 {
        0
    } else {
        retransmit_count(ps.drop_last(), rto, max_retx, now) + if retransmits(
            ps.last(),
            rto,
            max_retx,
            now,
        ) {
            1nat
        } else {
            0nat
        }
    }
}

pub open spec fn retransmitted(p: PendingPacket, now: u64) -> PendingPacket {
    PendingPacket {
        packet: p.packet,
        first_sent: p.first_sent,
        last_sent: now,
        transmissions: (p.transmissions + 1) as u32,
    }
}

/// `ps` after the first `j` packets due for retransmission were sent again at `now`.
pub open spec fn resent(
    ps: Seq<PendingPacket>,
    rto: u128,
    max_retx: u32,
    now: u64,
    j: nat,
) -> Seq<PendingPacket> {
    Seq::new(
        ps.len(),
        |i: int|
            if retransmits(ps[i], rto, max_retx, now) && retransmit_count(
                ps.take(i),
                rto,
                max_retx,
                now,
            ) < j {
                retransmitted(ps[i], now)
            } else {
                ps[i]
            },
    )
}

/// `ps` without the packets whose transmissions are used up.
pub open spec fn without_expired(
    ps: Seq<PendingPacket>,
    rto: u128,
    max_retx: u32,
    now: u64,
) -> Seq<PendingPacket>
    decreases ps.len(),
{
    if ps.len() == 0 {
        ps
    } else {
        let r = without_expired(ps.drop_last(), rto, max_retx, now);
        if expires(ps.last(), rto, max_retx, now) {
            r
        } else {
            r.push(ps.last())
        }
    }
}

/// The pending packets after a timeout check: every packet due for
/// retransmission sent again at `now`, then the expired ones dropped.
pub open spec fn pending_after_timeouts(
    ps: Seq<PendingPacket>,
    rto: u128,
    max_retx: u32,
    now: u64,
) -> Seq<PendingPacket> {
    without_expired(
        resent(ps, rto, max_retx, now, retransmit_count(ps, rto, max_retx, now)),
        rto,
        max_retx,
        now,
    )
}

/// The retransmission timeout doubled `k` times, capped at `max_rto`.
pub open spec fn backoff(rto: int, max_rto: int, k: nat) -> int
    decreases k,
{
    if k == 0 {
        rto
    } else {
        let d = 2 * backoff(rto, max_rto, (k - 1) as nat);
        if d < max_rto {
            d
        } else {
            max_rto
        }
    }
}

/// The state after dropping expired packets (a dropped connect request,
/// number 0, closes a connecting connection) and checking the idle timeout.
pub open spec fn state_after_timeouts(c: &Connection, now: u64) -> ConnectionState {
    let ps = c.pending_packets@;
    let s1 = if c.state == ConnectionState::Connecting && exists|i: int|
        0 <= i < ps.len() && expires(#[trigger] ps[i], c.rto, c.config.max_retransmissions, now)
            && seq_of(ps[i]) == 0 {
        ConnectionState::Closed
    } else {
        c.state
    };
    if s1 != ConnectionState::Closed && since(now, c.last_activity) > c.config.connection_timeout {
        ConnectionState::Closed
    } else {
        s1
    }
}

proof fn lemma_retransmit_count_step(ps: Seq<PendingPacket>, rto: u128, mx: u32, now: u64, i: int)
    requires
        0 <= i < ps.len(),
    ensures
        retransmit_count(ps.take(i + 1), rto, mx, now) == retransmit_count(ps.take(i), rto, mx, now)
            + if retransmits(ps[i], rto, mx, now) {
            1nat
        } else {
            0nat
        },
{
    assert(ps.take(i + 1).drop_last() =~= ps.take(i));
}

proof fn lemma_retransmit_count_mono(ps: Seq<PendingPacket>, rto: u128, mx: u32, now: u64, a: int, b: int)
    requires
        0 <= a <= b <= ps.len(),
    ensures
        retransmit_count(ps.take(a), rto, mx, now) <= retransmit_count(ps.take(b), rto, mx, now),
    decreases b - a,
{
    if a < b {
        lemma_retransmit_count_mono(ps, rto, mx, now, a, b - 1);
        lemma_retransmit_count_step(ps, rto, mx, now, b - 1);
    }
}

proof fn lemma_resent_step(ps: Seq<PendingPacket>, rto: u128, mx: u32, now: u64, i: int)
    requires
        0 <= i < ps.len(),
        retransmits(ps[i], rto, mx, now),
    ensures
        ({
            let c = retransmit_count(ps.take(i), rto, mx, now);
            &&& resent(ps, rto, mx, now, c)[i] == ps[i]
            &&& resent(ps, rto, mx, now, c + 1) == resent(ps, rto, mx, now, c).update(
                i,
                retransmitted(ps[i], now),
            )
        }),
{
    let c = retransmit_count(ps.take(i), rto, mx, now);
    let a = resent(ps, rto, mx, now, c);
    let b = resent(ps, rto, mx, now, c + 1);
    assert forall|j: int| 0 <= j < ps.len() implies #[trigger] b[j] == a.update(
        i,
        retransmitted(ps[i], now),
    )[j] by {
        if j < i {
            lemma_retransmit_count_mono(ps, rto, mx, now, j + 1, i);
            lemma_retransmit_count_step(ps, rto, mx, now, j);
        } else if j > i {
            lemma_retransmit_count_mono(ps, rto, mx, now, i + 1, j);
            lemma_retransmit_count_step(ps, rto, mx, now, i);
        }
    }
    assert(b =~= a.update(i, retransmitted(ps[i], now)));
}

proof fn lemma_resent_none(ps: Seq<PendingPacket>, rto: u128, mx: u32, now: u64)
    ensures
        resent(ps, rto, mx, now, 0) == ps,
{
    assert(resent(ps, rto, mx, now, 0) =~= ps);
}

proof fn lemma_resent_keeps_packets(ps: Seq<PendingPacket>, rto: u128, mx: u32, now: u64, j: nat)
    ensures
        resent(ps, rto, mx, now, j).len() == ps.len(),
        forall|i: int|
            0 <= i < ps.len() ==> (#[trigger] resent(ps, rto, mx, now, j)[i]).packet == ps[i].packet,
        forall|i: int|
            0 <= i < ps.len() ==> expires(#[trigger] resent(ps, rto, mx, now, j)[i], rto, mx, now)
                == expires(ps[i], rto, mx, now),
{
}

proof fn lemma_resent_ordered(ps: Seq<PendingPacket>, rto: u128, mx: u32, now: u64, j: nat, next: u32)
    requires
        pending_ordered(ps, next),
    ensures
        pending_ordered(resent(ps, rto, mx, now, j), next),
{
    lemma_resent_keeps_packets(ps, rto, mx, now, j);
    let r = resent(ps, rto, mx, now, j);
    assert forall|x: int, y: int| 0 <= x < y < r.len() implies seq_of(r[x]) < seq_of(r[y]) by {
        assert(r[x].packet == ps[x].packet);
        assert(r[y].packet == ps[y].packet);
    }
}

proof fn lemma_without_expired_ordered(xs: Seq<PendingPacket>, rto: u128, mx: u32, now: u64, next: u32)
    requires
        pending_ordered(xs, next),
    ensures
        pending_ordered(without_expired(xs, rto, mx, now), next),
        forall|i: int|
            0 <= i < without_expired(xs, rto, mx, now).len() ==> xs.contains(
                #[trigger] without_expired(xs, rto, mx, now)[i],
            ),
    decreases xs.len(),
{
    if xs.len() > 0 {
        let d = xs.drop_last();
        assert(pending_ordered(d, next)) by {
            assert forall|i: int, j: int| 0 <= i < j < d.len() implies seq_of(d[i]) < seq_of(
                d[j],
            ) by {
                assert(d[i] == xs[i] && d[j] == xs[j]);
            }
            assert forall|i: int| 0 <= i < d.len() implies seq_of(#[trigger] d[i]) < next by {
                assert(d[i] == xs[i]);
            }
        }
        lemma_without_expired_ordered(d, rto, mx, now, next);
        let r = without_expired(d, rto, mx, now);
        assert forall|i: int| 0 <= i < r.len() implies seq_of(#[trigger] r[i]) < seq_of(
            xs.last(),
        ) by {
            assert(d.contains(r[i]));
            let j = choose|j: int| 0 <= j < d.len() && d[j] == r[i];
            assert(xs[j] == d[j]);
        }
        assert forall|i: int| 0 <= i < r.len() implies xs.contains(#[trigger] r[i]) by {
            assert(d.contains(r[i]));
            let j = choose|j: int| 0 <= j < d.len() && d[j] == r[i];
            assert(xs[j] == d[j]);
        }
        if !expires(xs.last(), rto, mx, now) {
            let r2 = r.push(xs.last());
            assert(xs[xs.len() - 1] == xs.last());
            assert forall|i: int| 0 <= i < r2.len() implies xs.contains(#[trigger] r2[i]) by {
                if i < r.len() {
                    assert(r2[i] == r[i]);
                }
            }
        }
    }
}

proof fn lemma_without_expired_step(xs: Seq<PendingPacket>, rto: u128, mx: u32, now: u64, k: int)
    requires
        0 <= k < xs.len(),
    ensures
        without_expired(xs.take(k + 1), rto, mx, now) == if expires(xs[k], rto, mx, now) {
            without_expired(xs.take(k), rto, mx, now)
        } else {
            without_expired(xs.take(k), rto, mx, now).push(xs[k])
        },
{
    assert(xs.take(k + 1).drop_last() =~= xs.take(k));
}

/// The datagram a connection sends for a packet of type `t` with
/// `payload`: numbered `next_seq_num`, acknowledging the last data packet
/// received in order.
pub open spec fn datagram_of(c: Connection, t: PacketType, payload: Seq<u8>) -> Seq<u8> {
    packet_bytes(outgoing_header(t, c.next_seq_num, c.next_expected_seq, payload), payload)
}

/// The effect of sending a packet of type `t` with `payload` at `now`,
/// with outcome `r`, where `w` is what was handed to the network: exactly
/// the packet's datagram for the peer, and `r` is `Ok` exactly when the
/// network took it.
pub open spec fn sent(
    o: Connection,
    f: Connection,
    t: PacketType,
    payload: Seq<u8>,
    now: u64,
    r: Result<u32, ProtocolError>,
    w: Wire,
) -> bool {
    &&& w == seq![(datagram_of(o, t, payload), o.peer_addr, r is Ok)]
    &&& same_identity(&o, &f)
    &&& same_estimates(&o, &f)
    &&& f.state == o.state
    &&& f.next_seq_num == o.next_seq_num + 1
    &&& f.next_expected_seq == o.next_expected_seq
    &&& f.received_packets@ == o.received_packets@
    &&& match r {
        Ok(seq) => {
            &&& seq == o.next_seq_num
            &&& f.last_activity == now
            &&& is_reliable(t) ==> pending_pushed(
                o.pending_packets@,
                f.pending_packets@,
                outgoing_header(t, o.next_seq_num, o.next_expected_seq, payload),
                payload,
                now,
            )
            &&& !is_reliable(t) ==> f.pending_packets@ == o.pending_packets@
        },
        Err(e) => {
            &&& e == ProtocolError::SendFailed
            &&& f.pending_packets@ == o.pending_packets@
            &&& f.last_activity == o.last_activity
        },
    }
}

/// The next expected number once a data packet with header `h` is taken:
/// past the packet and the buffered packets that follow it when it is the
/// expected one, unchanged otherwise.
pub open spec fn expected_after(c: Connection, h: PacketHeader) -> u32 {
    if h.seq_num == c.next_expected_seq {
        chain_end(c.received_packets@, h.seq_num + 1) as u32
    } else {
        c.next_expected_seq
    }
}

/// The taking of a data packet with header `h` and payload `payload_vec`:
/// the next expected packet is delivered
/// together with the buffered packets that follow it; a later packet is
/// buffered; an earlier one is dropped.  The acknowledgement it carries is
/// applied in each case.
pub open spec fn data_taken(
    m: Connection,
    f: Connection,
    h: PacketHeader,
    payload_vec: Vec<u8>,
    now: u64,
    r: Option<Seq<u8>>,
) -> bool {
    &&& f.last_activity == m.last_activity
    &&& same_identity(&m, &f)
    &&& f.next_seq_num == m.next_seq_num
    &&& f.state == m.state
    &&& ack_received(&m, &f, h, now)
    &&& if h.seq_num == m.next_expected_seq {
        let end = chain_end(m.received_packets@, h.seq_num + 1);
        &&& f.next_expected_seq == end
        &&& f.received_packets@ == m.received_packets@.remove_keys(between(h.seq_num as int, end))
        &&& r == Some(payload_vec@ + chain_data(m.received_packets@, h.seq_num + 1))
    } else if h.seq_num > m.next_expected_seq {
        &&& f.next_expected_seq == m.next_expected_seq
        &&& f.received_packets@ == m.received_packets@.insert(h.seq_num, payload_vec)
        &&& r is None
    } else {
        &&& same_flow(&m, &f)
        &&& r is None
    }
}

/// The effect of receiving a packet with header `h` and payload
/// `payload_vec` at `now`, with result `r`:
/// - a connect request to a closed connection makes it connecting, expects
///   the next number and is answered with a connect acknowledgement;
/// - a connect acknowledgement to a connecting connection establishes it
///   and applies its acknowledgement number;
/// - a data packet is acknowledged with the number of the last data packet
///   received in order once it is taken (see `expected_after`), and is
///   taken (see `data_taken`) when that acknowledgement was handed over;
///   when it was refused, nothing is taken and the packet waits for its
///   retransmission;
/// - an acknowledgement is applied;
/// - a disconnect request is acknowledged and closes the connection.
/// An empty `Some` reports a connection event.  `w` is what was handed to
/// the network: the reply's datagram where there is a reply (the result is
/// `Err` exactly when the network refused it), nothing otherwise.
pub open spec fn received(
    o: Connection,
    f: Connection,
    h: PacketHeader,
    payload_vec: Vec<u8>,
    now: u64,
    r: Result<Option<Seq<u8>>, ProtocolError>,
    w: Wire,
) -> bool {
    let t = touched(o, now);
    let empty = Seq::<u8>::empty();
    let none = Seq::<(Seq<u8>, PeerAddr, bool)>::empty();
    match h.packet_type {
        PacketType::Connect => if o.state == ConnectionState::Closed {
            let mid = Connection {
                state: ConnectionState::Connecting,
                next_expected_seq: (h.seq_num + 1) as u32,
                ..t
            };
            match r {
                Ok(x) => x == Some(empty) && sent(
                    mid,
                    f,
                    PacketType::ConnectAck,
                    empty,
                    now,
                    Ok(mid.next_seq_num),
                    w,
                ),
                Err(e) => sent(mid, f, PacketType::ConnectAck, empty, now, Err(e), w),
            }
        } else {
            f == t && r == Ok::<Option<Seq<u8>>, ProtocolError>(None) && w == none
        },
        PacketType::ConnectAck => if o.state == ConnectionState::Connecting {
            &&& f.state == ConnectionState::Connected
            &&& f.last_activity == now
            &&& same_identity(&o, &f)
            &&& same_flow(&o, &f)
            &&& ack_received(&o, &f, h, now)
            &&& r == Ok::<Option<Seq<u8>>, ProtocolError>(Some(empty))
            &&& w == none
        } else {
            f == t && r == Ok::<Option<Seq<u8>>, ProtocolError>(None) && w == none
        },
        PacketType::Data => {
            let reply = Connection { next_expected_seq: expected_after(t, h), ..t };
            match r {
                Ok(x) => exists|m: Connection|
                    #[trigger] data_taken(t, m, h, payload_vec, now, x) && sent(
                        m,
                        f,
                        PacketType::Ack,
                        empty,
                        now,
                        Ok(m.next_seq_num),
                        w,
                    ),
                Err(e) => exists|g: Connection|
                    #[trigger] sent(reply, g, PacketType::Ack, empty, now, Err(e), w) && f == (
                    Connection { next_expected_seq: t.next_expected_seq, ..g }),
            }
        },
        PacketType::Ack => {
            &&& f.last_activity == now
            &&& same_identity(&o, &f)
            &&& same_flow(&o, &f)
            &&& f.state == o.state
            &&& ack_received(&o, &f, h, now)
            &&& r == Ok::<Option<Seq<u8>>, ProtocolError>(None)
            &&& w == none
        },
        PacketType::Disconnect => match r {
            Ok(x) => x == Some(empty) && exists|m: Connection|
                sent(t, m, PacketType::Ack, empty, now, Ok(t.next_seq_num), w) && f == (Connection {
                    state: ConnectionState::Closed,
                    ..m
                }),
            Err(e) => sent(t, f, PacketType::Ack, empty, now, Err(e), w),
        },
    }
}

/// A received payload as a sequence.
pub open spec fn opt_view(r: Option<Vec<u8>>) -> Option<Seq<u8>> {
    match r {
        Some(v) => Some(v@),
        None => None,
    }
}

/// A receive result with its payload as a sequence.
pub open spec fn result_view(r: Result<Option<Vec<u8>>, ProtocolError>) -> Result<
    Option<Seq<u8>>,
    ProtocolError,
> {
    match r {
        Ok(x) => Ok(opt_view(x)),
        Err(e) => Err(e),
    }
}

/// The effect of checking timeouts at `now`, with outcome `r`.
pub open spec fn timeouts_checked(
    o: Connection,
    f: Connection,
    now: u64,
    r: Result<(), ProtocolError>,
    w: Wire,
) -> bool {
    &&& same_identity(&o, &f)
    &&& same_flow(&o, &f)
    &&& f.rtt == o.rtt
    &&& f.rtt_var == o.rtt_var
    &&& f.last_activity == o.last_activity
    &&& {
        let ps = o.pending_packets@;
        let rto0 = o.rto;
        let mx = o.config.max_retransmissions;
        let max_rto = o.config.max_rto as int;
        let total = retransmit_count(ps, rto0, mx, now);
        let due = due_datagrams(ps, rto0, mx, now);
        match r {
            Ok(_) => {
                &&& f.pending_packets@ == pending_after_timeouts(ps, rto0, mx, now)
                &&& f.rto == backoff(rto0 as int, max_rto, total)
                &&& f.state == state_after_timeouts(&o, now)
                &&& w == handed(due, o.peer_addr, total as int, false)
            },
            Err(e) => {
                &&& e == ProtocolError::SendFailed
                &&& exists|j: nat|
                    #![trigger backoff(rto0 as int, max_rto, j)]
                    j < total && f.pending_packets@ == resent(
                        ps,
                        rto0,
                        mx,
                        now,
                        j,
                    ) && f.rto == backoff(rto0 as int, max_rto, j) && w == handed(
                        due,
                        o.peer_addr,
                        j as int,
                        true,
                    )
                &&& f.state == o.state
            },
        }
    }
}

/// The datagrams of the packets of `ps` due for retransmission, in order:
/// each is the packet's own bytes, as first sent.
pub open spec fn due_datagrams(ps: Seq<PendingPacket>, rto: u128, max_retx: u32, now: u64) -> Seq<
    Seq<u8>,
>
    decreases ps.len(),
{
    if ps.len() == 0 {
        Seq::empty()
    } else {
        let r = due_datagrams(ps.drop_last(), rto, max_retx, now);
        if retransmits(ps.last(), rto, max_retx, now) {
            r.push(packet_bytes(ps.last().packet.header, ps.last().packet.payload@))
        } else {
            r
        }
    }
}

/// The first `j` datagrams of `d` handed to `peer` and taken, followed,
/// when `refused`, by the next one, which the network refused.
pub open spec fn handed(d: Seq<Seq<u8>>, peer: PeerAddr, j: int, refused: bool) -> Wire {
    let taken = Seq::new(j as nat, |k: int| (d[k], peer, true));
    if refused {
        taken.push((d[j], peer, false))
    } else {
        taken
    }
}

proof fn lemma_due_step(ps: Seq<PendingPacket>, rto: u128, mx: u32, now: u64, i: int)
    requires
        0 <= i < ps.len(),
    ensures
        due_datagrams(ps.take(i + 1), rto, mx, now) == if retransmits(ps[i], rto, mx, now) {
            due_datagrams(ps.take(i), rto, mx, now).push(
                packet_bytes(ps[i].packet.header, ps[i].packet.payload@),
            )
        } else {
            due_datagrams(ps.take(i), rto, mx, now)
        },
{
    assert(ps.take(i + 1).drop_last() =~= ps.take(i));
}

proof fn lemma_due_len(ps: Seq<PendingPacket>, rto: u128, mx: u32, now: u64)
    ensures
        due_datagrams(ps, rto, mx, now).len() == retransmit_count(ps, rto, mx, now),
    decreases ps.len(),
{
    if ps.len() > 0 {
        lemma_due_len(ps.drop_last(), rto, mx, now);
    }
}

proof fn lemma_due_prefix(ps: Seq<PendingPacket>, rto: u128, mx: u32, now: u64, a: int, b: int)
    requires
        0 <= a <= b <= ps.len(),
    ensures
        due_datagrams(ps.take(a), rto, mx, now).len() <= due_datagrams(ps.take(b), rto, mx, now).len(),
        forall|k: int|
            0 <= k < due_datagrams(ps.take(a), rto, mx, now).len() ==> due_datagrams(
                ps.take(b),
                rto,
                mx,
                now,
            )[k] == due_datagrams(ps.take(a), rto, mx, now)[k],
    decreases b - a,
{
    if a < b {
        lemma_due_prefix(ps, rto, mx, now, a, b - 1);
        lemma_due_step(ps, rto, mx, now, b - 1);
    }
}

/// `before` extended by `w`: used to follow what a sequence of steps handed
/// to the network.
pub proof fn lemma_extends_trans(a: Wire, b: Wire, c: Wire)
    requires
        extends(a, b),
        extends(b, c),
    ensures
        extends(a, c),
        added(a, c) == added(a, b) + added(b, c),
{
    assert(c.take(a.len() as int) =~= b.take(a.len() as int));
    assert(added(a, c) =~= added(a, b) + added(b, c));
}

/// Adding one datagram.
pub proof fn lemma_extends_push(a: Wire, x: (Seq<u8>, PeerAddr, bool))
    ensures
        extends(a, a.push(x)),
        added(a, a.push(x)) == seq![x],
{
    assert(a.push(x).take(a.len() as int) =~= a);
    assert(added(a, a.push(x)) =~= seq![x]);
}

/// Adding nothing.
pub proof fn lemma_extends_refl(a: Wire)
    ensures
        extends(a, a),
        added(a, a) == Seq::<(Seq<u8>, PeerAddr, bool)>::empty(),
{
    assert(a.take(a.len() as int) =~= a);
    assert(added(a, a) =~= Seq::<(Seq<u8>, PeerAddr, bool)>::empty());
}

impl Connection {
    /// Under this invariant the estimates fit their ranges and pending
    /// packets are ordered.
    pub open spec fn wf(&self) -> bool {
        &&& self.rtt <= u64::MAX
        &&& self.rtt_var <= u64::MAX
        &&& self.rto < 0x2_0000_0000_0000_0000
        &&& pending_ordered(self.pending_packets@, self.next_seq_num)
    }

    /// A closed connection to `peer_addr`, created at `now`.
    pub fn new(peer_addr: PeerAddr, config: ConnectionConfig, now: u64) -> (r: Self)
        ensures
            r.wf(),
            r.peer_addr == peer_addr,
            r.state == ConnectionState::Closed,
            r.config == config,
            r.next_seq_num == 0,
            r.next_expected_seq == 0,
            r.rtt == config.initial_rtt,
            r.rtt_var == dur_div(config.initial_rtt as int, 2),
            r.rto == 2 * config.initial_rtt,
            r.pending_packets@.len() == 0,
            r.received_packets@ == Map::<u32, Vec<u8>>::empty(),
            r.last_activity == now,
            r.created_at == now,
    {
        let initial_rtt = config.initial_rtt as u128;
        let rtt_var = duration_div(initial_rtt, 2);
        Connection {
            peer_addr,
            state: ConnectionState::Closed,
            config,
            next_seq_num: 0,
            next_expected_seq: 0,
            rtt: initial_rtt,
            rtt_var,
            rto: initial_rtt * 2,
            pending_packets: Vec::new(),
            received_packets: HashMap::new(),
            last_activity: now,
            created_at: now,
        }
    }

    /// Acknowledges every pending packet numbered up to `ack_num`, folding
    /// each one's round-trip sample into the estimates.
    #[verifier::spinoff_prover]
    #[verifier::rlimit(40)]
    pub fn handle_ack(&mut self, ack_num: u32, now: u64)
        requires
            old(self).wf(),
        ensures
            final(self).wf(),
            same_identity(old(self), final(self)),
            same_flow(old(self), final(self)),
            final(self).state == old(self).state,
            final(self).last_activity == old(self).last_activity,
            ack_applied(old(self), final(self), ack_num, now),
            forall|i: int|
                0 <= i < final(self).pending_packets@.len() ==> !acknowledges(
                    ack_num,
                    seq_of(#[trigger] final(self).pending_packets@[i]),
                ),
            forall|i: int|
                0 <= i < acked_count(old(self).pending_packets@, ack_num) ==> acknowledges(
                    ack_num,
                    seq_of(#[trigger] old(self).pending_packets@[i]),
                ),
    {
        let ghost ps = self.pending_packets@;
        let ghost e0 = est_of(self);
        let n = self.pending_packets.len();
        let mut i: usize = 0;
        assert(ps.take(0) =~= Seq::<PendingPacket>::empty());
        assert(ps.skip(0) =~= ps);
        while i < n && self.pending_packets[i].packet.header.seq_num <= ack_num
            invariant
                n == ps.len(),
                self.pending_packets@ == ps,
                same_identity(old(self), self),
                same_flow(old(self), self),
                self.state == old(self).state,
                self.last_activity == old(self).last_activity,
                ps == old(self).pending_packets@,
                pending_ordered(ps, self.next_seq_num),
                i <= n,
                acked_count(ps, ack_num) == i + acked_count(ps.skip(i as int), ack_num),
                forall|j: int| 0 <= j < i ==> acknowledges(ack_num, seq_of(#[trigger] ps[j])),
                est_of(self) == rtt_after(e0, ps.take(i as int), self.config, now),
                self.rtt <= u64::MAX,
                self.rtt_var <= u64::MAX,
                self.rto < 0x2_0000_0000_0000_0000,
            decreases n - i,
        {
            let first_sent = self.pending_packets[i].first_sent;
            let sample: u128 = if now >= first_sent {
                (now - first_sent) as u128
            } else {
                0
            };
            let delta = if sample > self.rtt {
                sample - self.rtt
            } else {
                self.rtt - sample
            };
            let var2 = duration_div(3 * self.rtt_var + delta, 4);
            let rtt2 = duration_div(7 * self.rtt + sample, 8);
            let mut rto2 = rtt2 + 4 * var2;
            if rto2 < self.config.min_rto as u128 {
                rto2 = self.config.min_rto as u128;
            } else if rto2 > self.config.max_rto as u128 {
                rto2 = self.config.max_rto as u128;
            }
            proof {
                lemma_rtt_step_bounds(est_of(self), sample as int, self.config);
                assert(ps.take(i + 1).drop_last() =~= ps.take(i as int));
                assert(ps.skip(i as int).drop_first() =~= ps.skip(i + 1));
                assert(ps.skip(i as int)[0] == ps[i as int]);
            }
            self.rtt_var = var2;
            self.rtt = rtt2;
            self.rto = rto2;
            i = i + 1;
        }
        proof {
            if i < n {
                assert(ps.skip(i as int)[0] == ps[i as int]);
            }
            assert(acked_count(ps.skip(i as int), ack_num) == 0);
        }
        let rest = self.pending_packets.split_off(i);
        self.pending_packets = rest;
        proof {
            assert(self.pending_packets@ =~= ps.skip(i as int));
            assert forall|a: int|
                0 <= a < self.pending_packets@.len() implies !acknowledges(
                ack_num,
                seq_of(#[trigger] self.pending_packets@[a]),
            ) by {
                assert(self.pending_packets@[a] == ps[i + a]);
                if a > 0 {
                    assert(seq_of(ps[i as int]) < seq_of(ps[i + a]));
                }
            }
            assert forall|x: int, y: int|
                0 <= x < y < self.pending_packets@.len() implies seq_of(self.pending_packets@[x])
                < seq_of(self.pending_packets@[y]) by {
                assert(self.pending_packets@[x] == ps[i + x]);
                assert(self.pending_packets@[y] == ps[i + y]);
            }
            assert forall|x: int| 0 <= x < self.pending_packets@.len() implies seq_of(
                #[trigger] self.pending_packets@[x],
            ) < self.next_seq_num by {
                assert(self.pending_packets@[x] == ps[i + x]);
            }
        }
    }
    /// Sends a packet of the given type numbered `next_seq_num`, carrying
    /// the number of the last data packet received in order as its
    /// acknowledgement: hands its datagram to the network through `link`.  A
    /// data or connect packet that the network took is kept for
    /// retransmission.  The sequence number is used up even when the
    /// network refuses the datagram.
    pub fn send_packet<S: PacketSink>(
        &mut self,
        link: &mut Link<S>,
        packet_type: PacketType,
        payload: Vec<u8>,
        now: u64,
    ) -> (r: Result<u32, ProtocolError>)
        requires
            old(self).wf(),
            old(self).next_seq_num < u32::MAX,
        ensures
            final(self).wf(),
            extends(old(link).log(), final(link).log()),
            sent(
                *old(self),
                *final(self),
                packet_type,
                payload@,
                now,
                r,
                added(old(link).log(), final(link).log()),
            ),
    {
        let seq_num = self.next_seq_num;
        let (ack, flags) = if self.next_expected_seq == 0 {
            (0, NO_ACK)
        } else {
            (self.next_expected_seq - 1, 0)
        };
        self.next_seq_num = seq_num + 1;
        let ghost pl = payload@;
        let packet = Packet::with_flags(packet_type, seq_num, ack, flags, payload);
        let bytes = packet.to_bytes();
        let ghost log0 = link.log();
        let ok = link.transmit(bytes, self.peer_addr);
        proof {
            lemma_extends_push(log0, (datagram_of(*old(self), packet_type, pl), self.peer_addr, ok));
        }
        if !ok {
            return Err(ProtocolError::SendFailed);
        }
        if packet_type == PacketType::Data || packet_type == PacketType::Connect {
            self.pending_packets.push(
                PendingPacket { packet, first_sent: now, last_sent: now, transmissions: 1 },
            );
            proof {
                let ps = self.pending_packets@;
                assert(ps.take(ps.len() - 1) =~= old(self).pending_packets@);
            }
        }
        self.last_activity = now;
        Ok(seq_num)
    }

    /// Whether receiving a packet with header `h` stays within the number
    /// ranges (see `receive_fits`).
    pub fn receive_fits_check(&self, h: &PacketHeader) -> (r: bool)
        ensures
            r == receive_fits(self, *h),
    {
        let mut ok = true;
        if h.packet_type == PacketType::Connect && self.state == ConnectionState::Closed {
            ok = h.seq_num < u32::MAX && self.next_seq_num < u32::MAX;
        }
        if h.packet_type == PacketType::Data || h.packet_type == PacketType::Disconnect {
            ok = ok && self.next_seq_num < u32::MAX;
        }
        if h.packet_type == PacketType::Data && h.seq_num == self.next_expected_seq {
            if h.seq_num == u32::MAX {
                return false;
            }
            let ghost m = self.received_packets@;
            let mut k: u64 = h.seq_num as u64 + 1;
            while k < 0x1_0000_0000 && self.received_packets.contains_key(&(k as u32))
                invariant
                    m == self.received_packets@,
                    h.seq_num + 1 <= k <= 0x1_0000_0000,
                    chain_end(m, h.seq_num + 1) == chain_end(m, k as int),
                decreases 0x1_0000_0000 - k,
            {
                k = k + 1;
            }
            ok = ok && k < 0x1_0000_0000;
        }
        ok
    }

    /// Handles a received packet (see `received`).  Returns `Some` with an
    /// empty payload for a connection event, `Some` with the delivered data
    /// when the next expected data packet arrived (joined with the buffered
    /// packets that follow it), and `None` otherwise.
    #[verifier::rlimit(40)]
    pub fn receive_packet<S: PacketSink>(
        &mut self,
        link: &mut Link<S>,
        packet: Packet,
        now: u64,
    ) -> (r: Result<Option<Vec<u8>>, ProtocolError>)
        requires
            old(self).wf(),
            receive_fits(old(self), packet.header),
        ensures
            final(self).wf(),
            extends(old(link).log(), final(link).log()),
            received(
                *old(self),
                *final(self),
                packet.header,
                packet.payload,
                now,
                result_view(r),
                added(old(link).log(), final(link).log()),
            ),
    {
        proof {
            lemma_extends_refl(link.log());
        }
        self.last_activity = now;
        match packet.header.packet_type {
            PacketType::Connect => {
                if self.state == ConnectionState::Closed {
                    self.state = ConnectionState::Connecting;
                    self.next_expected_seq = packet.header.seq_num + 1;
                    match self.send_packet(link, PacketType::ConnectAck, Vec::new(), now) {
                        Ok(_) => {
                            return Ok(Some(Vec::new()));
                        },
                        Err(e) => {
                            return Err(e);
                        },
                    }
                }
            },
            PacketType::ConnectAck => {
                if self.state == ConnectionState::Connecting {
                    self.state = ConnectionState::Connected;
                    self.take_ack(packet.header, now);
                    return Ok(Some(Vec::new()));
                }
            },
            PacketType::Data => {
                let ghost t = *self;
                let ghost h = packet.header;
                let ghost pv = packet.payload;
                // The acknowledgement carries the number this packet brings
                // the connection to; the packet is taken only once that
                // acknowledgement was handed over, so that a refused one
                // leaves it to its retransmission.
                let expected = self.next_expected_seq;
                self.next_expected_seq = self.expected_after_data(&packet.header);
                let handed = self.send_packet(link, PacketType::Ack, Vec::new(), now);
                self.next_expected_seq = expected;
                match handed {
                    Ok(_) => {
                        let ghost s3 = *self;
                        let r = self.take_data(packet, now);
                        let ghost m = Connection { next_seq_num: t.next_seq_num, ..*self };
                        assert(data_taken(s3, *self, h, pv, now, opt_view(r)));
                        assert(data_taken(t, m, h, pv, now, opt_view(r)));
                        return Ok(r);
                    },
                    Err(e) => {
                        return Err(e);
                    },
                }
            },
            PacketType::Ack => {
                self.take_ack(packet.header, now);
            },
            PacketType::Disconnect => {
                match self.send_packet(link, PacketType::Ack, Vec::new(), now) {
                    Ok(_) => {},
                    Err(e) => {
                        return Err(e);
                    },
                }
                let ghost m = *self;
                self.state = ConnectionState::Closed;
                assert(*self == (Connection { state: ConnectionState::Closed, ..m }));
                return Ok(Some(Vec::new()));
            },
        }
        Ok(None)
    }

    /// Applies the acknowledgement a received header carries, if any.
    fn take_ack(&mut self, h: PacketHeader, now: u64)
        requires
            old(self).wf(),
        ensures
            final(self).wf(),
            same_identity(old(self), final(self)),
            same_flow(old(self), final(self)),
            final(self).state == old(self).state,
            final(self).last_activity == old(self).last_activity,
            ack_received(old(self), final(self), h, now),
    {
        if h.flags % 2 == 0 {
            self.handle_ack(h.ack_num, now);
        }
    }

    /// The next expected number once the data packet with header `h` is
    /// taken (see `expected_after`); nothing is changed.
    fn expected_after_data(&self, h: &PacketHeader) -> (r: u32)
        requires
            h.seq_num == self.next_expected_seq ==> {
                &&& h.seq_num < u32::MAX
                &&& chain_end(self.received_packets@, h.seq_num + 1) < 0x1_0000_0000
            },
        ensures
            r == expected_after(*self, *h),
    {
        if h.seq_num != self.next_expected_seq {
            return self.next_expected_seq;
        }
        let ghost m = self.received_packets@;
        let ghost end = chain_end(m, h.seq_num + 1);
        let mut k = h.seq_num + 1;
        proof {
            lemma_chain_end_ge(m, k as int);
        }
        while self.received_packets.contains_key(&k)
            invariant
                m == self.received_packets@,
                end == chain_end(m, h.seq_num + 1),
                end < 0x1_0000_0000,
                k <= end,
                chain_end(m, k as int) == end,
            decreases end - k,
        {
            proof {
                lemma_chain_end_ge(m, k + 1);
            }
            k = k + 1;
        }
        k
    }

    /// Takes a received data packet (see `data_taken`).
    fn take_data(&mut self, packet: Packet, now: u64) -> (r: Option<Vec<u8>>)
        requires
            old(self).wf(),
            old(self).last_activity == now,
            packet.header.seq_num == old(self).next_expected_seq ==> {
                &&& packet.header.seq_num < u32::MAX
                &&& chain_end(old(self).received_packets@, packet.header.seq_num + 1) < 0x1_0000_0000
            },
        ensures
            final(self).wf(),
            data_taken(*old(self), *final(self), packet.header, packet.payload, now, opt_view(r)),
    {
        if packet.header.seq_num == self.next_expected_seq {
            let seq = packet.header.seq_num;
            let ghost m0 = self.received_packets@;
            let ghost end = chain_end(m0, seq + 1);
            proof {
                lemma_chain_end_ge(m0, seq + 1);
            }
            self.next_expected_seq = seq + 1;
            self.take_ack(packet.header, now);
            let ghost mid = *self;
            let mut result = packet.payload;
            let ghost p0 = result@;
            let mut next_seq = self.next_expected_seq;
            assert(m0.remove_keys(between(seq as int, next_seq as int)) =~= m0);
            assert(result@ + chain_data(m0, next_seq as int) =~= p0 + chain_data(m0, seq + 1));
            loop
                invariant
                    self.wf(),
                    same_identity(&mid, self),
                    self.state == mid.state,
                    self.next_seq_num == mid.next_seq_num,
                    self.last_activity == mid.last_activity,
                    same_estimates(&mid, self),
                    self.pending_packets@ == mid.pending_packets@,
                    seq < next_seq <= end,
                    end == chain_end(m0, seq + 1),
                    end < 0x1_0000_0000,
                    chain_end(m0, next_seq as int) == end,
                    self.next_expected_seq == next_seq,
                    self.received_packets@ == m0.remove_keys(between(seq as int, next_seq as int)),
                    result@ + chain_data(m0, next_seq as int) == p0 + chain_data(m0, seq + 1),
                ensures
                    self.wf(),
                    same_identity(&mid, self),
                    self.state == mid.state,
                    self.next_seq_num == mid.next_seq_num,
                    self.last_activity == mid.last_activity,
                    same_estimates(&mid, self),
                    self.pending_packets@ == mid.pending_packets@,
                    self.next_expected_seq == end,
                    self.received_packets@ == m0.remove_keys(between(seq as int, end)),
                    result@ == p0 + chain_data(m0, seq + 1),
                decreases end - next_seq,
            {
                match self.received_packets.remove(&next_seq) {
                    Some(data) => {
                        assert(m0.contains_key(next_seq));
                        assert(data == m0[next_seq]);
                        assert(chain_end(m0, next_seq as int) == chain_end(m0, next_seq + 1));
                        assert(chain_data(m0, next_seq as int) == data@ + chain_data(
                            m0,
                            next_seq + 1,
                        ));
                        proof {
                            lemma_chain_end_ge(m0, next_seq + 1);
                        }
                        result.extend_from_slice(data.as_slice());
                        self.next_expected_seq = next_seq + 1;
                        next_seq = next_seq + 1;
                        assert(self.received_packets@ =~= m0.remove_keys(
                            between(seq as int, next_seq as int),
                        ));
                        assert(result@ + chain_data(m0, next_seq as int) =~= p0 + chain_data(
                            m0,
                            seq + 1,
                        ));
                    },
                    None => {
                        assert(!m0.contains_key(next_seq));
                        assert(chain_end(m0, next_seq as int) == next_seq);
                        assert(chain_data(m0, next_seq as int) =~= Seq::<u8>::empty());
                        assert(result@ =~= result@ + chain_data(m0, next_seq as int));
                        break;
                    },
                }
            }
            Some(result)
        } else if packet.header.seq_num > self.next_expected_seq {
            self.received_packets.insert(packet.header.seq_num, packet.payload);
            self.take_ack(packet.header, now);
            None
        } else {
            self.take_ack(packet.header, now);
            None
        }
    }

    /// Retransmits the pending packets that waited longer than the
    /// retransmission timeout and still have transmissions left, doubling
    /// the timeout (up to `max_rto`) for each; drops those whose
    /// transmissions are used up (a dropped connect request closes a
    /// connecting connection); closes an idle connection.  A datagram that
    /// cannot be handed over ends the check early with what was done so far.
    #[verifier::spinoff_prover]
    #[verifier::rlimit(80)]
    pub fn check_timeouts<S: PacketSink>(&mut self, link: &mut Link<S>, now: u64) -> (r: Result<
        (),
        ProtocolError,
    >)
        requires
            old(self).wf(),
        ensures
            final(self).wf(),
            extends(old(link).log(), final(link).log()),
            timeouts_checked(*old(self), *final(self), now, r, added(old(link).log(), final(link).log())),
    {
        let ghost log0 = link.log();
        let ghost ps = self.pending_packets@;
        let ghost o = *self;
        let rto0 = self.rto;
        let mx = self.config.max_retransmissions;
        let max_rto = self.config.max_rto as u128;
        let n = self.pending_packets.len();
        let mut i: usize = 0;
        let ghost mut cnt: nat = 0;
        proof {
            lemma_resent_none(ps, rto0, mx, now);
            assert(ps.take(0) =~= Seq::<PendingPacket>::empty());
            lemma_extends_refl(log0);
            assert(handed(due_datagrams(ps.take(0), rto0, mx, now), o.peer_addr, 0, false)
                =~= Seq::<(Seq<u8>, PeerAddr, bool)>::empty());
        }
        while i < n
            invariant
                n == ps.len(),
                i <= n,
                log0 == old(link).log(),
                extends(log0, link.log()),
                added(log0, link.log()) == handed(
                    due_datagrams(ps.take(i as int), rto0, mx, now),
                    o.peer_addr,
                    cnt as int,
                    false,
                ),
                due_datagrams(ps.take(i as int), rto0, mx, now).len() == cnt,
                ps == o.pending_packets@,
                rto0 == o.rto,
                o == *old(self),
                same_identity(old(self), self),
                same_flow(old(self), self),
                pending_ordered(self.pending_packets@, self.next_seq_num),
                mx == o.config.max_retransmissions,
                max_rto == o.config.max_rto,
                o.wf(),
                same_identity(&o, self),
                same_flow(&o, self),
                self.rtt == o.rtt,
                self.rtt_var == o.rtt_var,
                self.state == o.state,
                self.last_activity == o.last_activity,
                cnt == retransmit_count(ps.take(i as int), rto0, mx, now),
                self.pending_packets@ == resent(ps, rto0, mx, now, cnt),
                self.rto == backoff(rto0 as int, max_rto as int, cnt),
                self.rto < 0x2_0000_0000_0000_0000,
            decreases n - i,
        {
            proof {
                lemma_retransmit_count_step(ps, rto0, mx, now, i as int);
                lemma_retransmit_count_mono(ps, rto0, mx, now, i + 1, n as int);
                assert(ps.take(n as int) =~= ps);
                lemma_due_step(ps, rto0, mx, now, i as int);
            }
            let last_sent = self.pending_packets[i].last_sent;
            let tx = self.pending_packets[i].transmissions;
            let elapsed: u64 = if now >= last_sent {
                now - last_sent
            } else {
                0
            };
            if elapsed as u128 > rto0 && tx < mx {
                proof {
                    lemma_resent_step(ps, rto0, mx, now, i as int);
                }
                let bytes = self.pending_packets[i].packet.to_bytes();
                let ghost log1 = link.log();
                let ghost dg = bytes@;
                let ok = link.transmit(bytes, self.peer_addr);
                proof {
                    let x = (dg, o.peer_addr, ok);
                    lemma_extends_push(log1, x);
                    lemma_extends_trans(log0, log1, link.log());
                    assert(self.pending_packets@[i as int].packet == ps[i as int].packet);
                    lemma_due_step(ps, rto0, mx, now, i as int);
                    lemma_due_prefix(ps, rto0, mx, now, i + 1, n as int);
                    lemma_due_len(ps, rto0, mx, now);
                    assert(ps.take(n as int) =~= ps);
                    let due = due_datagrams(ps, rto0, mx, now);
                    let dpi = due_datagrams(ps.take(i as int), rto0, mx, now);
                    let dpi1 = due_datagrams(ps.take(i + 1), rto0, mx, now);
                    assert(dpi1 == dpi.push(dg));
                    if ok {
                        assert(handed(dpi1, o.peer_addr, (cnt + 1) as int, false) =~= handed(
                            dpi,
                            o.peer_addr,
                            cnt as int,
                            false,
                        ).push(x));
                    } else {
                        assert(handed(due, o.peer_addr, cnt as int, true) =~= handed(
                            dpi,
                            o.peer_addr,
                            cnt as int,
                            false,
                        ).push(x));
                    }
                }
                if !ok {
                    proof {
                        assert(cnt < retransmit_count(ps, rto0, mx, now));
                        assert(self.rto == backoff(rto0 as int, max_rto as int, cnt));
                        assert(added(log0, link.log()) == handed(
                            due_datagrams(ps, rto0, mx, now),
                            o.peer_addr,
                            cnt as int,
                            true,
                        ));
                    }
                    return Err(ProtocolError::SendFailed);
                }
                let p = self.pending_packets.remove(i);
                let updated = PendingPacket {
                    packet: p.packet,
                    first_sent: p.first_sent,
                    last_sent: now,
                    transmissions: tx + 1,
                };
                self.pending_packets.insert(i, updated);
                let d = self.rto * 2;
                self.rto = if d < max_rto {
                    d
                } else {
                    max_rto
                };
                proof {
                    cnt = cnt + 1;
                    assert(self.pending_packets@ =~= resent(ps, rto0, mx, now, (cnt - 1) as nat).update(
                        i as int,
                        retransmitted(ps[i as int], now),
                    ));
                    lemma_resent_ordered(ps, rto0, mx, now, cnt, self.next_seq_num);
                }
            }
            i = i + 1;
        }
        proof {
            assert(ps.take(n as int) =~= ps);
            lemma_resent_keeps_packets(ps, rto0, mx, now, cnt);
        }
        let ghost rs = self.pending_packets@;
        // drop the packets whose transmissions are used up
        let mut k: usize = 0;
        let mut j: usize = 0;
        let mut dropped_connect = false;
        proof {
            assert(rs.take(0) =~= Seq::<PendingPacket>::empty());
            assert(rs.skip(0) =~= rs);
            assert(without_expired(rs.take(0), rto0, mx, now) =~= Seq::<PendingPacket>::empty());
        }
        while k < n
            invariant
                n == rs.len(),
                k <= n,
                j <= k,
                o == *old(self),
                same_identity(old(self), self),
                same_flow(old(self), self),
                rs == resent(ps, rto0, mx, now, cnt),
                rs.len() == ps.len(),
                forall|x: int| 0 <= x < ps.len() ==> (#[trigger] rs[x]).packet == ps[x].packet,
                forall|x: int|
                    0 <= x < ps.len() ==> expires(#[trigger] rs[x], rto0, mx, now) == expires(
                        ps[x],
                        rto0,
                        mx,
                        now,
                    ),
                j == without_expired(rs.take(k as int), rto0, mx, now).len(),
                self.pending_packets@ == without_expired(rs.take(k as int), rto0, mx, now) + rs.skip(
                    k as int,
                ),
                dropped_connect == exists|x: int|
                    0 <= x < k && expires(#[trigger] ps[x], rto0, mx, now) && seq_of(ps[x]) == 0,
                same_identity(&o, self),
                same_flow(&o, self),
                self.rtt == o.rtt,
                self.rtt_var == o.rtt_var,
                self.state == o.state,
                self.last_activity == o.last_activity,
                self.rto == backoff(rto0 as int, max_rto as int, cnt),
                self.rto < 0x2_0000_0000_0000_0000,
            decreases n - k,
        {
            proof {
                lemma_without_expired_step(rs, rto0, mx, now, k as int);
                assert(self.pending_packets@[j as int] == rs[k as int]);
            }
            let last_sent = self.pending_packets[j].last_sent;
            let tx = self.pending_packets[j].transmissions;
            let elapsed: u64 = if now >= last_sent {
                now - last_sent
            } else {
                0
            };
            if elapsed as u128 > rto0 && tx >= mx {
                if self.pending_packets[j].packet.header.seq_num == 0 {
                    dropped_connect = true;
                }
                let _ = self.pending_packets.remove(j);
                proof {
                    assert(self.pending_packets@ =~= without_expired(
                        rs.take(k + 1),
                        rto0,
                        mx,
                        now,
                    ) + rs.skip(k + 1));
                }
            } else {
                proof {
                    assert(self.pending_packets@ =~= without_expired(
                        rs.take(k + 1),
                        rto0,
                        mx,
                        now,
                    ) + rs.skip(k + 1));
                }
                j = j + 1;
            }
            k = k + 1;
        }
        proof {
            assert(rs.take(n as int) =~= rs);
            assert(rs.skip(n as int) =~= Seq::<PendingPacket>::empty());
            assert(self.pending_packets@ =~= without_expired(rs, rto0, mx, now));
            assert(pending_ordered(rs, self.next_seq_num)) by {
                assert forall|x: int, y: int| 0 <= x < y < rs.len() implies seq_of(rs[x]) < seq_of(
                    rs[y],
                ) by {
                    assert(rs[x].packet == ps[x].packet);
                    assert(rs[y].packet == ps[y].packet);
                }
                assert forall|x: int| 0 <= x < rs.len() implies seq_of(#[trigger] rs[x])
                    < self.next_seq_num by {
                    assert(rs[x].packet == ps[x].packet);
                }
            }
            lemma_without_expired_ordered(rs, rto0, mx, now, self.next_seq_num);
        }
        if self.state == ConnectionState::Connecting && dropped_connect {
            self.state = ConnectionState::Closed;
        }
        let idle: u64 = if now >= self.last_activity {
            now - self.last_activity
        } else {
            0
        };
        if self.state != ConnectionState::Closed && idle > self.config.connection_timeout {
            self.state = ConnectionState::Closed;
        }
        Ok(())
    }
}

/// Once at least one packet has been acknowledged, the retransmission
/// timeout lies between `min_rto` and `max_rto` (for settings whose minimum
/// does not exceed their maximum).
pub proof fn lemma_rto_within_bounds(
    est: (int, int, int),
    acked: Seq<PendingPacket>,
    cfg: ConnectionConfig,
    now: u64,
)
    requires
        acked.len() > 0,
        cfg.min_rto <= cfg.max_rto,
    ensures
        cfg.min_rto <= rtt_after(est, acked, cfg, now).2 <= cfg.max_rto,
{
}

/// Backing off never takes the retransmission timeout above `max_rto` nor
/// below where it started, and each doubling can only raise it.
pub proof fn lemma_backoff_capped(rto: int, max_rto: int, k: nat)
    requires
        0 <= rto <= max_rto,
    ensures
        rto <= backoff(rto, max_rto, k) <= max_rto,
        backoff(rto, max_rto, k) <= backoff(rto, max_rto, k + 1),
    decreases k,
{
    if k > 0 {
        lemma_backoff_capped(rto, max_rto, (k - 1) as nat);
    }
}

/// A timed-out packet is sent again only while it has been sent fewer than
/// `max_retx` times, so retransmission never takes a packet's transmission
/// count past `max_retx`: where every pending packet has been sent at most
/// `max(max_retx, 1)` times, the same holds after a timeout check.
pub proof fn lemma_transmissions_bounded(ps: Seq<PendingPacket>, rto: u128, max_retx: u32, now: u64)
    requires
        forall|i: int|
            0 <= i < ps.len() ==> (#[trigger] ps[i]).transmissions <= max_retx
                || ps[i].transmissions <= 1,
    ensures
        forall|i: int|
            0 <= i < pending_after_timeouts(ps, rto, max_retx, now).len() ==> (
            #[trigger] pending_after_timeouts(ps, rto, max_retx, now)[i]).transmissions <= max_retx
                || pending_after_timeouts(ps, rto, max_retx, now)[i].transmissions <= 1,
{
    let total = retransmit_count(ps, rto, max_retx, now);
    let r = resent(ps, rto, max_retx, now, total);
    assert forall|i: int| 0 <= i < r.len() implies (#[trigger] r[i]).transmissions <= max_retx
        || r[i].transmissions <= 1 by {
        if retransmits(ps[i], rto, max_retx, now) && retransmit_count(
            ps.take(i),
            rto,
            max_retx,
            now,
        ) < total {
            assert(r[i] == retransmitted(ps[i], now));
        } else {
            assert(r[i] == ps[i]);
        }
    }
    lemma_without_expired_subset(r, rto, max_retx, now);
}

/// Every packet left after dropping the expired ones was among the packets.
proof fn lemma_without_expired_subset(xs: Seq<PendingPacket>, rto: u128, mx: u32, now: u64)
    ensures
        forall|i: int|
            0 <= i < without_expired(xs, rto, mx, now).len() ==> exists|j: int|
                0 <= j < xs.len() && xs[j] == #[trigger] without_expired(xs, rto, mx, now)[i],
    decreases xs.len(),
{
    if xs.len() > 0 {
        lemma_without_expired_subset(xs.drop_last(), rto, mx, now);
        let r = without_expired(xs.drop_last(), rto, mx, now);
        let w = without_expired(xs, rto, mx, now);
        assert forall|i: int| 0 <= i < w.len() implies exists|j: int|
            0 <= j < xs.len() && xs[j] == #[trigger] w[i] by {
            if i < r.len() {
                assert(w[i] == r[i]);
                let j = choose|j: int| 0 <= j < xs.drop_last().len() && xs.drop_last()[j] == r[i];
                assert(xs[j] == w[i]);
            } else {
                assert(w[i] == xs.last());
                assert(xs[xs.len() - 1] == w[i]);
            }
        }
    }
}

/// Two data packets that arrive out of order are delivered in order: the
/// later one is held back, and when the earlier one arrives both are
/// delivered at once, earlier first, and nothing stays buffered.
pub proof fn lemma_reordered_data_delivered_in_order(
    o: Connection,
    m: Connection,
    f: Connection,
    h1: PacketHeader,
    p1: Vec<u8>,
    t1: u64,
    r1: Result<Option<Seq<u8>>, ProtocolError>,
    w1: Wire,
    h2: PacketHeader,
    p2: Vec<u8>,
    t2: u64,
    r2: Result<Option<Seq<u8>>, ProtocolError>,
    w2: Wire,
)
    requires
        o.received_packets@ == Map::<u32, Vec<u8>>::empty(),
        h1.packet_type == PacketType::Data,
        h2.packet_type == PacketType::Data,
        h2.seq_num == o.next_expected_seq,
        h1.seq_num == o.next_expected_seq + 1,
        received(o, m, h1, p1, t1, r1, w1),
        r1 is Ok,
        received(m, f, h2, p2, t2, r2, w2),
        r2 is Ok,
    ensures
        r1 == Ok::<Option<Seq<u8>>, ProtocolError>(None),
        r2 == Ok::<Option<Seq<u8>>, ProtocolError>(Some(p2@ + p1@)),
        f.next_expected_seq == h1.seq_num + 1,
        f.received_packets@ == Map::<u32, Vec<u8>>::empty(),
{
    assert(m.received_packets@ == Map::<u32, Vec<u8>>::empty().insert(h1.seq_num, p1));
    let rm = m.received_packets@;
    let k = h1.seq_num as int;
    if k + 1 < 0x1_0000_0000 {
        assert(((k + 1) as u32) as int == k + 1);
        assert(!rm.contains_key((k + 1) as u32));
    }
    assert(chain_end(rm, k + 1) == k + 1);
    assert(chain_end(rm, k) == k + 1);
    assert(chain_data(rm, k + 1) == Seq::<u8>::empty());
    assert(chain_data(rm, k) == p1@ + Seq::<u8>::empty());
    assert(p1@ + Seq::<u8>::empty() =~= p1@);
    assert(rm.remove_keys(between(h2.seq_num as int, k + 1)) =~= Map::<u32, Vec<u8>>::empty());
}

/// A data packet is delivered once: when the same packet arrives again
/// (a retransmission whose first copy was delivered), nothing is delivered
/// and nothing is buffered; it is only acknowledged.
pub proof fn lemma_duplicate_data_not_redelivered(
    o: Connection,
    m: Connection,
    f: Connection,
    h: PacketHeader,
    p1: Vec<u8>,
    t1: u64,
    r1: Result<Option<Seq<u8>>, ProtocolError>,
    w1: Wire,
    p2: Vec<u8>,
    t2: u64,
    r2: Result<Option<Seq<u8>>, ProtocolError>,
    w2: Wire,
)
    requires
        h.packet_type == PacketType::Data,
        h.seq_num == o.next_expected_seq,
        received(o, m, h, p1, t1, r1, w1),
        r1 is Ok,
        received(m, f, h, p2, t2, r2, w2),
        r2 is Ok,
    ensures
        r1 matches Ok(Some(d)) && d.len() >= p1@.len() && d.subrange(0, p1@.len() as int) == p1@,
        r2 == Ok::<Option<Seq<u8>>, ProtocolError>(None),
        f.next_expected_seq == m.next_expected_seq,
        f.received_packets@ == m.received_packets@,
{
    lemma_chain_end_ge(o.received_packets@, h.seq_num + 1);
    assert(m.next_expected_seq > h.seq_num);
    let d = p1@ + chain_data(o.received_packets@, h.seq_num + 1);
    assert(d.subrange(0, p1@.len() as int) =~= p1@);
}

proof fn lemma_acked_prefix(ps: Seq<PendingPacket>, ack: u32, next: u32)
    requires
        pending_ordered(ps, next),
    ensures
        acked_count(ps, ack) <= ps.len(),
        forall|i: int|
            0 <= i < acked_count(ps, ack) ==> (#[trigger] ps[i]).packet.header.seq_num <= ack,
        forall|i: int|
            acked_count(ps, ack) <= i < ps.len() ==> (#[trigger] ps[i]).packet.header.seq_num
                > ack,
    decreases ps.len(),
{
    if ps.len() > 0 {
        let rest = ps.drop_first();
        assert(pending_ordered(rest, next)) by {
            assert forall|i: int, j: int| 0 <= i < j < rest.len() implies seq_of(rest[i]) < seq_of(
                rest[j],
            ) by {
                assert(rest[i] == ps[i + 1] && rest[j] == ps[j + 1]);
            }
            assert forall|i: int| 0 <= i < rest.len() implies seq_of(#[trigger] rest[i]) < next by {
                assert(rest[i] == ps[i + 1]);
            }
        }
        lemma_acked_prefix(rest, ack, next);
        if seq_of(ps[0]) <= ack {
            assert forall|i: int|
                0 <= i < acked_count(ps, ack) implies (#[trigger] ps[i]).packet.header.seq_num
                <= ack by {
                if i > 0 {
                    assert(ps[i] == rest[i - 1]);
                }
            }
            assert forall|i: int|
                acked_count(ps, ack) <= i < ps.len() implies (#[trigger] ps[i]).packet.header.seq_num
                > ack by {
                assert(ps[i] == rest[i - 1]);
            }
        } else {
            assert forall|i: int|
                acked_count(ps, ack) <= i < ps.len() implies (#[trigger] ps[i]).packet.header.seq_num
                > ack by {
                if i > 0 {
                    assert(seq_of(ps[0]) < seq_of(ps[i]));
                }
            }
        }
    }
}

/// The acknowledgement a received packet carries is applied: after an
/// acknowledgement, a connect acknowledgement to a connecting connection,
/// or a data packet that was taken (in order, ahead or behind), the pending
/// packets are exactly those of before numbered above the acknowledgement
/// number (all of them where it carries none: the `NO_ACK` flag).
pub proof fn lemma_received_ack_removes_acknowledged(
    o: Connection,
    f: Connection,
    h: PacketHeader,
    p: Vec<u8>,
    now: u64,
    r: Result<Option<Seq<u8>>, ProtocolError>,
    w: Wire,
)
    requires
        o.wf(),
        received(o, f, h, p, now, r, w),
        h.packet_type == PacketType::Ack || (h.packet_type == PacketType::Data && r is Ok) || (
        h.packet_type == PacketType::ConnectAck && o.state == ConnectionState::Connecting),
    ensures
        h.flags % 2 == 0 ==> {
            &&& forall|i: int|
                0 <= i < f.pending_packets@.len() ==> (#[trigger] f.pending_packets@[i]).packet.header.seq_num
                    > h.ack_num
            &&& forall|q: PendingPacket|
                #[trigger] o.pending_packets@.contains(q) && q.packet.header.seq_num > h.ack_num
                    ==> f.pending_packets@.contains(q)
            &&& forall|q: PendingPacket|
                #[trigger] f.pending_packets@.contains(q) ==> o.pending_packets@.contains(q)
        },
        h.flags % 2 == 1 ==> f.pending_packets@ == o.pending_packets@,
{
    let empty = Seq::<u8>::empty();
    let t = touched(o, now);
    let ps = o.pending_packets@;
    let k = acked_count(ps, h.ack_num) as int;
    lemma_acked_prefix(ps, h.ack_num, o.next_seq_num);
    let fp = if h.packet_type == PacketType::Data {
        let x = r->Ok_0;
        let m = choose|m: Connection|
            #[trigger] data_taken(t, m, h, p, now, x) && sent(
                m,
                f,
                PacketType::Ack,
                empty,
                now,
                Ok(m.next_seq_num),
                w,
            );
        assert(f.pending_packets@ == m.pending_packets@);
        m.pending_packets@
    } else {
        f.pending_packets@
    };
    assert(fp == f.pending_packets@);
    if h.flags % 2 == 0 {
        assert(f.pending_packets@ == ps.skip(k));
        assert forall|i: int|
            0 <= i < f.pending_packets@.len() implies (#[trigger] f.pending_packets@[i]).packet.header.seq_num
            > h.ack_num by {
            assert(f.pending_packets@[i] == ps[k + i]);
        }
        assert forall|q: PendingPacket|
            #[trigger] ps.contains(q) && q.packet.header.seq_num > h.ack_num implies f.pending_packets@.contains(
            q,
        ) by {
            let j = choose|j: int| 0 <= j < ps.len() && ps[j] == q;
            assert(j >= k);
            assert(f.pending_packets@[j - k] == q);
        }
        assert forall|q: PendingPacket| #[trigger] f.pending_packets@.contains(q) implies ps.contains(
            q,
        ) by {
            let j = choose|j: int| 0 <= j < f.pending_packets@.len() && f.pending_packets@[j] == q;
            assert(ps[k + j] == q);
        }
    }
}

/// A connection in use is never closed by the timeout check: when the
/// check succeeds on a connection that is not closed, was active within the
/// idle timeout of `now`, and has no expired connect request (number 0)
/// while connecting, its state is unchanged.
pub proof fn lemma_active_connection_stays_open(
    o: Connection,
    f: Connection,
    now: u64,
    r: Result<(), ProtocolError>,
    w: Wire,
)
    requires
        timeouts_checked(o, f, now, r, w),
        o.state != ConnectionState::Closed,
        since(now, o.last_activity) <= o.config.connection_timeout,
        o.state == ConnectionState::Connecting ==> forall|i: int|
            0 <= i < o.pending_packets@.len() && (#[trigger] o.pending_packets@[i]).packet.header.seq_num
                == 0 ==> !expires(
                o.pending_packets@[i],
                o.rto,
                o.config.max_retransmissions,
                now,
            ),
    ensures
        f.state == o.state,
{
}

/// An idle connection is closed: when the check succeeds on a connection
/// that is not closed and has seen no activity for longer than the idle
/// timeout, it is closed.
pub proof fn lemma_idle_connection_closed(
    o: Connection,
    f: Connection,
    now: u64,
    r: Result<(), ProtocolError>,
    w: Wire,
)
    requires
        timeouts_checked(o, f, now, r, w),
        r is Ok,
        o.state != ConnectionState::Closed,
        since(now, o.last_activity) > o.config.connection_timeout,
    ensures
        f.state == ConnectionState::Closed,
{
}

/// A connect request that expires closes the connecting connection.
pub proof fn lemma_expired_connect_closes(
    o: Connection,
    f: Connection,
    now: u64,
    r: Result<(), ProtocolError>,
    w: Wire,
    i: int,
)
    requires
        timeouts_checked(o, f, now, r, w),
        r is Ok,
        o.state == ConnectionState::Connecting,
        0 <= i < o.pending_packets@.len(),
        o.pending_packets@[i].packet.header.seq_num == 0,
        since(now, o.pending_packets@[i].last_sent) > o.rto,
        o.pending_packets@[i].transmissions >= o.config.max_retransmissions,
    ensures
        f.state == ConnectionState::Closed,
{
    assert(expires(o.pending_packets@[i], o.rto, o.config.max_retransmissions, now));
}

proof fn lemma_quiet_pending(ps: Seq<PendingPacket>, rto: u128, mx: u32, now: u64)
    requires
        forall|i: int| 0 <= i < ps.len() ==> since(now, (#[trigger] ps[i]).last_sent) <= rto,
    ensures
        retransmit_count(ps, rto, mx, now) == 0,
        without_expired(ps, rto, mx, now) == ps,
        due_datagrams(ps, rto, mx, now).len() == 0,
    decreases ps.len(),
{
    if ps.len() > 0 {
        let q = ps.drop_last();
        assert forall|i: int| 0 <= i < q.len() implies since(now, (#[trigger] q[i]).last_sent)
            <= rto by {
            assert(q[i] == ps[i]);
        }
        lemma_quiet_pending(q, rto, mx, now);
        assert(since(now, ps[ps.len() - 1].last_sent) <= rto);
        assert(q.push(ps.last()) =~= ps);
    }
}

/// A timeout check at a moment when no pending packet has waited longer
/// than the retransmission timeout hands nothing to the network and keeps
/// the pending packets and the timeout as they were.
pub proof fn lemma_quiet_check_changes_nothing_pending(
    o: Connection,
    f: Connection,
    now: u64,
    r: Result<(), ProtocolError>,
    w: Wire,
)
    requires
        timeouts_checked(o, f, now, r, w),
        forall|i: int|
            0 <= i < o.pending_packets@.len() ==> since(
                now,
                (#[trigger] o.pending_packets@[i]).last_sent,
            ) <= o.rto,
    ensures
        r is Ok,
        f.pending_packets@ == o.pending_packets@,
        f.rto == o.rto,
        w.len() == 0,
{
    let ps = o.pending_packets@;
    lemma_quiet_pending(ps, o.rto, o.config.max_retransmissions, now);
    lemma_resent_none(ps, o.rto, o.config.max_retransmissions, now);
    assert(handed(due_datagrams(ps, o.rto, o.config.max_retransmissions, now), o.peer_addr, 0, false)
        =~= Seq::<(Seq<u8>, PeerAddr, bool)>::empty());
}

proof fn lemma_single_timeout_count(ps: Seq<PendingPacket>, rto: u128, mx: u32, now: u64, k: int)
    requires
        0 <= k < ps.len(),
        since(now, ps[k].last_sent) > rto,
        ps[k].transmissions < mx,
        forall|i: int| 0 <= i < ps.len() && i != k ==> since(now, (#[trigger] ps[i]).last_sent) <= rto,
    ensures
        retransmit_count(ps, rto, mx, now) == 1,
        retransmit_count(ps.take(k), rto, mx, now) == 0,
        due_datagrams(ps, rto, mx, now) == seq![packet_bytes(ps[k].packet.header, ps[k].packet.payload@)],
    decreases ps.len(),
{
    let q = ps.drop_last();
    assert(q.push(ps.last()) =~= ps);
    if k == ps.len() - 1 {
        assert forall|i: int| 0 <= i < q.len() implies since(now, (#[trigger] q[i]).last_sent)
            <= rto by {
            assert(q[i] == ps[i]);
        }
        lemma_quiet_pending(q, rto, mx, now);
        assert(ps.take(k) =~= q);
    } else {
        assert forall|i: int| 0 <= i < q.len() && i != k implies since(
            now,
            (#[trigger] q[i]).last_sent,
        ) <= rto by {
            assert(q[i] == ps[i]);
        }
        lemma_single_timeout_count(q, rto, mx, now, k);
        assert(q.take(k) =~= ps.take(k));
        assert(since(now, ps[ps.len() - 1].last_sent) <= rto);
    }
}

/// One retransmission doubles the retransmission timeout, up to
/// `max_rto`: when exactly one pending packet has waited longer than the
/// timeout and has transmissions left, a successful check resends it (its
/// own bytes, once), counts the transmission, and doubles the timeout.
pub proof fn lemma_one_retransmission_doubles_timeout(
    o: Connection,
    f: Connection,
    now: u64,
    r: Result<(), ProtocolError>,
    w: Wire,
    k: int,
)
    requires
        timeouts_checked(o, f, now, r, w),
        r is Ok,
        0 <= k < o.pending_packets@.len(),
        since(now, o.pending_packets@[k].last_sent) > o.rto,
        o.pending_packets@[k].transmissions < o.config.max_retransmissions,
        forall|i: int|
            0 <= i < o.pending_packets@.len() && i != k ==> since(
                now,
                (#[trigger] o.pending_packets@[i]).last_sent,
            ) <= o.rto,
    ensures
        f.rto == if 2 * o.rto < o.config.max_rto {
            2 * o.rto
        } else {
            o.config.max_rto as int
        },
        f.pending_packets@.len() == o.pending_packets@.len(),
        f.pending_packets@[k].packet == o.pending_packets@[k].packet,
        f.pending_packets@[k].transmissions == o.pending_packets@[k].transmissions + 1,
        f.pending_packets@[k].last_sent == now,
        w == seq![
            (
                packet_bytes(
                    o.pending_packets@[k].packet.header,
                    o.pending_packets@[k].packet.payload@,
                ),
                o.peer_addr,
                true,
            ),
        ],
{
    let ps = o.pending_packets@;
    let mx = o.config.max_retransmissions;
    lemma_single_timeout_count(ps, o.rto, mx, now, k);
    let rs = resent(ps, o.rto, mx, now, 1);
    assert(rs[k] == retransmitted(ps[k], now));
    assert forall|i: int| 0 <= i < rs.len() implies since(now, (#[trigger] rs[i]).last_sent)
        <= o.rto by {
        if i == k {
            assert(rs[i] == retransmitted(ps[k], now));
        } else {
            assert(rs[i] == ps[i]);
        }
    }
    lemma_quiet_pending(rs, o.rto, mx, now);
    assert(backoff(o.rto as int, o.config.max_rto as int, 0) == o.rto);
    assert(backoff(o.rto as int, o.config.max_rto as int, 1) == (if 2 * o.rto < o.config.max_rto {
        2 * o.rto
    } else {
        o.config.max_rto as int
    }));
    let d = due_datagrams(ps, o.rto, mx, now);
    assert(handed(d, o.peer_addr, 1, false) =~= seq![(d[0], o.peer_addr, true)]);
}

/// The expected data packet is acknowledged as received: the one datagram
/// handed over is an acknowledgement (without the `NO_ACK` flag) whose
/// number is the last packet now received in order, this packet or a
/// buffered one that follows it.
pub proof fn lemma_data_reply_acknowledges_it(
    o: Connection,
    f: Connection,
    h: PacketHeader,
    p: Vec<u8>,
    now: u64,
    x: Option<Seq<u8>>,
    w: Wire,
)
    requires
        h.packet_type == PacketType::Data,
        h.seq_num == o.next_expected_seq,
        received(o, f, h, p, now, Ok(x), w),
    ensures
        f.next_expected_seq > h.seq_num,
        w == seq![
            (
                packet_bytes(
                    flagged_header(
                        PacketType::Ack,
                        o.next_seq_num,
                        (f.next_expected_seq - 1) as u32,
                        0,
                        Seq::<u8>::empty(),
                    ),
                    Seq::<u8>::empty(),
                ),
                o.peer_addr,
                true,
            ),
        ],
{
    let t = touched(o, now);
    let m = choose|m: Connection|
        #[trigger] data_taken(t, m, h, p, now, x) && sent(
            m,
            f,
            PacketType::Ack,
            Seq::<u8>::empty(),
            now,
            Ok(m.next_seq_num),
            w,
        );
    lemma_chain_end_ge(t.received_packets@, h.seq_num + 1);
}

/// A data packet whose acknowledgement the network refused is not lost:
/// nothing of it was taken, and when it arrives again (the sender
/// retransmits it, having no acknowledgement) it is delivered in full,
/// with the buffered packets that follow it.
pub proof fn lemma_refused_data_delivered_again(
    o: Connection,
    m: Connection,
    f: Connection,
    h: PacketHeader,
    p: Vec<u8>,
    t1: u64,
    r1: Result<Option<Seq<u8>>, ProtocolError>,
    w1: Wire,
    t2: u64,
    r2: Result<Option<Seq<u8>>, ProtocolError>,
    w2: Wire,
)
    requires
        h.packet_type == PacketType::Data,
        h.seq_num == o.next_expected_seq,
        received(o, m, h, p, t1, r1, w1),
        r1 is Err,
        received(m, f, h, p, t2, r2, w2),
        r2 is Ok,
    ensures
        m.next_expected_seq == o.next_expected_seq,
        m.received_packets@ == o.received_packets@,
        r2 == Ok::<Option<Seq<u8>>, ProtocolError>(
            Some(p@ + chain_data(o.received_packets@, h.seq_num + 1)),
        ),
        f.next_expected_seq == chain_end(o.received_packets@, h.seq_num + 1),
{
}

/// Every buffered out-of-order packet lies ahead of the delivery point.
pub open spec fn buffered_ahead(c: Connection) -> bool {
    forall|k: u32| #[trigger] c.received_packets@.contains_key(k) ==> k > c.next_expected_seq
}

proof fn lemma_chain_end_absent(m: Map<u32, Vec<u8>>, k: int)
    requires
        k >= 0,
        chain_end(m, k) < 0x1_0000_0000,
    ensures
        !m.contains_key(chain_end(m, k) as u32),
    decreases 0x1_0000_0000 - k,
{
    if 0 <= k < 0x1_0000_0000 && m.contains_key(k as u32) {
        lemma_chain_end_absent(m, k + 1);
    }
}

/// Buffered data always stays ahead of the delivery point: where every
/// buffered packet is numbered above the next expected one, this still
/// holds after receiving any packet but a connect request on a closed
/// connection (which restarts the numbering).
pub proof fn lemma_buffered_stays_ahead(
    o: Connection,
    f: Connection,
    h: PacketHeader,
    payload: Vec<u8>,
    now: u64,
    r: Result<Option<Seq<u8>>, ProtocolError>,
    w: Wire,
)
    requires
        buffered_ahead(o),
        !(h.packet_type == PacketType::Connect && o.state == ConnectionState::Closed),
        received(o, f, h, payload, now, r, w),
    ensures
        buffered_ahead(f),
{
    let empty = Seq::<u8>::empty();
    let t = touched(o, now);
    if h.packet_type == PacketType::Data {
        match r {
            Ok(x) => {
                let m = choose|m: Connection|
                    #[trigger] data_taken(t, m, h, payload, now, x) && sent(
                        m,
                        f,
                        PacketType::Ack,
                        empty,
                        now,
                        Ok(m.next_seq_num),
                        w,
                    );
                if h.seq_num == t.next_expected_seq {
                    let tr = t.received_packets@;
                    let end = chain_end(tr, h.seq_num + 1);
                    lemma_chain_end_ge(tr, h.seq_num + 1);
                    lemma_chain_end_absent(tr, h.seq_num + 1);
                    assert forall|k: u32| #[trigger] f.received_packets@.contains_key(k) implies k
                        > f.next_expected_seq by {
                        assert(tr.contains_key(k));
                        assert(!between(h.seq_num as int, end).contains(k));
                        assert(k as int != end);
                    }
                }
            },
            Err(e) => {
                let reply = Connection { next_expected_seq: expected_after(t, h), ..t };
                let g = choose|g: Connection|
                    #[trigger] sent(reply, g, PacketType::Ack, empty, now, Err(e), w) && f == (
                    Connection { next_expected_seq: t.next_expected_seq, ..g });
                assert(f.received_packets@ == o.received_packets@);
            },
        }
    }
}

} // verus!
