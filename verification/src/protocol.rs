//! The connections of one protocol endpoint, keyed by peer address, and
//! the endpoint's operations: connect, send, disconnect, packet handling in
//! server and receiver mode, and periodic maintenance.
use vstd::prelude::*;
use crate::connection::{
    Connection, ConnectionConfig, ConnectionState, Link, PacketSink, PeerAddr, Wire, added,
    dur_div, extends, lemma_extends_push, lemma_extends_refl, lemma_extends_trans, opt_view,
    outgoing_header, pending_pushed, received, result_view, same_estimates, same_identity, sent,
    since, timeouts_checked, receive_fits,
};
use crate::packet::{
    Packet, PacketHeader, PacketType, ProtocolError, packet_bytes, HEADER_LEN,
};

verus! {

/// The connections of an endpoint and the settings for the ones it opens.
#[derive(Debug)]
pub struct ConnectionTable {
    pub connections: Vec<Connection>,
    pub config: ConnectionConfig,
}

/// The position of the connection to `addr`, if there is one.
pub open spec fn position(cs: Seq<Connection>, addr: PeerAddr) -> Option<int> {
    if exists|i: int| 0 <= i < cs.len() && (#[trigger] cs[i]).peer_addr == addr {
        Some(choose|i: int| 0 <= i < cs.len() && (#[trigger] cs[i]).peer_addr == addr)
    } else {
        None
    }
}

/// A connection as `Connection::new` creates it.
pub open spec fn fresh(c: Connection, addr: PeerAddr, config: ConnectionConfig, now: u64) -> bool {
    &&& c.wf()
    &&& c.peer_addr == addr
    &&& c.state == ConnectionState::Closed
    &&& c.config == config
    &&& c.next_seq_num == 0
    &&& c.next_expected_seq == 0
    &&& c.rtt == config.initial_rtt
    &&& c.rtt_var == dur_div(config.initial_rtt as int, 2)
    &&& c.rto == 2 * config.initial_rtt
    &&& c.pending_packets@.len() == 0
    &&& c.received_packets@ == Map::<u32, Vec<u8>>::empty()
    &&& c.last_activity == now
    &&& c.created_at == now
}

/// The pieces of `d` of `n` bytes each (the last one possibly shorter), as
/// `<[u8]>::chunks` yields them.
pub open spec fn chunks(d: Seq<u8>, n: int) -> Seq<Seq<u8>>
    decreases d.len(),
{
    if n <= 0 || d.len() == 0 {
        Seq::<Seq<u8>>::empty()
    } else if d.len() <= n {
        seq![d]
    } else {
        seq![d.take(n)] + chunks(d.skip(n), n)
    }
}

/// The pieces of `ps` joined in order.
pub open spec fn joined(ps: Seq<Seq<u8>>) -> Seq<u8>
    decreases ps.len(),
{
    if ps.len() == 0 {
        Seq::<u8>::empty()
    } else {
        joined(ps.drop_last()) + ps.last()
    }
}

/// The header of the data packet that carries piece `j` of `pieces` sent
/// by `o`.
pub open spec fn data_header(o: Connection, pieces: Seq<Seq<u8>>, j: int) -> PacketHeader {
    outgoing_header(PacketType::Data, (o.next_seq_num + j) as u32, o.next_expected_seq, pieces[j])
}

/// What sending the pieces of `pieces` from `o` hands to the network: the
/// datagrams of the first `k` pieces, taken, followed, when `refused`, by
/// the datagram of piece `k`, refused.
pub open spec fn data_wire(o: Connection, pieces: Seq<Seq<u8>>, k: int, refused: bool) -> Wire {
    let taken = Seq::new(
        k as nat,
        |j: int| (packet_bytes(data_header(o, pieces, j), pieces[j]), o.peer_addr, true),
    );
    if refused {
        taken.push((packet_bytes(data_header(o, pieces, k), pieces[k]), o.peer_addr, false))
    } else {
        taken
    }
}

/// The datagrams of several steps, one after the other.
pub open spec fn wires_joined(ws: Seq<Wire>) -> Wire
    decreases ws.len(),
{
    if ws.len() == 0 {
        Seq::empty()
    } else {
        wires_joined(ws.drop_last()) + ws.last()
    }
}

/// `f` is `o` after the first `k` of `pieces` were sent as data packets,
/// with `used` sequence numbers consumed.
pub open spec fn data_sent(
    o: Connection,
    f: Connection,
    pieces: Seq<Seq<u8>>,
    k: nat,
    used: nat,
    now: u64,
) -> bool {
    let n = o.pending_packets@.len();
    &&& same_identity(&o, &f)
    &&& same_estimates(&o, &f)
    &&& f.state == o.state
    &&& f.next_expected_seq == o.next_expected_seq
    &&& f.received_packets@ == o.received_packets@
    &&& f.next_seq_num == o.next_seq_num + used
    &&& f.pending_packets@.len() == n + k
    &&& f.pending_packets@.take(n as int) == o.pending_packets@
    &&& forall|j: int|
        0 <= j < k ==> {
            let p = #[trigger] f.pending_packets@[n + j];
            &&& p.packet.header == data_header(o, pieces, j)
            &&& p.packet.payload@ == pieces[j]
            &&& p.first_sent == now
            &&& p.last_sent == now
            &&& p.transmissions == 1
        }
    &&& f.last_activity == if k > 0 {
        now
    } else {
        o.last_activity
    }
}

/// A connection that maintenance removes: closed, connecting for more than
/// twice the idle timeout since creation, or connected and idle for more
/// than the idle timeout.
pub open spec fn stale(c: Connection, now: u64) -> bool {
    ||| c.state == ConnectionState::Closed
    ||| (c.state == ConnectionState::Connecting && since(now, c.created_at) > 2
        * c.config.connection_timeout)
    ||| (c.state == ConnectionState::Connected && since(now, c.last_activity)
        > c.config.connection_timeout)
}

/// The connections of `cs` that are not stale, in order.
pub open spec fn live(cs: Seq<Connection>, now: u64) -> Seq<Connection>
    decreases cs.len(),
{
    if cs.len() == 0 {
        cs
    } else {
        let r = live(cs.drop_last(), now);
        if stale(cs.last(), now) {
            r
        } else {
            r.push(cs.last())
        }
    }
}

/// Maintenance keeps every connection in use: a connection that is
/// connected after its timeout check and was active within the idle
/// timeout of `now` stays.
pub proof fn lemma_live_keeps_active(cs: Seq<Connection>, now: u64, x: int)
    requires
        0 <= x < cs.len(),
        cs[x].state == ConnectionState::Connected,
        since(now, cs[x].last_activity) <= cs[x].config.connection_timeout,
    ensures
        live(cs, now).contains(cs[x]),
    decreases cs.len(),
{
    let r = live(cs.drop_last(), now);
    if x == cs.len() - 1 {
        assert(live(cs, now) == r.push(cs[x]));
        assert(live(cs, now)[r.len() as int] == cs[x]);
    } else {
        assert(cs.drop_last()[x] == cs[x]);
        lemma_live_keeps_active(cs.drop_last(), now, x);
        let j = choose|j: int| 0 <= j < r.len() && r[j] == cs[x];
        if !stale(cs.last(), now) {
            assert(live(cs, now)[j] == cs[x]);
        }
    }
}

/// Maintenance removes every closed connection and every connected one
/// idle for longer than the idle timeout, and keeps only connections it
/// was given.
pub proof fn lemma_live_drops_closed_and_idle(cs: Seq<Connection>, now: u64)
    ensures
        forall|c: Connection| #[trigger] live(cs, now).contains(c) ==> {
            &&& cs.contains(c)
            &&& c.state != ConnectionState::Closed
            &&& c.state == ConnectionState::Connected ==> since(now, c.last_activity)
                <= c.config.connection_timeout
        },
    decreases cs.len(),
{
    if cs.len() > 0 {
        lemma_live_drops_closed_and_idle(cs.drop_last(), now);
        let r = live(cs.drop_last(), now);
        assert forall|c: Connection| #[trigger] live(cs, now).contains(c) implies {
            &&& cs.contains(c)
            &&& c.state != ConnectionState::Closed
            &&& c.state == ConnectionState::Connected ==> since(now, c.last_activity)
                <= c.config.connection_timeout
        } by {
            let j = choose|j: int| 0 <= j < live(cs, now).len() && live(cs, now)[j] == c;
            if j < r.len() {
                assert(r[j] == c);
                assert(r.contains(c));
                let k = choose|k: int| 0 <= k < cs.drop_last().len() && cs.drop_last()[k] == c;
                assert(cs[k] == c);
            } else {
                assert(c == cs.last());
                assert(cs[cs.len() - 1] == c);
            }
        }
    }
}

/// Data handed to the receiver callback: a non-empty delivered payload.
pub open spec fn delivered(rr: Result<Option<Seq<u8>>, ProtocolError>) -> Option<Seq<u8>> {
    match rr {
        Ok(Some(d)) => if d.len() > 0 {
            Some(d)
        } else {
            None
        },
        _ => None,
    }
}

pub open spec fn unique_peers(cs: Seq<Connection>) -> bool {
    forall|i: int, j: int|
        0 <= i < cs.len() && 0 <= j < cs.len() && i != j ==> (#[trigger] cs[i]).peer_addr
            != (#[trigger] cs[j]).peer_addr
}

pub open spec fn all_wf(cs: Seq<Connection>) -> bool {
    forall|i: int| 0 <= i < cs.len() ==> (#[trigger] cs[i]).wf()
}

proof fn lemma_position_found(cs: Seq<Connection>, addr: PeerAddr, i: int)
    requires
        unique_peers(cs),
        0 <= i < cs.len(),
        cs[i].peer_addr == addr,
    ensures
        position(cs, addr) == Some(i),
{
    let j = choose|j: int| 0 <= j < cs.len() && (#[trigger] cs[j]).peer_addr == addr;
    assert(j == i);
}

proof fn lemma_update_wf(cs: Seq<Connection>, i: int, c: Connection)
    requires
        all_wf(cs),
        unique_peers(cs),
        0 <= i < cs.len(),
        c.wf(),
        c.peer_addr == cs[i].peer_addr,
    ensures
        all_wf(cs.update(i, c)),
        unique_peers(cs.update(i, c)),
{
    let u = cs.update(i, c);
    assert forall|a: int, b: int|
        0 <= a < u.len() && 0 <= b < u.len() && a != b implies (#[trigger] u[a]).peer_addr != (
        #[trigger] u[b]).peer_addr by {
        assert(u[a].peer_addr == cs[a].peer_addr);
        assert(u[b].peer_addr == cs[b].peer_addr);
    }
}

proof fn lemma_push_wf(cs: Seq<Connection>, c: Connection)
    requires
        all_wf(cs),
        unique_peers(cs),
        c.wf(),
        position(cs, c.peer_addr) is None,
    ensures
        all_wf(cs.push(c)),
        unique_peers(cs.push(c)),
{
    let u = cs.push(c);
    assert forall|a: int, b: int|
        0 <= a < u.len() && 0 <= b < u.len() && a != b implies (#[trigger] u[a]).peer_addr != (
        #[trigger] u[b]).peer_addr by {
        if a < cs.len() && b < cs.len() {
            assert(u[a] == cs[a] && u[b] == cs[b]);
        } else if a < cs.len() {
            assert(u[a] == cs[a]);
            assert(!(cs[a].peer_addr == c.peer_addr));
        } else {
            assert(u[b] == cs[b]);
            assert(!(cs[b].peer_addr == c.peer_addr));
        }
    }
    assert forall|a: int| 0 <= a < u.len() implies (#[trigger] u[a]).wf() by {
        if a < cs.len() {
            assert(u[a] == cs[a]);
        }
    }
}

/// The effect of connecting to `addr` at `now` with outcome `r`: refused
/// when a connection to `addr` exists; otherwise a fresh connection sends
/// its connect request (number 0) and, once handed over, is added as
/// connecting; a request that the network refuses adds nothing.  `w` is
/// what was handed to the network: the connect request, if any.
pub open spec fn connected_to(
    cs: Seq<Connection>,
    fs: Seq<Connection>,
    config: ConnectionConfig,
    addr: PeerAddr,
    now: u64,
    r: Result<(), ProtocolError>,
    w: Wire,
) -> bool {
    match position(cs, addr) {
        Some(_) => r == Err::<(), ProtocolError>(ProtocolError::AlreadyConnected) && fs == cs && w
            == Seq::<(Seq<u8>, PeerAddr, bool)>::empty(),
        None => match r {
            Ok(_) => {
                &&& fs.len() == cs.len() + 1
                &&& fs.take(fs.len() - 1) == cs
                &&& exists|c0: Connection, c1: Connection|
                    fresh(c0, addr, config, now) && #[trigger] sent(
                        c0,
                        c1,
                        PacketType::Connect,
                        Seq::<u8>::empty(),
                        now,
                        Ok(0),
                        w,
                    ) && fs.last() == (Connection { state: ConnectionState::Connecting, ..c1 })
            },
            Err(e) => {
                &&& fs == cs
                &&& exists|c0: Connection, c1: Connection|
                    fresh(c0, addr, config, now) && #[trigger] sent(
                        c0,
                        c1,
                        PacketType::Connect,
                        Seq::<u8>::empty(),
                        now,
                        Err(e),
                        w,
                    )
            },
        },
    }
}

/// The effect of handling `packet` from `addr` in receiver mode, with `d`
/// handed to the application: a connection to `addr` that is not closed
/// receives the packet (see `received`) and `d` is the non-empty data it
/// delivered, `w` what it handed to the network; otherwise nothing changes
/// and nothing is handed over.
pub open spec fn receiver_received(
    cs: Seq<Connection>,
    fs: Seq<Connection>,
    addr: PeerAddr,
    packet: Packet,
    now: u64,
    d: Option<Vec<u8>>,
    w: Wire,
) -> bool {
    let none = Seq::<(Seq<u8>, PeerAddr, bool)>::empty();
    match position(cs, addr) {
        Some(i) => if cs[i].state != ConnectionState::Closed {
            &&& fs == cs.update(i, fs[i])
            &&& exists|rr: Result<Option<Seq<u8>>, ProtocolError>|
                #[trigger] received(cs[i], fs[i], packet.header, packet.payload, now, rr, w)
                    && opt_view(d) == delivered(rr)
        } else {
            fs == cs && d is None && w == none
        },
        None => fs == cs && d is None && w == none,
    }
}

/// A connect request followed by the peer's connect acknowledgement
/// establishes the connection: after `connect` succeeds and the receiver
/// handles a connect acknowledgement from that peer, the connection to the
/// peer is connected.
pub proof fn lemma_handshake_connects(
    t0: ConnectionTable,
    t1: ConnectionTable,
    t2: ConnectionTable,
    addr: PeerAddr,
    now1: u64,
    now2: u64,
    packet: Packet,
    d: Option<Vec<u8>>,
    w1: Wire,
    w2: Wire,
)
    requires
        t1.wf(),
        t2.wf(),
        connected_to(t0.connections@, t1.connections@, t0.config, addr, now1, Ok(()), w1),
        packet.header.packet_type == PacketType::ConnectAck,
        receiver_received(t1.connections@, t2.connections@, addr, packet, now2, d, w2),
    ensures
        position(t2.connections@, addr) matches Some(i) && t2.connections@[i].state
            == ConnectionState::Connected,
        d is None,
{
    let cs = t1.connections@;
    let n = cs.len() - 1;
    lemma_position_found(cs, addr, n);
    let fs = t2.connections@;
    assert(fs[n].peer_addr == addr);
    lemma_position_found(fs, addr, n);
}

impl ConnectionTable {
    /// Connections are well formed and at most one exists per peer.
    pub open spec fn wf(&self) -> bool {
        &&& all_wf(self.connections@)
        &&& unique_peers(self.connections@)
    }

    /// An endpoint without connections that opens new ones with `config`.
    pub fn new(config: ConnectionConfig) -> (r: Self)
        ensures
            r.wf(),
            r.connections@.len() == 0,
            r.config == config,
    {
        ConnectionTable { connections: Vec::new(), config }
    }

    /// The position of the connection to `addr`.
    pub fn find(&self, addr: PeerAddr) -> (r: Option<usize>)
        requires
            self.wf(),
        ensures
            match r {
                Some(i) => position(self.connections@, addr) == Some(i as int),
                None => position(self.connections@, addr) is None,
            },
    {
        let n = self.connections.len();
        let mut i: usize = 0;
        while i < n
            invariant
                n == self.connections@.len(),
                self.wf(),
                i <= n,
                forall|j: int| 0 <= j < i ==> (#[trigger] self.connections@[j]).peer_addr != addr,
            decreases n - i,
        {
            if self.connections[i].peer_addr == addr {
                proof {
                    lemma_position_found(self.connections@, addr, i as int);
                }
                return Some(i);
            }
            i = i + 1;
        }
        None
    }

    /// Whether the connection to `addr` is established.
    pub fn is_connected(&self, addr: PeerAddr) -> (r: bool)
        requires
            self.wf(),
        ensures
            r == (position(self.connections@, addr) matches Some(i)
                && self.connections@[i].state == ConnectionState::Connected),
    {
        match self.find(addr) {
            Some(i) => self.connections[i].state == ConnectionState::Connected,
            None => false,
        }
    }

    /// Opens a connection to `addr`: sends a connect request and records the
    /// connection as connecting.  Refused when a connection to `addr`
    /// exists; nothing is recorded when the request cannot be handed over.
    pub fn connect<S: PacketSink>(&mut self, link: &mut Link<S>, addr: PeerAddr, now: u64) -> (r:
        Result<(), ProtocolError>)
        requires
            old(self).wf(),
        ensures
            final(self).wf(),
            final(self).config == old(self).config,
            extends(old(link).log(), final(link).log()),
            connected_to(
                old(self).connections@,
                final(self).connections@,
                old(self).config,
                addr,
                now,
                r,
                added(old(link).log(), final(link).log()),
            ),
    {
        proof {
            lemma_extends_refl(link.log());
        }
        if self.find(addr).is_some() {
            return Err(ProtocolError::AlreadyConnected);
        }
        let mut connection = Connection::new(addr, self.config, now);
        let ghost c0 = connection;
        let ghost log0 = link.log();
        let res = connection.send_packet(link, PacketType::Connect, Vec::new(), now);
        let ghost c1 = connection;
        match res {
            Ok(_) => {},
            Err(e) => {
                assert(fresh(c0, addr, old(self).config, now));
                assert(sent(
                    c0,
                    c1,
                    PacketType::Connect,
                    Seq::<u8>::empty(),
                    now,
                    Err(e),
                    added(log0, link.log()),
                ));
                return Err(e);
            },
        }
        connection.state = ConnectionState::Connecting;
        let ghost old_cs = self.connections@;
        self.connections.push(connection);
        proof {
            let cs = self.connections@;
            assert(cs.take(cs.len() - 1) =~= old_cs);
            assert(sent(
                c0,
                c1,
                PacketType::Connect,
                Seq::<u8>::empty(),
                now,
                Ok(0),
                added(log0, link.log()),
            ));
            assert forall|i: int, j: int|
                0 <= i < cs.len() && 0 <= j < cs.len() && i != j implies (#[trigger] cs[i]).peer_addr
                != (#[trigger] cs[j]).peer_addr by {
                if i < old_cs.len() && j < old_cs.len() {
                    assert(cs[i] == old_cs[i] && cs[j] == old_cs[j]);
                } else if i < old_cs.len() {
                    assert(cs[i] == old_cs[i]);
                    assert(old_cs[i].peer_addr != addr);
                } else {
                    assert(cs[j] == old_cs[j]);
                    assert(old_cs[j].peer_addr != addr);
                }
            }
            assert forall|i: int| 0 <= i < cs.len() implies (#[trigger] cs[i]).wf() by {
                if i < old_cs.len() {
                    assert(cs[i] == old_cs[i]);
                }
            }
        }
        Ok(())
    }

    /// Starts closing the connection to `addr`: when it is connected or
    /// connecting, sends a disconnect request and marks it disconnecting.
    pub fn disconnect<S: PacketSink>(&mut self, link: &mut Link<S>, addr: PeerAddr, now: u64) -> (r:
        Result<(), ProtocolError>)
        requires
            old(self).wf(),
            position(old(self).connections@, addr) matches Some(i) ==> ((old(
                self,
            ).connections@[i].state == ConnectionState::Connected || old(
                self,
            ).connections@[i].state == ConnectionState::Connecting) ==> old(
                self,
            ).connections@[i].next_seq_num < u32::MAX),
        ensures
            final(self).wf(),
            final(self).config == old(self).config,
            extends(old(link).log(), final(link).log()),
            ({
                let w = added(old(link).log(), final(link).log());
                let none = Seq::<(Seq<u8>, PeerAddr, bool)>::empty();
                match position(old(self).connections@, addr) {
                    None => r == Err::<(), ProtocolError>(ProtocolError::ConnectionNotFound)
                        && final(self).connections@ == old(self).connections@ && w == none,
                    Some(i) => {
                        let o = old(self).connections@[i];
                        let f = final(self).connections@[i];
                        &&& final(self).connections@ == old(self).connections@.update(i, f)
                        &&& if o.state == ConnectionState::Connected || o.state
                            == ConnectionState::Connecting {
                            match r {
                                Ok(_) => exists|m: Connection|
                                    #[trigger] sent(
                                        o,
                                        m,
                                        PacketType::Disconnect,
                                        Seq::<u8>::empty(),
                                        now,
                                        Ok(o.next_seq_num),
                                        w,
                                    ) && f == (Connection {
                                        state: ConnectionState::Disconnecting,
                                        ..m
                                    }),
                                Err(e) => sent(
                                    o,
                                    f,
                                    PacketType::Disconnect,
                                    Seq::<u8>::empty(),
                                    now,
                                    Err(e),
                                    w,
                                ),
                            }
                        } else {
                            r is Ok && f == o && w == none
                        }
                    },
                }
            }),
    {
        proof {
            lemma_extends_refl(link.log());
        }
        let i = match self.find(addr) {
            Some(i) => i,
            None => {
                return Err(ProtocolError::ConnectionNotFound);
            },
        };
        let ghost old_cs = self.connections@;
        let state = self.connections[i].state;
        if state == ConnectionState::Connected || state == ConnectionState::Connecting {
            let mut c = self.connections.remove(i);
            let res = c.send_packet(link, PacketType::Disconnect, Vec::new(), now);
            let ghost m = c;
            if res.is_ok() {
                c.state = ConnectionState::Disconnecting;
            }
            self.connections.insert(i, c);
            proof {
                let cs = self.connections@;
                assert(cs =~= old_cs.update(i as int, c));
                assert forall|a: int, b: int|
                    0 <= a < cs.len() && 0 <= b < cs.len() && a != b implies (
                    #[trigger] cs[a]).peer_addr != (#[trigger] cs[b]).peer_addr by {
                    assert(cs[a].peer_addr == old_cs[a].peer_addr);
                    assert(cs[b].peer_addr == old_cs[b].peer_addr);
                }
                assert forall|a: int| 0 <= a < cs.len() implies (#[trigger] cs[a]).wf() by {
                    if a != i {
                        assert(cs[a] == old_cs[a]);
                    }
                }
            }
            match res {
                Ok(_) => Ok(()),
                Err(e) => Err(e),
            }
        } else {
            assert(old_cs.update(i as int, old_cs[i as int]) =~= old_cs);
            Ok(())
        }
    }

    /// Whether handling a packet with header `h` from `addr` stays within
    /// the number ranges: a connect request from an unknown peer needs a
    /// number after its own; a packet for a known connection must fit it
    /// (see `receive_fits`).
    pub fn receive_fits_for(&self, addr: PeerAddr, h: &PacketHeader) -> (r: bool)
        requires
            self.wf(),
        ensures
            r == match position(self.connections@, addr) {
                None => h.packet_type == PacketType::Connect ==> h.seq_num < u32::MAX,
                Some(i) => receive_fits(&self.connections@[i], *h),
            },
    {
        match self.find(addr) {
            None => h.packet_type != PacketType::Connect || h.seq_num < u32::MAX,
            Some(i) => self.connections[i].receive_fits_check(h),
        }
    }

    /// Handles a packet in server mode.  A connect request from an unknown
    /// peer opens a connection with the endpoint's settings, kept when its
    /// acknowledgement was handed over.  A packet for a known connection
    /// that is not closed (or any connect request for it) is received and
    /// the connection's timeouts are checked.  Other packets are dropped.
    pub fn server_receive<S: PacketSink>(
        &mut self,
        link: &mut Link<S>,
        addr: PeerAddr,
        packet: Packet,
        now: u64,
    )
        requires
            old(self).wf(),
            position(old(self).connections@, addr) is None && packet.header.packet_type
                == PacketType::Connect ==> packet.header.seq_num < u32::MAX,
            position(old(self).connections@, addr) matches Some(i) ==> ((packet.header.packet_type
                == PacketType::Connect || old(self).connections@[i].state
                != ConnectionState::Closed) ==> receive_fits(
                &old(self).connections@[i],
                packet.header,
            )),
        ensures
            final(self).wf(),
            final(self).config == old(self).config,
            extends(old(link).log(), final(link).log()),
            ({
                let cs = old(self).connections@;
                let fs = final(self).connections@;
                let h = packet.header;
                let w = added(old(link).log(), final(link).log());
                let none = Seq::<(Seq<u8>, PeerAddr, bool)>::empty();
                match position(cs, addr) {
                    None => if h.packet_type == PacketType::Connect {
                        exists|c0: Connection, c1: Connection, rr: Result<Option<Seq<u8>>, ProtocolError>|
                            fresh(c0, addr, old(self).config, now) && #[trigger] received(
                                c0,
                                c1,
                                h,
                                packet.payload,
                                now,
                                rr,
                                w,
                            ) && (rr is Ok ==> fs == cs.push(c1)) && (rr is Err ==> fs == cs)
                    } else {
                        fs == cs && w == none
                    },
                    Some(i) => if h.packet_type == PacketType::Connect || cs[i].state
                        != ConnectionState::Closed {
                        &&& fs == cs.update(i, fs[i])
                        &&& exists|c1: Connection, rr: Result<Option<Seq<u8>>, ProtocolError>, tr: Result<(), ProtocolError>, w1: Wire, w2: Wire|
                            #[trigger] received(cs[i], c1, h, packet.payload, now, rr, w1)
                                && #[trigger] timeouts_checked(c1, fs[i], now, tr, w2) && w == w1
                                + w2
                    } else {
                        fs == cs && w == none
                    },
                }
            }),
    {
        let ghost cs = self.connections@;
        let ghost payload = packet.payload;
        let ghost log0 = link.log();
        proof {
            lemma_extends_refl(log0);
        }
        match self.find(addr) {
            None => {
                if packet.header.packet_type == PacketType::Connect {
                    let mut connection = Connection::new(addr, self.config, now);
                    let ghost c0 = connection;
                    let res = connection.receive_packet(link, packet, now);
                    let ghost c1 = connection;
                    assert(received(
                        c0,
                        c1,
                        packet.header,
                        payload,
                        now,
                        result_view(res),
                        added(log0, link.log()),
                    ));
                    if res.is_ok() {
                        proof {
                            lemma_push_wf(cs, connection);
                        }
                        self.connections.push(connection);
                        assert(self.connections@ =~= cs.push(c1));
                    }
                    assert(fresh(c0, addr, self.config, now));
                }
            },
            Some(i) => {
                if packet.header.packet_type == PacketType::Connect || self.connections[i].state
                    != ConnectionState::Closed {
                    let mut c = self.connections.remove(i);
                    let rr = c.receive_packet(link, packet, now);
                    let ghost c1 = c;
                    let ghost log1 = link.log();
                    let tr = c.check_timeouts(link, now);
                    proof {
                        lemma_extends_trans(log0, log1, link.log());
                    }
                    assert(received(
                        cs[i as int],
                        c1,
                        packet.header,
                        payload,
                        now,
                        result_view(rr),
                        added(log0, log1),
                    ));
                    assert(timeouts_checked(c1, c, now, tr, added(log1, link.log())));
                    proof {
                        lemma_update_wf(cs, i as int, c);
                    }
                    self.connections.insert(i, c);
                    assert(self.connections@ =~= cs.update(i as int, c));
                    assert(self.connections@[i as int] == c);
                }
            },
        }
    }

    /// Handles a packet in receiver mode: a packet for a known connection
    /// that is not closed is received; returns the data to hand to the
    /// application (a non-empty delivered payload).
    pub fn receiver_receive<S: PacketSink>(
        &mut self,
        link: &mut Link<S>,
        addr: PeerAddr,
        packet: Packet,
        now: u64,
    ) -> (d: Option<Vec<u8>>)
        requires
            old(self).wf(),
            position(old(self).connections@, addr) matches Some(i) ==> (old(
                self,
            ).connections@[i].state != ConnectionState::Closed ==> receive_fits(
                &old(self).connections@[i],
                packet.header,
            )),
        ensures
            final(self).wf(),
            final(self).config == old(self).config,
            extends(old(link).log(), final(link).log()),
            receiver_received(
                old(self).connections@,
                final(self).connections@,
                addr,
                packet,
                now,
                d,
                added(old(link).log(), final(link).log()),
            ),
    {
        let ghost cs = self.connections@;
        let ghost payload = packet.payload;
        let ghost log0 = link.log();
        proof {
            lemma_extends_refl(log0);
        }
        match self.find(addr) {
            Some(i) => {
                if self.connections[i].state != ConnectionState::Closed {
                    let mut c = self.connections.remove(i);
                    let rr = c.receive_packet(link, packet, now);
                    let ghost w = added(log0, link.log());
                    assert(received(cs[i as int], c, packet.header, payload, now, result_view(rr), w));
                    proof {
                        lemma_update_wf(cs, i as int, c);
                    }
                    self.connections.insert(i, c);
                    assert(self.connections@ =~= cs.update(i as int, c));
                    let ghost rv = result_view(rr);
                    assert(received(
                        cs[i as int],
                        self.connections@[i as int],
                        packet.header,
                        payload,
                        now,
                        rv,
                        w,
                    ));
                    let d = match rr {
                        Ok(Some(data)) => {
                            if data.len() > 0 {
                                Some(data)
                            } else {
                                None
                            }
                        },
                        _ => None,
                    };
                    assert(opt_view(d) == delivered(rv));
                    d
                } else {
                    None
                }
            },
            None => None,
        }
    }

    /// Checks the timeouts of the connection to `addr`, if there is one;
    /// returns the outcome of the check.
    pub fn check_peer_timeouts<S: PacketSink>(
        &mut self,
        link: &mut Link<S>,
        addr: PeerAddr,
        now: u64,
    ) -> (r: Option<Result<(), ProtocolError>>)
        requires
            old(self).wf(),
        ensures
            final(self).wf(),
            final(self).config == old(self).config,
            extends(old(link).log(), final(link).log()),
            match position(old(self).connections@, addr) {
                Some(i) => {
                    &&& final(self).connections@ == old(self).connections@.update(
                        i,
                        final(self).connections@[i],
                    )
                    &&& r matches Some(tr) && timeouts_checked(
                        old(self).connections@[i],
                        final(self).connections@[i],
                        now,
                        tr,
                        added(old(link).log(), final(link).log()),
                    )
                },
                None => final(self).connections@ == old(self).connections@ && r is None && added(
                    old(link).log(),
                    final(link).log(),
                ) == Seq::<(Seq<u8>, PeerAddr, bool)>::empty(),
            },
    {
        let ghost cs = self.connections@;
        proof {
            lemma_extends_refl(link.log());
        }
        match self.find(addr) {
            Some(i) => {
                let mut c = self.connections.remove(i);
                let tr = c.check_timeouts(link, now);
                proof {
                    lemma_update_wf(cs, i as int, c);
                }
                self.connections.insert(i, c);
                assert(self.connections@ =~= cs.update(i as int, c));
                Some(tr)
            },
            None => None,
        }
    }

    /// Sends `data` to the established connection to `addr` as data
    /// packets carrying `max_packet_size - 16` bytes each (the last one
    /// possibly fewer).  Stops at the first packet that cannot be handed
    /// over.
    pub fn send<S: PacketSink>(
        &mut self,
        link: &mut Link<S>,
        addr: PeerAddr,
        data: &[u8],
        now: u64,
    ) -> (r: Result<(), ProtocolError>)
        requires
            old(self).wf(),
            position(old(self).connections@, addr) matches Some(i) ==> ((old(
                self,
            ).connections@[i].state == ConnectionState::Connected && old(self).config.max_packet_size
                > HEADER_LEN) ==> old(self).connections@[i].next_seq_num + chunks(
                data@,
                old(self).config.max_packet_size - HEADER_LEN,
            ).len() <= u32::MAX),
        ensures
            final(self).wf(),
            final(self).config == old(self).config,
            extends(old(link).log(), final(link).log()),
            ({
                let cs = old(self).connections@;
                let fs = final(self).connections@;
                let w = added(old(link).log(), final(link).log());
                let none = Seq::<(Seq<u8>, PeerAddr, bool)>::empty();
                match position(cs, addr) {
                    None => r == Err::<(), ProtocolError>(ProtocolError::ConnectionNotFound) && fs
                        == cs && w == none,
                    Some(i) => if cs[i].state != ConnectionState::Connected {
                        r == Err::<(), ProtocolError>(ProtocolError::NotConnected) && fs == cs && w
                            == none
                    } else if old(self).config.max_packet_size <= HEADER_LEN {
                        r == Err::<(), ProtocolError>(ProtocolError::PacketSizeTooSmall) && fs
                            == cs && w == none
                    } else {
                        let ch = chunks(data@, old(self).config.max_packet_size - HEADER_LEN);
                        &&& fs == cs.update(i, fs[i])
                        &&& match r {
                            Ok(_) => {
                                &&& data_sent(cs[i], fs[i], ch, ch.len(), ch.len(), now)
                                &&& w == data_wire(cs[i], ch, ch.len() as int, false)
                            },
                            Err(e) => {
                                let k = (fs[i].pending_packets@.len()
                                    - cs[i].pending_packets@.len()) as nat;
                                &&& e == ProtocolError::SendFailed
                                &&& k < ch.len()
                                &&& data_sent(cs[i], fs[i], ch, k, k + 1, now)
                                &&& w == data_wire(cs[i], ch, k as int, true)
                            },
                        }
                    },
                }
            }),
    {
        let ghost cs = self.connections@;
        let ghost log0 = link.log();
        proof {
            lemma_extends_refl(log0);
        }
        let i = match self.find(addr) {
            Some(i) => i,
            None => {
                return Err(ProtocolError::ConnectionNotFound);
            },
        };
        if self.connections[i].state != ConnectionState::Connected {
            return Err(ProtocolError::NotConnected);
        }
        if self.config.max_packet_size <= HEADER_LEN {
            return Err(ProtocolError::PacketSizeTooSmall);
        }
        let n = self.config.max_packet_size - HEADER_LEN;
        let ghost ch = chunks(data@, n as int);
        assert(ch == chunks(data@, old(self).config.max_packet_size - HEADER_LEN));
        let mut c = self.connections.remove(i);
        let ghost c0 = c;
        let len = data.len();
        let mut off: usize = 0;
        let ghost mut k: nat = 0;
        assert(data@.skip(0) =~= data@);
        assert(ch.take(0) + ch =~= ch);
        assert(c.pending_packets@.take(c.pending_packets@.len() as int) =~= c.pending_packets@);
        while off < len
            invariant
                len == data@.len(),
                n > 0,
                off <= len,
                cs == old(self).connections@,
                i < cs.len(),
                position(cs, addr) == Some(i as int),
                cs[i as int].state == ConnectionState::Connected,
                n == old(self).config.max_packet_size - HEADER_LEN,
                all_wf(cs),
                unique_peers(cs),
                self.connections@ == cs.remove(i as int),
                self.config == old(self).config,
                c0 == cs[i as int],
                c.wf(),
                c.peer_addr == c0.peer_addr,
                ch == chunks(data@, n as int),
                k + chunks(data@.skip(off as int), n as int).len() == ch.len(),
                ch.take(k as int) + chunks(data@.skip(off as int), n as int) == ch,
                k <= ch.len(),
                c0.next_seq_num + ch.len() <= u32::MAX,
                data_sent(c0, c, ch, k, k, now),
                log0 == old(link).log(),
                extends(log0, link.log()),
                added(log0, link.log()) == data_wire(c0, ch, k as int, false),
            decreases len - off,
        {
            let end = if len - off > n {
                off + n
            } else {
                len
            };
            let ghost rest = data@.skip(off as int);
            proof {
                if rest.len() > n {
                    assert(chunks(rest, n as int) == seq![rest.take(n as int)] + chunks(
                        rest.skip(n as int),
                        n as int,
                    ));
                    assert(rest.skip(n as int) =~= data@.skip(end as int));
                    assert(rest.take(n as int) =~= data@.subrange(off as int, end as int));
                } else {
                    assert(chunks(rest, n as int) == seq![rest]);
                    assert(rest =~= data@.subrange(off as int, end as int));
                    assert(data@.skip(end as int) =~= Seq::<u8>::empty());
                }
                assert(ch[k as int] == data@.subrange(off as int, end as int)) by {
                    assert(ch[k as int] == (ch.take(k as int) + chunks(rest, n as int))[k as int]);
                }
            }
            let piece = copy_range(data, off, end);
            let ghost before = c;
            let ghost log1 = link.log();
            let res = c.send_packet(link, PacketType::Data, piece, now);
            proof {
                lemma_extends_trans(log0, log1, link.log());
                let x = (packet_bytes(data_header(c0, ch, k as int), ch[k as int]), c0.peer_addr, res is Ok);
                assert(added(log1, link.log()) == seq![x]);
                let dw = data_wire(c0, ch, k as int, false);
                if res is Ok {
                    assert(data_wire(c0, ch, (k + 1) as int, false) =~= dw + seq![x]);
                } else {
                    assert(data_wire(c0, ch, k as int, true) =~= dw + seq![x]);
                }
            }
            match res {
                Ok(_) => {},
                Err(e) => {
                    proof {
                        assert(data_sent(c0, c, ch, k, k + 1, now)) by {
                            assert(c.pending_packets@ == before.pending_packets@);
                        }
                        lemma_update_wf(cs, i as int, c);
                    }
                    self.connections.insert(i, c);
                    assert(self.connections@ =~= cs.update(i as int, c));
                    assert(self.connections@[i as int] == c);
                    assert(k < ch.len());
                    return Err(e);
                },
            }
            proof {
                let np = c0.pending_packets@.len();
                assert(c.pending_packets@.take(np as int) =~= before.pending_packets@.take(
                    np as int,
                ));
                assert forall|j: int| 0 <= j < k + 1 implies {
                    let p = #[trigger] c.pending_packets@[np + j];
                    &&& p.packet.header == data_header(c0, ch, j)
                    &&& p.packet.payload@ == ch[j]
                    &&& p.first_sent == now
                    &&& p.last_sent == now
                    &&& p.transmissions == 1
                } by {
                    if j < k {
                        assert(c.pending_packets@[np + j] == before.pending_packets@[np + j]);
                    }
                }
                assert(ch.take((k + 1) as int) =~= ch.take(k as int).push(ch[k as int]));
                assert(ch.take((k + 1) as int) + chunks(data@.skip(end as int), n as int) =~= ch);
                k = k + 1;
            }
            off = end;
        }
        proof {
            assert(data@.skip(off as int) =~= Seq::<u8>::empty());
            lemma_update_wf(cs, i as int, c);
        }
        self.connections.insert(i, c);
        assert(self.connections@ =~= cs.update(i as int, c));
        assert(self.connections@[i as int] == c);
        Ok(())
    }

    /// Periodic maintenance: checks the timeouts of every connection (an
    /// outcome per connection, in order, is returned) and removes the
    /// connections that are then stale.
    pub fn maintain<S: PacketSink>(&mut self, link: &mut Link<S>, now: u64) -> (r: Vec<
        Result<(), ProtocolError>,
    >)
        requires
            old(self).wf(),
        ensures
            final(self).wf(),
            final(self).config == old(self).config,
            r@.len() == old(self).connections@.len(),
            extends(old(link).log(), final(link).log()),
            exists|checked: Seq<Connection>, ws: Seq<Wire>|
                {
                    &&& checked.len() == old(self).connections@.len()
                    &&& ws.len() == old(self).connections@.len()
                    &&& forall|x: int|
                        0 <= x < checked.len() ==> #[trigger] timeouts_checked(
                            old(self).connections@[x],
                            checked[x],
                            now,
                            r@[x],
                            ws[x],
                        )
                    &&& final(self).connections@ == live(checked, now)
                    &&& added(old(link).log(), final(link).log()) == wires_joined(ws)
                },
    {
        let ghost cs = self.connections@;
        let ghost log0 = link.log();
        let ghost mut ws: Seq<Wire> = Seq::empty();
        proof {
            lemma_extends_refl(log0);
        }
        let n = self.connections.len();
        let mut outcomes: Vec<Result<(), ProtocolError>> = Vec::new();
        let ghost mut checked: Seq<Connection> = Seq::empty();
        let mut k: usize = 0;
        let mut j: usize = 0;
        assert(cs.skip(0) =~= cs);
        assert(live(checked, now) + cs.skip(0) =~= cs);
        while k < n
            invariant
                n == cs.len(),
                cs == old(self).connections@,
                k <= n,
                j <= k,
                checked.len() == k,
                outcomes@.len() == k,
                j == live(checked, now).len(),
                self.connections@ == live(checked, now) + cs.skip(k as int),
                forall|x: int|
                    0 <= x < k ==> #[trigger] timeouts_checked(
                        cs[x],
                        checked[x],
                        now,
                        outcomes@[x],
                        ws[x],
                    ),
                ws.len() == k,
                log0 == old(link).log(),
                extends(log0, link.log()),
                added(log0, link.log()) == wires_joined(ws),
                all_wf(self.connections@),
                unique_peers(self.connections@),
                self.config == old(self).config,
            decreases n - k,
        {
            let ghost before = self.connections@;
            let ghost oc = checked;
            let ghost lv = live(checked, now);
            assert(before[j as int] == cs[k as int]);
            assert(before.remove(j as int) =~= lv + cs.skip(k + 1)) by {
                assert(cs.skip(k as int).drop_first() =~= cs.skip(k + 1));
            }
            let mut c = self.connections.remove(j);
            assert(before[j as int].wf());
            let ghost log1 = link.log();
            let tr = c.check_timeouts(link, now);
            let ghost ck = c;
            outcomes.push(tr);
            proof {
                lemma_extends_trans(log0, log1, link.log());
                let ow = ws;
                ws = ws.push(added(log1, link.log()));
                assert(ws.drop_last() =~= ow);
                assert forall|x: int| 0 <= x < k + 1 implies #[trigger] timeouts_checked(
                    cs[x],
                    checked.push(ck)[x],
                    now,
                    outcomes@[x],
                    ws[x],
                ) by {
                    if x < k {
                        assert(checked.push(ck)[x] == checked[x]);
                    }
                }
                checked = checked.push(ck);
                assert(checked.drop_last() =~= oc);
                assert(checked.take((k + 1) as int) =~= checked);
                assert(cs.skip(k as int).drop_first() =~= cs.skip(k + 1));
            }
            let doubled: u128 = 2 * (c.config.connection_timeout as u128);
            let since_created: u64 = if now >= c.created_at {
                now - c.created_at
            } else {
                0
            };
            let idle: u64 = if now >= c.last_activity {
                now - c.last_activity
            } else {
                0
            };
            let is_stale = c.state == ConnectionState::Closed || (c.state
                == ConnectionState::Connecting && since_created as u128 > doubled) || (c.state
                == ConnectionState::Connected && idle > c.config.connection_timeout);
            assert(is_stale == stale(ck, now));
            if is_stale {
                proof {
                    assert(live(checked, now) == live(checked.drop_last(), now));
                    assert(live(checked.drop_last(), now) == lv);
                    assert(self.connections@ =~= live(checked, now) + cs.skip(k + 1));
                    let cur = self.connections@;
                    assert forall|a: int, b: int|
                        0 <= a < cur.len() && 0 <= b < cur.len() && a != b implies (
                        #[trigger] cur[a]).peer_addr != (#[trigger] cur[b]).peer_addr by {
                        let a2 = if a < j {
                            a
                        } else {
                            a + 1
                        };
                        let b2 = if b < j {
                            b
                        } else {
                            b + 1
                        };
                        assert(cur[a] == before[a2]);
                        assert(cur[b] == before[b2]);
                    }
                    assert forall|a: int| 0 <= a < cur.len() implies (#[trigger] cur[a]).wf() by {
                        let a2 = if a < j {
                            a
                        } else {
                            a + 1
                        };
                        assert(cur[a] == before[a2]);
                    }
                }
            } else {
                self.connections.insert(j, c);
                proof {
                    assert(live(checked, now) == live(checked.drop_last(), now).push(ck));
                    assert(live(checked.drop_last(), now) == lv);
                    assert(self.connections@ =~= before.update(j as int, ck));
                    assert(self.connections@ =~= live(checked, now) + cs.skip(k + 1));
                    lemma_update_wf(before, j as int, ck);
                }
                j = j + 1;
            }
            k = k + 1;
        }
        proof {
            assert(cs.skip(n as int) =~= Seq::<Connection>::empty());
            assert(self.connections@ =~= live(checked, now));
            assert(outcomes@.len() == cs.len());
        }
        outcomes
    }
}

/// The bytes `[a, b)` of `data`.
fn copy_range(data: &[u8], a: usize, b: usize) -> (v: Vec<u8>)
    requires
        a <= b <= data@.len(),
    ensures
        v@ == data@.subrange(a as int, b as int),
{
    let mut v: Vec<u8> = Vec::with_capacity(b - a);
    let mut i = a;
    while i < b
        invariant
            a <= i <= b <= data@.len(),
            v@ == data@.subrange(a as int, i as int),
        decreases b - i,
    {
        v.push(data[i]);
        i = i + 1;
        assert(v@ =~= data@.subrange(a as int, i as int));
    }
    v
}

proof fn lemma_joined_prepend(a: Seq<u8>, rest: Seq<Seq<u8>>)
    ensures
        joined(seq![a] + rest) == a + joined(rest),
    decreases rest.len(),
{
    if rest.len() == 0 {
        let s1 = seq![a];
        assert(s1 + rest =~= s1);
        assert(s1.drop_last() =~= Seq::<Seq<u8>>::empty());
        assert(joined(Seq::<Seq<u8>>::empty()) == Seq::<u8>::empty());
        assert(joined(s1) == joined(s1.drop_last()) + s1.last());
        assert(s1.last() == a);
        assert(a + Seq::<u8>::empty() =~= a);
        assert(Seq::<u8>::empty() + a =~= a);
    } else {
        lemma_joined_prepend(a, rest.drop_last());
        assert((seq![a] + rest).drop_last() =~= seq![a] + rest.drop_last());
        assert((seq![a] + rest).last() == rest.last());
        assert(a + joined(rest.drop_last()) + rest.last() =~= a + (joined(rest.drop_last())
            + rest.last()));
    }
}

/// Splitting data into pieces of `n` bytes loses and reorders nothing: the
/// pieces joined give the data back, each piece holds between 1 and `n`
/// bytes, and there are as many pieces as `n`-byte blocks are needed.
pub proof fn lemma_chunks_rejoin(d: Seq<u8>, n: int)
    requires
        n > 0,
    ensures
        joined(chunks(d, n)) == d,
        forall|i: int| 0 <= i < chunks(d, n).len() ==> 0 < (#[trigger] chunks(d, n)[i]).len() <= n,
        chunks(d, n).len() == (d.len() + n - 1) / n,
    decreases d.len(),
{
    if d.len() == 0 {
        assert(joined(chunks(d, n)) =~= d);
        assert((n - 1) / n == 0) by (nonlinear_arith)
            requires
                n > 0,
        ;
    } else if d.len() <= n {
        lemma_joined_prepend(d, Seq::<Seq<u8>>::empty());
        assert(seq![d] + Seq::<Seq<u8>>::empty() =~= seq![d]);
        assert(d + Seq::<u8>::empty() =~= d);
        assert((d.len() + n - 1) / n == 1) by (nonlinear_arith)
            requires
                0 < d.len() <= n,
        ;
    } else {
        lemma_chunks_rejoin(d.skip(n), n);
        lemma_joined_prepend(d.take(n), chunks(d.skip(n), n));
        assert(d.take(n) + d.skip(n) =~= d);
        let c = chunks(d, n);
        assert(c == seq![d.take(n)] + chunks(d.skip(n), n));
        assert forall|i: int| 0 <= i < c.len() implies 0 < (#[trigger] c[i]).len() <= n by {
            if i > 0 {
                assert(c[i] == chunks(d.skip(n), n)[i - 1]);
            }
        }
        let m = d.len() - n;
        assert((d.len() + n - 1) / n == 1 + (m + n - 1) / n) by (nonlinear_arith)
            requires
                m == d.len() - n,
                m > 0,
                n > 0,
        ;
    }
}

/// Where waiting for a connection to be established stands.
#[derive(Clone, Copy, Debug, PartialEq, Eq, Structural)]
pub enum ConnectWait {
    /// The connection is established.
    Connected,
    /// Not yet; keep waiting.
    Waiting,
    /// Not established within the allowed time.
    TimedOut,
}

/// One poll while waiting for a connection: established wins; otherwise
/// the wait ends once more than `timeout` nanoseconds have elapsed.
pub fn connect_wait_step(connected: bool, elapsed: u64, timeout: u64) -> (r: ConnectWait)
    ensures
        r == if connected {
            ConnectWait::Connected
        } else if elapsed > timeout {
            ConnectWait::TimedOut
        } else {
            ConnectWait::Waiting
        },
{
    if connected {
        ConnectWait::Connected
    } else if elapsed > timeout {
        ConnectWait::TimedOut
    } else {
        ConnectWait::Waiting
    }
}

} // verus!
