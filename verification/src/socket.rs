//! Per-connection state: the socket identifier, connection status, send
//! and receive sequence parameters, and the retransmission queue, together
//! with the construction of outgoing segments.
use vstd::prelude::*;
use std::collections::VecDeque;
use crate::packet::{checksum16, finalize, verify_spec, PacketModel, TCPPacket};
use crate::tcpflags;

verus! {

/// Wildcard remote address of a listening socket.
pub const UNDETERMINED_IP_ADDR: u32 = 0;

/// Wildcard remote port of a listening socket.
pub const UNDETERMINED_PORT: u16 = 0;

/// Largest TCP payload sent in one segment.
pub const MSS: usize = 1460;

/// A segment is dropped from the retransmission queue once it has been
/// transmitted this many times.
pub const MAX_TRANSMISSION: u8 = 5;

/// A queued segment is retransmitted after this long without an
/// acknowledgment.
pub const RETRANSMISSION_TIMEOUT_MS: u64 = 3000;

/// The receive window this stack advertises in every segment it emits.
pub const RECV_WINDOW: u16 = 4380;

/// The socket-table key: local address, remote address, local port,
/// remote port. A listener carries the wildcard remote fields.
#[derive(Clone, Copy, PartialEq, Eq, Hash, Debug, Structural)]
pub struct SockID(pub u32, pub u32, pub u16, pub u16);

/// Connection status. Only the first four have handlers; the teardown
/// states exist for completeness and inbound segments for them are
/// dropped.
#[derive(Clone, Copy, PartialEq, Eq, Debug, Structural)]
pub enum TcpStatus {
    Listen,
    SynSent,
    SynRcvd,
    Established,
    FinWait1,
    FinWait2,
    TimeWait,
    CloseWait,
    LastAck,
}

/// Send-side sequence state (RFC 793 SND.*). `window` is the credit left
/// against the peer's advertised receive window; `initial_window` records
/// the advertised value itself, for accounting only.
pub struct SendParam {
    pub initial_seq: u32,
    pub unacked_seq: u32,
    pub next: u32,
    pub window: u16,
    pub initial_window: Ghost<u16>,
}

/// Receive-side sequence state (RFC 793 RCV.*).
pub struct RecvParam {
    pub initial_seq: u32,
    pub next: u32,
    pub window: u16,
}

/// One in-flight segment awaiting acknowledgment.
pub struct RetransmissionEntry {
    pub packet: TCPPacket,
    pub transmission_count: u8,
    pub latest_transmission_time: u64,
}

/// A serialized segment ready for the raw IPv4 channel, with the address
/// it is bound for.
pub struct Outgoing {
    pub remote_addr: u32,
    pub bytes: Vec<u8>,
}

#[verifier::ext_equal]
pub ghost struct SendParamModel {
    pub initial_seq: u32,
    pub unacked_seq: u32,
    pub next: u32,
    pub window: u16,
    pub initial_window: u16,
}

#[verifier::ext_equal]
pub ghost struct RecvParamModel {
    pub initial_seq: u32,
    pub next: u32,
    pub window: u16,
}

#[verifier::ext_equal]
pub ghost struct EntryModel {
    pub packet: PacketModel,
    pub transmission_count: u8,
    pub latest_transmission_time: u64,
}

#[verifier::ext_equal]
pub ghost struct OutgoingModel {
    pub remote_addr: u32,
    pub bytes: Seq<u8>,
}

#[verifier::ext_equal]
pub ghost struct SocketModel {
    pub local_addr: u32,
    pub remote_addr: u32,
    pub local_port: u16,
    pub remote_port: u16,
    pub send: SendParamModel,
    pub recv: RecvParamModel,
    pub status: TcpStatus,
    pub retransmission_queue: Seq<EntryModel>,
    pub connected_connection_queue: Seq<SockID>,
    pub listening_socket: Option<SockID>,
}

impl View for SendParam {
    type V = SendParamModel;

    open spec fn view(&self) -> SendParamModel {
        SendParamModel {
            initial_seq: self.initial_seq,
            unacked_seq: self.unacked_seq,
            next: self.next,
            window: self.window,
            initial_window: self.initial_window@,
        }
    }
}

impl View for RecvParam {
    type V = RecvParamModel;

    open spec fn view(&self) -> RecvParamModel {
        RecvParamModel {
            initial_seq: self.initial_seq,
            next: self.next,
            window: self.window,
        }
    }
}

impl View for RetransmissionEntry {
    type V = EntryModel;

    open spec fn view(&self) -> EntryModel {
        EntryModel {
            packet: self.packet@,
            transmission_count: self.transmission_count,
            latest_transmission_time: self.latest_transmission_time,
        }
    }
}

impl View for Outgoing {
    type V = OutgoingModel;

    open spec fn view(&self) -> OutgoingModel {
        OutgoingModel { remote_addr: self.remote_addr, bytes: self.bytes@ }
    }
}

/// One endpoint of a connection, or a listener.
pub struct Socket {
    pub local_addr: u32,
    pub remote_addr: u32,
    pub local_port: u16,
    pub remote_port: u16,
    pub send_param: SendParam,
    pub recv_param: RecvParam,
    pub status: TcpStatus,
    pub retransmission_queue: VecDeque<RetransmissionEntry>,
    pub connected_connection_queue: VecDeque<SockID>,
    pub listening_socket: Option<SockID>,
}

impl View for Socket {
    type V = SocketModel;

    open spec fn view(&self) -> SocketModel {
        SocketModel {
            local_addr: self.local_addr,
            remote_addr: self.remote_addr,
            local_port: self.local_port,
            remote_port: self.remote_port,
            send: self.send_param@,
            recv: self.recv_param@,
            status: self.status,
            retransmission_queue: self.retransmission_queue@.map_values(
                |e: RetransmissionEntry| e@,
            ),
            connected_connection_queue: self.connected_connection_queue@,
            listening_socket: self.listening_socket,
        }
    }
}

/// Total payload bytes held by the queued segments.
pub open spec fn queued_total(q: Seq<EntryModel>) -> int
    decreases q.len(),
{
    if q.len() == 0 {
        0
    } else {
        q[0].packet.payload.len() + queued_total(q.skip(1))
    }
}

pub proof fn lemma_queued_total_nonneg(q: Seq<EntryModel>)
    ensures
        queued_total(q) >= 0,
    decreases q.len(),
{
    if q.len() > 0 {
        lemma_queued_total_nonneg(q.skip(1));
    }
}

pub proof fn lemma_queued_total_push(q: Seq<EntryModel>, e: EntryModel)
    ensures
        queued_total(q.push(e)) == queued_total(q) + e.packet.payload.len(),
    decreases q.len(),
{
    let qe = q.push(e);
    assert(qe.len() == q.len() + 1);
    assert(queued_total(qe) == qe[0].packet.payload.len() + queued_total(qe.skip(1)));
    if q.len() == 0 {
        assert(qe[0] == e);
        assert(qe.skip(1) =~= Seq::<EntryModel>::empty());
    } else {
        assert(qe[0] == q[0]);
        assert(qe.skip(1) =~= q.skip(1).push(e));
        lemma_queued_total_push(q.skip(1), e);
    }
}

/// Bounds every queued segment keeps: transmitted between one and
/// `MAX_TRANSMISSION` times, carrying at most `MSS` payload bytes.
pub open spec fn entries_ok(q: Seq<EntryModel>) -> bool {
    forall|k: int| #![trigger q[k]]
        0 <= k < q.len() ==> {
            &&& 1 <= q[k].transmission_count
            &&& q[k].transmission_count <= MAX_TRANSMISSION
            &&& q[k].packet.payload.len() <= MSS
        }
}

/// Every queued segment carries the checksum computed for the addresses
/// it travels between, so a retransmission passes verification as the
/// first transmission did.
pub open spec fn entries_checksummed(local_addr: u32, remote_addr: u32, q: Seq<EntryModel>) -> bool {
    forall|k: int| #![trigger q[k]]
        0 <= k < q.len() ==> q[k].packet.checksum == crate::packet::computed_checksum(
            local_addr,
            remote_addr,
            q[k].packet,
        )
}

/// Dropping the head keeps the entry bounds and checksums.
pub proof fn lemma_entries_props_skip(local_addr: u32, remote_addr: u32, q: Seq<EntryModel>)
    requires
        q.len() > 0,
        entries_ok(q),
        entries_checksummed(local_addr, remote_addr, q),
    ensures
        entries_ok(q.skip(1)),
        entries_checksummed(local_addr, remote_addr, q.skip(1)),
{
    let t = q.skip(1);
    assert forall|k: int| #![trigger t[k]] 0 <= k < t.len() implies {
        &&& 1 <= t[k].transmission_count
        &&& t[k].transmission_count <= MAX_TRANSMISSION
        &&& t[k].packet.payload.len() <= MSS
        &&& t[k].packet.checksum == crate::packet::computed_checksum(
            local_addr,
            remote_addr,
            t[k].packet,
        )
    } by {
        assert(t[k] == q[k + 1]);
    }
}

/// Moving the head to the tail with a new stamp and count keeps the entry
/// bounds and checksums, as the segment itself is unchanged.
pub proof fn lemma_entries_props_requeue(
    local_addr: u32,
    remote_addr: u32,
    q: Seq<EntryModel>,
    h2: EntryModel,
)
    requires
        q.len() > 0,
        entries_ok(q),
        entries_checksummed(local_addr, remote_addr, q),
        h2.packet == q[0].packet,
        1 <= h2.transmission_count <= MAX_TRANSMISSION,
    ensures
        entries_ok(q.skip(1).push(h2)),
        entries_checksummed(local_addr, remote_addr, q.skip(1).push(h2)),
{
    let t = q.skip(1).push(h2);
    assert forall|k: int| #![trigger t[k]] 0 <= k < t.len() implies {
        &&& 1 <= t[k].transmission_count
        &&& t[k].transmission_count <= MAX_TRANSMISSION
        &&& t[k].packet.payload.len() <= MSS
        &&& t[k].packet.checksum == crate::packet::computed_checksum(
            local_addr,
            remote_addr,
            t[k].packet,
        )
    } by {
        if k < q.skip(1).len() {
            assert(t[k] == q.skip(1)[k]);
            assert(q.skip(1)[k] == q[k + 1]);
        } else {
            assert(t[k] == h2);
        }
    }
}

/// Whether an emitted segment is kept for retransmission: everything but
/// a bare ACK, which acknowledges without carrying anything to deliver.
pub open spec fn should_queue(payload: Seq<u8>, flag: u8) -> bool {
    payload.len() > 0 || flag & (tcpflags::SYN | tcpflags::FIN) != 0
}

/// The segment this stack emits for the given fields and addresses: the
/// advertised window is `RECV_WINDOW` and the checksum is computed over
/// the pseudo-header for (`local_addr`, `remote_addr`).
pub open spec fn built_packet(
    local_addr: u32,
    remote_addr: u32,
    local_port: u16,
    remote_port: u16,
    seq: u32,
    ack: u32,
    flag: u8,
    payload: Seq<u8>,
) -> PacketModel {
    finalize(
        local_addr,
        remote_addr,
        PacketModel {
            src_port: local_port,
            dst_port: remote_port,
            seq,
            ack,
            flag,
            window_size: RECV_WINDOW,
            checksum: 0,
            payload,
        },
    )
}

/// The state of a socket as [`Socket::new`] makes it: zeroed sequence
/// parameters, empty queues, no parent listener.
pub open spec fn fresh_socket_model(
    local_addr: u32,
    remote_addr: u32,
    local_port: u16,
    remote_port: u16,
    status: TcpStatus,
) -> SocketModel {
    SocketModel {
        local_addr,
        remote_addr,
        local_port,
        remote_port,
        send: SendParamModel {
            initial_seq: 0,
            unacked_seq: 0,
            next: 0,
            window: 0,
            initial_window: 0,
        },
        recv: RecvParamModel { initial_seq: 0, next: 0, window: 0 },
        status,
        retransmission_queue: Seq::<EntryModel>::empty(),
        connected_connection_queue: Seq::<SockID>::empty(),
        listening_socket: None,
    }
}

impl SocketModel {
    /// The table key of this socket.
    pub open spec fn sock_id(self) -> SockID {
        SockID(self.local_addr, self.remote_addr, self.local_port, self.remote_port)
    }

    /// Well-formedness, kept by every operation:
    /// the send sequence numbers are ordered (initial, unacknowledged,
    /// next); every queued segment has been transmitted between one and
    /// `MAX_TRANSMISSION` times and carries at most `MSS` payload bytes;
    /// the queued payload never exceeds the send credit spent, so window
    /// accounting cannot overflow; and a socket still in `SynSent` has
    /// spent no credit at all.
    pub open spec fn wf(self) -> bool {
        &&& self.send.initial_seq <= self.send.unacked_seq
        &&& self.send.unacked_seq <= self.send.next
        &&& entries_ok(self.retransmission_queue)
        &&& entries_checksummed(self.local_addr, self.remote_addr, self.retransmission_queue)
        &&& queued_total(self.retransmission_queue) <= self.send.initial_window
            - self.send.window
        &&& self.status is SynSent ==> self.send.window == 0 && queued_total(
            self.retransmission_queue,
        ) == 0
    }
}

impl Socket {
    /// A fresh socket in the given state, with zeroed sequence parameters
    /// and empty queues.
    pub fn new(
        local_addr: u32,
        remote_addr: u32,
        local_port: u16,
        remote_port: u16,
        status: TcpStatus,
    ) -> (s: Socket)
        ensures
            s@ == fresh_socket_model(local_addr, remote_addr, local_port, remote_port, status),
            s@.wf(),
    {
        let s = Socket {
            local_addr,
            remote_addr,
            local_port,
            remote_port,
            send_param: SendParam {
                initial_seq: 0,
                unacked_seq: 0,
                next: 0,
                window: 0,
                initial_window: Ghost(0),
            },
            recv_param: RecvParam { initial_seq: 0, next: 0, window: 0 },
            status,
            retransmission_queue: VecDeque::new(),
            connected_connection_queue: VecDeque::new(),
            listening_socket: None,
        };
        proof {
            assert(s@.retransmission_queue =~= Seq::<EntryModel>::empty());
            assert(s@.connected_connection_queue =~= Seq::<SockID>::empty());
            assert(s@ =~= fresh_socket_model(local_addr, remote_addr, local_port, remote_port, status));
        }
        s
    }

    /// The table key of this socket.
    pub fn get_sock_id(&self) -> (id: SockID)
        ensures
            id == self@.sock_id(),
    {
        SockID(self.local_addr, self.remote_addr, self.local_port, self.remote_port)
    }

    /// Build one segment towards this socket's peer: fill the header,
    /// compute the checksum, and, unless it is a bare ACK, append it to
    /// the retransmission queue with one transmission at `now_ms`.
    ///
    /// Returns the serialized segment; the caller hands it to the raw
    /// channel. Sequence parameters are left to the caller.
    pub fn send_tcp_packet(
        &mut self,
        seq: u32,
        ack: u32,
        flag: u8,
        payload: Vec<u8>,
        now_ms: u64,
    ) -> (out: Outgoing)
        requires
            payload@.len() <= MSS,
        ensures
            ({
                let m = built_packet(
                    old(self)@.local_addr,
                    old(self)@.remote_addr,
                    old(self)@.local_port,
                    old(self)@.remote_port,
                    seq,
                    ack,
                    flag,
                    payload@,
                );
                &&& out@.remote_addr == old(self)@.remote_addr
                &&& out@.bytes == m.bytes()
                &&& verify_spec(old(self)@.local_addr, old(self)@.remote_addr, out@.bytes)
                &&& m.checksum == crate::packet::computed_checksum(
                    old(self)@.local_addr,
                    old(self)@.remote_addr,
                    m,
                )
                &&& final(self)@ == (SocketModel {
                    retransmission_queue: if should_queue(payload@, flag) {
                        old(self)@.retransmission_queue.push(
                            EntryModel {
                                packet: m,
                                transmission_count: 1,
                                latest_transmission_time: now_ms,
                            },
                        )
                    } else {
                        old(self)@.retransmission_queue
                    },
                    ..old(self)@
                })
            }),
    {
        let queue_it = payload.len() > 0 || flag & (tcpflags::SYN | tcpflags::FIN) != 0;
        let mut packet = TCPPacket {
            src_port: self.local_port,
            dst_port: self.remote_port,
            seq,
            ack,
            flag,
            window_size: RECV_WINDOW,
            checksum: 0,
            payload,
        };
        let ghost zeroed = packet@;
        let zeroed_bytes = packet.encode();
        let ck = checksum16(self.local_addr, self.remote_addr, &zeroed_bytes);
        packet.checksum = ck;
        let ghost m = built_packet(
            self.local_addr,
            self.remote_addr,
            self.local_port,
            self.remote_port,
            seq,
            ack,
            flag,
            zeroed.payload,
        );
        proof {
            assert((PacketModel { checksum: 0, ..zeroed }) =~= zeroed);
            assert(ck == crate::packet::computed_checksum(
                self.local_addr,
                self.remote_addr,
                zeroed,
            ));
            assert(packet@ =~= m);
            assert((PacketModel { checksum: 0, ..m }) =~= zeroed);
            assert(crate::packet::computed_checksum(self.local_addr, self.remote_addr, m)
                == crate::packet::computed_checksum(self.local_addr, self.remote_addr, zeroed));
            crate::packet::lemma_checksum_round_trip(self.local_addr, self.remote_addr, m);
        }
        let bytes = packet.encode();
        let out = Outgoing { remote_addr: self.remote_addr, bytes };
        if queue_it {
            self.retransmission_queue.push_back(
                RetransmissionEntry {
                    packet,
                    transmission_count: 1,
                    latest_transmission_time: now_ms,
                },
            );
            proof {
                assert(self@.retransmission_queue =~= old(self)@.retransmission_queue.push(
                    EntryModel { packet: m, transmission_count: 1, latest_transmission_time: now_ms },
                ));
                assert(self@ =~= (SocketModel {
                    retransmission_queue: old(self)@.retransmission_queue.push(
                        EntryModel {
                            packet: m,
                            transmission_count: 1,
                            latest_transmission_time: now_ms,
                        },
                    ),
                    ..old(self)@
                }));
            }
        } else {
            proof {
                assert(self@ =~= (SocketModel { retransmission_queue: old(self)@.retransmission_queue, ..old(self)@ }));
            }
        }
        out
    }
}

} // verus!
