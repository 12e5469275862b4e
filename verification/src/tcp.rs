//! The connection engine: the socket table, the user-facing operations
//! (`listen`, `accept`, `connect`, `send`), the per-state handlers for
//! inbound segments, the retransmission-timer step, and the single-slot
//! event bus that wakes blocked callers.
//!
//! Every operation here is a pure step on the table. The embedding
//! program serializes the steps under one lock, transmits the returned
//! [`Outgoing`] segments, and blocks on a condition variable paired with
//! [`TCP::take_matching_event`].
use vstd::prelude::*;
use crate::packet::{parse, verify_spec, wrap_add32_spec, PacketModel, TCPPacket, MAX_SEGMENT};
use crate::socket::{
    built_packet, entries_checksummed, entries_ok, fresh_socket_model, queued_total, should_queue,
    lemma_entries_props_requeue, lemma_entries_props_skip, lemma_queued_total_nonneg,
    lemma_queued_total_push, EntryModel, Outgoing, OutgoingModel,
    RecvParamModel, SendParamModel, SockID, Socket, SocketModel, TcpStatus, MAX_TRANSMISSION, MSS,
    RETRANSMISSION_TIMEOUT_MS, UNDETERMINED_IP_ADDR, UNDETERMINED_PORT,
};
use crate::tcpflags;
use crate::TcpError;

verus! {

/// What a background step may signal to a blocked user call.
#[derive(Debug, Clone, Copy, PartialEq, Eq, Structural)]
pub enum TCPEventKind {
    ConnectionCompleted,
    Acked,
    DataArrived,
    ConnectionClosed,
}

/// One event in the single-slot bus: which socket, and what happened.
#[derive(Debug, Clone, Copy, PartialEq, Eq, Structural)]
pub struct TCPEvent {
    pub sock_id: SockID,
    pub kind: TCPEventKind,
}

impl TCPEvent {
    pub fn new(sock_id: SockID, kind: TCPEventKind) -> (e: Self)
        ensures
            e == (TCPEvent { sock_id, kind }),
    {
        Self { sock_id, kind }
    }
}

/// The engine: every socket, and the pending event if any.
pub struct TCP {
    pub sockets: Vec<Socket>,
    pub event: Option<TCPEvent>,
}

#[verifier::ext_equal]
pub ghost struct TcpModel {
    pub sockets: Seq<SocketModel>,
    pub event: Option<TCPEvent>,
}

impl View for TCP {
    type V = TcpModel;

    open spec fn view(&self) -> TcpModel {
        TcpModel {
            sockets: self.sockets@.map_values(|s: Socket| s@),
            event: self.event,
        }
    }
}

/// Whether some socket in `socks` is keyed by `id`.
pub open spec fn seq_contains_id(socks: Seq<SocketModel>, id: SockID) -> bool {
    exists|i: int| 0 <= i < socks.len() && (#[trigger] socks[i]).sock_id() == id
}

/// The position of the socket keyed by `id` (meaningful when present;
/// unique under `socks_wf`).
pub open spec fn seq_idx_of(socks: Seq<SocketModel>, id: SockID) -> int {
    choose|i: int| 0 <= i < socks.len() && (#[trigger] socks[i]).sock_id() == id
}

/// Table well-formedness: all keys distinct, every socket well formed,
/// and every recorded parent listener still keyed in the table.
pub open spec fn socks_wf(socks: Seq<SocketModel>) -> bool {
    &&& forall|i: int, j: int|
        0 <= i < j < socks.len() ==> (#[trigger] socks[i]).sock_id() != (
        #[trigger] socks[j]).sock_id()
    &&& forall|i: int| 0 <= i < socks.len() ==> (#[trigger] socks[i]).wf()
    &&& forall|i: int|
        0 <= i < socks.len() ==> ((#[trigger] socks[i]).listening_socket matches Some(lid)
            ==> seq_contains_id(socks, lid))
}

/// `socks` with `s` in place: replacing the socket with the same key if
/// one exists, appended otherwise.
pub open spec fn insert_sock_spec(socks: Seq<SocketModel>, s: SocketModel) -> Seq<SocketModel> {
    if seq_contains_id(socks, s.sock_id()) {
        socks.update(seq_idx_of(socks, s.sock_id()), s)
    } else {
        socks.push(s)
    }
}

impl TcpModel {
    pub open spec fn contains(self, id: SockID) -> bool {
        seq_contains_id(self.sockets, id)
    }

    pub open spec fn idx(self, id: SockID) -> int {
        seq_idx_of(self.sockets, id)
    }

    /// The socket keyed by `id` (meaningful when present).
    pub open spec fn sock(self, id: SockID) -> SocketModel {
        self.sockets[self.idx(id)]
    }

    pub open spec fn wf(self) -> bool {
        socks_wf(self.sockets)
    }
}

pub proof fn lemma_idx_of(socks: Seq<SocketModel>, id: SockID)
    requires
        seq_contains_id(socks, id),
    ensures
        0 <= seq_idx_of(socks, id) < socks.len(),
        socks[seq_idx_of(socks, id)].sock_id() == id,
        socks_wf(socks) ==> forall|i: int|
            0 <= i < socks.len() && (#[trigger] socks[i]).sock_id() == id ==> i == seq_idx_of(
                socks,
                id,
            ),
{
    let w = choose|i: int| 0 <= i < socks.len() && (#[trigger] socks[i]).sock_id() == id;
    assert(0 <= w < socks.len() && socks[w].sock_id() == id);
    if socks_wf(socks) {
        let x = seq_idx_of(socks, id);
        assert forall|i: int|
            0 <= i < socks.len() && (#[trigger] socks[i]).sock_id() == id implies i == x by {
            if i != x {
                if i < x {
                    assert(socks[i].sock_id() != socks[x].sock_id());
                } else {
                    assert(socks[x].sock_id() != socks[i].sock_id());
                }
            }
        }
    }
}

/// Updating one socket in place, without changing its key, its parent
/// reference, or its well-formedness, keeps the table well formed.
pub proof fn lemma_update_preserves_wf(socks: Seq<SocketModel>, i: int, s2: SocketModel)
    requires
        socks_wf(socks),
        0 <= i < socks.len(),
        s2.wf(),
        s2.sock_id() == socks[i].sock_id(),
        s2.listening_socket == socks[i].listening_socket,
    ensures
        socks_wf(socks.update(i, s2)),
        forall|id: SockID| seq_contains_id(socks.update(i, s2), id) == seq_contains_id(socks, id),
{
    let post = socks.update(i, s2);
    assert forall|id: SockID| seq_contains_id(post, id) == seq_contains_id(socks, id) by {
        if seq_contains_id(post, id) {
            let k = choose|k: int| 0 <= k < post.len() && (#[trigger] post[k]).sock_id() == id;
            assert(socks[k].sock_id() == id);
        }
        if seq_contains_id(socks, id) {
            let k = choose|k: int| 0 <= k < socks.len() && (#[trigger] socks[k]).sock_id() == id;
            assert(post[k].sock_id() == id);
        }
    }
}

impl TCP {
    /// An engine with no sockets and no pending event.
    pub fn new() -> (t: TCP)
        ensures
            t@ == (TcpModel { sockets: Seq::<SocketModel>::empty(), event: None::<TCPEvent> }),
            t@.wf(),
    {
        let t = TCP { sockets: Vec::new(), event: None };
        proof {
            assert(t@.sockets =~= Seq::<SocketModel>::empty());
            assert(t@ =~= (TcpModel {
                sockets: Seq::<SocketModel>::empty(),
                event: None::<TCPEvent>,
            }));
        }
        t
    }

    /// The position of the socket keyed by `id`, if any.
    fn find_socket(&self, id: SockID) -> (r: Option<usize>)
        ensures
            match r {
                Some(i) => i < self@.sockets.len() && self@.sockets[i as int].sock_id() == id,
                None => !self@.contains(id),
            },
    {
        let n = self.sockets.len();
        let mut i: usize = 0;
        while i < n
            invariant
                n == self@.sockets.len(),
                i <= n,
                forall|k: int| 0 <= k < i ==> (#[trigger] self@.sockets[k]).sock_id() != id,
            decreases n - i,
        {
            if self.sockets[i].get_sock_id() == id {
                return Some(i);
            }
            i = i + 1;
        }
        None
    }

    /// Put `socket` into the table, replacing any socket with the same
    /// key.
    fn insert_socket(&mut self, socket: Socket)
        requires
            old(self)@.wf(),
            socket@.wf(),
            socket@.listening_socket matches Some(lid) ==> old(self)@.contains(lid) || lid
                == socket@.sock_id(),
        ensures
            final(self)@.sockets == insert_sock_spec(old(self)@.sockets, socket@),
            final(self)@.event == old(self)@.event,
            final(self)@.wf(),
            forall|id: SockID|
                final(self)@.contains(id) == (old(self)@.contains(id) || id == socket@.sock_id()),
    {
        let ghost pre = self@.sockets;
        let ghost sm = socket@;
        let id = socket.get_sock_id();
        match self.find_socket(id) {
            Some(i) => {
                proof {
                    lemma_idx_of(pre, id);
                }
                self.sockets.remove(i);
                self.sockets.insert(i, socket);
                proof {
                    assert(self@.sockets =~= pre.update(i as int, sm));
                    lemma_replace_wf(pre, i as int, sm);
                    assert forall|id2: SockID|
                        self@.contains(id2) == (seq_contains_id(pre, id2) || id2
                            == sm.sock_id()) by {
                        lemma_keys_after_update(pre, i as int, sm, id2);
                    }
                }
            },
            None => {
                self.sockets.push(socket);
                proof {
                    assert(self@.sockets =~= pre.push(sm));
                    lemma_push_wf(pre, sm);
                    assert forall|id2: SockID|
                        self@.contains(id2) == (seq_contains_id(pre, id2) || id2
                            == sm.sock_id()) by {
                        lemma_keys_after_push(pre, sm, id2);
                    }
                }
            },
        }
    }

    /// Create a listening socket on the given local address and port and
    /// put it in the table. Its key carries the wildcard remote fields.
    pub fn listen(&mut self, local_addr: u32, local_port: u16) -> (r: Result<SockID, TcpError>)
        requires
            old(self)@.wf(),
        ensures
            final(self)@.wf(),
            r == Ok::<SockID, TcpError>(
                SockID(local_addr, UNDETERMINED_IP_ADDR, local_port, UNDETERMINED_PORT),
            ),
            final(self)@.sockets == insert_sock_spec(
                old(self)@.sockets,
                fresh_socket_model(
                    local_addr,
                    UNDETERMINED_IP_ADDR,
                    local_port,
                    UNDETERMINED_PORT,
                    TcpStatus::Listen,
                ),
            ),
            final(self)@.event == old(self)@.event,
    {
        let socket = Socket::new(
            local_addr,
            UNDETERMINED_IP_ADDR,
            local_port,
            UNDETERMINED_PORT,
            TcpStatus::Listen,
        );
        let sock_id = socket.get_sock_id();
        self.insert_socket(socket);
        Ok(sock_id)
    }

    /// Pop the next completed connection off a listener's queue, in
    /// handshake-completion order. The embedding program calls this after
    /// waiting for a `ConnectionCompleted` event on `sock_id`. A key
    /// enters this queue exactly when its handshake completes and its
    /// socket turns Established
    /// ([`crate::laws::lemma_completed_connection_established`]); only a
    /// later SYN reusing the same four-tuple can re-key it before it is
    /// popped.
    pub fn accept(&mut self, sock_id: SockID) -> (r: Result<SockID, TcpError>)
        requires
            old(self)@.wf(),
        ensures
            final(self)@.wf(),
            !old(self)@.contains(sock_id) ==> r == Err::<SockID, TcpError>(
                TcpError::SocketNotFound,
            ) && final(self)@ == old(self)@,
            old(self)@.contains(sock_id) ==> ({
                let i = old(self)@.idx(sock_id);
                let q = old(self)@.sockets[i].connected_connection_queue;
                if q.len() == 0 {
                    r == Err::<SockID, TcpError>(TcpError::NoPendingConnection) && final(self)@
                        == old(self)@
                } else {
                    &&& r == Ok::<SockID, TcpError>(q[0])
                    &&& final(self)@.sockets == old(self)@.sockets.update(
                        i,
                        (SocketModel {
                            connected_connection_queue: q.skip(1),
                            ..old(self)@.sockets[i]
                        }),
                    )
                    &&& final(self)@.event == old(self)@.event
                }
            }),
    {
        let ghost pre = self@.sockets;
        match self.find_socket(sock_id) {
            None => Err(TcpError::SocketNotFound),
            Some(i) => {
                proof {
                    lemma_idx_of(pre, sock_id);
                }
                let mut socket = self.sockets.remove(i);
                let popped = socket.connected_connection_queue.pop_front();
                let ghost sm = socket@;
                self.sockets.insert(i, socket);
                proof {
                    assert(self@.sockets =~= pre.update(i as int, sm));
                }
                match popped {
                    None => {
                        proof {
                            assert(sm =~= pre[i as int]);
                            assert(self@.sockets =~= pre);
                            assert(self@ =~= old(self)@);
                        }
                        Err(TcpError::NoPendingConnection)
                    },
                    Some(id) => {
                        proof {
                            assert(sm =~= (SocketModel {
                                connected_connection_queue:
                                    pre[i as int].connected_connection_queue.skip(1),
                                ..pre[i as int]
                            }));
                            lemma_update_preserves_wf(pre, i as int, sm);
                        }
                        Ok(id)
                    },
                }
            },
        }
    }

    /// Record `kind` for `sock_id` in the event slot, overwriting any
    /// unconsumed event. The embedding program notifies its condition
    /// variable right after.
    pub fn publish_event(&mut self, sock_id: SockID, kind: TCPEventKind)
        ensures
            final(self)@ == (TcpModel {
                event: Some(TCPEvent { sock_id, kind }),
                ..old(self)@
            }),
            final(self).sockets == old(self).sockets,
    {
        self.event = Some(TCPEvent::new(sock_id, kind));
        proof {
            assert(self@ =~= (TcpModel { event: Some(TCPEvent { sock_id, kind }), ..old(self)@ }));
        }
    }

    /// Consume the pending event if it matches; a waiter loops on this,
    /// sleeping on the condition variable between calls.
    pub fn take_matching_event(&mut self, sock_id: SockID, kind: TCPEventKind) -> (r: bool)
        ensures
            r == (old(self)@.event == Some(TCPEvent { sock_id, kind })),
            r ==> final(self)@ == (TcpModel { event: None::<TCPEvent>, ..old(self)@ }),
            !r ==> final(self)@ == old(self)@,
    {
        let matched = match &self.event {
            Some(e) => e.sock_id == sock_id && e.kind == kind,
            None => false,
        };
        if matched {
            self.event = None;
            proof {
                assert(self@ =~= (TcpModel { event: None::<TCPEvent>, ..old(self)@ }));
            }
            true
        } else {
            false
        }
    }
}

/// First port of the ephemeral range `connect` draws from.
pub const PORT_RANGE_START: u16 = 40000;

/// One past the last port of the ephemeral range.
pub const PORT_RANGE_END: u16 = 60000;

/// Relies on rand::random_range over `lo..hi`: a uniform draw in the
/// half-open range. The precondition keeps the range non-empty, on which
/// the call would panic.
#[verifier::external_body]
fn random_in_range_u16(lo: u16, hi: u16) -> (r: u16)
    requires
        lo < hi,
    ensures
        lo <= r < hi,
{
    rand::random_range(lo..hi)
}

/// Relies on rand::random_range over `lo..hi`: a uniform draw in the
/// half-open range. The precondition keeps the range non-empty, on which
/// the call would panic.
#[verifier::external_body]
fn random_in_range_u32(lo: u32, hi: u32) -> (r: u32)
    requires
        lo < hi,
    ensures
        lo <= r < hi,
{
    rand::random_range(lo..hi)
}

/// The payload length of the next data segment: the smallest of the MSS,
/// the remaining send credit, and the bytes left in the buffer.
pub open spec fn send_size_spec(s: SocketModel, remaining: int) -> int {
    if MSS <= s.send.window && MSS <= remaining {
        MSS as int
    } else if s.send.window <= remaining {
        s.send.window as int
    } else {
        remaining
    }
}

/// What `connect` does when it succeeds with `port` and `iss` as the
/// random draws: a fresh `SynSent` socket keyed on them joins the table
/// and its SYN goes out, queued for retransmission at `now_ms`.
pub open spec fn connect_effect(
    pre: TcpModel,
    post: TcpModel,
    local_addr: u32,
    remote_addr: u32,
    remote_port: u16,
    port: u16,
    iss: u32,
    now_ms: u64,
    sock_id: SockID,
    out: OutgoingModel,
) -> bool {
    let syn = built_packet(
        local_addr,
        remote_addr,
        port,
        remote_port,
        iss,
        0,
        tcpflags::SYN,
        Seq::<u8>::empty(),
    );
    let s = SocketModel {
        local_addr,
        remote_addr,
        local_port: port,
        remote_port,
        send: SendParamModel {
            initial_seq: iss,
            unacked_seq: iss,
            next: (iss + 1) as u32,
            window: 0,
            initial_window: 0,
        },
        recv: RecvParamModel { initial_seq: 0, next: 0, window: 0 },
        status: TcpStatus::SynSent,
        retransmission_queue: seq![
            EntryModel { packet: syn, transmission_count: 1, latest_transmission_time: now_ms },
        ],
        connected_connection_queue: Seq::<SockID>::empty(),
        listening_socket: None,
    };
    &&& PORT_RANGE_START <= port < PORT_RANGE_END
    &&& (forall|i: int|
        0 <= i < pre.sockets.len() ==> (#[trigger] pre.sockets[i]).local_port != port)
    &&& 1 <= iss < 0x8000_0000
    &&& sock_id == SockID(local_addr, remote_addr, port, remote_port)
    &&& out.remote_addr == remote_addr
    &&& out.bytes == syn.bytes()
    &&& post.sockets == pre.sockets.push(s)
    &&& post.event == pre.event
}

impl TCP {
    /// Whether any socket's local port is `p`.
    fn port_in_use(&self, p: u16) -> (r: bool)
        ensures
            r == exists|i: int|
                0 <= i < self@.sockets.len() && (#[trigger] self@.sockets[i]).local_port == p,
    {
        let n = self.sockets.len();
        let mut i: usize = 0;
        while i < n
            invariant
                n == self@.sockets.len(),
                i <= n,
                forall|k: int| 0 <= k < i ==> (#[trigger] self@.sockets[k]).local_port != p,
            decreases n - i,
        {
            if self.sockets[i].local_port == p {
                proof {
                    assert(self@.sockets[i as int].local_port == p);
                }
                return true;
            }
            i = i + 1;
        }
        false
    }

    /// Draw random ports from the ephemeral range until one is unused by
    /// every socket, giving up after as many draws as the range is wide.
    /// When no socket sits on any ephemeral port, no draw can collide, so
    /// failure is possible only when some port of the range is taken.
    #[verifier::loop_isolation(false)]
    fn select_unused_port(&self) -> (r: Result<u16, TcpError>)
        ensures
            match r {
                Ok(p) => PORT_RANGE_START <= p < PORT_RANGE_END && forall|i: int|
                    0 <= i < self@.sockets.len() ==> (#[trigger] self@.sockets[i]).local_port != p,
                Err(e) => e == TcpError::NoAvailablePort,
            },
            (forall|i: int|
                0 <= i < self@.sockets.len() ==> !(PORT_RANGE_START <= (
                #[trigger] self@.sockets[i]).local_port && self@.sockets[i].local_port
                    < PORT_RANGE_END)) ==> r is Ok,
    {
        let mut attempt: u16 = 0;
        while attempt < PORT_RANGE_END - PORT_RANGE_START
            invariant
                attempt <= PORT_RANGE_END - PORT_RANGE_START,
                attempt > 0 ==> exists|i: int|
                    0 <= i < self@.sockets.len() && PORT_RANGE_START <= (
                    #[trigger] self@.sockets[i]).local_port && self@.sockets[i].local_port
                        < PORT_RANGE_END,
            decreases PORT_RANGE_END - PORT_RANGE_START - attempt,
        {
            let local_port = random_in_range_u16(PORT_RANGE_START, PORT_RANGE_END);
            if !self.port_in_use(local_port) {
                return Ok(local_port);
            }
            proof {
                let w = choose|i: int|
                    0 <= i < self@.sockets.len() && (#[trigger] self@.sockets[i]).local_port
                        == local_port;
                assert(PORT_RANGE_START <= self@.sockets[w].local_port
                    && self@.sockets[w].local_port < PORT_RANGE_END);
            }
            attempt = attempt + 1;
        }
        Err(TcpError::NoAvailablePort)
    }

    /// Open a connection to `remote_addr:remote_port`: pick an unused
    /// local port and a random initial sequence number, emit the SYN
    /// (queued for retransmission at `now_ms`), and put the new socket,
    /// in `SynSent`, into the table. The embedding program transmits the
    /// returned segment, then waits for `ConnectionCompleted` on the
    /// returned identifier. `local_addr` is the route-resolved source
    /// address for the destination.
    ///
    /// Fails only for want of a free ephemeral port; when no socket sits
    /// on any port of the range, it succeeds.
    pub fn connect(
        &mut self,
        local_addr: u32,
        remote_addr: u32,
        remote_port: u16,
        now_ms: u64,
    ) -> (r: Result<(SockID, Outgoing), TcpError>)
        requires
            old(self)@.wf(),
        ensures
            final(self)@.wf(),
            r matches Ok(pair) ==> connect_effect(
                old(self)@,
                final(self)@,
                local_addr,
                remote_addr,
                remote_port,
                pair.0.2,
                final(self)@.sockets.last().send.initial_seq,
                now_ms,
                pair.0,
                pair.1@,
            ),
            r matches Err(e) ==> e == TcpError::NoAvailablePort && final(self)@ == old(self)@,
            (forall|i: int|
                0 <= i < old(self)@.sockets.len() ==> !(PORT_RANGE_START <= (
                #[trigger] old(self)@.sockets[i]).local_port && old(self)@.sockets[i].local_port
                    < PORT_RANGE_END)) ==> r is Ok,
    {
        let ghost pre = self@;
        let local_port = match self.select_unused_port() {
            Ok(p) => p,
            Err(e) => {
                return Err(e);
            },
        };
        let mut socket = Socket::new(
            local_addr,
            remote_addr,
            local_port,
            remote_port,
            TcpStatus::SynSent,
        );
        let iss = random_in_range_u32(1, 0x8000_0000);
        socket.send_param.initial_seq = iss;
        let empty_payload: Vec<u8> = Vec::new();
        proof {
            assert(empty_payload@ =~= Seq::<u8>::empty());
        }
        let out = socket.send_tcp_packet(iss, 0, tcpflags::SYN, empty_payload, now_ms);
        socket.send_param.unacked_seq = iss;
        socket.send_param.next = iss + 1;
        let sock_id = socket.get_sock_id();
        proof {
            let syn = built_packet(
                local_addr,
                remote_addr,
                local_port,
                remote_port,
                iss,
                0,
                tcpflags::SYN,
                Seq::<u8>::empty(),
            );
            let e = EntryModel {
                packet: syn,
                transmission_count: 1,
                latest_transmission_time: now_ms,
            };
            assert(tcpflags::SYN & (tcpflags::SYN | tcpflags::FIN) != 0) by (bit_vector);
            assert(should_queue(Seq::<u8>::empty(), tcpflags::SYN));
            assert(socket@.retransmission_queue =~= seq![e]);
            lemma_queued_total_push(Seq::<EntryModel>::empty(), e);
            assert(queued_total(socket@.retransmission_queue) == 0);
            assert(socket@.wf());
            if pre.contains(sock_id) {
                lemma_idx_of(pre.sockets, sock_id);
                assert(pre.sockets[pre.idx(sock_id)].local_port == local_port);
            }
            assert(!pre.contains(sock_id));
        }
        let ghost sm = socket@;
        self.insert_socket(socket);
        proof {
            assert(insert_sock_spec(pre.sockets, sm) =~= pre.sockets.push(sm));
            assert(connect_effect(
                pre,
                self@,
                local_addr,
                remote_addr,
                remote_port,
                local_port,
                iss,
                now_ms,
                sock_id,
                out@,
            ));
        }
        let result = (sock_id, out);
        proof {
            assert(result.0.2 == local_port);
            assert(self@.sockets.last() == sm);
            assert(sm.send.initial_seq == iss);
            assert(connect_effect(
                old(self)@,
                self@,
                local_addr,
                remote_addr,
                remote_port,
                local_port,
                iss,
                now_ms,
                result.0,
                result.1@,
            ));
        }
        Ok(result)
    }

    /// One step of the send path: emit at most one data segment from
    /// `buffer[cursor..]`, no larger than the MSS nor the remaining send
    /// credit, carrying `seq = SND.NXT` and
    /// `ack = RCV.NXT`; advance `SND.NXT`, spend the credit, and queue
    /// the segment for retransmission at `now_ms`.
    ///
    /// `Ok(WouldBlock)` means the credit is spent: the embedding program
    /// waits for an `Acked` event and calls again. The caller loops,
    /// advancing `cursor` by the returned size, until the buffer is done.
    pub fn send(
        &mut self,
        sock_id: SockID,
        buffer: &Vec<u8>,
        cursor: usize,
        now_ms: u64,
    ) -> (r: Result<SendOutcome, TcpError>)
        requires
            old(self)@.wf(),
            cursor < buffer@.len(),
        ensures
            final(self)@.wf(),
            !old(self)@.contains(sock_id) ==> r == Err::<SendOutcome, TcpError>(
                TcpError::SocketNotFound,
            ) && final(self)@ == old(self)@,
            old(self)@.contains(sock_id) ==> ({
                let i = old(self)@.idx(sock_id);
                let s = old(self)@.sockets[i];
                let size = send_size_spec(s, buffer@.len() - cursor);
                if size == 0 {
                    r == Ok::<SendOutcome, TcpError>(SendOutcome::WouldBlock) && final(self)@
                        == old(self)@
                } else if s.send.next + size > 0xFFFF_FFFF {
                    r == Err::<SendOutcome, TcpError>(TcpError::SequenceSpaceExhausted)
                        && final(self)@ == old(self)@
                } else {
                    let payload = buffer@.subrange(cursor as int, cursor + size);
                    let m = built_packet(
                        s.local_addr,
                        s.remote_addr,
                        s.local_port,
                        s.remote_port,
                        s.send.next,
                        s.recv.next,
                        tcpflags::ACK,
                        payload,
                    );
                    let s2 = SocketModel {
                        send: SendParamModel {
                            next: (s.send.next + size) as u32,
                            window: (s.send.window - size) as u16,
                            ..s.send
                        },
                        retransmission_queue: s.retransmission_queue.push(
                            EntryModel {
                                packet: m,
                                transmission_count: 1,
                                latest_transmission_time: now_ms,
                            },
                        ),
                        ..s
                    };
                    &&& r matches Ok(o) && o matches SendOutcome::Sent { segment, size: sz }
                        && segment@.bytes == m.bytes() && segment@.remote_addr == s.remote_addr
                        && sz == size
                    &&& final(self)@.sockets == old(self)@.sockets.update(i, s2)
                    &&& final(self)@.event == old(self)@.event
                }
            }),
    {
        let ghost pre = self@;
        match self.find_socket(sock_id) {
            None => Err(TcpError::SocketNotFound),
            Some(i) => {
                proof {
                    lemma_idx_of(pre.sockets, sock_id);
                }
                let ghost s = pre.sockets[i as int];
                let mut socket = self.sockets.remove(i);
                let blen = buffer.len();
                let remaining = blen - cursor;
                let mut send_size: usize = MSS;
                if (socket.send_param.window as usize) < send_size {
                    send_size = socket.send_param.window as usize;
                }
                if remaining < send_size {
                    send_size = remaining;
                }
                proof {
                    assert(send_size == send_size_spec(s, buffer@.len() - cursor));
                }
                if send_size == 0 {
                    self.sockets.insert(i, socket);
                    proof {
                        assert(self@.sockets =~= pre.sockets);
                        assert(self@ =~= pre);
                    }
                    return Ok(SendOutcome::WouldBlock);
                }
                if socket.send_param.next as u64 + send_size as u64 > 0xFFFF_FFFF {
                    self.sockets.insert(i, socket);
                    proof {
                        assert(self@.sockets =~= pre.sockets);
                        assert(self@ =~= pre);
                    }
                    return Err(TcpError::SequenceSpaceExhausted);
                }
                let mut payload: Vec<u8> = Vec::new();
                let mut k: usize = cursor;
                while k < cursor + send_size
                    invariant
                        cursor <= k <= cursor + send_size,
                        cursor + send_size <= blen,
                        blen == buffer@.len(),
                        payload@ == buffer@.subrange(cursor as int, k as int),
                    decreases cursor + send_size - k,
                {
                    payload.push(buffer[k]);
                    k = k + 1;
                    proof {
                        assert(payload@ =~= buffer@.subrange(cursor as int, k as int));
                    }
                }
                let seq = socket.send_param.next;
                let ack = socket.recv_param.next;
                let out = socket.send_tcp_packet(seq, ack, tcpflags::ACK, payload, now_ms);
                socket.send_param.next = socket.send_param.next + send_size as u32;
                socket.send_param.window = socket.send_param.window - send_size as u16;
                proof {
                    let e = EntryModel {
                        packet: built_packet(
                            s.local_addr,
                            s.remote_addr,
                            s.local_port,
                            s.remote_port,
                            s.send.next,
                            s.recv.next,
                            tcpflags::ACK,
                            buffer@.subrange(cursor as int, cursor + send_size),
                        ),
                        transmission_count: 1,
                        latest_transmission_time: now_ms,
                    };
                    lemma_queued_total_push(s.retransmission_queue, e);
                    assert(socket@.wf());
                    assert(socket@.sock_id() == s.sock_id());
                }
                let ghost sm = socket@;
                self.sockets.insert(i, socket);
                proof {
                    assert(self@.sockets =~= pre.sockets.update(i as int, sm));
                    lemma_update_preserves_wf(pre.sockets, i as int, sm);
                }
                Ok(SendOutcome::Sent { segment: out, size: send_size })
            },
        }
    }
}

/// What one `send` step produced: a segment to transmit and the number of
/// buffer bytes it consumed, or a full window to wait out.
pub enum SendOutcome {
    Sent { segment: Outgoing, size: usize },
    WouldBlock,
}

/// The views of a batch of outgoing segments.
pub open spec fn out_views(v: Seq<Outgoing>) -> Seq<OutgoingModel> {
    v.map_values(|o: Outgoing| o@)
}

/// Demultiplexing an inbound segment: the socket keyed exactly by the
/// packet's addresses and ports, else the listener on its destination
/// port, else nothing.
pub open spec fn lookup_spec(
    socks: Seq<SocketModel>,
    local_addr: u32,
    remote_addr: u32,
    pkt: PacketModel,
) -> Option<int> {
    let exact = SockID(local_addr, remote_addr, pkt.dst_port, pkt.src_port);
    let lkey = SockID(local_addr, UNDETERMINED_IP_ADDR, pkt.dst_port, UNDETERMINED_PORT);
    if seq_contains_id(socks, exact) {
        Some(seq_idx_of(socks, exact))
    } else if seq_contains_id(socks, lkey) {
        Some(seq_idx_of(socks, lkey))
    } else {
        None
    }
}

/// The connection a SYN spawns on a listener: `SynRcvd`, receive state
/// from the SYN, a fresh initial sequence number `iss`, the peer's
/// advertised window as send credit, and the SYN+ACK queued at `now_ms`.
pub open spec fn child_socket_model(
    listener: SocketModel,
    remote_addr: u32,
    pkt: PacketModel,
    iss: u32,
    now_ms: u64,
) -> SocketModel {
    let synack = built_packet(
        listener.local_addr,
        remote_addr,
        listener.local_port,
        pkt.src_port,
        iss,
        wrap_add32_spec(pkt.seq, 1),
        tcpflags::SYN | tcpflags::ACK,
        Seq::<u8>::empty(),
    );
    SocketModel {
        local_addr: listener.local_addr,
        remote_addr,
        local_port: listener.local_port,
        remote_port: pkt.src_port,
        send: SendParamModel {
            initial_seq: iss,
            unacked_seq: iss,
            next: (iss + 1) as u32,
            window: pkt.window_size,
            initial_window: pkt.window_size,
        },
        recv: RecvParamModel {
            initial_seq: pkt.seq,
            next: wrap_add32_spec(pkt.seq, 1),
            window: 0,
        },
        status: TcpStatus::SynRcvd,
        retransmission_queue: seq![
            EntryModel { packet: synack, transmission_count: 1, latest_transmission_time: now_ms },
        ],
        connected_connection_queue: Seq::<SockID>::empty(),
        listening_socket: Some(listener.sock_id()),
    }
}

/// The initial sequence number of the connection a SYN spawned, read back
/// from the post state (0 when no such connection exists; the cases that
/// use it always create one).
pub open spec fn listen_iss_of(
    post: TcpModel,
    listener: SocketModel,
    remote_addr: u32,
    pkt: PacketModel,
) -> u32 {
    let child_key = SockID(listener.local_addr, remote_addr, listener.local_port, pkt.src_port);
    if post.contains(child_key) {
        post.sock(child_key).send.initial_seq
    } else {
        0
    }
}

/// What a segment does to a listener: a segment with ACK set is dropped;
/// a SYN spawns a child connection (keyed on the packet's source) and a
/// SYN+ACK goes out; anything else is dropped.
pub open spec fn listen_effect(
    pre: TcpModel,
    post: TcpModel,
    i: int,
    pkt: PacketModel,
    remote_addr: u32,
    iss: u32,
    now_ms: u64,
    outs: Seq<OutgoingModel>,
) -> bool {
    if pkt.flag & tcpflags::ACK != 0 {
        post == pre && outs.len() == 0
    } else if pkt.flag & tcpflags::SYN != 0 {
        let child = child_socket_model(pre.sockets[i], remote_addr, pkt, iss, now_ms);
        &&& 1 <= iss < 0x8000_0000
        &&& post.sockets == insert_sock_spec(pre.sockets, child)
        &&& post.event == pre.event
        &&& outs.len() == 1
        &&& outs[0].remote_addr == remote_addr
        &&& outs[0].bytes == child.retransmission_queue[0].packet.bytes()
    } else {
        post == pre && outs.len() == 0
    }
}

/// What a SYN+ACK does in `SynSent`: accepted when it acknowledges inside
/// the send window; the receive state is taken from it, the peer window
/// becomes the send credit, a bare ACK goes back, and the connection is
/// established when our SYN is covered (a `ConnectionCompleted` event is
/// published) or falls to `SynRcvd` on a simultaneous open.
pub open spec fn synsent_effect(
    pre: TcpModel,
    post: TcpModel,
    i: int,
    pkt: PacketModel,
    now_ms: u64,
    outs: Seq<OutgoingModel>,
) -> bool {
    let s = pre.sockets[i];
    if pkt.flag & tcpflags::ACK != 0 && s.send.unacked_seq <= pkt.ack && pkt.ack <= s.send.next
        && pkt.flag & tcpflags::SYN != 0 {
        let established = pkt.ack > s.send.initial_seq;
        let s2 = SocketModel {
            send: SendParamModel {
                unacked_seq: pkt.ack,
                window: pkt.window_size,
                initial_window: pkt.window_size,
                ..s.send
            },
            recv: RecvParamModel {
                initial_seq: pkt.seq,
                next: wrap_add32_spec(pkt.seq, 1),
                window: s.recv.window,
            },
            status: if established {
                TcpStatus::Established
            } else {
                TcpStatus::SynRcvd
            },
            ..s
        };
        let ackpkt = built_packet(
            s.local_addr,
            s.remote_addr,
            s.local_port,
            s.remote_port,
            s.send.next,
            wrap_add32_spec(pkt.seq, 1),
            tcpflags::ACK,
            Seq::<u8>::empty(),
        );
        &&& post.sockets == pre.sockets.update(i, s2)
        &&& outs.len() == 1
        &&& outs[0].remote_addr == s.remote_addr
        &&& outs[0].bytes == ackpkt.bytes()
        &&& post.event == if established {
            Some(TCPEvent { sock_id: s.sock_id(), kind: TCPEventKind::ConnectionCompleted })
        } else {
            pre.event
        }
    } else {
        post == pre && outs.len() == 0
    }
}

/// What an ACK does in `SynRcvd`: accepted when it acknowledges inside
/// the send window; the connection is established, and when a parent
/// listener is recorded the new connection is queued on it and a
/// `ConnectionCompleted` event is published for the listener.
pub open spec fn synrcvd_effect(
    pre: TcpModel,
    post: TcpModel,
    i: int,
    pkt: PacketModel,
    outs: Seq<OutgoingModel>,
) -> bool {
    let s = pre.sockets[i];
    if pkt.flag & tcpflags::ACK != 0 && s.send.unacked_seq <= pkt.ack && pkt.ack
        <= s.send.next {
        let s2 = SocketModel {
            send: SendParamModel { unacked_seq: pkt.ack, ..s.send },
            recv: RecvParamModel { next: pkt.seq, ..s.recv },
            status: TcpStatus::Established,
            ..s
        };
        let mid = pre.sockets.update(i, s2);
        outs.len() == 0 && match s.listening_socket {
            Some(lid) => {
                let lj = seq_idx_of(mid, lid);
                let l2 = SocketModel {
                    connected_connection_queue: mid[lj].connected_connection_queue.push(
                        s.sock_id(),
                    ),
                    ..mid[lj]
                };
                &&& post.sockets == mid.update(lj, l2)
                &&& post.event == Some(
                    TCPEvent { sock_id: lid, kind: TCPEventKind::ConnectionCompleted },
                )
            },
            None => post.sockets == mid && post.event == pre.event,
        }
    } else {
        post == pre && outs.len() == 0
    }
}

/// Dropping acknowledged segments from the head of a queue: each removal
/// returns its payload length to the send credit. Returns the remaining
/// queue, the new credit, and how many segments were removed.
pub open spec fn purge(q: Seq<EntryModel>, unacked: u32, window: int) -> (Seq<EntryModel>, int, nat)
    decreases q.len(),
{
    if q.len() > 0 && q[0].packet.seq < unacked {
        let rest = purge(q.skip(1), unacked, window + q[0].packet.payload.len());
        (rest.0, rest.1, (rest.2 + 1) as nat)
    } else {
        (q, window, 0)
    }
}

/// What a segment does on an established connection: one with the ACK
/// flag set that acknowledges new data inside the send window advances
/// `SND.UNA`, drops the acknowledged head of the retransmission queue,
/// returns their payload to the send credit, and publishes `Acked` when
/// anything was dropped. Anything else — a segment whose ACK flag is
/// clear, a duplicate ACK, an ACK of unsent data — changes nothing.
pub open spec fn established_effect(
    pre: TcpModel,
    post: TcpModel,
    i: int,
    pkt: PacketModel,
    outs: Seq<OutgoingModel>,
) -> bool {
    let s = pre.sockets[i];
    if pkt.flag & tcpflags::ACK != 0 && s.send.unacked_seq < pkt.ack && pkt.ack <= s.send.next {
        let pr = purge(s.retransmission_queue, pkt.ack, s.send.window as int);
        let s2 = SocketModel {
            send: SendParamModel { unacked_seq: pkt.ack, window: pr.1 as u16, ..s.send },
            retransmission_queue: pr.0,
            ..s
        };
        &&& post.sockets == pre.sockets.update(i, s2)
        &&& post.event == if pr.2 > 0 {
            Some(TCPEvent { sock_id: s.sock_id(), kind: TCPEventKind::Acked })
        } else {
            pre.event
        }
        &&& outs.len() == 0
    } else {
        post == pre && outs.len() == 0
    }
}

/// What one inbound IPv4 payload does to the whole engine: oversized or
/// unparseable data, data for no socket, a failed checksum, and states
/// without handlers all drop it; otherwise the handler for the socket's
/// status runs.
pub open spec fn receive_effect(
    pre: TcpModel,
    post: TcpModel,
    local_addr: u32,
    remote_addr: u32,
    data: Seq<u8>,
    now_ms: u64,
    outs: Seq<OutgoingModel>,
) -> bool {
    if data.len() > MAX_SEGMENT {
        post == pre && outs.len() == 0
    } else {
        match parse(data) {
            None => post == pre && outs.len() == 0,
            Some(pkt) => match lookup_spec(pre.sockets, local_addr, remote_addr, pkt) {
                None => post == pre && outs.len() == 0,
                Some(i) => {
                    if !verify_spec(remote_addr, local_addr, data) {
                        post == pre && outs.len() == 0
                    } else {
                        match pre.sockets[i].status {
                            TcpStatus::Listen => listen_effect(
                                pre,
                                post,
                                i,
                                pkt,
                                remote_addr,
                                listen_iss_of(post, pre.sockets[i], remote_addr, pkt),
                                now_ms,
                                outs,
                            ),
                            TcpStatus::SynSent => synsent_effect(pre, post, i, pkt, now_ms, outs),
                            TcpStatus::SynRcvd => synrcvd_effect(pre, post, i, pkt, outs),
                            TcpStatus::Established => established_effect(pre, post, i, pkt, outs),
                            _ => post == pre && outs.len() == 0,
                        }
                    }
                },
            },
        }
    }
}

/// The head purge keeps the entry bounds, only grows the credit, and
/// keeps the credit accounted against `iw` (the initial peer window).
pub proof fn lemma_purge_props(q: Seq<EntryModel>, unacked: u32, window: int, iw: int)
    requires
        entries_ok(q),
        queued_total(q) <= iw - window,
        0 <= window,
    ensures
        entries_ok(purge(q, unacked, window).0),
        window <= purge(q, unacked, window).1,
        queued_total(purge(q, unacked, window).0) <= iw - purge(q, unacked, window).1,
        purge(q, unacked, window).1 <= iw,
    decreases q.len(),
{
    if q.len() > 0 && q[0].packet.seq < unacked {
        assert(queued_total(q) == q[0].packet.payload.len() + queued_total(q.skip(1)));
        assert(entries_ok(q.skip(1))) by {
            assert forall|k: int| 0 <= k < q.skip(1).len() implies {
                &&& 1 <= (#[trigger] q.skip(1)[k]).transmission_count
                &&& q.skip(1)[k].transmission_count <= MAX_TRANSMISSION
                &&& q.skip(1)[k].packet.payload.len() <= MSS
            } by {
                assert(q.skip(1)[k] == q[k + 1]);
            }
        }
        lemma_purge_props(q.skip(1), unacked, window + q[0].packet.payload.len(), iw);
    } else {
        lemma_queued_total_nonneg(q);
    }
}

/// After an insert, the inserted socket is the one its key finds.
pub proof fn lemma_insert_lookup(socks: Seq<SocketModel>, s: SocketModel)
    requires
        socks_wf(socks),
        socks_wf(insert_sock_spec(socks, s)),
    ensures
        seq_contains_id(insert_sock_spec(socks, s), s.sock_id()),
        insert_sock_spec(socks, s)[seq_idx_of(insert_sock_spec(socks, s), s.sock_id())] == s,
{
    let post = insert_sock_spec(socks, s);
    if seq_contains_id(socks, s.sock_id()) {
        lemma_idx_of(socks, s.sock_id());
        let i = seq_idx_of(socks, s.sock_id());
        assert(post[i] == s);
        assert(seq_contains_id(post, s.sock_id()));
        lemma_idx_of(post, s.sock_id());
    } else {
        assert(post[socks.len() as int] == s);
        assert(seq_contains_id(post, s.sock_id()));
        lemma_idx_of(post, s.sock_id());
    }
}

impl TCP {
    /// Inbound segment on a listener (the `Listen` handler).
    fn listen_handler(
        &mut self,
        i: usize,
        packet: &TCPPacket,
        remote_addr: u32,
        now_ms: u64,
    ) -> (out: Vec<Outgoing>)
        requires
            old(self)@.wf(),
            i < old(self)@.sockets.len(),
            old(self)@.sockets[i as int].status is Listen,
        ensures
            final(self)@.wf(),
            listen_effect(
                old(self)@,
                final(self)@,
                i as int,
                packet@,
                remote_addr,
                listen_iss_of(final(self)@, old(self)@.sockets[i as int], remote_addr, packet@),
                now_ms,
                out_views(out@),
            ),
    {
        let ghost pre = self@;
        let mut out: Vec<Outgoing> = Vec::new();
        proof {
            assert(out_views(out@) =~= Seq::<OutgoingModel>::empty());
        }
        if packet.flag & tcpflags::ACK != 0 {
            return out;
        }
        if packet.flag & tcpflags::SYN != 0 {
            let listener_id = self.sockets[i].get_sock_id();
            let listener_addr = self.sockets[i].local_addr;
            let listener_port = self.sockets[i].local_port;
            let mut csock = Socket::new(
                listener_addr,
                remote_addr,
                listener_port,
                packet.src_port,
                TcpStatus::SynRcvd,
            );
            csock.recv_param.next = crate::packet::wrap_add32(packet.seq, 1);
            csock.recv_param.initial_seq = packet.seq;
            let iss = random_in_range_u32(1, 0x8000_0000);
            csock.send_param.initial_seq = iss;
            csock.send_param.window = packet.window_size;
            csock.send_param.initial_window = Ghost(packet.window_size);
            let empty_payload: Vec<u8> = Vec::new();
            proof {
                assert(empty_payload@ =~= Seq::<u8>::empty());
            }
            let ack_val = csock.recv_param.next;
            let sent = csock.send_tcp_packet(
                iss,
                ack_val,
                tcpflags::SYN | tcpflags::ACK,
                empty_payload,
                now_ms,
            );
            csock.send_param.next = iss + 1;
            csock.send_param.unacked_seq = iss;
            csock.listening_socket = Some(listener_id);
            let ghost child = child_socket_model(
                pre.sockets[i as int],
                remote_addr,
                packet@,
                iss,
                now_ms,
            );
            proof {
                assert((tcpflags::SYN | tcpflags::ACK) & (tcpflags::SYN | tcpflags::FIN)
                    != 0) by (bit_vector);
                assert(should_queue(Seq::<u8>::empty(), tcpflags::SYN | tcpflags::ACK));
                let e = EntryModel {
                    packet: built_packet(
                        listener_addr,
                        remote_addr,
                        listener_port,
                        packet@.src_port,
                        iss,
                        wrap_add32_spec(packet@.seq, 1),
                        tcpflags::SYN | tcpflags::ACK,
                        Seq::<u8>::empty(),
                    ),
                    transmission_count: 1,
                    latest_transmission_time: now_ms,
                };
                assert(csock@.retransmission_queue =~= seq![e]);
                lemma_queued_total_push(Seq::<EntryModel>::empty(), e);
                assert(queued_total(csock@.retransmission_queue) == 0);
                assert(csock@.wf());
                assert(csock@ =~= child);
            }
            self.insert_socket(csock);
            proof {
                lemma_insert_lookup(pre.sockets, child);
                assert(listen_iss_of(self@, pre.sockets[i as int], remote_addr, packet@) == iss);
            }
            out.push(sent);
            proof {
                assert(out@ =~= seq![sent]);
                assert(out_views(out@) =~= seq![sent@]);
            }
            return out;
        }
        out
    }

    /// Inbound segment in `SynSent` (the active-open reply handler).
    fn synsent_handler(&mut self, i: usize, packet: &TCPPacket, now_ms: u64) -> (out: Vec<Outgoing>)
        requires
            old(self)@.wf(),
            i < old(self)@.sockets.len(),
            old(self)@.sockets[i as int].status is SynSent,
        ensures
            final(self)@.wf(),
            synsent_effect(old(self)@, final(self)@, i as int, packet@, now_ms, out_views(out@)),
    {
        let ghost pre = self@;
        let mut out: Vec<Outgoing> = Vec::new();
        proof {
            assert(out_views(out@) =~= Seq::<OutgoingModel>::empty());
        }
        let mut socket = self.sockets.remove(i);
        if packet.flag & tcpflags::ACK != 0 && socket.send_param.unacked_seq <= packet.ack
            && packet.ack <= socket.send_param.next && packet.flag & tcpflags::SYN != 0 {
            socket.recv_param.next = crate::packet::wrap_add32(packet.seq, 1);
            socket.recv_param.initial_seq = packet.seq;
            socket.send_param.unacked_seq = packet.ack;
            socket.send_param.window = packet.window_size;
            socket.send_param.initial_window = Ghost(packet.window_size);
            let established = socket.send_param.unacked_seq > socket.send_param.initial_seq;
            if established {
                socket.status = TcpStatus::Established;
            } else {
                socket.status = TcpStatus::SynRcvd;
            }
            let empty_payload: Vec<u8> = Vec::new();
            proof {
                assert(empty_payload@ =~= Seq::<u8>::empty());
            }
            let seq_val = socket.send_param.next;
            let ack_val = socket.recv_param.next;
            let sent = socket.send_tcp_packet(
                seq_val,
                ack_val,
                tcpflags::ACK,
                empty_payload,
                now_ms,
            );
            let sock_id = socket.get_sock_id();
            proof {
                assert(tcpflags::ACK & (tcpflags::SYN | tcpflags::FIN) == 0) by (bit_vector);
                assert(!should_queue(Seq::<u8>::empty(), tcpflags::ACK));
                assert(socket@.wf());
            }
            let ghost sm = socket@;
            self.sockets.insert(i, socket);
            proof {
                assert(self@.sockets =~= pre.sockets.update(i as int, sm));
                lemma_update_preserves_wf(pre.sockets, i as int, sm);
            }
            if established {
                self.publish_event(sock_id, TCPEventKind::ConnectionCompleted);
            }
            out.push(sent);
            proof {
                assert(out@ =~= seq![sent]);
                assert(out_views(out@) =~= seq![sent@]);
            }
        } else {
            self.sockets.insert(i, socket);
            proof {
                assert(self@.sockets =~= pre.sockets);
                assert(self@ =~= pre);
            }
        }
        out
    }

    /// Inbound segment in `SynRcvd` (the passive-open completion handler).
    fn synrcvd_handler(&mut self, i: usize, packet: &TCPPacket) -> (out: Vec<Outgoing>)
        requires
            old(self)@.wf(),
            i < old(self)@.sockets.len(),
            old(self)@.sockets[i as int].status is SynRcvd,
        ensures
            final(self)@.wf(),
            synrcvd_effect(old(self)@, final(self)@, i as int, packet@, out_views(out@)),
    {
        let ghost pre = self@;
        let out: Vec<Outgoing> = Vec::new();
        proof {
            assert(out_views(out@) =~= Seq::<OutgoingModel>::empty());
        }
        let mut socket = self.sockets.remove(i);
        if packet.flag & tcpflags::ACK != 0 && socket.send_param.unacked_seq <= packet.ack
            && packet.ack <= socket.send_param.next {
            socket.recv_param.next = packet.seq;
            socket.send_param.unacked_seq = packet.ack;
            socket.status = TcpStatus::Established;
            let sock_id = socket.get_sock_id();
            let listener_ref = socket.listening_socket;
            let ghost sm = socket@;
            self.sockets.insert(i, socket);
            let ghost mid = pre.sockets.update(i as int, sm);
            proof {
                assert(self@.sockets =~= mid);
                assert(sm.wf());
                lemma_update_preserves_wf(pre.sockets, i as int, sm);
            }
            match listener_ref {
                Some(lid) => {
                    proof {
                        assert(pre.sockets[i as int].listening_socket == Some(lid));
                        assert(seq_contains_id(pre.sockets, lid));
                        assert(seq_contains_id(mid, lid));
                    }
                    match self.find_socket(lid) {
                        Some(j) => {
                            proof {
                                lemma_idx_of(mid, lid);
                                assert(j as int == seq_idx_of(mid, lid));
                            }
                            let mut listener = self.sockets.remove(j);
                            listener.connected_connection_queue.push_back(sock_id);
                            let ghost lm = listener@;
                            self.sockets.insert(j, listener);
                            proof {
                                assert(self@.sockets =~= mid.update(j as int, lm));
                                assert(lm =~= (SocketModel {
                                    connected_connection_queue:
                                        mid[j as int].connected_connection_queue.push(
                                        sm.sock_id(),
                                    ),
                                    ..mid[j as int]
                                }));
                                lemma_update_preserves_wf(mid, j as int, lm);
                            }
                            self.publish_event(lid, TCPEventKind::ConnectionCompleted);
                        },
                        None => {
                            proof {
                                assert(false);
                            }
                        },
                    }
                },
                None => {},
            }
        } else {
            self.sockets.insert(i, socket);
            proof {
                assert(self@.sockets =~= pre.sockets);
                assert(self@ =~= pre);
            }
        }
        out
    }

    /// Inbound segment on an established connection (the ACK handler).
    #[verifier::loop_isolation(false)]
    fn established_handler(&mut self, i: usize, packet: &TCPPacket) -> (out: Vec<Outgoing>)
        requires
            old(self)@.wf(),
            i < old(self)@.sockets.len(),
            old(self)@.sockets[i as int].status is Established,
        ensures
            final(self)@.wf(),
            established_effect(old(self)@, final(self)@, i as int, packet@, out_views(out@)),
    {
        let ghost pre = self@;
        let out: Vec<Outgoing> = Vec::new();
        proof {
            assert(out_views(out@) =~= Seq::<OutgoingModel>::empty());
        }
        let mut socket = self.sockets.remove(i);
        let ghost s = pre.sockets[i as int];
        let ghost table_mid = self@.sockets;
        let ghost vec_mid = self.sockets@;
        if packet.flag & tcpflags::ACK != 0 && socket.send_param.unacked_seq < packet.ack
            && packet.ack <= socket.send_param.next {
            socket.send_param.unacked_seq = packet.ack;
            let sock_id = socket.get_sock_id();
            let ghost q0 = s.retransmission_queue;
            let ghost w0 = s.send.window as int;
            let ghost iw = s.send.initial_window as int;
            let ghost full = purge(q0, packet@.ack, w0);
            proof {
                lemma_purge_props(q0, packet@.ack, w0, iw);
            }
            while socket.retransmission_queue.len() > 0
                && socket.retransmission_queue[0].packet.seq < socket.send_param.unacked_seq
                invariant
                    socket@.sock_id() == s.sock_id(),
                    socket@.recv == s.recv,
                    socket@.status == s.status,
                    socket@.connected_connection_queue == s.connected_connection_queue,
                    socket@.listening_socket == s.listening_socket,
                    socket@.send.initial_seq == s.send.initial_seq,
                    socket@.send.next == s.send.next,
                    socket@.send.unacked_seq == packet@.ack,
                    socket@.send.initial_window == s.send.initial_window,
                    entries_ok(socket@.retransmission_queue),
                    entries_checksummed(
                        s.local_addr,
                        s.remote_addr,
                        socket@.retransmission_queue,
                    ),
                    queued_total(socket@.retransmission_queue) <= iw
                        - socket@.send.window,
                    full.0 == purge(
                        socket@.retransmission_queue,
                        packet@.ack,
                        socket@.send.window as int,
                    ).0,
                    full.1 == purge(
                        socket@.retransmission_queue,
                        packet@.ack,
                        socket@.send.window as int,
                    ).1,
                    full.2 >= purge(
                        socket@.retransmission_queue,
                        packet@.ack,
                        socket@.send.window as int,
                    ).2,
                    self@.event == if full.2 > purge(
                        socket@.retransmission_queue,
                        packet@.ack,
                        socket@.send.window as int,
                    ).2 {
                        Some(TCPEvent { sock_id: s.sock_id(), kind: TCPEventKind::Acked })
                    } else {
                        pre.event
                    },
                    self@.sockets == table_mid,
                    self.sockets@ == vec_mid,
                decreases socket@.retransmission_queue.len(),
            {
                let ghost cur_q = socket@.retransmission_queue;
                let ghost cur_w = socket@.send.window as int;
                let popped = socket.retransmission_queue.pop_front();
                match popped {
                    Some(item) => {
                        proof {
                            assert(item@ == cur_q[0]);
                            assert(socket@.retransmission_queue =~= cur_q.skip(1));
                            assert(queued_total(cur_q) == cur_q[0].packet.payload.len()
                                + queued_total(cur_q.skip(1)));
                            lemma_queued_total_nonneg(cur_q.skip(1));
                            lemma_entries_props_skip(s.local_addr, s.remote_addr, cur_q);
                        }
                        let pl = item.packet.payload.len();
                        proof {
                            assert(cur_q[0].packet.payload.len() <= MSS);
                            assert(cur_w + cur_q[0].packet.payload.len() <= iw);
                            let iwu: u16 = s.send.initial_window;
                            assert(iwu <= 65535) by (bit_vector);
                            assert(iw <= 65535);
                            assert(pl == cur_q[0].packet.payload.len());
                            assert(socket@.send.window as int == cur_w);
                            assert(socket@.send.window as int + pl as int <= 65535);
                        }
                        socket.send_param.window = socket.send_param.window + pl as u16;
                        proof {
                            let pl0 = cur_q[0].packet.payload.len() as int;
                            assert(socket@.send.window as int == cur_w + pl0);
                            assert(cur_q[0].packet.seq < packet@.ack);
                            assert(purge(cur_q, packet@.ack, cur_w).0 == purge(
                                cur_q.skip(1),
                                packet@.ack,
                                cur_w + pl0,
                            ).0);
                            assert(purge(cur_q, packet@.ack, cur_w).1 == purge(
                                cur_q.skip(1),
                                packet@.ack,
                                cur_w + pl0,
                            ).1);
                            assert(purge(cur_q, packet@.ack, cur_w).2 == purge(
                                cur_q.skip(1),
                                packet@.ack,
                                cur_w + pl0,
                            ).2 + 1);
                        }
                        self.publish_event(sock_id, TCPEventKind::Acked);
                    },
                    None => {
                        proof {
                            assert(false);
                        }
                    },
                }
            }
            proof {
                let cur = purge(
                    socket@.retransmission_queue,
                    packet@.ack,
                    socket@.send.window as int,
                );
                assert(cur.0 == socket@.retransmission_queue);
                assert(cur.1 == socket@.send.window as int);
                assert(cur.2 == 0);
                assert(socket@.retransmission_queue == full.0);
                assert(socket@.send.window as int == full.1);
                assert(socket@.wf());
                assert(socket@ =~= (SocketModel {
                    send: SendParamModel {
                        unacked_seq: packet@.ack,
                        window: (full.1 as u16),
                        ..s.send
                    },
                    retransmission_queue: full.0,
                    ..s
                }));
            }
            let ghost sm = socket@;
            self.sockets.insert(i, socket);
            proof {
                assert(self@.sockets =~= pre.sockets.update(i as int, sm));
                lemma_update_preserves_wf(pre.sockets, i as int, sm);
            }
        } else {
            self.sockets.insert(i, socket);
            proof {
                assert(self@.sockets =~= pre.sockets);
                assert(self@ =~= pre);
            }
        }
        out
    }

    /// One inbound IPv4 payload: parse it, demultiplex by the packet's
    /// addresses and ports, check its checksum, and run the handler for
    /// the socket's state. Returns the segments to transmit in reply;
    /// whatever cannot be handled is dropped without a trace, as a
    /// transport that dies on a bad packet would be worthless.
    pub fn receive_segment(
        &mut self,
        local_addr: u32,
        remote_addr: u32,
        data: &Vec<u8>,
        now_ms: u64,
    ) -> (out: Vec<Outgoing>)
        requires
            old(self)@.wf(),
        ensures
            final(self)@.wf(),
            receive_effect(
                old(self)@,
                final(self)@,
                local_addr,
                remote_addr,
                data@,
                now_ms,
                out_views(out@),
            ),
    {
        let ghost pre = self@;
        if data.len() > MAX_SEGMENT {
            let e: Vec<Outgoing> = Vec::new();
            proof {
                assert(out_views(e@) =~= Seq::<OutgoingModel>::empty());
            }
            return e;
        }
        let packet = match TCPPacket::decode(data) {
            Some(p) => p,
            None => {
                let e: Vec<Outgoing> = Vec::new();
                proof {
                    assert(out_views(e@) =~= Seq::<OutgoingModel>::empty());
                }
                return e;
            },
        };
        let exact = SockID(local_addr, remote_addr, packet.dst_port, packet.src_port);
        let lkey = SockID(local_addr, UNDETERMINED_IP_ADDR, packet.dst_port, UNDETERMINED_PORT);
        let found = match self.find_socket(exact) {
            Some(i) => Some(i),
            None => self.find_socket(lkey),
        };
        let i = match found {
            Some(i) => i,
            None => {
                let e: Vec<Outgoing> = Vec::new();
                proof {
                    assert(lookup_spec(pre.sockets, local_addr, remote_addr, packet@) is None);
                    assert(out_views(e@) =~= Seq::<OutgoingModel>::empty());
                }
                return e;
            },
        };
        proof {
            if seq_contains_id(pre.sockets, exact) {
                lemma_idx_of(pre.sockets, exact);
            } else {
                lemma_idx_of(pre.sockets, lkey);
            }
            assert(lookup_spec(pre.sockets, local_addr, remote_addr, packet@) == Some(i as int));
        }
        if !crate::packet::verify_checksum(data, remote_addr, local_addr) {
            let e: Vec<Outgoing> = Vec::new();
            proof {
                assert(out_views(e@) =~= Seq::<OutgoingModel>::empty());
            }
            return e;
        }
        let status = self.sockets[i].status;
        match status {
            TcpStatus::Listen => self.listen_handler(i, &packet, remote_addr, now_ms),
            TcpStatus::SynSent => self.synsent_handler(i, &packet, now_ms),
            TcpStatus::SynRcvd => self.synrcvd_handler(i, &packet),
            TcpStatus::Established => self.established_handler(i, &packet),
            _ => {
                let e: Vec<Outgoing> = Vec::new();
                proof {
                    assert(out_views(e@) =~= Seq::<OutgoingModel>::empty());
                }
                e
            },
        }
    }
}

/// Whether a queued segment has waited out the retransmission timeout at
/// `now_ms`. A segment stamped in the future (a clock skew the embedding
/// program should not produce) counts as not yet due.
pub open spec fn timed_out(e: EntryModel, now_ms: u64) -> bool {
    now_ms >= e.latest_transmission_time && now_ms - e.latest_transmission_time
        >= RETRANSMISSION_TIMEOUT_MS
}

/// One timer visit to one queue, from the head: acknowledged segments
/// leave and return their payload to the send credit; the first segment
/// not yet due stops the visit; a due segment below the transmission
/// limit is restamped, moved to the tail, and reported for
/// retransmission; one at the limit is dropped silently. Returns the
/// queue, the credit, how many acknowledged segments left, and the
/// restamped segment if one is to go out.
pub open spec fn drain(q: Seq<EntryModel>, unacked: u32, window: int, now_ms: u64) -> (
    Seq<EntryModel>,
    int,
    nat,
    Option<EntryModel>,
)
    decreases q.len(),
{
    if q.len() == 0 {
        (q, window, 0 as nat, None::<EntryModel>)
    } else {
        let h = q[0];
        if h.packet.seq < unacked {
            let r = drain(q.skip(1), unacked, window + h.packet.payload.len(), now_ms);
            (r.0, r.1, (r.2 + 1) as nat, r.3)
        } else if !timed_out(h, now_ms) {
            (q, window, 0 as nat, None::<EntryModel>)
        } else if h.transmission_count < MAX_TRANSMISSION {
            let h2 = EntryModel {
                packet: h.packet,
                transmission_count: (h.transmission_count + 1) as u8,
                latest_transmission_time: now_ms,
            };
            (q.skip(1).push(h2), window, 0 as nat, Some(h2))
        } else {
            drain(q.skip(1), unacked, window, now_ms)
        }
    }
}

/// A socket after one timer visit: only its queue and send credit move.
pub open spec fn timer_socket_post(s: SocketModel, now_ms: u64) -> SocketModel {
    let d = drain(s.retransmission_queue, s.send.unacked_seq, s.send.window as int, now_ms);
    SocketModel {
        send: SendParamModel { window: d.1 as u16, ..s.send },
        retransmission_queue: d.0,
        ..s
    }
}

/// The retransmissions one timer pass emits, in table order: at most one
/// per socket, carrying the stored segment's bytes unchanged.
pub open spec fn timer_outputs(socks: Seq<SocketModel>, now_ms: u64) -> Seq<OutgoingModel>
    decreases socks.len(),
{
    if socks.len() == 0 {
        Seq::<OutgoingModel>::empty()
    } else {
        let s = socks.last();
        let d = drain(s.retransmission_queue, s.send.unacked_seq, s.send.window as int, now_ms);
        timer_outputs(socks.drop_last(), now_ms) + (match d.3 {
            Some(h) => seq![OutgoingModel { remote_addr: s.remote_addr, bytes: h.packet.bytes() }],
            None => Seq::<OutgoingModel>::empty(),
        })
    }
}

/// The event slot after one timer pass: an `Acked` for the last socket
/// (in table order) that had acknowledged segments dropped, else
/// whatever was pending.
pub open spec fn timer_event(
    socks: Seq<SocketModel>,
    now_ms: u64,
    pre_event: Option<TCPEvent>,
) -> Option<TCPEvent>
    decreases socks.len(),
{
    if socks.len() == 0 {
        pre_event
    } else {
        let s = socks.last();
        let d = drain(s.retransmission_queue, s.send.unacked_seq, s.send.window as int, now_ms);
        if d.2 > 0 {
            Some(TCPEvent { sock_id: s.sock_id(), kind: TCPEventKind::Acked })
        } else {
            timer_event(socks.drop_last(), now_ms, pre_event)
        }
    }
}

/// The timer visit keeps the entry bounds and the credit accounting.
pub proof fn lemma_drain_props(q: Seq<EntryModel>, unacked: u32, window: int, now_ms: u64, iw: int)
    requires
        entries_ok(q),
        queued_total(q) <= iw - window,
        0 <= window,
    ensures
        entries_ok(drain(q, unacked, window, now_ms).0),
        window <= drain(q, unacked, window, now_ms).1,
        drain(q, unacked, window, now_ms).1 <= window + queued_total(q),
        queued_total(drain(q, unacked, window, now_ms).0) <= iw - drain(q, unacked, window, now_ms).1,
        queued_total(drain(q, unacked, window, now_ms).0) <= queued_total(q),
    decreases q.len(),
{
    lemma_queued_total_nonneg(q);
    if q.len() > 0 {
        let h = q[0];
        let tail = q.skip(1);
        assert(queued_total(q) == h.packet.payload.len() + queued_total(tail));
        assert(entries_ok(tail)) by {
            assert forall|k: int| #![trigger tail[k]] 0 <= k < tail.len() implies {
                &&& 1 <= tail[k].transmission_count
                &&& tail[k].transmission_count <= MAX_TRANSMISSION
                &&& tail[k].packet.payload.len() <= MSS
            } by {
                assert(tail[k] == q[k + 1]);
            }
        }
        lemma_queued_total_nonneg(tail);
        if h.packet.seq < unacked {
            lemma_drain_props(tail, unacked, window + h.packet.payload.len(), now_ms, iw);
        } else if !timed_out(h, now_ms) {
        } else if h.transmission_count < MAX_TRANSMISSION {
            let h2 = EntryModel {
                packet: h.packet,
                transmission_count: (h.transmission_count + 1) as u8,
                latest_transmission_time: now_ms,
            };
            let q2 = tail.push(h2);
            lemma_queued_total_push(tail, h2);
            assert(entries_ok(q2)) by {
                assert forall|k: int| #![trigger q2[k]] 0 <= k < q2.len() implies {
                    &&& 1 <= q2[k].transmission_count
                    &&& q2[k].transmission_count <= MAX_TRANSMISSION
                    &&& q2[k].packet.payload.len() <= MSS
                } by {
                    if k < tail.len() {
                        assert(q2[k] == tail[k]);
                    } else {
                        assert(q2[k] == h2);
                    }
                }
            }
        } else {
            lemma_drain_props(tail, unacked, window, now_ms, iw);
        }
    }
}

impl TCP {
    /// One pass of the retransmission timer at `now_ms`: visit every
    /// socket's queue as [`drain`] describes. Returns the segments to
    /// retransmit; an `Acked` event is published for each socket that had
    /// acknowledged segments dropped (the single slot keeps the last).
    #[verifier::loop_isolation(false)]
    pub fn timer_tick(&mut self, now_ms: u64) -> (out: Vec<Outgoing>)
        requires
            old(self)@.wf(),
        ensures
            final(self)@.wf(),
            final(self)@.sockets.len() == old(self)@.sockets.len(),
            forall|k: int|
                0 <= k < old(self)@.sockets.len() ==> final(self)@.sockets[k]
                    == timer_socket_post(#[trigger] old(self)@.sockets[k], now_ms),
            out_views(out@) == timer_outputs(old(self)@.sockets, now_ms),
            final(self)@.event == timer_event(old(self)@.sockets, now_ms, old(self)@.event),
    {
        let ghost pre = self@;
        let mut out: Vec<Outgoing> = Vec::new();
        proof {
            assert(out_views(out@) =~= Seq::<OutgoingModel>::empty());
            assert(pre.sockets.take(0) =~= Seq::<SocketModel>::empty());
        }
        let n = self.sockets.len();
        let mut i: usize = 0;
        while i < n
            invariant
                i <= n,
                self@.sockets.len() == n,
                forall|k: int|
                    0 <= k < i ==> self@.sockets[k] == timer_socket_post(
                        #[trigger] pre.sockets[k],
                        now_ms,
                    ),
                forall|k: int| i <= k < n ==> self@.sockets[k] == #[trigger] pre.sockets[k],
                out_views(out@) == timer_outputs(pre.sockets.take(i as int), now_ms),
                self@.event == timer_event(pre.sockets.take(i as int), now_ms, pre.event),
                self@.wf(),
            decreases n - i,
        {
            let ghost table_pre = self@.sockets;
            let mut socket = self.sockets.remove(i);
            let ghost s = pre.sockets[i as int];
            let ghost table_mid = self@.sockets;
            let ghost vec_mid = self.sockets@;
            let ghost ev0 = self@.event;
            let sock_id = socket.get_sock_id();
            let ghost una = s.send.unacked_seq;
            let ghost w0 = s.send.window as int;
            let ghost iw = s.send.initial_window as int;
            let ghost dfull = drain(s.retransmission_queue, una, w0, now_ms);
            proof {
                assert(socket@ == s);
                lemma_drain_props(s.retransmission_queue, una, w0, now_ms, iw);
                let iwu: u16 = s.send.initial_window;
                assert(iwu <= 65535) by (bit_vector);
            }
            let mut retx: Option<Outgoing> = None;
            let mut done = false;
            let ghost mut acked: nat = 0;
            while !done && socket.retransmission_queue.len() > 0
                invariant
                    socket@.sock_id() == s.sock_id(),
                    socket@.recv == s.recv,
                    socket@.status == s.status,
                    socket@.connected_connection_queue == s.connected_connection_queue,
                    socket@.listening_socket == s.listening_socket,
                    socket@.send.initial_seq == s.send.initial_seq,
                    socket@.send.next == s.send.next,
                    socket@.send.unacked_seq == s.send.unacked_seq,
                    socket@.send.initial_window == s.send.initial_window,
                    entries_ok(socket@.retransmission_queue),
                    entries_checksummed(
                        s.local_addr,
                        s.remote_addr,
                        socket@.retransmission_queue,
                    ),
                    queued_total(socket@.retransmission_queue) <= iw - socket@.send.window,
                    queued_total(socket@.retransmission_queue) <= queued_total(
                        s.retransmission_queue,
                    ),
                    w0 <= socket@.send.window as int,
                    socket@.send.window as int + queued_total(socket@.retransmission_queue) <= w0
                        + queued_total(s.retransmission_queue),
                    !done ==> {
                        &&& retx is None
                        &&& dfull.0 == drain(
                            socket@.retransmission_queue,
                            una,
                            socket@.send.window as int,
                            now_ms,
                        ).0
                        &&& dfull.1 == drain(
                            socket@.retransmission_queue,
                            una,
                            socket@.send.window as int,
                            now_ms,
                        ).1
                        &&& dfull.3 == drain(
                            socket@.retransmission_queue,
                            una,
                            socket@.send.window as int,
                            now_ms,
                        ).3
                        &&& dfull.2 == acked + drain(
                            socket@.retransmission_queue,
                            una,
                            socket@.send.window as int,
                            now_ms,
                        ).2
                    },
                    done ==> {
                        &&& socket@.retransmission_queue == dfull.0
                        &&& socket@.send.window as int == dfull.1
                        &&& acked == dfull.2
                        &&& match dfull.3 {
                            Some(h) => retx matches Some(o) && o@.remote_addr == s.remote_addr
                                && o@.bytes == h.packet.bytes(),
                            None => retx is None,
                        }
                    },
                    self@.event == if acked > 0 {
                        Some(TCPEvent { sock_id: s.sock_id(), kind: TCPEventKind::Acked })
                    } else {
                        ev0
                    },
                    self@.sockets == table_mid,
                    self.sockets@ == vec_mid,
                decreases socket@.retransmission_queue.len() + (if done {
                    0int
                } else {
                    1int
                }),
            {
                let ghost cur_q = socket@.retransmission_queue;
                let ghost cur_w = socket@.send.window as int;
                let head_seq = socket.retransmission_queue[0].packet.seq;
                let head_time = socket.retransmission_queue[0].latest_transmission_time;
                let head_count = socket.retransmission_queue[0].transmission_count;
                if head_seq < socket.send_param.unacked_seq {
                    let popped = socket.retransmission_queue.pop_front();
                    match popped {
                        Some(item) => {
                            let pl = item.packet.payload.len();
                            proof {
                                assert(item@ == cur_q[0]);
                                assert(socket@.retransmission_queue =~= cur_q.skip(1));
                                assert(queued_total(cur_q) == cur_q[0].packet.payload.len()
                                    + queued_total(cur_q.skip(1)));
                                lemma_queued_total_nonneg(cur_q.skip(1));
                                lemma_entries_props_skip(s.local_addr, s.remote_addr, cur_q);
                                assert(cur_w + cur_q[0].packet.payload.len() <= iw);
                            }
                            socket.send_param.window = socket.send_param.window + pl as u16;
                            proof {
                                acked = acked + 1;
                            }
                            self.publish_event(sock_id, TCPEventKind::Acked);
                        },
                        None => {
                            proof {
                                assert(false);
                            }
                        },
                    }
                } else if !(now_ms >= head_time && now_ms - head_time
                    >= RETRANSMISSION_TIMEOUT_MS) {
                    proof {
                        assert(!timed_out(cur_q[0], now_ms));
                    }
                    done = true;
                } else if head_count < MAX_TRANSMISSION {
                    let popped = socket.retransmission_queue.pop_front();
                    match popped {
                        Some(mut item) => {
                            proof {
                                assert(item@ == cur_q[0]);
                                assert(cur_q[0].packet.payload.len() <= MSS);
                            }
                            item.transmission_count = item.transmission_count + 1;
                            item.latest_transmission_time = now_ms;
                            let bytes = item.packet.encode();
                            retx = Some(Outgoing { remote_addr: socket.remote_addr, bytes });
                            socket.retransmission_queue.push_back(item);
                            proof {
                                let h2 = EntryModel {
                                    packet: cur_q[0].packet,
                                    transmission_count: (cur_q[0].transmission_count + 1) as u8,
                                    latest_transmission_time: now_ms,
                                };
                                assert(socket@.retransmission_queue =~= cur_q.skip(1).push(h2));
                                lemma_queued_total_push(cur_q.skip(1), h2);
                                assert(queued_total(cur_q) == cur_q[0].packet.payload.len()
                                    + queued_total(cur_q.skip(1)));
                                lemma_entries_props_requeue(
                                    s.local_addr,
                                    s.remote_addr,
                                    cur_q,
                                    h2,
                                );
                            }
                            done = true;
                        },
                        None => {
                            proof {
                                assert(false);
                            }
                        },
                    }
                } else {
                    let popped = socket.retransmission_queue.pop_front();
                    match popped {
                        Some(item) => {
                            proof {
                                assert(item@ == cur_q[0]);
                                assert(socket@.retransmission_queue =~= cur_q.skip(1));
                                assert(queued_total(cur_q) == cur_q[0].packet.payload.len()
                                    + queued_total(cur_q.skip(1)));
                                lemma_queued_total_nonneg(cur_q.skip(1));
                                lemma_entries_props_skip(s.local_addr, s.remote_addr, cur_q);
                            }
                        },
                        None => {
                            proof {
                                assert(false);
                            }
                        },
                    }
                }
            }
            proof {
                if !done {
                    assert(socket@.retransmission_queue.len() == 0);
                    assert(socket@.retransmission_queue == dfull.0);
                    assert(socket@.send.window as int == dfull.1);
                    assert(acked == dfull.2);
                    assert(dfull.3 is None);
                }
                lemma_queued_total_nonneg(socket@.retransmission_queue);
                lemma_queued_total_nonneg(s.retransmission_queue);
                assert(socket@.wf());
                assert(socket@ =~= timer_socket_post(s, now_ms));
            }
            let ghost sm = socket@;
            self.sockets.insert(i, socket);
            proof {
                assert(self@.sockets =~= table_pre.update(i as int, sm));
                assert(socks_wf(table_pre));
                lemma_update_preserves_wf(table_pre, i as int, sm);
            }
            match retx {
                Some(o) => {
                    out.push(o);
                },
                None => {},
            }
            i = i + 1;
            proof {
                let t1 = pre.sockets.take(i as int);
                assert(t1.drop_last() =~= pre.sockets.take(i as int - 1));
                assert(t1.last() == pre.sockets[i as int - 1]);
                match dfull.3 {
                    Some(h) => {
                        assert(out_views(out@) =~= timer_outputs(
                            pre.sockets.take(i as int - 1),
                            now_ms,
                        ) + seq![
                            OutgoingModel { remote_addr: s.remote_addr, bytes: h.packet.bytes() },
                        ]);
                    },
                    None => {
                        assert(out_views(out@) =~= timer_outputs(
                            pre.sockets.take(i as int - 1),
                            now_ms,
                        ) + Seq::<OutgoingModel>::empty());
                    },
                }
                assert(out_views(out@) == timer_outputs(t1, now_ms));
                assert(self@.event == timer_event(t1, now_ms, pre.event));
            }
        }
        proof {
            assert(pre.sockets.take(n as int) =~= pre.sockets);
        }
        out
    }
}

proof fn lemma_replace_wf(socks: Seq<SocketModel>, i: int, s2: SocketModel)
    requires
        socks_wf(socks),
        0 <= i < socks.len(),
        s2.wf(),
        s2.sock_id() == socks[i].sock_id(),
        s2.listening_socket matches Some(lid) ==> seq_contains_id(socks, lid) || lid
            == s2.sock_id(),
    ensures
        socks_wf(socks.update(i, s2)),
{
    let post = socks.update(i, s2);
    assert forall|id: SockID|
        seq_contains_id(socks, id) implies seq_contains_id(post, id) by {
        let k = choose|k: int| 0 <= k < socks.len() && (#[trigger] socks[k]).sock_id() == id;
        if k == i {
            assert(post[i].sock_id() == id);
        } else {
            assert(post[k].sock_id() == id);
        }
    }
    assert(seq_contains_id(post, s2.sock_id())) by {
        assert(post[i].sock_id() == s2.sock_id());
    }
    assert forall|k: int|
        0 <= k < post.len() implies ((#[trigger] post[k]).listening_socket matches Some(lid)
        ==> seq_contains_id(post, lid)) by {
        if k != i {
            assert(post[k] == socks[k]);
        }
    }
}

proof fn lemma_push_wf(socks: Seq<SocketModel>, s2: SocketModel)
    requires
        socks_wf(socks),
        s2.wf(),
        !seq_contains_id(socks, s2.sock_id()),
        s2.listening_socket matches Some(lid) ==> seq_contains_id(socks, lid) || lid
            == s2.sock_id(),
    ensures
        socks_wf(socks.push(s2)),
{
    let post = socks.push(s2);
    assert forall|id: SockID|
        seq_contains_id(socks, id) implies seq_contains_id(post, id) by {
        let k = choose|k: int| 0 <= k < socks.len() && (#[trigger] socks[k]).sock_id() == id;
        assert(post[k].sock_id() == id);
    }
    assert(post[socks.len() as int] == s2);
    assert(seq_contains_id(post, s2.sock_id()));
    assert forall|i: int, j: int|
        0 <= i < j < post.len() implies (#[trigger] post[i]).sock_id() != (
    #[trigger] post[j]).sock_id() by {
        if j == socks.len() {
            if post[i].sock_id() == s2.sock_id() {
                assert(socks[i].sock_id() == s2.sock_id());
                assert(seq_contains_id(socks, s2.sock_id()));
            }
        }
    }
    assert forall|k: int|
        0 <= k < post.len() implies ((#[trigger] post[k]).listening_socket matches Some(lid)
        ==> seq_contains_id(post, lid)) by {
        if k < socks.len() {
            assert(post[k] == socks[k]);
        }
    }
}

proof fn lemma_keys_after_update(socks: Seq<SocketModel>, i: int, s2: SocketModel, id: SockID)
    requires
        socks_wf(socks),
        0 <= i < socks.len(),
        s2.sock_id() == socks[i].sock_id(),
    ensures
        seq_contains_id(socks.update(i, s2), id) == (seq_contains_id(socks, id) || id
            == s2.sock_id()),
{
    let post = socks.update(i, s2);
    if seq_contains_id(post, id) {
        let k = choose|k: int| 0 <= k < post.len() && (#[trigger] post[k]).sock_id() == id;
        assert(socks[k].sock_id() == id || id == s2.sock_id());
        if post[k].sock_id() == id && k != i {
            assert(socks[k].sock_id() == id);
        }
    }
    if seq_contains_id(socks, id) {
        let k = choose|k: int| 0 <= k < socks.len() && (#[trigger] socks[k]).sock_id() == id;
        if k == i {
            assert(post[i].sock_id() == s2.sock_id());
            assert(id == s2.sock_id());
        } else {
            assert(post[k].sock_id() == id);
        }
    }
    if id == s2.sock_id() {
        assert(post[i].sock_id() == id);
    }
}

proof fn lemma_keys_after_push(socks: Seq<SocketModel>, s2: SocketModel, id: SockID)
    ensures
        seq_contains_id(socks.push(s2), id) == (seq_contains_id(socks, id) || id == s2.sock_id()),
{
    let post = socks.push(s2);
    if seq_contains_id(post, id) {
        let k = choose|k: int| 0 <= k < post.len() && (#[trigger] post[k]).sock_id() == id;
        if k < socks.len() {
            assert(socks[k].sock_id() == id);
        }
    }
    if seq_contains_id(socks, id) {
        let k = choose|k: int| 0 <= k < socks.len() && (#[trigger] socks[k]).sock_id() == id;
        assert(post[k].sock_id() == id);
    }
    if id == s2.sock_id() {
        assert(post[socks.len() as int].sock_id() == id);
    }
}

} // verus!
