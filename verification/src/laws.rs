//! The library-wide invariants, stated on their own so a reader can see
//! them apart from the operations that maintain them. Every public
//! operation of [`crate::tcp::TCP`] requires and re-establishes
//! [`crate::tcp::TcpModel::wf`], so these hold in every reachable state.
use vstd::prelude::*;
use crate::packet::PacketModel;
use crate::socket::{
    entries_ok, queued_total, EntryModel, OutgoingModel, RecvParamModel, SendParamModel, SockID,
    SocketModel, TcpStatus, MAX_TRANSMISSION,
};
use crate::tcp::{
    child_socket_model, established_effect, insert_sock_spec, lemma_idx_of, lemma_purge_props,
    lemma_update_preserves_wf, listen_effect, purge, seq_contains_id, seq_idx_of, synrcvd_effect,
    TCPEvent, TCPEventKind, TcpModel,
};
use crate::tcpflags;

verus! {

/// Every segment in a well-formed socket's retransmission queue has been
/// transmitted at least once and at most `MAX_TRANSMISSION` times.
pub proof fn lemma_transmission_counts_bounded(s: SocketModel)
    requires
        s.wf(),
    ensures
        forall|k: int| #![trigger s.retransmission_queue[k]]
            0 <= k < s.retransmission_queue.len() ==> 1 <= s.retransmission_queue[
                k
            ].transmission_count <= MAX_TRANSMISSION,
{
}

/// A queue in sequence-number order.
pub open spec fn seq_sorted(q: Seq<EntryModel>) -> bool {
    forall|a: int, b: int|
        0 <= a < b < q.len() ==> (#[trigger] q[a]).packet.seq <= (#[trigger] q[b]).packet.seq
}

/// Right after the acknowledgment purge on a queue in sequence order,
/// every remaining segment's sequence number is at least the new
/// `SND.UNA`. (The order can be broken by a retransmission, which moves a
/// timed-out segment to the tail, and an acknowledged handshake segment
/// waits for the timer rather than the purge; in those states a segment
/// below `SND.UNA` can sit in the queue until the timer drops it.)
pub proof fn lemma_purge_clears_acked(q: Seq<EntryModel>, unacked: u32, window: int)
    requires
        seq_sorted(q),
    ensures
        seq_sorted(purge(q, unacked, window).0),
        forall|k: int| #![trigger purge(q, unacked, window).0[k]]
            0 <= k < purge(q, unacked, window).0.len() ==> purge(
                q,
                unacked,
                window,
            ).0[k].packet.seq >= unacked,
    decreases q.len(),
{
    if q.len() > 0 && q[0].packet.seq < unacked {
        let tail = q.skip(1);
        assert(seq_sorted(tail)) by {
            assert forall|a: int, b: int|
                0 <= a < b < tail.len() implies (#[trigger] tail[a]).packet.seq <= (
            #[trigger] tail[b]).packet.seq by {
                assert(tail[a] == q[a + 1]);
                assert(tail[b] == q[b + 1]);
            }
        }
        lemma_purge_clears_acked(tail, unacked, window + q[0].packet.payload.len());
    } else {
        assert forall|k: int|
            0 <= k < q.len() implies (#[trigger] q[k]).packet.seq >= unacked by {
            if k > 0 {
                assert(q[0].packet.seq <= q[k].packet.seq);
            }
        }
    }
}

/// The send-side sequence variables of a well-formed socket are ordered:
/// initial, oldest unacknowledged, next to send.
pub proof fn lemma_send_sequence_ordered(s: SocketModel)
    requires
        s.wf(),
    ensures
        s.send.initial_seq <= s.send.unacked_seq,
        s.send.unacked_seq <= s.send.next,
{
}

/// The payload bytes sitting in a well-formed socket's retransmission
/// queue never exceed the peer's initial window minus the remaining send
/// credit: credit is spent exactly by queueing and returned exactly by
/// acknowledged removal.
pub proof fn lemma_window_accounting(s: SocketModel)
    requires
        s.wf(),
    ensures
        queued_total(s.retransmission_queue) <= s.send.initial_window - s.send.window,
{
}

/// The acknowledgment purge removes exactly the leading run of segments
/// whose sequence number is below the acknowledgment, keeps the rest in
/// place, and returns exactly the removed payload to the credit.
pub proof fn lemma_purge_exact(q: Seq<EntryModel>, unacked: u32, window: int)
    ensures
        purge(q, unacked, window).2 <= q.len(),
        purge(q, unacked, window).0 == q.skip(purge(q, unacked, window).2 as int),
        forall|k: int|
            0 <= k < purge(q, unacked, window).2 ==> (#[trigger] q[k]).packet.seq < unacked,
        purge(q, unacked, window).1 == window + queued_total(q) - queued_total(
            purge(q, unacked, window).0,
        ),
    decreases q.len(),
{
    let pr = purge(q, unacked, window);
    if q.len() > 0 && q[0].packet.seq < unacked {
        let tail = q.skip(1);
        lemma_purge_exact(tail, unacked, window + q[0].packet.payload.len());
        let pt = purge(tail, unacked, window + q[0].packet.payload.len());
        assert(pr.2 == pt.2 + 1);
        assert(tail.skip(pt.2 as int) =~= q.skip(pt.2 as int + 1));
        assert forall|k: int|
            0 <= k < pr.2 implies (#[trigger] q[k]).packet.seq < unacked by {
            if k >= 1 {
                assert(tail[k - 1] == q[k]);
                assert(tail[k - 1].packet.seq < unacked);
            }
        }
        assert(queued_total(q) == q[0].packet.payload.len() + queued_total(tail));
    } else {
        assert(q.skip(0) =~= q);
    }
}

/// On an established connection, an ACK acknowledging new data inside
/// the send window advances `SND.UNA` to the acknowledgment, drops
/// exactly the leading acknowledged segments — each with a sequence
/// number below it — returns exactly their payload to the send credit,
/// emits nothing, and touches no other socket.
pub proof fn lemma_established_ack_advances(
    pre: TcpModel,
    post: TcpModel,
    i: int,
    pkt: PacketModel,
    outs: Seq<OutgoingModel>,
)
    requires
        pre.wf(),
        0 <= i < pre.sockets.len(),
        established_effect(pre, post, i, pkt, outs),
        pkt.flag & tcpflags::ACK != 0,
        pre.sockets[i].send.unacked_seq < pkt.ack,
        pkt.ack <= pre.sockets[i].send.next,
    ensures
        post.sockets.len() == pre.sockets.len(),
        ({
            let s = pre.sockets[i];
            let s2 = post.sockets[i];
            let removed = purge(s.retransmission_queue, pkt.ack, s.send.window as int).2;
            &&& s2.send.unacked_seq == pkt.ack
            &&& s2.send.initial_seq == s.send.initial_seq
            &&& s2.send.next == s.send.next
            &&& s2.send.initial_seq <= s2.send.unacked_seq <= s2.send.next
            &&& removed <= s.retransmission_queue.len()
            &&& s2.retransmission_queue == s.retransmission_queue.skip(removed as int)
            &&& (forall|k: int|
                0 <= k < removed ==> (#[trigger] s.retransmission_queue[k]).packet.seq < pkt.ack)
            &&& s2.send.window == s.send.window + queued_total(s.retransmission_queue)
                - queued_total(s2.retransmission_queue)
            &&& outs.len() == 0
        }),
        forall|j: int|
            0 <= j < pre.sockets.len() && j != i ==> post.sockets[j] == #[trigger] pre.sockets[j],
{
    let s = pre.sockets[i];
    lemma_purge_exact(s.retransmission_queue, pkt.ack, s.send.window as int);
    lemma_purge_props(
        s.retransmission_queue,
        pkt.ack,
        s.send.window as int,
        s.send.initial_window as int,
    );
    let iwu: u16 = s.send.initial_window;
    assert(iwu <= 65535) by (bit_vector);
}

/// A duplicate ACK — one whose acknowledgment does not pass `SND.UNA` —
/// leaves the whole engine untouched and emits nothing: handling the
/// same ACK twice equals handling it once.
pub proof fn lemma_duplicate_ack_inert(
    pre: TcpModel,
    post: TcpModel,
    i: int,
    pkt: PacketModel,
    outs: Seq<OutgoingModel>,
)
    requires
        0 <= i < pre.sockets.len(),
        established_effect(pre, post, i, pkt, outs),
        pkt.ack <= pre.sockets[i].send.unacked_seq,
    ensures
        post == pre,
        outs.len() == 0,
{
}

/// When a SYN reaches a listener whose spawned connection's key is not
/// yet in the table — the demultiplexer missed the exact key, so this is
/// the usual path — the new connection is appended under the packet's
/// source key and every existing socket, the listener included, keeps
/// its position and its key: a listener is never rekeyed.
pub proof fn lemma_listener_never_rekeyed(
    pre: TcpModel,
    post: TcpModel,
    i: int,
    pkt: PacketModel,
    remote_addr: u32,
    iss: u32,
    now_ms: u64,
    outs: Seq<OutgoingModel>,
)
    requires
        0 <= i < pre.sockets.len(),
        listen_effect(pre, post, i, pkt, remote_addr, iss, now_ms, outs),
        pkt.flag & tcpflags::ACK == 0,
        pkt.flag & tcpflags::SYN != 0,
        !pre.contains(
            SockID(
                pre.sockets[i].local_addr,
                remote_addr,
                pre.sockets[i].local_port,
                pkt.src_port,
            ),
        ),
    ensures
        post.sockets == pre.sockets.push(
            child_socket_model(pre.sockets[i], remote_addr, pkt, iss, now_ms),
        ),
        forall|j: int|
            0 <= j < pre.sockets.len() ==> post.sockets[j] == #[trigger] pre.sockets[j],
{
    let child = child_socket_model(pre.sockets[i], remote_addr, pkt, iss, now_ms);
    assert(!seq_contains_id(pre.sockets, child.sock_id()));
    assert(insert_sock_spec(pre.sockets, child) =~= pre.sockets.push(child));
}

/// When an ACK completes a passive-open handshake, the new connection's
/// key is appended at the tail of its listener's accept queue, its
/// socket stands Established in the table, and `ConnectionCompleted` is
/// published for the listener — everything a blocked `accept` needs to
/// hand the connection out.
pub proof fn lemma_completed_connection_established(
    pre: TcpModel,
    post: TcpModel,
    i: int,
    pkt: PacketModel,
    outs: Seq<OutgoingModel>,
    lid: SockID,
)
    requires
        pre.wf(),
        0 <= i < pre.sockets.len(),
        synrcvd_effect(pre, post, i, pkt, outs),
        pkt.flag & tcpflags::ACK != 0,
        pre.sockets[i].send.unacked_seq <= pkt.ack,
        pkt.ack <= pre.sockets[i].send.next,
        pre.sockets[i].listening_socket == Some(lid),
    ensures
        ({
            let cid = pre.sockets[i].sock_id();
            &&& pre.contains(lid)
            &&& post.wf()
            &&& post.contains(cid)
            &&& post.sock(cid).status is Established
            &&& post.contains(lid)
            &&& post.sock(lid).connected_connection_queue == pre.sock(
                lid,
            ).connected_connection_queue.push(cid)
            &&& post.event == Some(
                TCPEvent { sock_id: lid, kind: TCPEventKind::ConnectionCompleted },
            )
            &&& outs.len() == 0
        }),
{
    let s = pre.sockets[i];
    let cid = s.sock_id();
    assert(seq_contains_id(pre.sockets, lid));
    let s2 = SocketModel {
        send: SendParamModel { unacked_seq: pkt.ack, ..s.send },
        recv: RecvParamModel { next: pkt.seq, ..s.recv },
        status: TcpStatus::Established,
        ..s
    };
    assert(s2.wf());
    let mid = pre.sockets.update(i, s2);
    lemma_update_preserves_wf(pre.sockets, i, s2);
    assert(seq_contains_id(mid, lid));
    lemma_idx_of(mid, lid);
    let lj = seq_idx_of(mid, lid);
    let l2 = SocketModel {
        connected_connection_queue: mid[lj].connected_connection_queue.push(cid),
        ..mid[lj]
    };
    assert(l2.wf());
    lemma_update_preserves_wf(mid, lj, l2);
    assert(mid[i].sock_id() == cid);
    assert(seq_contains_id(mid, cid));
    assert(post.sockets == mid.update(lj, l2));
    assert(post.sockets[i].sock_id() == cid);
    assert(seq_contains_id(post.sockets, cid));
    lemma_idx_of(post.sockets, cid);
    assert(seq_idx_of(post.sockets, cid) == i);
    assert(post.sock(cid).status is Established);
    assert(post.sockets[lj].sock_id() == lid);
    assert(seq_contains_id(post.sockets, lid));
    lemma_idx_of(post.sockets, lid);
    assert(seq_idx_of(post.sockets, lid) == lj);
    lemma_idx_of(pre.sockets, lid);
    assert(pre.sockets[lj].sock_id() == lid);
    assert(seq_idx_of(pre.sockets, lid) == lj);
    assert(mid[lj].connected_connection_queue == pre.sockets[lj].connected_connection_queue);
}

/// Every segment a well-formed socket holds for retransmission still
/// passes checksum verification for the addresses it travels between, so
/// what the timer re-emits verifies exactly as the first transmission
/// did.
pub proof fn lemma_queued_segments_verify(s: SocketModel, k: int)
    requires
        s.wf(),
        0 <= k < s.retransmission_queue.len(),
    ensures
        crate::packet::verify_spec(
            s.local_addr,
            s.remote_addr,
            s.retransmission_queue[k].packet.bytes(),
        ),
{
    crate::packet::lemma_checksum_round_trip(
        s.local_addr,
        s.remote_addr,
        s.retransmission_queue[k].packet,
    );
}

/// Any two sockets in a well-formed table have distinct identifiers.
pub proof fn lemma_sock_ids_distinct(t: TcpModel, i: int, j: int)
    requires
        t.wf(),
        0 <= i < t.sockets.len(),
        0 <= j < t.sockets.len(),
        i != j,
    ensures
        t.sockets[i].sock_id() != t.sockets[j].sock_id(),
{
    if i < j {
        assert(t.sockets[i].sock_id() != t.sockets[j].sock_id());
    } else {
        assert(t.sockets[j].sock_id() != t.sockets[i].sock_id());
    }
}

} // verus!
