use toytcp::packet::{checksum16, TCPPacket};
use toytcp::socket::{SockID, Socket, TcpStatus, MAX_TRANSMISSION, RECV_WINDOW};
use toytcp::tcp::{SendOutcome, TCP, TCPEvent, TCPEventKind};
use toytcp::tcpflags;
use toytcp::TcpError;

const IP_A: u32 = 0x0A000001; // 10.0.0.1
const IP_B: u32 = 0x0A000002; // 10.0.0.2

fn mk_segment(
    src_ip: u32,
    dst_ip: u32,
    src_port: u16,
    dst_port: u16,
    seq: u32,
    ack: u32,
    flag: u8,
    window_size: u16,
    payload: Vec<u8>,
) -> Vec<u8> {
    let mut p = TCPPacket {
        src_port,
        dst_port,
        seq,
        ack,
        flag,
        window_size,
        checksum: 0,
        payload,
    };
    let zeroed = p.encode();
    p.checksum = checksum16(src_ip, dst_ip, &zeroed);
    p.encode()
}

fn idx_of(t: &TCP, id: SockID) -> usize {
    t.sockets
        .iter()
        .position(|s| s.get_sock_id() == id)
        .expect("socket in table")
}

/// Three-way handshake between two engines: A listens on IP_A:8080, B
/// connects from IP_B. Returns (a, b, listener id, A's child id, B's id).
fn open_pair() -> (TCP, TCP, SockID, SockID, SockID) {
    let mut a = TCP::new();
    let lid = a.listen(IP_A, 8080).unwrap();
    let mut b = TCP::new();
    let (bid, syn) = b.connect(IP_B, IP_A, 8080, 0).unwrap();
    assert_eq!(syn.remote_addr, IP_A);
    let synacks = a.receive_segment(IP_A, IP_B, &syn.bytes, 0);
    assert_eq!(synacks.len(), 1);
    assert_eq!(synacks[0].remote_addr, IP_B);
    let acks = b.receive_segment(IP_B, IP_A, &synacks[0].bytes, 0);
    assert_eq!(acks.len(), 1);
    let nothing = a.receive_segment(IP_A, IP_B, &acks[0].bytes, 0);
    assert!(nothing.is_empty());
    let cid = SockID(IP_A, IP_B, 8080, bid.2);
    (a, b, lid, cid, bid)
}

/// The connect side against a hand-crafted peer: returns the engine, its
/// socket id and the initial send sequence number, with the peer having
/// advertised `peer_window`.
fn open_crafted(peer_window: u16) -> (TCP, SockID, u32) {
    let mut a = TCP::new();
    let (id, syn) = a.connect(IP_A, IP_B, 9000, 0).unwrap();
    let synp = TCPPacket::decode(&syn.bytes).unwrap();
    assert_eq!(synp.flag, tcpflags::SYN);
    let iss = synp.seq;
    let synack = mk_segment(
        IP_B,
        IP_A,
        9000,
        id.2,
        7000,
        iss.wrapping_add(1),
        tcpflags::SYN | tcpflags::ACK,
        peer_window,
        Vec::new(),
    );
    let acks = a.receive_segment(IP_A, IP_B, &synack, 0);
    assert_eq!(acks.len(), 1);
    let i = idx_of(&a, id);
    assert_eq!(a.sockets[i].status, TcpStatus::Established);
    assert_eq!(a.sockets[i].send_param.window, peer_window);
    (a, id, iss)
}

fn check_core_invariants(t: &TCP) {
    // Sequence ordering and transmission-count bounds on every socket.
    for s in t.sockets.iter() {
        assert!(s.send_param.initial_seq <= s.send_param.unacked_seq);
        assert!(s.send_param.unacked_seq <= s.send_param.next);
        for e in s.retransmission_queue.iter() {
            assert!(e.transmission_count >= 1);
            assert!(e.transmission_count <= MAX_TRANSMISSION);
        }
    }
    // Distinct identifiers.
    for i in 0..t.sockets.len() {
        for j in 0..t.sockets.len() {
            if i != j {
                assert_ne!(t.sockets[i].get_sock_id(), t.sockets[j].get_sock_id());
            }
        }
    }
}

#[test]
fn passive_and_active_open() {
    let (mut a, b, lid, cid, bid) = open_pair();
    let li = idx_of(&a, lid);
    assert!(!a.sockets[li].connected_connection_queue.is_empty());
    assert!(a.take_matching_event(lid, TCPEventKind::ConnectionCompleted));
    let accepted = a.accept(lid).unwrap();
    assert_eq!(accepted, cid);
    let ci = idx_of(&a, cid);
    assert_eq!(a.sockets[ci].status, TcpStatus::Established);
    assert_eq!(a.sockets[ci].listening_socket, Some(lid));
    let bi = idx_of(&b, bid);
    assert_eq!(b.sockets[bi].status, TcpStatus::Established);
    assert!(bid.2 >= 40000 && bid.2 < 60000);
    check_core_invariants(&a);
    check_core_invariants(&b);
}

#[test]
fn single_segment_send() {
    let (mut a, mut b, _lid, cid, bid) = open_pair();
    let ci = idx_of(&a, cid);
    let seq0 = a.sockets[ci].send_param.next;
    let buf: Vec<u8> = vec![0x42; 100];
    let sent = match a.send(cid, &buf, 0, 10).unwrap() {
        SendOutcome::Sent { segment, size } => {
            assert_eq!(size, 100);
            segment
        },
        SendOutcome::WouldBlock => panic!("window open"),
    };
    let p = TCPPacket::decode(&sent.bytes).unwrap();
    assert_eq!(p.seq, seq0);
    assert_eq!(p.payload.len(), 100);
    assert_eq!(p.payload, buf);
    // The peer engine drops the data silently (no receive path), but the
    // segment still demultiplexes and passes its checksum there.
    let bi = idx_of(&b, bid);
    let b_una = b.sockets[bi].send_param.unacked_seq;
    let none = b.receive_segment(IP_B, IP_A, &sent.bytes, 10);
    assert!(none.is_empty());
    assert_eq!(b.sockets[bi].send_param.unacked_seq, b_una);
    // Inject the peer's ACK covering the segment.
    let ackb = mk_segment(
        IP_B,
        IP_A,
        cid.3,
        cid.2,
        a.sockets[ci].recv_param.next,
        seq0.wrapping_add(100),
        tcpflags::ACK,
        RECV_WINDOW,
        Vec::new(),
    );
    let none = a.receive_segment(IP_A, IP_B, &ackb, 20);
    assert!(none.is_empty());
    assert_eq!(a.sockets[ci].send_param.unacked_seq, seq0.wrapping_add(100));
    assert!(a.sockets[ci].retransmission_queue.is_empty());
    assert_eq!(a.sockets[ci].send_param.window, RECV_WINDOW);
    check_core_invariants(&a);
}

#[test]
fn window_pacing() {
    let (mut a, id, iss) = open_crafted(200);
    let buf: Vec<u8> = vec![7; 500];
    let i = idx_of(&a, id);
    // First burst: exactly the advertised 200 bytes, then blocked.
    let first = match a.send(id, &buf, 0, 0).unwrap() {
        SendOutcome::Sent { segment, size } => {
            assert_eq!(size, 200);
            segment
        },
        SendOutcome::WouldBlock => panic!("window open"),
    };
    let p = TCPPacket::decode(&first.bytes).unwrap();
    assert_eq!(p.seq, iss.wrapping_add(1));
    assert!(matches!(a.send(id, &buf, 200, 1).unwrap(), SendOutcome::WouldBlock));
    // Queued payload never exceeds initial window minus remaining credit.
    let queued: usize = a.sockets[i]
        .retransmission_queue
        .iter()
        .map(|e| e.packet.payload.len())
        .sum();
    assert!(queued <= 200 - a.sockets[i].send_param.window as usize);
    // ACK the burst: the blocked sender is woken and credit returns.
    let ack1 = mk_segment(
        IP_B,
        IP_A,
        9000,
        id.2,
        7001,
        iss.wrapping_add(201),
        tcpflags::ACK,
        200,
        Vec::new(),
    );
    a.receive_segment(IP_A, IP_B, &ack1, 2);
    assert!(a.take_matching_event(id, TCPEventKind::Acked));
    assert_eq!(a.sockets[i].send_param.window, 200);
    match a.send(id, &buf, 200, 3).unwrap() {
        SendOutcome::Sent { size, .. } => assert_eq!(size, 200),
        SendOutcome::WouldBlock => panic!("credit returned"),
    }
    let ack2 = mk_segment(
        IP_B,
        IP_A,
        9000,
        id.2,
        7001,
        iss.wrapping_add(401),
        tcpflags::ACK,
        200,
        Vec::new(),
    );
    a.receive_segment(IP_A, IP_B, &ack2, 4);
    assert!(a.take_matching_event(id, TCPEventKind::Acked));
    // Last 100 bytes.
    match a.send(id, &buf, 400, 5).unwrap() {
        SendOutcome::Sent { size, .. } => assert_eq!(size, 100),
        SendOutcome::WouldBlock => panic!("credit returned"),
    }
    assert_eq!(a.sockets[i].send_param.next, iss.wrapping_add(501));
    check_core_invariants(&a);
}

#[test]
fn retransmission_on_loss() {
    let (mut a, id, _iss) = open_crafted(RECV_WINDOW);
    let i = idx_of(&a, id);
    let buf: Vec<u8> = vec![1; 50];
    let sent = match a.send(id, &buf, 0, 0).unwrap() {
        SendOutcome::Sent { segment, size } => {
            assert_eq!(size, 50);
            segment
        },
        SendOutcome::WouldBlock => panic!("window open"),
    };
    // An early tick drops the acknowledged SYN; the data is not yet due.
    let out = a.timer_tick(100);
    assert!(out.is_empty());
    assert_eq!(a.sockets[i].retransmission_queue.len(), 1);
    assert_eq!(a.sockets[i].retransmission_queue[0].transmission_count, 1);
    // Each timeout retransmits the same bytes and bumps the count: 2..=5.
    for n in 2..=5u8 {
        let now = 3000 * (n as u64 - 1);
        let out = a.timer_tick(now);
        assert_eq!(out.len(), 1);
        assert_eq!(out[0].remote_addr, IP_B);
        assert_eq!(out[0].bytes, sent.bytes);
        assert_eq!(a.sockets[i].retransmission_queue.len(), 1);
        assert_eq!(a.sockets[i].retransmission_queue[0].transmission_count, n);
        assert_eq!(a.sockets[i].retransmission_queue[0].latest_transmission_time, now);
    }
    // At the transmission limit the segment is dropped silently, and the
    // spent credit is not returned.
    let out = a.timer_tick(15000);
    assert!(out.is_empty());
    assert!(a.sockets[i].retransmission_queue.is_empty());
    assert_eq!(a.sockets[i].send_param.window, RECV_WINDOW - 50);
    check_core_invariants(&a);
}

#[test]
fn mss_segmentation() {
    let (mut a, id, iss) = open_crafted(65535);
    let buf: Vec<u8> = vec![3; 3000];
    let mut cursor: usize = 0;
    let mut sizes: Vec<usize> = Vec::new();
    let mut seqs: Vec<u32> = Vec::new();
    while cursor < buf.len() {
        match a.send(id, &buf, cursor, 0).unwrap() {
            SendOutcome::Sent { segment, size } => {
                let p = TCPPacket::decode(&segment.bytes).unwrap();
                seqs.push(p.seq);
                sizes.push(size);
                cursor += size;
            },
            SendOutcome::WouldBlock => panic!("window is 65535"),
        }
    }
    assert_eq!(sizes, vec![1460, 1460, 80]);
    assert_eq!(seqs[0], iss.wrapping_add(1));
    assert_eq!(seqs[1], iss.wrapping_add(1461));
    assert_eq!(seqs[2], iss.wrapping_add(2921));
    check_core_invariants(&a);
}

#[test]
fn duplicate_ack_is_inert() {
    let (mut a, _b, _lid, cid, _bid) = open_pair();
    let ci = idx_of(&a, cid);
    let seq0 = a.sockets[ci].send_param.next;
    let buf: Vec<u8> = vec![5; 40];
    a.send(cid, &buf, 0, 0).unwrap();
    let x = seq0.wrapping_add(40);
    let ackb = mk_segment(
        IP_B,
        IP_A,
        cid.3,
        cid.2,
        a.sockets[ci].recv_param.next,
        x,
        tcpflags::ACK,
        RECV_WINDOW,
        Vec::new(),
    );
    a.receive_segment(IP_A, IP_B, &ackb, 1);
    assert_eq!(a.sockets[ci].send_param.unacked_seq, x);
    assert!(a.take_matching_event(cid, TCPEventKind::Acked));
    let window = a.sockets[ci].send_param.window;
    // The second, identical ACK changes nothing and signals nothing.
    a.receive_segment(IP_A, IP_B, &ackb, 2);
    assert_eq!(a.sockets[ci].send_param.unacked_seq, x);
    assert_eq!(a.sockets[ci].send_param.window, window);
    assert!(!a.take_matching_event(cid, TCPEventKind::Acked));
    check_core_invariants(&a);
}

#[test]
fn partial_ack_returns_whole_segment_credit() {
    // Credit is returned per removed segment, not per acknowledged byte:
    // an ACK inside a segment advances SND.UNA past its first byte, so
    // the purge drops the whole segment and returns all 200 bytes.
    let (mut a, id, iss) = open_crafted(200);
    let i = idx_of(&a, id);
    let buf: Vec<u8> = vec![9; 200];
    match a.send(id, &buf, 0, 0).unwrap() {
        SendOutcome::Sent { size, .. } => assert_eq!(size, 200),
        SendOutcome::WouldBlock => panic!("window open"),
    }
    assert_eq!(a.sockets[i].send_param.window, 0);
    let ack_half = mk_segment(
        IP_B,
        IP_A,
        9000,
        id.2,
        7001,
        iss.wrapping_add(101),
        tcpflags::ACK,
        200,
        Vec::new(),
    );
    a.receive_segment(IP_A, IP_B, &ack_half, 1);
    assert_eq!(a.sockets[i].send_param.unacked_seq, iss.wrapping_add(101));
    assert_eq!(a.sockets[i].send_param.window, 200);
    assert!(a.sockets[i].retransmission_queue.is_empty());
}

#[test]
fn simultaneous_open_falls_to_synrcvd() {
    // A SYN+ACK that does not acknowledge our SYN (ack == ISS) leaves the
    // socket in SynRcvd with a bare ACK out and no completion event; the
    // later ACK of our SYN establishes it without an event (no listener).
    let mut a = TCP::new();
    let (id, syn) = a.connect(IP_A, IP_B, 9000, 0).unwrap();
    let iss = TCPPacket::decode(&syn.bytes).unwrap().seq;
    let i = idx_of(&a, id);
    let synack_dup = mk_segment(
        IP_B,
        IP_A,
        9000,
        id.2,
        7000,
        iss,
        tcpflags::SYN | tcpflags::ACK,
        500,
        Vec::new(),
    );
    let out = a.receive_segment(IP_A, IP_B, &synack_dup, 1);
    assert_eq!(out.len(), 1);
    let bare = TCPPacket::decode(&out[0].bytes).unwrap();
    assert_eq!(bare.flag, tcpflags::ACK);
    assert_eq!(a.sockets[i].status, TcpStatus::SynRcvd);
    assert!(!a.take_matching_event(id, TCPEventKind::ConnectionCompleted));
    let ackb = mk_segment(
        IP_B,
        IP_A,
        9000,
        id.2,
        7001,
        iss.wrapping_add(1),
        tcpflags::ACK,
        500,
        Vec::new(),
    );
    let out = a.receive_segment(IP_A, IP_B, &ackb, 2);
    assert!(out.is_empty());
    assert_eq!(a.sockets[i].status, TcpStatus::Established);
    assert!(!a.take_matching_event(id, TCPEventKind::ConnectionCompleted));
    check_core_invariants(&a);
}

#[test]
fn unhandled_state_drops_segment() {
    let mut t = TCP::new();
    let mut s = Socket::new(IP_A, IP_B, 40001, 9999, TcpStatus::FinWait1);
    s.send_param.window = 100;
    t.sockets.push(s);
    let seg = mk_segment(IP_B, IP_A, 9999, 40001, 5, 6, tcpflags::ACK, 100, Vec::new());
    let out = t.receive_segment(IP_A, IP_B, &seg, 0);
    assert!(out.is_empty());
    let i = idx_of(&t, SockID(IP_A, IP_B, 40001, 9999));
    assert_eq!(t.sockets[i].status, TcpStatus::FinWait1);
    assert_eq!(t.sockets[i].send_param.unacked_seq, 0);
}

#[test]
fn listen_assigns_wildcard_key() {
    let mut a = TCP::new();
    let lid = a.listen(IP_A, 8080).unwrap();
    assert_eq!(lid, SockID(IP_A, 0, 8080, 0));
    let li = idx_of(&a, lid);
    assert_eq!(a.sockets[li].status, TcpStatus::Listen);
}

#[test]
fn distinct_sock_ids_in_table() {
    let (a, b, _lid, _cid, _bid) = open_pair();
    check_core_invariants(&a);
    check_core_invariants(&b);
    let mut c = TCP::new();
    c.listen(IP_A, 1000).unwrap();
    c.listen(IP_A, 1001).unwrap();
    c.listen(IP_B, 1000).unwrap();
    check_core_invariants(&c);
}

#[test]
fn accept_without_socket_fails() {
    let mut t = TCP::new();
    let r = t.accept(SockID(IP_A, 0, 8080, 0));
    assert_eq!(r, Err(TcpError::SocketNotFound));
}

#[test]
fn accept_without_pending_connection_fails() {
    let mut t = TCP::new();
    let lid = t.listen(IP_A, 8080).unwrap();
    assert_eq!(t.accept(lid), Err(TcpError::NoPendingConnection));
}

#[test]
fn send_without_socket_fails() {
    let mut t = TCP::new();
    let buf: Vec<u8> = vec![1, 2, 3];
    let r = t.send(SockID(IP_A, IP_B, 40001, 9999), &buf, 0, 0);
    assert!(matches!(r, Err(TcpError::SocketNotFound)));
}

#[test]
fn send_at_end_of_sequence_space_fails() {
    let mut t = TCP::new();
    let mut s = Socket::new(IP_A, IP_B, 40001, 9999, TcpStatus::Established);
    s.send_param.initial_seq = 1;
    s.send_param.unacked_seq = u32::MAX - 10;
    s.send_param.next = u32::MAX - 10;
    s.send_param.window = 60000;
    t.sockets.push(s);
    let buf: Vec<u8> = vec![0; 100];
    let r = t.send(SockID(IP_A, IP_B, 40001, 9999), &buf, 0, 0);
    assert!(matches!(r, Err(TcpError::SequenceSpaceExhausted)));
}

#[test]
fn ack_flag_clear_is_dropped() {
    // A segment without the ACK flag is dropped even when its ack field
    // happens to fall inside the send window: nothing advances, nothing
    // leaves the queue, no credit returns, no event is published.
    let (mut a, _b, _lid, cid, _bid) = open_pair();
    let ci = idx_of(&a, cid);
    let buf: Vec<u8> = vec![8; 40];
    let seq0 = a.sockets[ci].send_param.next;
    a.send(cid, &buf, 0, 0).unwrap();
    let queue_len = a.sockets[ci].retransmission_queue.len();
    let window = a.sockets[ci].send_param.window;
    let una = a.sockets[ci].send_param.unacked_seq;
    let no_flag = mk_segment(
        IP_B,
        IP_A,
        cid.3,
        cid.2,
        a.sockets[ci].recv_param.next,
        seq0.wrapping_add(40),
        0,
        RECV_WINDOW,
        Vec::new(),
    );
    let out = a.receive_segment(IP_A, IP_B, &no_flag, 1);
    assert!(out.is_empty());
    assert_eq!(a.sockets[ci].send_param.unacked_seq, una);
    assert_eq!(a.sockets[ci].send_param.window, window);
    assert_eq!(a.sockets[ci].retransmission_queue.len(), queue_len);
    assert!(!a.take_matching_event(cid, TCPEventKind::Acked));
}

#[test]
fn bad_checksum_is_dropped() {
    let (mut a, _b, _lid, cid, _bid) = open_pair();
    let ci = idx_of(&a, cid);
    let una = a.sockets[ci].send_param.unacked_seq;
    let buf: Vec<u8> = vec![5; 40];
    a.send(cid, &buf, 0, 0).unwrap();
    let mut ackb = mk_segment(
        IP_B,
        IP_A,
        cid.3,
        cid.2,
        a.sockets[ci].recv_param.next,
        una.wrapping_add(40),
        tcpflags::ACK,
        RECV_WINDOW,
        Vec::new(),
    );
    ackb[8] = ackb[8].wrapping_add(1); // corrupt the ack field
    let out = a.receive_segment(IP_A, IP_B, &ackb, 1);
    assert!(out.is_empty());
    assert_eq!(a.sockets[ci].send_param.unacked_seq, una);
}

#[test]
fn unknown_destination_is_dropped() {
    let mut a = TCP::new();
    a.listen(IP_A, 8080).unwrap();
    let stray = mk_segment(IP_B, IP_A, 50000, 9999, 1, 0, tcpflags::SYN, 100, Vec::new());
    let out = a.receive_segment(IP_A, IP_B, &stray, 0);
    assert!(out.is_empty());
    assert_eq!(a.sockets.len(), 1);
}

#[test]
fn listener_drops_ack_keeps_syn() {
    let mut a = TCP::new();
    let lid = a.listen(IP_A, 8080).unwrap();
    let acked = mk_segment(IP_B, IP_A, 50000, 8080, 1, 1, tcpflags::ACK, 100, Vec::new());
    assert!(a.receive_segment(IP_A, IP_B, &acked, 0).is_empty());
    assert_eq!(a.sockets.len(), 1);
    let syn = mk_segment(IP_B, IP_A, 50000, 8080, 900, 0, tcpflags::SYN, 300, Vec::new());
    let out = a.receive_segment(IP_A, IP_B, &syn, 0);
    assert_eq!(out.len(), 1);
    assert_eq!(a.sockets.len(), 2);
    let cid = SockID(IP_A, IP_B, 8080, 50000);
    let ci = idx_of(&a, cid);
    assert_eq!(a.sockets[ci].status, TcpStatus::SynRcvd);
    assert_eq!(a.sockets[ci].recv_param.next, 901);
    assert_eq!(a.sockets[ci].recv_param.initial_seq, 900);
    assert_eq!(a.sockets[ci].send_param.window, 300);
    assert_eq!(a.sockets[ci].listening_socket, Some(lid));
    let synack = TCPPacket::decode(&out[0].bytes).unwrap();
    assert_eq!(synack.flag, tcpflags::SYN | tcpflags::ACK);
    assert_eq!(synack.ack, 901);
}

#[test]
fn event_slot_overwrites_and_clears() {
    let mut t = TCP::new();
    let id1 = SockID(IP_A, 0, 1, 0);
    let id2 = SockID(IP_A, 0, 2, 0);
    t.publish_event(id1, TCPEventKind::Acked);
    t.publish_event(id2, TCPEventKind::ConnectionCompleted);
    assert!(!t.take_matching_event(id1, TCPEventKind::Acked));
    assert!(t.take_matching_event(id2, TCPEventKind::ConnectionCompleted));
    assert!(!t.take_matching_event(id2, TCPEventKind::ConnectionCompleted));
    let e = TCPEvent::new(id1, TCPEventKind::DataArrived);
    assert_eq!(e.sock_id, id1);
    assert_eq!(e.kind, TCPEventKind::DataArrived);
}
