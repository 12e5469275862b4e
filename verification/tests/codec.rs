use toytcp::packet::{checksum16, verify_checksum, wrap_add32, TCPPacket};
use toytcp::tcpflags;

const IP_A: u32 = 0x0A000001;
const IP_B: u32 = 0x0A000002;

fn mk_segment(
    src_ip: u32,
    dst_ip: u32,
    src_port: u16,
    dst_port: u16,
    seq: u32,
    ack: u32,
    flag: u8,
    window_size: u16,
    payload: Vec<u8>,
) -> Vec<u8> {
    let mut p = TCPPacket {
        src_port,
        dst_port,
        seq,
        ack,
        flag,
        window_size,
        checksum: 0,
        payload,
    };
    let zeroed = p.encode();
    p.checksum = checksum16(src_ip, dst_ip, &zeroed);
    p.encode()
}

#[test]
fn encode_decode_round_trip() {
    let p = TCPPacket {
        src_port: 40123,
        dst_port: 8080,
        seq: 0x1234_5678,
        ack: 0x9ABC_DEF0,
        flag: tcpflags::SYN | tcpflags::ACK,
        window_size: 4380,
        checksum: 0xBEEF,
        payload: vec![1u8, 2, 3, 4, 5],
    };
    let bytes = p.encode();
    assert_eq!(bytes.len(), 25);
    let q = TCPPacket::decode(&bytes).expect("decodes");
    assert_eq!(q.src_port, p.src_port);
    assert_eq!(q.dst_port, p.dst_port);
    assert_eq!(q.seq, p.seq);
    assert_eq!(q.ack, p.ack);
    assert_eq!(q.flag, p.flag);
    assert_eq!(q.window_size, p.window_size);
    assert_eq!(q.checksum, p.checksum);
    assert_eq!(q.payload, p.payload);
}

#[test]
fn encode_decode_round_trip_empty_payload() {
    let p = TCPPacket {
        src_port: 1,
        dst_port: 65535,
        seq: 0,
        ack: u32::MAX,
        flag: tcpflags::ACK,
        window_size: 0,
        checksum: 0,
        payload: Vec::new(),
    };
    let bytes = p.encode();
    assert_eq!(bytes.len(), 20);
    let q = TCPPacket::decode(&bytes).expect("decodes");
    assert_eq!(q.seq, 0);
    assert_eq!(q.ack, u32::MAX);
    assert_eq!(q.payload.len(), 0);
}

#[test]
fn decode_rejects_short_input() {
    let data = vec![0u8; 19];
    assert!(TCPPacket::decode(&data).is_none());
}

#[test]
fn decode_rejects_bad_data_offset() {
    let p = TCPPacket {
        src_port: 1,
        dst_port: 2,
        seq: 3,
        ack: 4,
        flag: 0,
        window_size: 5,
        checksum: 6,
        payload: Vec::new(),
    };
    let mut bytes = p.encode();
    bytes[12] = 0x20; // data offset 2: below the 20-byte minimum
    assert!(TCPPacket::decode(&bytes).is_none());
}

#[test]
fn decode_skips_options() {
    // Data offset 6: a 24-byte header; the 4 option bytes are not payload.
    let p = TCPPacket {
        src_port: 7,
        dst_port: 8,
        seq: 9,
        ack: 10,
        flag: tcpflags::SYN,
        window_size: 11,
        checksum: 12,
        payload: vec![2u8, 4, 5, 180, 0xAA, 0xBB],
    };
    let bytes = p.encode();
    let mut with_options = bytes.clone();
    with_options[12] = 0x60;
    let q = TCPPacket::decode(&with_options).expect("decodes");
    assert_eq!(q.payload, vec![0xAAu8, 0xBB]);
}

#[test]
fn checksum_verifies_on_emitted_segment() {
    let bytes = mk_segment(IP_A, IP_B, 40000, 8080, 100, 200, tcpflags::ACK, 4380, vec![9u8; 51]);
    assert!(verify_checksum(&bytes, IP_A, IP_B));
}

#[test]
fn checksum_verifies_with_odd_payload_length() {
    let bytes = mk_segment(IP_B, IP_A, 50000, 443, 7, 0, tcpflags::SYN, 200, vec![1u8, 2, 3]);
    assert!(verify_checksum(&bytes, IP_B, IP_A));
}

#[test]
fn checksum_rejects_corrupted_segment() {
    let mut bytes = mk_segment(IP_A, IP_B, 40000, 8080, 100, 200, tcpflags::ACK, 4380, vec![9u8; 8]);
    bytes[22] = bytes[22].wrapping_add(1);
    assert!(!verify_checksum(&bytes, IP_A, IP_B));
    let swapped = verify_checksum(&bytes, IP_B, IP_A);
    assert!(!swapped);
}

#[test]
fn checksum_depends_on_addresses() {
    let bytes = mk_segment(IP_A, IP_B, 40000, 8080, 100, 200, tcpflags::ACK, 4380, Vec::new());
    assert!(verify_checksum(&bytes, IP_A, IP_B));
    assert!(!verify_checksum(&bytes, IP_A, 0x0A000003));
}

#[test]
fn wrapping_sequence_addition() {
    assert_eq!(wrap_add32(10, 1), 11);
    assert_eq!(wrap_add32(u32::MAX, 1), 0);
    assert_eq!(wrap_add32(u32::MAX, 5), 4);
}
