//! The TCP wire codec: the 20-byte header layout, big-endian field
//! encoding and decoding, and the RFC 793 one's-complement checksum over
//! the IPv4 pseudo-header, header and payload.
use vstd::prelude::*;

verus! {

/// Length of the fixed TCP header that this stack emits (no options).
pub const HEADER_LEN: usize = 20;

/// Largest payload of one segment: an IPv4 packet carries at most 65535
/// bytes of TCP data, 20 of which the header takes.
pub const MAX_PAYLOAD: usize = 65515;

/// Largest whole TCP segment (header plus payload).
pub const MAX_SEGMENT: usize = 65535;

/// The mathematical content of one TCP segment.
#[verifier::ext_equal]
pub ghost struct PacketModel {
    pub src_port: u16,
    pub dst_port: u16,
    pub seq: u32,
    pub ack: u32,
    pub flag: u8,
    pub window_size: u16,
    pub checksum: u16,
    pub payload: Seq<u8>,
}

/// One TCP segment: the header fields this stack uses, and the payload.
pub struct TCPPacket {
    pub src_port: u16,
    pub dst_port: u16,
    pub seq: u32,
    pub ack: u32,
    pub flag: u8,
    pub window_size: u16,
    pub checksum: u16,
    pub payload: Vec<u8>,
}

impl View for TCPPacket {
    type V = PacketModel;

    open spec fn view(&self) -> PacketModel {
        PacketModel {
            src_port: self.src_port,
            dst_port: self.dst_port,
            seq: self.seq,
            ack: self.ack,
            flag: self.flag,
            window_size: self.window_size,
            checksum: self.checksum,
            payload: self.payload@,
        }
    }
}

/// The 16-bit value written big-endian as `hi`, `lo`.
pub open spec fn be16(hi: u8, lo: u8) -> u16 {
    (hi as u16) << 8 | (lo as u16)
}

/// The 32-bit value written big-endian as `b0` .. `b3`.
pub open spec fn be32(b0: u8, b1: u8, b2: u8, b3: u8) -> u32 {
    (b0 as u32) << 24 | (b1 as u32) << 16 | (b2 as u32) << 8 | (b3 as u32)
}

/// Addition in the 32-bit sequence-number space.
pub open spec fn wrap_add32_spec(a: u32, b: u32) -> u32 {
    ((a + b) % 0x1_0000_0000) as u32
}

/// Addition in the 32-bit sequence-number space, executably.
pub fn wrap_add32(a: u32, b: u32) -> (r: u32)
    ensures
        r == wrap_add32_spec(a, b),
{
    let s: u64 = a as u64 + b as u64;
    if s > 0xFFFF_FFFF {
        proof {
            vstd::arithmetic::div_mod::lemma_mod_sub_multiples_vanish(
                a as int + b as int,
                0x1_0000_0000,
            );
            vstd::arithmetic::div_mod::lemma_small_mod(
                (a as int + b as int - 0x1_0000_0000) as nat,
                0x1_0000_0000,
            );
        }
        (s - 0x1_0000_0000) as u32
    } else {
        proof {
            vstd::arithmetic::div_mod::lemma_small_mod((a as int + b as int) as nat, 0x1_0000_0000);
        }
        s as u32
    }
}

impl PacketModel {
    /// A header this stack can emit: the payload fits one IPv4 packet.
    pub open spec fn valid(self) -> bool {
        self.payload.len() <= MAX_PAYLOAD
    }

    /// The 20 header bytes, big-endian, data offset 5, urgent pointer 0.
    pub open spec fn header_bytes(self) -> Seq<u8> {
        seq![
            (self.src_port >> 8) as u8, self.src_port as u8,
            (self.dst_port >> 8) as u8, self.dst_port as u8,
            (self.seq >> 24) as u8, (self.seq >> 16) as u8,
            (self.seq >> 8) as u8, self.seq as u8,
            (self.ack >> 24) as u8, (self.ack >> 16) as u8,
            (self.ack >> 8) as u8, self.ack as u8,
            0x50u8, self.flag,
            (self.window_size >> 8) as u8, self.window_size as u8,
            (self.checksum >> 8) as u8, self.checksum as u8,
            0u8, 0u8,
        ]
    }

    /// The whole segment on the wire.
    pub open spec fn bytes(self) -> Seq<u8> {
        self.header_bytes() + self.payload
    }
}

/// What a byte sequence means as a TCP segment: `None` when it is too
/// short or its data offset is malformed. Options, when present, are
/// skipped; the fields this stack reads sit in the first 20 bytes.
pub open spec fn parse(data: Seq<u8>) -> Option<PacketModel> {
    if data.len() < 20 {
        None
    } else {
        let off = (data[12] >> 4) as int;
        if off < 5 || data.len() < off * 4 {
            None
        } else {
            Some(PacketModel {
                src_port: be16(data[0], data[1]),
                dst_port: be16(data[2], data[3]),
                seq: be32(data[4], data[5], data[6], data[7]),
                ack: be32(data[8], data[9], data[10], data[11]),
                flag: data[13],
                window_size: be16(data[14], data[15]),
                checksum: be16(data[16], data[17]),
                payload: data.subrange(off * 4, data.len() as int),
            })
        }
    }
}

impl TCPPacket {
    /// Serialize the segment: 20 header bytes, then the payload.
    pub fn encode(&self) -> (out: Vec<u8>)
        requires
            self@.valid(),
        ensures
            out@ == self@.bytes(),
    {
        let mut out: Vec<u8> = Vec::new();
        out.push((self.src_port >> 8) as u8);
        out.push(self.src_port as u8);
        out.push((self.dst_port >> 8) as u8);
        out.push(self.dst_port as u8);
        out.push((self.seq >> 24) as u8);
        out.push((self.seq >> 16) as u8);
        out.push((self.seq >> 8) as u8);
        out.push(self.seq as u8);
        out.push((self.ack >> 24) as u8);
        out.push((self.ack >> 16) as u8);
        out.push((self.ack >> 8) as u8);
        out.push(self.ack as u8);
        out.push(0x50u8);
        out.push(self.flag);
        out.push((self.window_size >> 8) as u8);
        out.push(self.window_size as u8);
        out.push((self.checksum >> 8) as u8);
        out.push(self.checksum as u8);
        out.push(0u8);
        out.push(0u8);
        assert(out@ =~= self@.header_bytes());
        let mut i: usize = 0;
        while i < self.payload.len()
            invariant
                i <= self.payload.len(),
                out@ == self@.header_bytes() + self.payload@.subrange(0, i as int),
            decreases self.payload.len() - i,
        {
            out.push(self.payload[i]);
            i = i + 1;
            assert(out@ =~= self@.header_bytes() + self.payload@.subrange(0, i as int));
        }
        assert(out@ =~= self@.bytes());
        out
    }

    /// Read a segment back from wire bytes.
    pub fn decode(data: &Vec<u8>) -> (res: Option<TCPPacket>)
        ensures
            match res {
                Some(p) => parse(data@) == Some(p@),
                None => parse(data@) is None,
            },
    {
        if data.len() < HEADER_LEN {
            return None;
        }
        let b12 = data[12];
        assert(b12 >> 4 < 16) by (bit_vector);
        let off = (b12 >> 4) as usize;
        if off < 5 {
            return None;
        }
        let start = off * 4;
        if data.len() < start {
            return None;
        }
        let mut payload: Vec<u8> = Vec::new();
        let mut i: usize = start;
        while i < data.len()
            invariant
                start <= i <= data@.len(),
                payload@ == data@.subrange(start as int, i as int),
            decreases data@.len() - i,
        {
            payload.push(data[i]);
            i = i + 1;
            assert(payload@ =~= data@.subrange(start as int, i as int));
        }
        let p = TCPPacket {
            src_port: (data[0] as u16) << 8 | (data[1] as u16),
            dst_port: (data[2] as u16) << 8 | (data[3] as u16),
            seq: (data[4] as u32) << 24 | (data[5] as u32) << 16 | (data[6] as u32) << 8
                | (data[7] as u32),
            ack: (data[8] as u32) << 24 | (data[9] as u32) << 16 | (data[10] as u32) << 8
                | (data[11] as u32),
            flag: data[13],
            window_size: (data[14] as u16) << 8 | (data[15] as u16),
            checksum: (data[16] as u16) << 8 | (data[17] as u16),
            payload,
        };
        proof {
            let m = parse(data@)->Some_0;
            assert(p@ =~= m);
        }
        Some(p)
    }
}

/// Decoding inverts encoding: every header this stack can emit is read
/// back unchanged, payload included.
pub proof fn lemma_encode_decode_identity(m: PacketModel)
    requires
        m.valid(),
    ensures
        parse(m.bytes()) == Some(m),
{
    let b = m.bytes();
    assert(b.len() == 20 + m.payload.len());
    assert(b[12] == 0x50u8);
    assert(0x50u8 >> 4 == 5) by (bit_vector);
    let sp = m.src_port;
    assert(((sp >> 8) as u8 as u16) << 8 | (sp as u8 as u16) == sp) by (bit_vector);
    let dp = m.dst_port;
    assert(((dp >> 8) as u8 as u16) << 8 | (dp as u8 as u16) == dp) by (bit_vector);
    let sq = m.seq;
    assert(((sq >> 24) as u8 as u32) << 24 | ((sq >> 16) as u8 as u32) << 16
        | ((sq >> 8) as u8 as u32) << 8 | (sq as u8 as u32) == sq) by (bit_vector);
    let ak = m.ack;
    assert(((ak >> 24) as u8 as u32) << 24 | ((ak >> 16) as u8 as u32) << 16
        | ((ak >> 8) as u8 as u32) << 8 | (ak as u8 as u32) == ak) by (bit_vector);
    let ws = m.window_size;
    assert(((ws >> 8) as u8 as u16) << 8 | (ws as u8 as u16) == ws) by (bit_vector);
    let ck = m.checksum;
    assert(((ck >> 8) as u8 as u16) << 8 | (ck as u8 as u16) == ck) by (bit_vector);
    assert(b.subrange(20, b.len() as int) =~= m.payload);
    let r = parse(b)->Some_0;
    assert(r =~= m);
}

/// Sum of the big-endian 16-bit words of `data`; an odd trailing byte is
/// padded with zero, as the checksum prescribes.
pub open spec fn sum_be_words(data: Seq<u8>) -> int
    decreases data.len(),
{
    if data.len() == 0 {
        0
    } else if data.len() == 1 {
        data[0] * 256
    } else {
        data[0] * 256 + data[1] + sum_be_words(data.skip(2))
    }
}

/// The word sum a checksum covers: the IPv4 pseudo-header (source and
/// destination address, protocol 6, TCP length) followed by the segment.
pub open spec fn checksum_total(src_addr: u32, dst_addr: u32, data: Seq<u8>) -> int {
    (src_addr >> 16) + (src_addr & 0xFFFF) + (dst_addr >> 16) + (dst_addr & 0xFFFF) + 6
        + data.len() + sum_be_words(data)
}

/// End-around-carry reduction of a word sum to 16 bits.
pub open spec fn fold_carry(x: int) -> int
    recommends
        x >= 0,
    decreases x,
{
    if x > 0xFFFF {
        fold_carry(x / 0x10000 + x % 0x10000)
    } else {
        x
    }
}

/// The checksum value for a segment, over the given addresses: the one's
/// complement of the folded word sum taken with the checksum field zero.
pub open spec fn computed_checksum(src_addr: u32, dst_addr: u32, m: PacketModel) -> u16 {
    let zeroed = PacketModel { checksum: 0, ..m };
    (0xFFFF - fold_carry(checksum_total(src_addr, dst_addr, zeroed.bytes()))) as u16
}

/// `m` with its checksum field set for the given addresses.
pub open spec fn finalize(src_addr: u32, dst_addr: u32, m: PacketModel) -> PacketModel {
    PacketModel { checksum: computed_checksum(src_addr, dst_addr, m), ..m }
}

/// A received word sum passes when it folds to all ones.
pub open spec fn verify_spec(src_addr: u32, dst_addr: u32, data: Seq<u8>) -> bool {
    fold_carry(checksum_total(src_addr, dst_addr, data)) == 0xFFFF
}

pub proof fn lemma_sum_be_words_nonneg(data: Seq<u8>)
    ensures
        sum_be_words(data) >= 0,
    decreases data.len(),
{
    if data.len() >= 2 {
        lemma_sum_be_words_nonneg(data.skip(2));
    }
}

pub proof fn lemma_fold_carry_props(x: int)
    requires
        x >= 0,
    ensures
        0 <= fold_carry(x) <= 0xFFFF,
        fold_carry(x) % 0xFFFF == x % 0xFFFF,
        x > 0 ==> fold_carry(x) > 0,
    decreases x,
{
    if x > 0xFFFF {
        let y = x / 0x10000 + x % 0x10000;
        assert(x == 0x10000 * (x / 0x10000) + x % 0x10000);
        assert(x == 0xFFFF * (x / 0x10000) + y);
        vstd::arithmetic::div_mod::lemma_mod_multiples_vanish(x / 0x10000, y, 0xFFFF);
        lemma_fold_carry_props(y);
    }
}

/// The word sum of an emitted segment, as a closed form over its fields.
pub proof fn lemma_sum_be_words_of_packet(m: PacketModel)
    ensures
        sum_be_words(m.bytes()) == m.src_port + m.dst_port + (m.seq >> 16) + (m.seq & 0xFFFF)
            + (m.ack >> 16) + (m.ack & 0xFFFF) + 0x5000 + m.flag + m.window_size + m.checksum
            + sum_be_words(m.payload),
{
    let h = m.header_bytes();
    let p = m.payload;
    let t2 = h.skip(2) + p;
    let t4 = h.skip(4) + p;
    let t6 = h.skip(6) + p;
    let t8 = h.skip(8) + p;
    let t10 = h.skip(10) + p;
    let t12 = h.skip(12) + p;
    let t14 = h.skip(14) + p;
    let t16 = h.skip(16) + p;
    let t18 = h.skip(18) + p;
    assert(m.bytes().skip(2) =~= t2);
    assert(t2.skip(2) =~= t4);
    assert(t4.skip(2) =~= t6);
    assert(t6.skip(2) =~= t8);
    assert(t8.skip(2) =~= t10);
    assert(t10.skip(2) =~= t12);
    assert(t12.skip(2) =~= t14);
    assert(t14.skip(2) =~= t16);
    assert(t16.skip(2) =~= t18);
    assert(t18.skip(2) =~= p);
    assert(sum_be_words(m.bytes()) == h[0] * 256 + h[1] + sum_be_words(t2));
    assert(sum_be_words(t2) == h[2] * 256 + h[3] + sum_be_words(t4));
    assert(sum_be_words(t4) == h[4] * 256 + h[5] + sum_be_words(t6));
    assert(sum_be_words(t6) == h[6] * 256 + h[7] + sum_be_words(t8));
    assert(sum_be_words(t8) == h[8] * 256 + h[9] + sum_be_words(t10));
    assert(sum_be_words(t10) == h[10] * 256 + h[11] + sum_be_words(t12));
    assert(sum_be_words(t12) == h[12] * 256 + h[13] + sum_be_words(t14));
    assert(sum_be_words(t14) == h[14] * 256 + h[15] + sum_be_words(t16));
    assert(sum_be_words(t16) == h[16] * 256 + h[17] + sum_be_words(t18));
    assert(sum_be_words(t18) == h[18] * 256 + h[19] + sum_be_words(p));
    let sp = m.src_port;
    assert(((sp >> 8) as u8) * 256 + (sp as u8) == sp) by (bit_vector);
    let dp = m.dst_port;
    assert(((dp >> 8) as u8) * 256 + (dp as u8) == dp) by (bit_vector);
    let sq = m.seq;
    assert(((sq >> 24) as u8) * 256 + ((sq >> 16) as u8) == (sq >> 16)) by (bit_vector);
    assert(((sq >> 8) as u8) * 256 + (sq as u8) == (sq & 0xFFFF)) by (bit_vector);
    let ak = m.ack;
    assert(((ak >> 24) as u8) * 256 + ((ak >> 16) as u8) == (ak >> 16)) by (bit_vector);
    assert(((ak >> 8) as u8) * 256 + (ak as u8) == (ak & 0xFFFF)) by (bit_vector);
    let ws = m.window_size;
    assert(((ws >> 8) as u8) * 256 + (ws as u8) == ws) by (bit_vector);
    let ck = m.checksum;
    assert(((ck >> 8) as u8) * 256 + (ck as u8) == ck) by (bit_vector);
}

/// Verification succeeds on every segment whose checksum field holds the
/// computed checksum for the same addresses.
pub proof fn lemma_checksum_round_trip(src_addr: u32, dst_addr: u32, m: PacketModel)
    requires
        m.checksum == computed_checksum(src_addr, dst_addr, m),
    ensures
        verify_spec(src_addr, dst_addr, m.bytes()),
{
    let zeroed = PacketModel { checksum: 0, ..m };
    let s0 = checksum_total(src_addr, dst_addr, zeroed.bytes());
    let s1 = checksum_total(src_addr, dst_addr, m.bytes());
    lemma_sum_be_words_of_packet(zeroed);
    lemma_sum_be_words_of_packet(m);
    lemma_sum_be_words_nonneg(m.payload);
    assert(zeroed.bytes().len() == m.bytes().len());
    assert(s1 == s0 + m.checksum);
    assert(src_addr >> 16 >= 0) by (bit_vector);
    assert(src_addr & 0xFFFF >= 0) by (bit_vector);
    assert(dst_addr >> 16 >= 0) by (bit_vector);
    assert(dst_addr & 0xFFFF >= 0) by (bit_vector);
    assert(s0 >= 6);
    lemma_fold_carry_props(s0);
    let f0 = fold_carry(s0);
    assert(m.checksum == 0xFFFF - f0);
    assert(s1 == 0xFFFF + (s0 - f0));
    vstd::arithmetic::div_mod::lemma_mod_equivalence(s0, f0, 0xFFFF);
    assert((s0 - f0) % 0xFFFF == 0);
    vstd::arithmetic::div_mod::lemma_mod_add_multiples_vanish(s0 - f0, 0xFFFF);
    assert(s1 % 0xFFFF == 0);
    assert(s1 > 0);
    lemma_fold_carry_props(s1);
    let f1 = fold_carry(s1);
    if f1 < 0xFFFF {
        vstd::arithmetic::div_mod::lemma_small_mod(f1 as nat, 0xFFFF);
        assert(f1 == 0);
        assert(false);
    }
    assert(f1 == 0xFFFF);
}

/// The folded word sum over the pseudo-header and `data`, computed in one
/// pass with 64-bit accumulation.
fn folded_total(src_addr: u32, dst_addr: u32, data: &Vec<u8>) -> (r: u16)
    requires
        data@.len() <= MAX_SEGMENT,
    ensures
        r == fold_carry(checksum_total(src_addr, dst_addr, data@)),
{
    let ghost total = checksum_total(src_addr, dst_addr, data@);
    proof {
        lemma_sum_be_words_nonneg(data@);
    }
    assert(src_addr >> 16 <= 0xFFFF) by (bit_vector);
    assert(src_addr & 0xFFFF <= 0xFFFF) by (bit_vector);
    assert(dst_addr >> 16 <= 0xFFFF) by (bit_vector);
    assert(dst_addr & 0xFFFF <= 0xFFFF) by (bit_vector);
    let mut acc: u64 = (src_addr >> 16) as u64 + (src_addr & 0xFFFF) as u64
        + (dst_addr >> 16) as u64 + (dst_addr & 0xFFFF) as u64 + 6 + data.len() as u64;
    assert(data@.skip(0) =~= data@);
    let mut i: usize = 0;
    while i < data.len()
        invariant
            i <= data@.len(),
            data@.len() <= MAX_SEGMENT,
            acc == total - sum_be_words(data@.skip(i as int)),
            acc <= 0x60000 + 0x10000 * i,
        decreases data@.len() - i,
    {
        if i + 1 < data.len() {
            let w: u64 = (data[i] as u64) * 256 + (data[i + 1] as u64);
            proof {
                let s = data@.skip(i as int);
                assert(s.len() >= 2);
                assert(s.skip(2) =~= data@.skip(i as int + 2));
                lemma_sum_be_words_nonneg(s.skip(2));
            }
            acc = acc + w;
            i = i + 2;
        } else {
            let w: u64 = (data[i] as u64) * 256;
            proof {
                let s = data@.skip(i as int);
                assert(s.len() == 1);
                assert(data@.skip(data@.len() as int) =~= Seq::<u8>::empty());
            }
            acc = acc + w;
            i = data.len();
        }
    }
    assert(data@.skip(data@.len() as int) =~= Seq::<u8>::empty());
    assert(acc == total);
    while acc > 0xFFFF
        invariant
            acc >= 0,
            fold_carry(total) == fold_carry(acc as int),
        decreases acc,
    {
        let lo = acc & 0xFFFF;
        let hi = acc >> 16;
        proof {
            assert(acc & 0xFFFF == acc % 0x10000) by (bit_vector);
            assert(acc >> 16 == acc / 0x10000) by (bit_vector);
            assert(acc as int == 0x10000 * (acc as int / 0x10000) + acc as int % 0x10000);
        }
        acc = lo + hi;
    }
    acc as u16
}

/// The checksum to place in an outgoing segment whose bytes are `data`
/// with the checksum field zero.
pub fn checksum16(src_addr: u32, dst_addr: u32, data: &Vec<u8>) -> (r: u16)
    requires
        data@.len() <= MAX_SEGMENT,
    ensures
        r == 0xFFFF - fold_carry(checksum_total(src_addr, dst_addr, data@)),
{
    proof {
        lemma_sum_be_words_nonneg(data@);
        lemma_fold_carry_props(checksum_total(src_addr, dst_addr, data@));
    }
    let f = folded_total(src_addr, dst_addr, data);
    0xFFFF - f
}

/// Whether received bytes carry a correct checksum for the addresses of
/// the IPv4 packet that delivered them.
pub fn verify_checksum(data: &Vec<u8>, src_addr: u32, dst_addr: u32) -> (r: bool)
    requires
        data@.len() <= MAX_SEGMENT,
    ensures
        r == verify_spec(src_addr, dst_addr, data@),
{
    let f = folded_total(src_addr, dst_addr, data);
    f == 0xFFFF
}

} // verus!
