//! The receive side: drop frames moving the wrong way and chaff, unwrap the
//! outer header, cut the padding, and optionally peel switch pad headers.
use crate::hardware_obf::{deobfuscate_tofino, tofino_peeled};
use crate::pattern::{IP_ADDR_LEN, IP_HEADER_LEN, IP_SRC_ADDR_OFFSET, MTU};
use crate::queues::priority_queue::{
    chaff_frame, padded_frame, unsummed_header, with_checksum, wrapped, zeros,
};
use vstd::prelude::*;
use vstd::slice::slice_subrange;

verus! {

/// Shortest frame that holds the outer header and the chaff sentinel bytes.
pub const MIN_FRAME_LEN: usize = 24;

enum PacketType {
    Chaff,
    Obfuscated,
}

/// The big-endian 16-bit value at bytes `i` and `i + 1`.
pub open spec fn be_u16_at(b: Seq<u8>, i: int) -> int {
    b[i] as int * 256 + b[i + 1] as int
}

/// The frame moves the way this tap handles: its outer source is `ip_src`
/// exactly when the tap is not on the local side.
pub open spec fn direction_ok(packet: Seq<u8>, ip_src: Seq<u8>, is_local: bool) -> bool {
    (packet.subrange(IP_SRC_ADDR_OFFSET as int, (IP_SRC_ADDR_OFFSET + IP_ADDR_LEN) as int) == ip_src)
        != is_local
}

/// Bytes 2 and 3 after the outer header are both zero: the chaff sentinel.
pub open spec fn is_chaff(packet: Seq<u8>) -> bool {
    packet[IP_HEADER_LEN + 2] == 0 && packet[IP_HEADER_LEN + 3] == 0
}

/// The inner frame: the bytes after the outer header up to its total length,
/// peeled when `hw` is set; the whole buffer when the total length is not in
/// `(20, len]`.
pub open spec fn unwrapped(packet: Seq<u8>, hw: bool) -> Seq<u8> {
    let tl = be_u16_at(packet, 2);
    if IP_HEADER_LEN < tl <= packet.len() {
        let inner = packet.subrange(IP_HEADER_LEN as int, tl);
        if hw {
            tofino_peeled(inner)
        } else {
            inner
        }
    } else {
        packet
    }
}

/// What the receive side forwards for `packet`: nothing for a frame shorter
/// than `MIN_FRAME_LEN`, one moving the wrong way, or chaff; else the inner frame.
pub open spec fn deobfuscated(packet: Seq<u8>, ip_src: Seq<u8>, is_local: bool, hw: bool) -> Option<
    Seq<u8>,
> {
    if packet.len() < MIN_FRAME_LEN || !direction_ok(packet, ip_src, is_local) || is_chaff(packet) {
        None
    } else {
        Some(unwrapped(packet, hw))
    }
}

fn get_packet_type(packet: &[u8]) -> (r: PacketType)
    requires
        packet@.len() >= MIN_FRAME_LEN,
    ensures
        (r is Chaff) == is_chaff(packet@),
{
    if packet[IP_HEADER_LEN + 2] == 0 && packet[IP_HEADER_LEN + 3] == 0 {
        PacketType::Chaff
    } else {
        PacketType::Obfuscated
    }
}

/// Decides what to forward for a frame read from the obfuscated link.
pub fn process_packet(packet: &[u8], ip_src: [u8; 4], is_local: bool, is_hw_obfuscation: bool) -> (r:
    Option<&[u8]>)
    ensures
        r is None <==> deobfuscated(packet@, ip_src@, is_local, is_hw_obfuscation) is None,
        r is Some ==> deobfuscated(packet@, ip_src@, is_local, is_hw_obfuscation) == Some(r->0@),
{
    if packet.len() < MIN_FRAME_LEN {
        return None;
    }
    let same_src = packet[IP_SRC_ADDR_OFFSET] == ip_src[0] && packet[IP_SRC_ADDR_OFFSET + 1]
        == ip_src[1] && packet[IP_SRC_ADDR_OFFSET + 2] == ip_src[2] && packet[IP_SRC_ADDR_OFFSET + 3]
        == ip_src[3];
    let ghost src = packet@.subrange(IP_SRC_ADDR_OFFSET as int, (IP_SRC_ADDR_OFFSET + IP_ADDR_LEN) as int);
    assert(same_src == (src == ip_src@)) by {
        if same_src {
            assert(src =~= ip_src@);
        } else if src == ip_src@ {
            assert(src[0] == ip_src@[0] && src[1] == ip_src@[1] && src[2] == ip_src@[2] && src[3]
                == ip_src@[3]);
        }
    }
    if same_src != is_local {
        match get_packet_type(packet) {
            PacketType::Chaff => None,
            PacketType::Obfuscated => Some(deobfuscate(packet, is_hw_obfuscation)),
        }
    } else {
        None
    }
}

/// The inner frame of `packet`, or the whole buffer when its outer total
/// length is out of range.
fn deobfuscate(packet: &[u8], is_hw_obfuscation: bool) -> (r: &[u8])
    requires
        packet@.len() >= IP_HEADER_LEN,
    ensures
        r@ == unwrapped(packet@, is_hw_obfuscation),
{
    let length: usize = packet[2] as usize * 256 + packet[3] as usize;
    if length <= packet.len() && length > IP_HEADER_LEN {
        let inner = slice_subrange(packet, IP_HEADER_LEN, length);
        if is_hw_obfuscation {
            deobfuscate_tofino(inner)
        } else {
            inner
        }
    } else {
        packet
    }
}

/// Offset, in a received buffer, of the inner frame's source MAC address.
pub const INNER_SRC_MAC_OFFSET: usize = IP_HEADER_LEN + 6;

/// Offset, in a received buffer, of the destination address of the IPv4
/// packet inside the inner Ethernet frame.
pub const INNER_DST_IP_OFFSET: usize = IP_HEADER_LEN + 14 + 16;

/// `packet` with the inner source MAC replaced by `mac` and the innermost
/// IPv4 destination replaced by `next_hop`; unchanged when too short to hold both.
pub open spec fn backbone_rewritten(packet: Seq<u8>, mac: Seq<u8>, next_hop: Seq<u8>) -> Seq<u8> {
    if packet.len() >= INNER_DST_IP_OFFSET + 4 {
        Seq::new(
            packet.len(),
            |i: int|
                if INNER_SRC_MAC_OFFSET <= i < INNER_SRC_MAC_OFFSET + 6 {
                    mac[i - INNER_SRC_MAC_OFFSET]
                } else if INNER_DST_IP_OFFSET <= i < INNER_DST_IP_OFFSET + 4 {
                    next_hop[i - INNER_DST_IP_OFFSET]
                } else {
                    packet[i]
                },
        )
    } else {
        packet
    }
}

/// For the backbone mode: a copy of a received buffer whose inner frame
/// leaves with the output interface's MAC as source and is routed to `next_hop`.
pub fn backbone_rewrite(packet: &[u8], out_mac: [u8; 6], next_hop: [u8; 4]) -> (r: Vec<u8>)
    ensures
        r@ == backbone_rewritten(packet@, out_mac@, next_hop@),
{
    let mut r: Vec<u8> = Vec::with_capacity(packet.len());
    let mut k: usize = 0;
    while k < packet.len()
        invariant
            k <= packet@.len(),
            r@ == packet@.subrange(0, k as int),
        decreases packet@.len() - k,
    {
        r.push(packet[k]);
        k = k + 1;
        assert(r@ =~= packet@.subrange(0, k as int));
    }
    assert(r@ =~= packet@);
    if packet.len() < INNER_DST_IP_OFFSET + 4 {
        return r;
    }
    let mut j: usize = 0;
    while j < 6
        invariant
            r@.len() == packet@.len() >= INNER_DST_IP_OFFSET + 4,
            j <= 6,
            forall|i: int|
                0 <= i < r@.len() ==> #[trigger] r@[i] == if INNER_SRC_MAC_OFFSET <= i
                    < INNER_SRC_MAC_OFFSET + j {
                    out_mac@[i - INNER_SRC_MAC_OFFSET]
                } else {
                    packet@[i]
                },
        decreases 6 - j,
    {
        r.set(INNER_SRC_MAC_OFFSET + j, out_mac[j]);
        j = j + 1;
    }
    let mut h: usize = 0;
    while h < 4
        invariant
            r@.len() == packet@.len() >= INNER_DST_IP_OFFSET + 4,
            h <= 4,
            forall|i: int|
                0 <= i < r@.len() ==> #[trigger] r@[i] == if INNER_SRC_MAC_OFFSET <= i
                    < INNER_SRC_MAC_OFFSET + 6 {
                    out_mac@[i - INNER_SRC_MAC_OFFSET]
                } else if INNER_DST_IP_OFFSET <= i < INNER_DST_IP_OFFSET + h {
                    next_hop@[i - INNER_DST_IP_OFFSET]
                } else {
                    packet@[i]
                },
        decreases 4 - h,
    {
        r.set(INNER_DST_IP_OFFSET + h, next_hop[h]);
        h = h + 1;
    }
    assert(r@ =~= backbone_rewritten(packet@, out_mac@, next_hop@));
    r
}

/// The bytes of the outer header and the frame that `with_checksum` leaves alone.
proof fn lemma_with_checksum_keeps(b: Seq<u8>, i: int)
    requires
        0 <= i < b.len(),
        b.len() >= IP_HEADER_LEN,
        i != 10 && i != 11,
    ensures
        with_checksum(b)[i] == b[i],
        with_checksum(b).len() == b.len(),
{
}

/// Facts about a frame behind an outer header, read back at the fields the
/// receive side looks at.
proof fn lemma_outer_fields(body: Seq<u8>, total: nat, src: Seq<u8>, dst: Seq<u8>)
    requires
        total <= 0xffff,
        src.len() == 4,
        dst.len() == 4,
    ensures
        ({
            let b = with_checksum(unsummed_header(total, src, dst) + body);
            &&& b.len() == IP_HEADER_LEN + body.len()
            &&& be_u16_at(b, 2) == total
            &&& b.subrange(12, 16) == src
            &&& b.subrange(IP_HEADER_LEN as int, b.len() as int) == body
        }),
{
    let u = unsummed_header(total, src, dst) + body;
    let b = with_checksum(u);
    assert(u.len() == IP_HEADER_LEN + body.len());
    assert(b[2] == u[2] && b[3] == u[3]);
    assert(u[2] == (total / 256) as u8 && u[3] == (total % 256) as u8);
    assert((total / 256) as u8 as int * 256 + (total % 256) as u8 as int == total) by (nonlinear_arith)
        requires
            total <= 0xffff,
    ;
    assert forall|k: int| 0 <= k < 4 implies #[trigger] b.subrange(12, 16)[k] == src[k] by {
        lemma_with_checksum_keeps(u, 12 + k);
    }
    assert(b.subrange(12, 16) =~= src);
    assert forall|k: int| 0 <= k < body.len() implies #[trigger] b.subrange(
        IP_HEADER_LEN as int,
        b.len() as int,
    )[k] == body[k] by {
        lemma_with_checksum_keeps(u, IP_HEADER_LEN + k);
    }
    assert(b.subrange(IP_HEADER_LEN as int, b.len() as int) =~= body);
}

/// Unwrapping a padded frame gives the frame back: a frame of at most the
/// slot length, wrapped and padded for that slot, is forwarded unchanged by a
/// receive side whose direction filter admits it, unless bytes 2 and 3 of the
/// frame are both zero (then it reads as chaff).
pub proof fn lemma_round_trip(
    frame: Seq<u8>,
    slot_len: nat,
    src: Seq<u8>,
    dst: Seq<u8>,
    ip_src: Seq<u8>,
    is_local: bool,
)
    requires
        4 <= frame.len() <= slot_len <= MTU,
        !(frame[2] == 0 && frame[3] == 0),
        src.len() == 4,
        dst.len() == 4,
        (src == ip_src) != is_local,
    ensures
        deobfuscated(padded_frame(frame, slot_len, src, dst), ip_src, is_local, false) == Some(frame),
{
    let total = (frame.len() + IP_HEADER_LEN) as nat;
    let w = wrapped(frame, src, dst);
    lemma_outer_fields(frame, total, src, dst);
    let b = padded_frame(frame, slot_len, src, dst);
    let z = zeros((slot_len - frame.len()) as nat);
    assert(b == w + z);
    assert(b.subrange(12, 16) =~= w.subrange(12, 16));
    assert(b[2] == w[2] && b[3] == w[3]);
    assert(b[IP_HEADER_LEN + 2] == w.subrange(IP_HEADER_LEN as int, w.len() as int)[2]);
    assert(b[IP_HEADER_LEN + 3] == w.subrange(IP_HEADER_LEN as int, w.len() as int)[3]);
    assert(b.subrange(IP_HEADER_LEN as int, total as int) =~= w.subrange(
        IP_HEADER_LEN as int,
        w.len() as int,
    ));
}

/// Chaff is never forwarded: the receive side drops every chaff frame,
/// whatever its slot, its addresses and the tap's settings.
pub proof fn lemma_chaff_silence(
    slot_len: nat,
    src: Seq<u8>,
    dst: Seq<u8>,
    ip_src: Seq<u8>,
    is_local: bool,
    hw: bool,
)
    requires
        src.len() == 4,
        dst.len() == 4,
    ensures
        deobfuscated(chaff_frame(slot_len, src, dst), ip_src, is_local, hw) is None,
{
    let u = unsummed_header((slot_len + IP_HEADER_LEN) as nat, src, dst) + zeros(slot_len);
    let b = chaff_frame(slot_len, src, dst);
    if b.len() >= MIN_FRAME_LEN {
        lemma_with_checksum_keeps(u, IP_HEADER_LEN + 2);
        lemma_with_checksum_keeps(u, IP_HEADER_LEN + 3);
        assert(is_chaff(b));
    }
}

} // verus!
