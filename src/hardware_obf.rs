//! Peeling the pad headers that a Tofino switch pipeline adds to a frame.
use vstd::prelude::*;
use vstd::slice::slice_subrange;

verus! {

/// EtherType of the padding-metadata block.
pub const ETHERTYPE_PADDING_META: u16 = 2184;

/// Length of the padding-metadata block.
pub const PADDING_META_LEN: usize = 18;

pub const ETHERTYPE_32B_PADS: u16 = 2049;

pub const ETHERTYPE_16B_PADS: u16 = 2050;

pub const ETHERTYPE_8B_PADS: u16 = 2051;

pub const ETHERTYPE_4B_PADS: u16 = 2052;

pub const ETHERTYPE_2B_PADS: u16 = 2053;

pub const ETHERTYPE_1B_PADS: u16 = 9;

pub const ETHERTYPE_1B_PADS_TWO_TIMES_IN_A_ROW: u16 = 2313;

/// EtherType of the last pad before the payload.
pub const ETHERTYPE_LAST_PAD: u16 = 2304;

/// Length of an Ethernet header.
pub const ETH_HEADER_LEN: usize = 14;

/// First byte of an IPv4 header with version 4 and IHL 5.
pub const IPV4_FIRST_BYTE: u8 = 69;

/// The EtherType of the Ethernet header at the start of `b`.
pub open spec fn ethertype(b: Seq<u8>) -> int {
    b[12] as int * 256 + b[13] as int
}

/// How many bytes a pad header of EtherType `t` takes before the next header;
/// zero when `t` is not a plain pad.
pub open spec fn pad_strip_len(t: int) -> int {
    if t == ETHERTYPE_PADDING_META {
        PADDING_META_LEN as int
    } else if t == ETHERTYPE_32B_PADS {
        32
    } else if t == ETHERTYPE_16B_PADS {
        16
    } else if t == ETHERTYPE_8B_PADS {
        8
    } else if t == ETHERTYPE_4B_PADS {
        4
    } else if t == ETHERTYPE_2B_PADS {
        2
    } else if t == ETHERTYPE_1B_PADS || t == ETHERTYPE_1B_PADS_TWO_TIMES_IN_A_ROW {
        1
    } else {
        0
    }
}

/// `b` without its first `k` bytes; empty when it is shorter.
pub open spec fn strip(b: Seq<u8>, k: int) -> Seq<u8> {
    if k <= b.len() {
        b.subrange(k, b.len() as int)
    } else {
        Seq::empty()
    }
}

/// The payload under the pad headers of `b`. Each pad header is stripped by
/// its length; a last pad followed by an IPv4 header yields that header
/// onward, otherwise 32 bytes go; any other EtherType ends the descent by
/// stripping one Ethernet header. Stripping past the end leaves nothing.
pub open spec fn tofino_peeled(b: Seq<u8>) -> Seq<u8>
    decreases b.len(),
{
    if b.len() < ETH_HEADER_LEN {
        Seq::empty()
    } else {
        let t = ethertype(b);
        let k = pad_strip_len(t);
        if k > 0 {
            if k <= b.len() {
                tofino_peeled(b.subrange(k, b.len() as int))
            } else {
                Seq::empty()
            }
        } else if t == ETHERTYPE_LAST_PAD {
            if b.len() > ETH_HEADER_LEN && b[ETH_HEADER_LEN as int] == IPV4_FIRST_BYTE {
                b.subrange(ETH_HEADER_LEN as int, b.len() as int)
            } else if 32 <= b.len() {
                tofino_peeled(b.subrange(32, b.len() as int))
            } else {
                Seq::empty()
            }
        } else {
            strip(b, ETH_HEADER_LEN as int)
        }
    }
}

/// Removes the pad headers of a frame padded by the switch and returns the payload.
pub fn deobfuscate_tofino(eth_buff: &[u8]) -> (r: &[u8])
    ensures
        r@ == tofino_peeled(eth_buff@),
{
    let len = eth_buff.len();
    let mut start: usize = 0;
    assert(eth_buff@.subrange(0, len as int) =~= eth_buff@);
    loop
        invariant
            len == eth_buff@.len(),
            start <= len,
            tofino_peeled(eth_buff@.subrange(start as int, len as int)) == tofino_peeled(eth_buff@),
        decreases len - start,
    {
        let ghost cur = eth_buff@.subrange(start as int, len as int);
        if len - start < ETH_HEADER_LEN {
            return slice_subrange(eth_buff, len, len);
        }
        let t: u16 = eth_buff[start + 12] as u16 * 256 + eth_buff[start + 13] as u16;
        assert(t == ethertype(cur));
        let k: usize = if t == ETHERTYPE_PADDING_META {
            PADDING_META_LEN
        } else if t == ETHERTYPE_32B_PADS {
            32
        } else if t == ETHERTYPE_16B_PADS {
            16
        } else if t == ETHERTYPE_8B_PADS {
            8
        } else if t == ETHERTYPE_4B_PADS {
            4
        } else if t == ETHERTYPE_2B_PADS {
            2
        } else if t == ETHERTYPE_1B_PADS || t == ETHERTYPE_1B_PADS_TWO_TIMES_IN_A_ROW {
            1
        } else {
            0
        };
        if k > 0 {
            if k > len - start {
                return slice_subrange(eth_buff, len, len);
            }
            assert(cur.subrange(k as int, cur.len() as int) =~= eth_buff@.subrange(
                (start + k) as int,
                len as int,
            ));
            start = start + k;
        } else if t == ETHERTYPE_LAST_PAD {
            if len - start > ETH_HEADER_LEN && eth_buff[start + ETH_HEADER_LEN] == IPV4_FIRST_BYTE {
                let r = slice_subrange(eth_buff, start + ETH_HEADER_LEN, len);
                assert(r@ =~= cur.subrange(ETH_HEADER_LEN as int, cur.len() as int));
                return r;
            } else if 32 <= len - start {
                assert(cur.subrange(32, cur.len() as int) =~= eth_buff@.subrange(
                    (start + 32) as int,
                    len as int,
                ));
                start = start + 32;
            } else {
                return slice_subrange(eth_buff, len, len);
            }
        } else {
            let r = slice_subrange(eth_buff, start + ETH_HEADER_LEN, len);
            assert(r@ =~= cur.subrange(ETH_HEADER_LEN as int, cur.len() as int));
            return r;
        }
    }
}

} // verus!
