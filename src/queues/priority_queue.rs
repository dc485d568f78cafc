//! A bounded FIFO of wrapped, padded frames for one slot length, and the
//! on-wire format of those frames.
use crate::pattern::{IP_HEADER_LEN, IP_VERSION, MTU};
use crossbeam::queue::ArrayQueue;
use vstd::prelude::*;

verus! {

/// Capacity of every slot queue.
pub const MAX_Q_LEN: usize = 1024;

/// TTL written into the outer header.
pub const OUTER_TTL: u8 = 64;

/// Protocol number of IP-in-IP, written into the outer header.
pub const IPIP_PROTOCOL: u8 = 4;

/// The IPv4 header checksum that pnet computes over a packet's bytes.
pub uninterp spec fn ipv4_checksum_of(packet: Seq<u8>) -> u16;

/// What a crossbeam `ArrayQueue` of frames holds, oldest first.
pub uninterp spec fn aq_items(q: ArrayQueue<Vec<u8>>) -> Seq<Seq<u8>>;

/// The capacity a crossbeam `ArrayQueue` of frames was made with.
pub uninterp spec fn aq_capacity(q: ArrayQueue<Vec<u8>>) -> nat;

#[verifier::external_type_specification]
#[verifier::external_body]
#[verifier::reject_recursive_types(T)]
pub struct ExArrayQueue<T>(ArrayQueue<T>);

/// Relies on crossbeam's `ArrayQueue::new`: an empty queue of the given capacity
/// (it panics on a zero capacity, which `requires` leaves out).
#[verifier::external_body]
fn aq_new(cap: usize) -> (r: ArrayQueue<Vec<u8>>)
    requires
        0 < cap <= MAX_Q_LEN,
    ensures
        aq_items(r) == Seq::<Seq<u8>>::empty(),
        aq_capacity(r) == cap,
{
    ArrayQueue::new(cap)
}

/// Relies on crossbeam's `ArrayQueue::push_mut`: appends at the tail unless the
/// queue holds `capacity` items, in which case the item comes back as `Err`.
#[verifier::external_body]
fn aq_push(q: &mut ArrayQueue<Vec<u8>>, v: Vec<u8>) -> (r: Result<(), Vec<u8>>)
    ensures
        aq_capacity(*final(q)) == aq_capacity(*old(q)),
        aq_items(*old(q)).len() < aq_capacity(*old(q)) ==> r is Ok && aq_items(*final(q))
            == aq_items(*old(q)).push(v@),
        aq_items(*old(q)).len() >= aq_capacity(*old(q)) ==> r is Err && aq_items(*final(q)) == aq_items(*old(q)),
{
    q.push_mut(v)
}

/// Relies on crossbeam's `ArrayQueue::pop_mut`: takes the item at the head, or
/// `None` when the queue is empty.
#[verifier::external_body]
fn aq_pop(q: &mut ArrayQueue<Vec<u8>>) -> (r: Option<Vec<u8>>)
    ensures
        aq_capacity(*final(q)) == aq_capacity(*old(q)),
        aq_items(*old(q)).len() == 0 ==> r is None && aq_items(*final(q)) == aq_items(*old(q)),
        aq_items(*old(q)).len() > 0 ==> r is Some && r->0@ == aq_items(*old(q))[0]
            && aq_items(*final(q)) == aq_items(*old(q)).drop_first(),
{
    q.pop_mut()
}

/// Relies on pnet's `ipv4::checksum`: the header checksum of the packet that
/// starts at `packet[0]` (pnet refuses a buffer shorter than a header).
#[verifier::external_body]
fn header_checksum(packet: &[u8]) -> (r: u16)
    requires
        packet@.len() >= IP_HEADER_LEN,
    ensures
        r == ipv4_checksum_of(packet@),
{
    pnet::packet::ipv4::checksum(&pnet::packet::ipv4::Ipv4Packet::new(packet).unwrap())
}

/// `n` zero bytes.
pub open spec fn zeros(n: nat) -> Seq<u8> {
    Seq::new(n, |i: int| 0u8)
}

/// The outer IPv4 header with a zero checksum field: version 4, IHL 5,
/// the given total length, TTL 64, protocol IP-in-IP, then the addresses.
pub open spec fn unsummed_header(total: nat, src: Seq<u8>, dst: Seq<u8>) -> Seq<u8> {
    seq![
        0x45u8,
        0u8,
        (total / 256) as u8,
        (total % 256) as u8,
        0u8,
        0u8,
        0u8,
        0u8,
        OUTER_TTL,
        IPIP_PROTOCOL,
        0u8,
        0u8,
    ] + src + dst
}

/// `b` with the checksum of `b` written big-endian at bytes 10 and 11.
pub open spec fn with_checksum(b: Seq<u8>) -> Seq<u8> {
    let c = ipv4_checksum_of(b);
    b.update(10, (c / 256) as u8).update(11, (c % 256) as u8)
}

/// `frame` behind an outer header whose total length covers header and frame.
pub open spec fn wrapped(frame: Seq<u8>, src: Seq<u8>, dst: Seq<u8>) -> Seq<u8> {
    with_checksum(unsummed_header((frame.len() + IP_HEADER_LEN) as nat, src, dst) + frame)
}

/// The wrapped frame zero-filled to `slot_len + 20` bytes.
pub open spec fn padded_frame(frame: Seq<u8>, slot_len: nat, src: Seq<u8>, dst: Seq<u8>) -> Seq<u8> {
    wrapped(frame, src, dst) + zeros((slot_len - frame.len()) as nat)
}

/// The chaff frame of a slot: an outer header whose total length is the
/// whole buffer, followed by `slot_len` zero bytes.
pub open spec fn chaff_frame(slot_len: nat, src: Seq<u8>, dst: Seq<u8>) -> Seq<u8> {
    with_checksum(unsummed_header((slot_len + IP_HEADER_LEN) as nat, src, dst) + zeros(slot_len))
}

/// Every frame a well-formed queue holds, and its chaff frame, is the slot
/// length plus the outer header.
pub proof fn lemma_queue_wire_length(q: PriorityQueue)
    requires
        q.wf(),
    ensures
        forall|k: int| 0 <= k < q.items().len() ==> (#[trigger] q.items()[k]).len() == q.slot_len()
            + IP_HEADER_LEN,
        chaff_frame(q.slot_len(), q.source(), q.destination()).len() == q.slot_len() + IP_HEADER_LEN,
{
}

/// Builds the outer header for `total` bytes, checksum field zero.
fn outer_header(total: usize, src: [u8; 4], dst: [u8; 4]) -> (r: Vec<u8>)
    requires
        total <= 0xffff,
    ensures
        r@ == unsummed_header(total as nat, src@, dst@),
{
    let v: u8 = IP_VERSION * 16 + (IP_HEADER_LEN / 4) as u8;
    let r: Vec<u8> = vec![
        v,
        0,
        (total / 256) as u8,
        (total % 256) as u8,
        0,
        0,
        0,
        0,
        OUTER_TTL,
        IPIP_PROTOCOL,
        0,
        0,
        src[0],
        src[1],
        src[2],
        src[3],
        dst[0],
        dst[1],
        dst[2],
        dst[3],
    ];
    assert(r@ =~= unsummed_header(total as nat, src@, dst@));
    r
}

/// Writes the checksum of `b` into bytes 10 and 11.
fn set_checksum(b: &mut Vec<u8>)
    requires
        old(b)@.len() >= IP_HEADER_LEN,
    ensures
        final(b)@ == with_checksum(old(b)@),
{
    let c = header_checksum(b.as_slice());
    b.set(10, (c / 256) as u8);
    b.set(11, (c % 256) as u8);
}

/// Appends `n` zero bytes to `b`.
fn push_zeros(b: &mut Vec<u8>, n: usize)
    ensures
        final(b)@ == old(b)@ + zeros(n as nat),
{
    let mut k: usize = 0;
    while k < n
        invariant
            k <= n,
            b@ == old(b)@ + zeros(k as nat),
        decreases n - k,
    {
        b.push(0);
        k = k + 1;
        assert(b@ =~= old(b)@ + zeros(k as nat));
    }
}

/// Resizes `data` to `target_length` bytes, cutting or zero-filling at the end.
fn pad(data: Vec<u8>, target_length: usize) -> (r: Vec<u8>)
    ensures
        target_length <= data@.len() ==> r@ == data@.subrange(0, target_length as int),
        target_length > data@.len() ==> r@ == data@ + zeros((target_length - data@.len()) as nat),
{
    let mut padded_data = data;
    if target_length <= padded_data.len() {
        padded_data.truncate(target_length);
    } else {
        let extra = target_length - padded_data.len();
        push_zeros(&mut padded_data, extra);
    }
    padded_data
}

/// The chaff frame of a slot of `length` bytes.
fn get_chaff(length: usize, src_addr: [u8; 4], dst_addr: [u8; 4]) -> (r: Vec<u8>)
    requires
        length <= MTU,
    ensures
        r@ == chaff_frame(length as nat, src_addr@, dst_addr@),
{
    let mut data = outer_header(length + IP_HEADER_LEN, src_addr, dst_addr);
    push_zeros(&mut data, length);
    set_checksum(&mut data);
    data
}

/// A copy of `b`.
fn copy_bytes(b: &Vec<u8>) -> (r: Vec<u8>)
    ensures
        r@ == b@,
{
    let mut r: Vec<u8> = Vec::with_capacity(b.len());
    let mut k: usize = 0;
    while k < b.len()
        invariant
            k <= b@.len(),
            r@ == b@.subrange(0, k as int),
        decreases b@.len() - k,
    {
        r.push(b[k]);
        k = k + 1;
        assert(r@ =~= b@.subrange(0, k as int));
    }
    assert(r@ =~= b@);
    r
}

/// The queue of one slot: frames waiting to be sent, each already wrapped
/// and padded to the slot's wire length, and the slot's chaff frame.
pub struct PriorityQueue {
    queue: ArrayQueue<Vec<u8>>,
    length: usize,
    src: [u8; 4],
    dst: [u8; 4],
    chaff: Vec<u8>,
}

impl PriorityQueue {
    /// The slot length, in bytes, before the outer header.
    pub closed spec fn slot_len(&self) -> nat {
        self.length as nat
    }

    /// The frames waiting, oldest first.
    pub closed spec fn items(&self) -> Seq<Seq<u8>> {
        aq_items(self.queue)
    }

    /// The outer source address.
    pub closed spec fn source(&self) -> Seq<u8> {
        self.src@
    }

    /// The outer destination address.
    pub closed spec fn destination(&self) -> Seq<u8> {
        self.dst@
    }

    /// Every frame held is the slot's wire length and the chaff frame is
    /// built for this slot; at most `MAX_Q_LEN` frames wait.
    pub closed spec fn wf(&self) -> bool {
        &&& 0 < self.length <= MTU
        &&& self.chaff@ == chaff_frame(self.length as nat, self.src@, self.dst@)
        &&& aq_capacity(self.queue) == MAX_Q_LEN
        &&& aq_items(self.queue).len() <= MAX_Q_LEN
        &&& forall|k: int|
            0 <= k < aq_items(self.queue).len() ==> #[trigger] aq_items(self.queue)[k].len()
                == self.length + IP_HEADER_LEN
    }

    /// An empty queue for slots of `length` bytes.
    pub fn new(length: usize, src: [u8; 4], dst: [u8; 4]) -> (r: Self)
        requires
            0 < length <= MTU,
        ensures
            r.wf(),
            r.slot_len() == length,
            r.items() == Seq::<Seq<u8>>::empty(),
            r.source() == src@,
            r.destination() == dst@,
    {
        let chaff = get_chaff(length, src, dst);
        PriorityQueue { queue: aq_new(MAX_Q_LEN), length, src, dst, chaff }
    }

    /// Wraps and pads `packet` and appends it. A packet longer than the slot,
    /// or one that finds the queue full, is dropped: the result says whether
    /// the packet was queued.
    pub fn push(&mut self, packet: Vec<u8>) -> (r: bool)
        requires
            old(self).wf(),
        ensures
            final(self).wf(),
            final(self).slot_len() == old(self).slot_len(),
            final(self).source() == old(self).source(),
            final(self).destination() == old(self).destination(),
            r == (packet@.len() <= old(self).slot_len() && old(self).items().len() < MAX_Q_LEN),
            r ==> final(self).items() == old(self).items().push(
                padded_frame(packet@, old(self).slot_len() as nat, old(self).source(), old(self).destination()),
            ),
            !r ==> final(self).items() == old(self).items(),
    {
        if packet.len() > self.length {
            return false;
        }
        let ghost frame = packet@;
        let wrapped_packet = self.wrap_in_ipv4(packet);
        let padded_data = pad(wrapped_packet, self.length + IP_HEADER_LEN);
        assert(padded_data@ == padded_frame(frame, self.length as nat, self.src@, self.dst@));
        let ghost before = aq_items(self.queue);
        match aq_push(&mut self.queue, padded_data) {
            Ok(()) => {
                assert forall|k: int| 0 <= k < aq_items(self.queue).len() implies #[trigger] aq_items(
                    self.queue,
                )[k].len() == self.length + IP_HEADER_LEN by {
                    if k < before.len() {
                        assert(aq_items(self.queue)[k] == before[k]);
                    }
                }
                true
            },
            Err(_) => false,
        }
    }

    /// The slot length.
    pub fn length(&self) -> (r: usize)
        requires
            self.wf(),
        ensures
            r == self.slot_len(),
            0 < r <= MTU,
    {
        self.length
    }

    /// The oldest waiting frame, or a copy of the chaff frame when none waits.
    pub fn pop(&mut self) -> (r: Vec<u8>)
        requires
            old(self).wf(),
        ensures
            final(self).wf(),
            final(self).slot_len() == old(self).slot_len(),
            final(self).source() == old(self).source(),
            final(self).destination() == old(self).destination(),
            r@.len() == old(self).slot_len() + IP_HEADER_LEN,
            old(self).items().len() > 0 ==> r@ == old(self).items()[0] && final(self).items()
                == old(self).items().drop_first(),
            old(self).items().len() == 0 ==> r@ == chaff_frame(
                old(self).slot_len() as nat,
                old(self).source(),
                old(self).destination(),
            ) && final(self).items() == old(self).items(),
    {
        let ghost before = aq_items(self.queue);
        match aq_pop(&mut self.queue) {
            Some(pkt) => {
                assert forall|k: int| 0 <= k < aq_items(self.queue).len() implies #[trigger] aq_items(
                    self.queue,
                )[k].len() == self.length + IP_HEADER_LEN by {
                    assert(aq_items(self.queue)[k] == before[k + 1]);
                }
                pkt
            },
            None => copy_bytes(&self.chaff),
        }
    }

    /// `data` behind an outer IPv4 header carrying its length and the queue's addresses.
    fn wrap_in_ipv4(&self, data: Vec<u8>) -> (r: Vec<u8>)
        requires
            data@.len() + IP_HEADER_LEN <= 0xffff,
        ensures
            r@ == wrapped(data@, self.src@, self.dst@),
    {
        let initial_len = data.len();
        let mut packet = outer_header(initial_len + IP_HEADER_LEN, self.src, self.dst);
        let mut k: usize = 0;
        while k < initial_len
            invariant
                initial_len == data@.len(),
                k <= initial_len,
                packet@ == unsummed_header((initial_len + IP_HEADER_LEN) as nat, self.src@, self.dst@)
                    + data@.subrange(0, k as int),
            decreases initial_len - k,
        {
            packet.push(data[k]);
            k = k + 1;
            assert(packet@ =~= unsummed_header((initial_len + IP_HEADER_LEN) as nat, self.src@, self.dst@)
                + data@.subrange(0, k as int));
        }
        assert(data@.subrange(0, initial_len as int) =~= data@);
        set_checksum(&mut packet);
        packet
    }
}

} // verus!
