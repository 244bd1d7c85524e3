//! Packets that were sent and are not acknowledged yet.

use crate::seqnum::{seq_space, SeqNum};
use std::collections::VecDeque;
use vstd::prelude::*;

verus! {

/// A run of payload bytes at a position of the stream: what an [`InflightPacket`] stands for.
#[verifier::ext_equal]
pub struct Segment {
    pub seq: SeqNum,
    pub payload: Seq<u8>,
}

impl Segment {
    /// The sequence number that follows the last byte of the payload.
    pub open spec fn end(self) -> SeqNum {
        self.seq.plus(self.payload.len() as int)
    }

    /// Whether `s` lies at or after the start of the segment and before its end.
    pub open spec fn holds(self, s: SeqNum) -> bool {
        &&& self.seq == s || self.seq.is_before(s)
        &&& s.is_before(self.end())
    }

    /// What is left of the segment from the sequence number `ack` on.
    pub open spec fn rest_from(self, ack: SeqNum) -> Segment {
        Segment { seq: ack, payload: self.payload.skip(ack.ahead_of(self.seq)) }
    }
}

/// The first position of `queue` whose segment satisfies `pred`.
pub open spec fn first_index(queue: Seq<Segment>, pred: spec_fn(Segment) -> bool) -> Option<int> {
    if exists|i: int| is_first_index(queue, pred, i) {
        Some(choose|i: int| is_first_index(queue, pred, i))
    } else {
        None
    }
}

/// Whether the segment at `i` satisfies `pred` and none before it does.
pub open spec fn is_first_index(
    queue: Seq<Segment>,
    pred: spec_fn(Segment) -> bool,
    i: int,
) -> bool {
    &&& 0 <= i < queue.len()
    &&& pred(queue[i])
    &&& forall|j: int| 0 <= j < i ==> !pred(#[trigger] queue[j])
}

/// The first position of `queue` whose segment holds `s`.
pub open spec fn first_holding(queue: Seq<Segment>, s: SeqNum) -> Option<int> {
    first_index(queue, |p: Segment| p.holds(s))
}

/// The first position of `queue` whose segment starts at `s`.
pub open spec fn first_starting_at(queue: Seq<Segment>, s: SeqNum) -> Option<int> {
    first_index(queue, |p: Segment| p.seq == s)
}

/// `queue` after the segment that holds the last acknowledged byte was taken out and, where
/// bytes of it are left from `ack` on, put back at the end without the others.
pub open spec fn trim_acknowledged(queue: Seq<Segment>, ack: SeqNum) -> Seq<Segment> {
    match first_holding(queue, ack.plus(-1)) {
        Some(i) => if ack.ahead_of(queue[i].seq) < queue[i].payload.len() {
            queue.remove(i).push(queue[i].rest_from(ack))
        } else {
            queue.remove(i)
        },
        None => queue,
    }
}

/// The segments of `queue`, in order, that end after `ack`.
pub open spec fn ending_after(queue: Seq<Segment>, ack: SeqNum) -> Seq<Segment> {
    queue.filter(|p: Segment| ack.is_before(p.end()))
}

/// `queue` after everything before `ack` was acknowledged.
pub open spec fn acknowledge(queue: Seq<Segment>, ack: SeqNum) -> Seq<Segment> {
    ending_after(trim_acknowledged(queue, ack), ack)
}

/// How far `ack` reaches into the segment that holds the last acknowledged byte, where there
/// is one.
pub open spec fn acknowledged_len(queue: Seq<Segment>, ack: SeqNum) -> Option<int> {
    match first_holding(queue, ack.plus(-1)) {
        Some(i) => Some(ack.ahead_of(queue[i].seq)),
        None => None,
    }
}

pub proof fn lemma_first_index_found(queue: Seq<Segment>, pred: spec_fn(Segment) -> bool, i: int)
    requires
        is_first_index(queue, pred, i),
    ensures
        first_index(queue, pred) == Some(i),
{
    let k = choose|k: int| is_first_index(queue, pred, k);
    if k < i {
        assert(!pred(queue[k]));
    } else if i < k {
        assert(!pred(queue[i]));
    }
}

/// A packet that was sent and is not acknowledged yet.
#[derive(Debug)]
pub struct InflightPacket {
    pub seq: SeqNum,
    pub payload: Vec<u8>,
}

impl View for InflightPacket {
    type V = Segment;

    open spec fn view(&self) -> Segment {
        Segment { seq: self.seq, payload: self.payload@ }
    }
}

impl InflightPacket {
    /// A packet that carries `payload` from the sequence number `seq` on.
    pub fn new(seq: SeqNum, payload: Vec<u8>) -> (packet: Self)
        ensures
            packet@ == (Segment { seq, payload: payload@ }),
    {
        Self { seq, payload }
    }

    /// Whether `seq` lies between the start of the packet and its end.
    pub fn contains_seq_num(&self, seq: SeqNum) -> (contained: bool)
        ensures
            contained == self@.holds(seq),
    {
        self.seq <= seq && seq < self.end()
    }

    /// The sequence number that follows the last byte of the packet.
    fn end(&self) -> (end: SeqNum)
        ensures
            end == self@.end(),
    {
        self.seq + wire_len(self.payload.len())
    }
}

/// The segments that the packets of a queue stand for.
pub open spec fn segments(packets: Seq<InflightPacket>) -> Seq<Segment> {
    packets.map_values(|p: InflightPacket| p@)
}

/// A length as it is counted in sequence numbers, that is, in 32 bits.
pub(crate) fn wire_len(len: usize) -> (steps: u32)
    ensures
        steps == len as int % seq_space(),
{
    let steps: u32 = #[verifier::truncate] (len as u32);
    assert((len as u32) as u64 == (len as u64) % 0x1_0000_0000u64) by (bit_vector);
    steps
}

/// The position of the first packet that holds `s`.
pub(crate) fn position_holding(queue: &VecDeque<InflightPacket>, s: SeqNum) -> (found: Option<
    usize,
>)
    ensures
        match found {
            Some(i) => first_holding(segments(queue@), s) == Some(i as int),
            None => first_holding(segments(queue@), s) is None,
        },
{
    let ghost pred = |p: Segment| p.holds(s);
    let len: usize = queue.len();
    let mut i: usize = 0;
    while i < len
        invariant
            i <= len == queue@.len(),
            pred == (|p: Segment| p.holds(s)),
            forall|j: int| 0 <= j < i ==> !pred(#[trigger] segments(queue@)[j]),
        decreases len - i,
    {
        if queue[i].contains_seq_num(s) {
            proof {
                lemma_first_index_found(segments(queue@), pred, i as int);
            }
            return Some(i);
        }
        i = i + 1;
    }
    None
}

/// The position of the first packet that starts at `s`.
pub(crate) fn position_starting_at(queue: &VecDeque<InflightPacket>, s: SeqNum) -> (found: Option<
    usize,
>)
    ensures
        match found {
            Some(i) => first_starting_at(segments(queue@), s) == Some(i as int),
            None => first_starting_at(segments(queue@), s) is None,
        },
{
    let ghost pred = |p: Segment| p.seq == s;
    let len: usize = queue.len();
    let mut i: usize = 0;
    while i < len
        invariant
            i <= len == queue@.len(),
            pred == (|p: Segment| p.seq == s),
            forall|j: int| 0 <= j < i ==> !pred(#[trigger] segments(queue@)[j]),
        decreases len - i,
    {
        if queue[i].seq == s {
            proof {
                lemma_first_index_found(segments(queue@), pred, i as int);
            }
            return Some(i);
        }
        i = i + 1;
    }
    None
}

/// Keeps the packets that end after `ack`, in their order.
pub(crate) fn retain_ending_after(queue: &mut VecDeque<InflightPacket>, ack: SeqNum)
    ensures
        segments(final(queue)@) == ending_after(segments(old(queue)@), ack),
{
    let ghost before = segments(queue@);
    let ghost pred = |p: Segment| ack.is_before(p.end());
    let len: usize = queue.len();
    let mut i: usize = 0;
    assert(before.take(0).filter(pred) == Seq::<Segment>::empty()) by {
        reveal(Seq::filter);
    }
    assert(segments(queue@) =~= before.skip(0) + before.take(0).filter(pred));
    while i < len
        invariant
            i <= len == before.len(),
            pred == (|p: Segment| ack.is_before(p.end())),
            segments(queue@) == before.skip(i as int) + before.take(i as int).filter(pred),
        decreases len - i,
    {
        let ghost kept = before.take(i as int).filter(pred);
        let ghost held = segments(queue@);
        assert(held[0] == before[i as int]);
        match queue.pop_front() {
            Some(packet) => {
                assert(segments(queue@) =~= held.subrange(1, held.len() as int));
                assert(segments(queue@) =~= before.skip(i + 1) + kept);
                proof {
                    reveal(Seq::filter);
                    assert(before.take(i + 1).drop_last() =~= before.take(i as int));
                }
                if ack < packet.end() {
                    let ghost rest = segments(queue@);
                    queue.push_back(packet);
                    assert(segments(queue@) =~= rest.push(packet@));
                    assert(segments(queue@) =~= before.skip(i + 1) + kept.push(packet@));
                }
            },
            None => {},
        }
        i = i + 1;
    }
    assert(before.take(len as int) =~= before);
    assert(before.skip(len as int) =~= Seq::<Segment>::empty());
}

/// Takes the packet that holds the last byte before `ack` out of the queue, puts what is left
/// of it from `ack` on back at the end, and tells how far `ack` reached into it.
pub(crate) fn take_acknowledged(queue: &mut VecDeque<InflightPacket>, ack: SeqNum) -> (len: Option<
    usize,
>)
    ensures
        segments(final(queue)@) == trim_acknowledged(segments(old(queue)@), ack),
        match len {
            Some(n) => acknowledged_len(segments(old(queue)@), ack) == Some(n as int),
            None => acknowledged_len(segments(old(queue)@), ack) is None,
        },
{
    let ghost before = segments(queue@);
    let index = match position_holding(queue, ack - 1) {
        Some(index) => index,
        None => {
            return None;
        },
    };
    assert(before[index as int] == queue@[index as int]@) by {
        lemma_first_index_in_range(before, |p: Segment| p.holds(ack.plus(-1)));
    }
    match queue.remove(index) {
        Some(mut packet) => {
            assert(segments(queue@) =~= before.remove(index as int));
            let distance: usize = ack.distance(packet.seq) as usize;
            if distance < packet.payload.len() {
                packet.payload = packet.payload.split_off(distance);
                packet.seq = ack;
                assert(packet@ =~= before[index as int].rest_from(ack));
                queue.push_back(packet);
                assert(segments(queue@) =~= before.remove(index as int).push(packet@));
            }
            Some(distance)
        },
        None => {
            assert(false);
            None
        },
    }
}

pub proof fn lemma_first_index_in_range(queue: Seq<Segment>, pred: spec_fn(Segment) -> bool)
    ensures
        match first_index(queue, pred) {
            Some(i) => is_first_index(queue, pred, i),
            None => forall|i: int| 0 <= i < queue.len() ==> !pred(#[trigger] queue[i]),
        },
{
    if first_index(queue, pred) is None {
        assert forall|i: int| 0 <= i < queue.len() implies !pred(#[trigger] queue[i]) by {
            lemma_none_satisfies(queue, pred, i);
        }
    }
}

proof fn lemma_none_satisfies(queue: Seq<Segment>, pred: spec_fn(Segment) -> bool, i: int)
    requires
        first_index(queue, pred) is None,
        0 <= i < queue.len(),
    ensures
        !pred(queue[i]),
    decreases i,
{
    assert forall|j: int| 0 <= j < i implies !pred(#[trigger] queue[j]) by {
        lemma_none_satisfies(queue, pred, j);
    }
    if pred(queue[i]) {
        assert(is_first_index(queue, pred, i));
    }
}

/// The search by start finds the first segment that starts there, and misses only where none
/// does.
pub proof fn law_first_starting_at_starts_there(queue: Seq<Segment>, s: SeqNum)
    ensures
        match first_starting_at(queue, s) {
            Some(i) => {
                &&& 0 <= i < queue.len()
                &&& queue[i].seq.0 == s.0
                &&& forall|j: int| 0 <= j < i ==> (#[trigger] queue[j]).seq.0 != s.0
            },
            None => forall|j: int| 0 <= j < queue.len() ==> (#[trigger] queue[j]).seq.0 != s.0,
        },
{
    let pred = |p: Segment| p.seq == s;
    lemma_first_index_in_range(queue, pred);
    assert forall|j: int| 0 <= j < queue.len() && !pred(queue[j]) implies (
    #[trigger] queue[j]).seq.0 != s.0 by {}
}

/// A sequence number lies in a segment where it is no more than half a circle ahead of the start
/// and the end is ahead of it by at least one step and no more than half a circle.
pub proof fn law_holding_in_plain_numbers(p: Segment, s: SeqNum)
    ensures
        p.holds(s) <==> {
            &&& (s.0 - p.seq.0) % 0x1_0000_0000 <= 0x8000_0000
            &&& 1 <= (p.seq.0 + p.payload.len() - s.0) % 0x1_0000_0000 <= 0x8000_0000
        },
{
}

/// The search by sequence number finds the first segment in which it lies, and misses only where
/// it lies in none.
pub proof fn law_first_holding_holds(queue: Seq<Segment>, s: SeqNum)
    ensures
        match first_holding(queue, s) {
            Some(i) => {
                &&& 0 <= i < queue.len()
                &&& queue[i].holds(s)
                &&& forall|j: int| 0 <= j < i ==> !(#[trigger] queue[j]).holds(s)
            },
            None => forall|j: int| 0 <= j < queue.len() ==> !(#[trigger] queue[j]).holds(s),
        },
{
    let pred = |p: Segment| p.holds(s);
    lemma_first_index_in_range(queue, pred);
    assert forall|j: int| 0 <= j < queue.len() && !pred(queue[j]) implies !(
    #[trigger] queue[j]).holds(s) by {}
}

/// Every packet of a queue stands for one segment, in the same place, with the same start and the
/// same bytes.
pub proof fn law_segments_stand_for_packets(packets: Seq<InflightPacket>, i: int)
    ensures
        segments(packets).len() == packets.len(),
        0 <= i < packets.len() ==> segments(packets)[i].seq == packets[i].seq
            && segments(packets)[i].payload == packets[i].payload@,
{
}

} // verus!
