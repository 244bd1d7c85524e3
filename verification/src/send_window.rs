//! What the packets in flight carry, byte by byte, and what an acknowledgement leaves of it.

use crate::inflight::{
    acknowledge, acknowledged_len, first_holding, first_starting_at, is_first_index,
    lemma_first_index_found, lemma_first_index_in_range, trim_acknowledged, Segment,
};
use crate::seqnum::{half_space, SeqNum};
use vstd::prelude::*;

verus! {

impl Segment {
    /// The byte of the payload that has the sequence number `s`.
    pub open spec fn byte_at(self, s: SeqNum) -> Option<u8> {
        if s.ahead_of(self.seq) < self.payload.len() {
            Some(self.payload[s.ahead_of(self.seq)])
        } else {
            None
        }
    }

    /// Whether the segment starts at or after `una` and ends at or before `nxt`.
    pub open spec fn lies_within(self, una: SeqNum, nxt: SeqNum) -> bool {
        self.seq.ahead_of(una) + self.payload.len() <= nxt.ahead_of(una)
    }

    /// Whether the segment ends at or before the start of `other`, both counted from `una`.
    pub open spec fn ends_by(self, other: Segment, una: SeqNum) -> bool {
        self.seq.ahead_of(una) + self.payload.len() <= other.seq.ahead_of(una)
    }

    /// Whether the two segments have no byte in common, both counted from `una`.
    pub open spec fn is_apart_from(self, other: Segment, una: SeqNum) -> bool {
        ||| self.payload.len() == 0
        ||| other.payload.len() == 0
        ||| self.ends_by(other, una)
        ||| other.ends_by(self, una)
    }
}

/// Whether some segment of `queue` carries the byte `b` at the sequence number `s`.
pub open spec fn carries(queue: Seq<Segment>, s: SeqNum, b: u8) -> bool {
    exists|i: int| 0 <= i < queue.len() && #[trigger] queue[i].byte_at(s) == Some(b)
}

/// Whether the segments of `queue` lie between `una` and `nxt`, which are at most half a circle
/// apart, and have no byte in common.
pub open spec fn in_send_window(queue: Seq<Segment>, una: SeqNum, nxt: SeqNum) -> bool {
    &&& nxt.ahead_of(una) <= half_space()
    &&& forall|i: int| 0 <= i < queue.len() ==> (#[trigger] queue[i]).lies_within(una, nxt)
    &&& pairwise_apart(queue, una)
}

/// Whether no two segments of `queue` have a byte in common.
pub open spec fn pairwise_apart(queue: Seq<Segment>, una: SeqNum) -> bool {
    forall|i: int, j: int|
        0 <= i < j < queue.len() ==> (#[trigger] queue[i]).is_apart_from(#[trigger] queue[j], una)
}

/// Whether the segment has a payload or does not lie opposite to `ack` on the circle, that is,
/// half a circle from it or from the sequence number before it. Of an empty segment in that one
/// place the order of sequence numbers tells nothing.
pub open spec fn not_opposite(p: Segment, ack: SeqNum) -> bool {
    p.payload.len() > 0 || !(half_space() - 1 <= p.seq.ahead_of(ack) <= half_space())
}

/// Whether no empty segment of `queue` lies opposite to `ack`.
pub open spec fn none_opposite(queue: Seq<Segment>, ack: SeqNum) -> bool {
    forall|i: int| 0 <= i < queue.len() ==> not_opposite(#[trigger] queue[i], ack)
}

/// A segment whose payload is neither empty nor longer than half the sequence space holds
/// exactly the sequence numbers of its bytes, also across the wrap.
pub proof fn law_segment_holds_its_bytes(p: Segment, s: SeqNum)
    requires
        0 < p.payload.len() <= half_space(),
    ensures
        p.holds(s) <==> s.ahead_of(p.seq) < p.payload.len(),
        p.holds(s) <==> p.byte_at(s) is Some,
{
}

proof fn lemma_filter(queue: Seq<Segment>, pred: spec_fn(Segment) -> bool)
    ensures
        forall|k: int|
            0 <= k < queue.filter(pred).len() ==> pred(#[trigger] queue.filter(pred)[k])
                && queue.contains(queue.filter(pred)[k]),
        forall|i: int|
            0 <= i < queue.len() && pred(#[trigger] queue[i]) ==> queue.filter(pred).contains(
                queue[i],
            ),
    decreases queue.len(),
{
    reveal(Seq::filter);
    if queue.len() > 0 {
        let init = queue.drop_last();
        let out = queue.filter(pred);
        lemma_filter(init, pred);
        assert forall|k: int| 0 <= k < out.len() implies pred(#[trigger] out[k])
            && queue.contains(out[k]) by {
            if k < init.filter(pred).len() {
                assert(out[k] == init.filter(pred)[k]);
                let i = choose|i: int| 0 <= i < init.len() && init[i] == out[k];
                assert(queue[i] == out[k]);
            } else {
                assert(queue[queue.len() - 1] == out[k]);
            }
        }
        assert forall|i: int|
            0 <= i < queue.len() && pred(#[trigger] queue[i]) implies out.contains(queue[i]) by {
            if i < queue.len() - 1 {
                assert(queue[i] == init[i]);
                let k = choose|k: int|
                    0 <= k < init.filter(pred).len() && init.filter(pred)[k] == init[i];
                assert(out[k] == queue[i]);
            } else {
                assert(out[out.len() - 1] == queue[i]);
            }
        }
    }
}

proof fn lemma_filter_keeps_apart(
    queue: Seq<Segment>,
    pred: spec_fn(Segment) -> bool,
    una: SeqNum,
)
    requires
        pairwise_apart(queue, una),
    ensures
        pairwise_apart(queue.filter(pred), una),
    decreases queue.len(),
{
    reveal(Seq::filter);
    if queue.len() > 0 {
        let init = queue.drop_last();
        let out = queue.filter(pred);
        assert(pairwise_apart(init, una)) by {
            assert forall|i: int, j: int| 0 <= i < j < init.len() implies (
            #[trigger] init[i]).is_apart_from(#[trigger] init[j], una) by {
                assert(queue[i].is_apart_from(queue[j], una));
            }
        }
        lemma_filter_keeps_apart(init, pred, una);
        lemma_filter(init, pred);
        assert forall|i: int, j: int| 0 <= i < j < out.len() implies (
        #[trigger] out[i]).is_apart_from(#[trigger] out[j], una) by {
            assert(out[i] == init.filter(pred)[i]);
            if j < init.filter(pred).len() {
                assert(out[j] == init.filter(pred)[j]);
            } else {
                let k = choose|k: int| 0 <= k < init.len() && init[k] == out[i];
                assert(queue[k].is_apart_from(queue[queue.len() - 1], una));
            }
        }
    }
}

proof fn lemma_filter_keeps_all(queue: Seq<Segment>, pred: spec_fn(Segment) -> bool)
    requires
        forall|i: int| 0 <= i < queue.len() ==> pred(#[trigger] queue[i]),
    ensures
        queue.filter(pred) == queue,
    decreases queue.len(),
{
    reveal(Seq::filter);
    if queue.len() > 0 {
        lemma_filter_keeps_all(queue.drop_last(), pred);
        assert(pred(queue[queue.len() - 1]));
    }
}

/// Counted from `una`, a segment in the window carries the bytes from its start to its end, and
/// ends after `ack` where its end is further from `una`.
proof fn lemma_in_window(p: Segment, una: SeqNum, nxt: SeqNum, ack: SeqNum, s: SeqNum)
    requires
        nxt.ahead_of(una) <= half_space(),
        p.lies_within(una, nxt),
        ack.ahead_of(una) <= nxt.ahead_of(una),
    ensures
        p.byte_at(s) is Some <==> p.seq.ahead_of(una) <= s.ahead_of(una) < p.seq.ahead_of(una)
            + p.payload.len(),
        p.byte_at(s) is Some ==> s.ahead_of(p.seq) == s.ahead_of(una) - p.seq.ahead_of(una),
        p.end().ahead_of(una) == p.seq.ahead_of(una) + p.payload.len(),
        p.end().ahead_of(una) > ack.ahead_of(una) ==> ack.is_before(p.end()),
        p.end().ahead_of(una) <= ack.ahead_of(una) && not_opposite(p, ack) ==> !ack.is_before(
            p.end(),
        ),
{
}

/// A segment of the window with a payload holds the last byte before `ack` where `ack` lies
/// after its start and not after its end.
proof fn lemma_holds_last_acknowledged(p: Segment, una: SeqNum, nxt: SeqNum, ack: SeqNum)
    requires
        nxt.ahead_of(una) <= half_space(),
        p.lies_within(una, nxt),
        ack.ahead_of(una) <= nxt.ahead_of(una),
        p.payload.len() > 0,
    ensures
        p.holds(ack.plus(-1)) <==> p.seq.ahead_of(una) < ack.ahead_of(una) <= p.seq.ahead_of(una)
            + p.payload.len(),
        p.holds(ack.plus(-1)) ==> ack.ahead_of(p.seq) == ack.ahead_of(una) - p.seq.ahead_of(una),
{
    law_segment_holds_its_bytes(p, ack.plus(-1));
}

/// Whether `ack` does not lie inside the segment.
spec fn not_split_by(p: Segment, una: SeqNum, ack: SeqNum) -> bool {
    ||| p.seq.ahead_of(una) >= ack.ahead_of(una)
    ||| p.seq.ahead_of(una) + p.payload.len() <= ack.ahead_of(una)
}

/// What is known of a segment of the window that holds the last byte before `ack`.
proof fn lemma_hit(hit: Segment, una: SeqNum, nxt: SeqNum, ack: SeqNum)
    requires
        nxt.ahead_of(una) <= half_space(),
        hit.lies_within(una, nxt),
        ack.ahead_of(una) <= nxt.ahead_of(una),
        not_opposite(hit, ack),
        hit.holds(ack.plus(-1)),
    ensures
        hit.seq.ahead_of(una) < ack.ahead_of(una) <= hit.seq.ahead_of(una) + hit.payload.len(),
        ack.ahead_of(hit.seq) == ack.ahead_of(una) - hit.seq.ahead_of(una),
{
    if hit.payload.len() > 0 {
        lemma_holds_last_acknowledged(hit, una, nxt, ack);
    }
}

/// What is left of such a segment carries the bytes from `ack` on.
proof fn lemma_rest(hit: Segment, una: SeqNum, nxt: SeqNum, ack: SeqNum, s: SeqNum)
    requires
        nxt.ahead_of(una) <= half_space(),
        hit.lies_within(una, nxt),
        hit.seq.ahead_of(una) < ack.ahead_of(una) <= hit.seq.ahead_of(una) + hit.payload.len(),
        ack.ahead_of(hit.seq) == ack.ahead_of(una) - hit.seq.ahead_of(una),
    ensures
        hit.rest_from(ack).lies_within(una, nxt),
        hit.rest_from(ack).payload.len() == hit.payload.len() - ack.ahead_of(hit.seq),
        s.ahead_of(una) >= ack.ahead_of(una) ==> hit.rest_from(ack).byte_at(s) == hit.byte_at(s),
{
    let rest = hit.rest_from(ack);
    lemma_in_window(hit, una, nxt, ack, s);
    lemma_in_window(rest, una, nxt, ack, s);
    if s.ahead_of(una) >= ack.ahead_of(una) && hit.byte_at(s) is Some {
        assert(rest.payload[s.ahead_of(ack)] == hit.payload[s.ahead_of(hit.seq)]);
    }
}

proof fn lemma_trim_window(queue: Seq<Segment>, una: SeqNum, nxt: SeqNum, ack: SeqNum)
    requires
        in_send_window(queue, una, nxt),
        ack.ahead_of(una) <= nxt.ahead_of(una),
        none_opposite(queue, ack),
    ensures
        in_send_window(trim_acknowledged(queue, ack), una, nxt),
        none_opposite(trim_acknowledged(queue, ack), ack),
        forall|k: int|
            0 <= k < trim_acknowledged(queue, ack).len() ==> not_split_by(
                #[trigger] trim_acknowledged(queue, ack)[k],
                una,
                ack,
            ),
{
    let pred = |p: Segment| p.holds(ack.plus(-1));
    let out = trim_acknowledged(queue, ack);
    lemma_first_index_in_range(queue, pred);
    match first_holding(queue, ack.plus(-1)) {
        None => {
            assert forall|k: int| 0 <= k < out.len() implies not_split_by(
                #[trigger] out[k],
                una,
                ack,
            ) by {
                assert(!pred(queue[k]));
                if queue[k].payload.len() > 0 {
                    lemma_holds_last_acknowledged(queue[k], una, nxt, ack);
                }
            }
        },
        Some(i) => {
            let hit = queue[i];
            let others = queue.remove(i);
            assert(pred(hit) && hit.lies_within(una, nxt));
            lemma_hit(hit, una, nxt, ack);
            lemma_rest(hit, una, nxt, ack, una);
            assert forall|k: int| 0 <= k < others.len() implies {
                &&& (#[trigger] others[k]).lies_within(una, nxt)
                &&& others[k].is_apart_from(hit, una)
                &&& not_split_by(others[k], una, ack)
                &&& not_opposite(others[k], ack)
            } by {
                let m = if k < i { k } else { k + 1 };
                assert(others[k] == queue[m]);
                if m < i {
                    assert(queue[m].is_apart_from(queue[i], una));
                } else {
                    assert(queue[i].is_apart_from(queue[m], una));
                }
            }
            assert(pairwise_apart(others, una)) by {
                assert forall|k: int, l: int| 0 <= k < l < others.len() implies (
                #[trigger] others[k]).is_apart_from(#[trigger] others[l], una) by {
                    let m = if k < i { k } else { k + 1 };
                    let n = if l < i { l } else { l + 1 };
                    assert(queue[m].is_apart_from(queue[n], una));
                }
            }
        },
    }
}

proof fn lemma_trim_bytes(
    queue: Seq<Segment>,
    una: SeqNum,
    nxt: SeqNum,
    ack: SeqNum,
    s: SeqNum,
    b: u8,
)
    requires
        in_send_window(queue, una, nxt),
        ack.ahead_of(una) <= nxt.ahead_of(una),
        none_opposite(queue, ack),
        s.ahead_of(una) >= ack.ahead_of(una),
    ensures
        carries(trim_acknowledged(queue, ack), s, b) <==> carries(queue, s, b),
{
    let pred = |p: Segment| p.holds(ack.plus(-1));
    let out = trim_acknowledged(queue, ack);
    lemma_first_index_in_range(queue, pred);
    if let Some(i) = first_holding(queue, ack.plus(-1)) {
        let hit = queue[i];
        let others = queue.remove(i);
        assert(pred(hit) && hit.lies_within(una, nxt));
        lemma_hit(hit, una, nxt, ack);
        lemma_in_window(hit, una, nxt, ack, s);
        lemma_rest(hit, una, nxt, ack, s);
        if carries(out, s, b) {
            let k = choose|k: int| 0 <= k < out.len() && #[trigger] out[k].byte_at(s) == Some(b);
            if k < others.len() {
                let m = if k < i { k } else { k + 1 };
                assert(queue[m].byte_at(s) == Some(b));
            } else {
                assert(queue[i].byte_at(s) == Some(b));
            }
        }
        if carries(queue, s, b) {
            let m = choose|m: int|
                0 <= m < queue.len() && #[trigger] queue[m].byte_at(s) == Some(b);
            if m == i {
                assert(out[out.len() - 1].byte_at(s) == Some(b));
            } else {
                let k = if m < i { m } else { m - 1 };
                assert(out[k].byte_at(s) == Some(b));
            }
        }
    }
}

/// Whatever the queue was, only segments that end after `ack` stay in flight.
pub proof fn law_only_unacknowledged_segments_stay(queue: Seq<Segment>, ack: SeqNum)
    ensures
        forall|k: int|
            0 <= k < acknowledge(queue, ack).len() ==> ack.is_before(
                (#[trigger] acknowledge(queue, ack)[k]).end(),
            ),
{
    lemma_filter(trim_acknowledged(queue, ack), |p: Segment| ack.is_before(p.end()));
}

/// An acknowledgement within the window leaves exactly the bytes from `ack` on in flight: a
/// byte is carried after it just where it was carried before it and is not acknowledged.
pub proof fn law_acknowledge_keeps_exactly_the_rest(
    queue: Seq<Segment>,
    una: SeqNum,
    nxt: SeqNum,
    ack: SeqNum,
    s: SeqNum,
    b: u8,
)
    requires
        in_send_window(queue, una, nxt),
        ack.ahead_of(una) <= nxt.ahead_of(una),
        none_opposite(queue, ack),
    ensures
        carries(acknowledge(queue, ack), s, b) <==> carries(queue, s, b) && s.ahead_of(una)
            >= ack.ahead_of(una),
{
    let pred = |p: Segment| ack.is_before(p.end());
    let trimmed = trim_acknowledged(queue, ack);
    let kept = acknowledge(queue, ack);
    lemma_trim_window(queue, una, nxt, ack);
    lemma_filter(trimmed, pred);
    if carries(kept, s, b) {
        let k = choose|k: int| 0 <= k < kept.len() && #[trigger] kept[k].byte_at(s) == Some(b);
        assert(pred(kept[k]));
        let m = choose|m: int| 0 <= m < trimmed.len() && trimmed[m] == kept[k];
        assert(trimmed[m].lies_within(una, nxt) && not_split_by(trimmed[m], una, ack));
        lemma_in_window(trimmed[m], una, nxt, ack, s);
        assert(carries(trimmed, s, b));
        lemma_trim_bytes(queue, una, nxt, ack, s, b);
    }
    if carries(queue, s, b) && s.ahead_of(una) >= ack.ahead_of(una) {
        lemma_trim_bytes(queue, una, nxt, ack, s, b);
        let m = choose|m: int|
            0 <= m < trimmed.len() && #[trigger] trimmed[m].byte_at(s) == Some(b);
        assert(trimmed[m].lies_within(una, nxt));
        lemma_in_window(trimmed[m], una, nxt, ack, s);
        assert(pred(trimmed[m]));
        let k = choose|k: int| 0 <= k < kept.len() && kept[k] == trimmed[m];
        assert(kept[k].byte_at(s) == Some(b));
    }
}

/// After an acknowledgement within the window the packets in flight lie between `ack` and the
/// next byte to be sent, and still have no byte in common.
pub proof fn law_acknowledge_moves_the_window(
    queue: Seq<Segment>,
    una: SeqNum,
    nxt: SeqNum,
    ack: SeqNum,
)
    requires
        in_send_window(queue, una, nxt),
        ack.ahead_of(una) <= nxt.ahead_of(una),
        none_opposite(queue, ack),
    ensures
        in_send_window(acknowledge(queue, ack), ack, nxt),
        none_opposite(acknowledge(queue, ack), ack),
{
    let pred = |p: Segment| ack.is_before(p.end());
    let trimmed = trim_acknowledged(queue, ack);
    let kept = acknowledge(queue, ack);
    lemma_trim_window(queue, una, nxt, ack);
    lemma_filter(trimmed, pred);
    lemma_filter_keeps_apart(trimmed, pred, una);
    assert forall|k: int| 0 <= k < kept.len() implies {
        &&& (#[trigger] kept[k]).lies_within(ack, nxt)
        &&& kept[k].seq.ahead_of(una) == ack.ahead_of(una) + kept[k].seq.ahead_of(ack)
        &&& not_opposite(kept[k], ack)
    } by {
        assert(pred(kept[k]));
        let m = choose|m: int| 0 <= m < trimmed.len() && trimmed[m] == kept[k];
        assert(trimmed[m].lies_within(una, nxt) && not_split_by(trimmed[m], una, ack));
        assert(not_opposite(trimmed[m], ack));
        lemma_in_window(trimmed[m], una, nxt, ack, una);
    }
    assert forall|i: int, j: int| 0 <= i < j < kept.len() implies (
    #[trigger] kept[i]).is_apart_from(#[trigger] kept[j], ack) by {
        assert(kept[i].is_apart_from(kept[j], una));
    }
}

/// An acknowledgement that is repeated changes nothing: it takes nothing more out of flight, and
/// the congestion control hears nothing of it.
pub proof fn law_repeated_acknowledgement_changes_nothing(
    queue: Seq<Segment>,
    una: SeqNum,
    nxt: SeqNum,
    ack: SeqNum,
)
    requires
        in_send_window(queue, una, nxt),
        ack.ahead_of(una) <= nxt.ahead_of(una),
        none_opposite(queue, ack),
    ensures
        acknowledge(acknowledge(queue, ack), ack) == acknowledge(queue, ack),
        acknowledged_len(acknowledge(queue, ack), ack) is None,
{
    let kept = acknowledge(queue, ack);
    let holding = |p: Segment| p.holds(ack.plus(-1));
    law_acknowledge_moves_the_window(queue, una, nxt, ack);
    law_only_unacknowledged_segments_stay(queue, ack);
    lemma_first_index_in_range(kept, holding);
    if let Some(i) = first_holding(kept, ack.plus(-1)) {
        assert(is_first_index(kept, holding, i));
        assert(kept[i].lies_within(ack, nxt) && not_opposite(kept[i], ack));
        lemma_hit(kept[i], ack, nxt, ack);
    }
    lemma_filter_keeps_all(kept, |p: Segment| ack.is_before(p.end()));
}

/// An acknowledgement of everything that was sent leaves nothing in flight.
pub proof fn law_full_acknowledgement_leaves_nothing(
    queue: Seq<Segment>,
    una: SeqNum,
    nxt: SeqNum,
)
    requires
        in_send_window(queue, una, nxt),
        none_opposite(queue, nxt),
    ensures
        acknowledge(queue, nxt) == Seq::<Segment>::empty(),
{
    let kept = acknowledge(queue, nxt);
    law_acknowledge_moves_the_window(queue, una, nxt, nxt);
    law_only_unacknowledged_segments_stay(queue, nxt);
    if kept.len() > 0 {
        assert(kept[0].lies_within(nxt, nxt));
        assert(nxt.is_before(kept[0].end()));
    }
}

/// Where an acknowledgement within the window reaches into a packet, it covers at least one byte
/// and at most all of its payload.
pub proof fn law_acknowledged_len_is_part_of_a_packet(
    queue: Seq<Segment>,
    una: SeqNum,
    nxt: SeqNum,
    ack: SeqNum,
)
    requires
        in_send_window(queue, una, nxt),
        ack.ahead_of(una) <= nxt.ahead_of(una),
        none_opposite(queue, ack),
    ensures
        match acknowledged_len(queue, ack) {
            Some(len) => exists|i: int|
                0 <= i < queue.len() && 1 <= len <= (#[trigger] queue[i]).payload.len(),
            None => true,
        },
{
    lemma_first_index_in_range(queue, |p: Segment| p.holds(ack.plus(-1)));
    if let Some(i) = first_holding(queue, ack.plus(-1)) {
        lemma_hit(queue[i], una, nxt, ack);
        assert(1 <= ack.ahead_of(queue[i].seq) <= queue[i].payload.len());
    }
}

/// A packet that is sent from the end of the window on keeps the packets in flight within the
/// window, which grows by its payload, as long as the window does not exceed half a circle. It
/// carries its own bytes, and the others still carry theirs.
pub proof fn law_sending_extends_the_window(
    queue: Seq<Segment>,
    una: SeqNum,
    nxt: SeqNum,
    payload: Seq<u8>,
    s: SeqNum,
    b: u8,
)
    requires
        in_send_window(queue, una, nxt),
        nxt.ahead_of(una) + payload.len() <= half_space(),
    ensures
        in_send_window(
            queue.push(Segment { seq: nxt, payload }),
            una,
            nxt.plus(payload.len() as int),
        ),
        carries(queue.push(Segment { seq: nxt, payload }), s, b) <==> carries(queue, s, b) || (
        Segment { seq: nxt, payload }).byte_at(s) == Some(b),
{
    let sent = Segment { seq: nxt, payload };
    let queue2 = queue.push(sent);
    let end = nxt.plus(payload.len() as int);
    assert(end.ahead_of(una) == nxt.ahead_of(una) + payload.len());
    assert forall|i: int| 0 <= i < queue2.len() implies (#[trigger] queue2[i]).lies_within(
        una,
        end,
    ) by {
        if i < queue.len() {
            assert(queue[i].lies_within(una, nxt));
        }
    }
    assert forall|i: int, j: int| 0 <= i < j < queue2.len() implies (
    #[trigger] queue2[i]).is_apart_from(#[trigger] queue2[j], una) by {
        assert(queue[i].lies_within(una, nxt));
        if j < queue.len() {
            assert(queue[i].is_apart_from(queue[j], una));
        }
    }
    if carries(queue, s, b) {
        let i = choose|i: int| 0 <= i < queue.len() && #[trigger] queue[i].byte_at(s) == Some(b);
        assert(queue2[i].byte_at(s) == Some(b));
    }
    if sent.byte_at(s) == Some(b) {
        assert(queue2[queue.len() as int].byte_at(s) == Some(b));
    }
    if carries(queue2, s, b) {
        let i = choose|i: int| 0 <= i < queue2.len() && #[trigger] queue2[i].byte_at(s) == Some(b);
        if i < queue.len() {
            assert(queue[i].byte_at(s) == Some(b));
        }
    }
}

/// A sequence number that is sent without a packet keeps the packets in flight within the
/// window, as long as the window does not exceed half a circle.
pub proof fn law_counting_up_keeps_the_window(queue: Seq<Segment>, una: SeqNum, nxt: SeqNum)
    requires
        in_send_window(queue, una, nxt),
        nxt.ahead_of(una) + 1 <= half_space(),
    ensures
        in_send_window(queue, una, nxt.plus(1)),
{
    assert(nxt.plus(1).ahead_of(una) == nxt.ahead_of(una) + 1);
    assert forall|i: int| 0 <= i < queue.len() implies (#[trigger] queue[i]).lies_within(
        una,
        nxt.plus(1),
    ) by {
        assert(queue[i].lies_within(una, nxt));
    }
}

/// A packet put in flight is found by its sequence number, unless one that started at the same
/// place was there before it.
pub proof fn law_sent_packet_is_found(queue: Seq<Segment>, sent: Segment)
    ensures
        first_starting_at(queue, sent.seq) is None ==> first_starting_at(
            queue.push(sent),
            sent.seq,
        ) == Some(queue.len() as int),
        first_starting_at(queue, sent.seq) is Some ==> first_starting_at(queue.push(sent), sent.seq)
            == first_starting_at(queue, sent.seq),
{
    let pred = |p: Segment| p.seq == sent.seq;
    let queue2 = queue.push(sent);
    lemma_first_index_in_range(queue, pred);
    match first_starting_at(queue, sent.seq) {
        Some(i) => {
            assert forall|j: int| 0 <= j < i implies !pred(#[trigger] queue2[j]) by {
                assert(!pred(queue[j]));
            }
            lemma_first_index_found(queue2, pred, i);
        },
        None => {
            assert forall|j: int| 0 <= j < queue.len() implies !pred(#[trigger] queue2[j]) by {
                assert(!pred(queue[j]));
            }
            lemma_first_index_found(queue2, pred, queue.len() as int);
        },
    }
}

/// A segment carries, at every step from its start on that is within its payload, the byte of the
/// payload at that step, and nothing elsewhere.
pub proof fn law_bytes_in_plain_numbers(p: Segment, s: SeqNum, d: int)
    requires
        0 <= d < 0x1_0000_0000,
        (p.seq.0 + d - s.0) % 0x1_0000_0000 == 0,
    ensures
        d < p.payload.len() ==> p.byte_at(s) == Some(p.payload[d]),
        d >= p.payload.len() ==> p.byte_at(s) is None,
{
}

/// A queue lies in a send window just where the window spans no more than half a circle, every
/// segment ends within it, and no two segments with a payload overlap, all counted from the start
/// of the window.
pub proof fn law_send_window_in_plain_numbers(queue: Seq<Segment>, una: SeqNum, nxt: SeqNum)
    ensures
        in_send_window(queue, una, nxt) <==> {
            &&& nxt.ahead_of(una) <= 0x8000_0000
            &&& forall|i: int|
                0 <= i < queue.len() ==> (#[trigger] queue[i]).seq.ahead_of(una)
                    + queue[i].payload.len() <= nxt.ahead_of(una)
            &&& forall|i: int, j: int|
                0 <= i < j < queue.len() && (#[trigger] queue[i]).payload.len() > 0 && (
                #[trigger] queue[j]).payload.len() > 0 ==> {
                    ||| queue[i].seq.ahead_of(una) + queue[i].payload.len() <= queue[j].seq.ahead_of(
                        una,
                    )
                    ||| queue[j].seq.ahead_of(una) + queue[j].payload.len() <= queue[i].seq.ahead_of(
                        una,
                    )
                }
        },
{
    if in_send_window(queue, una, nxt) {
        assert forall|i: int| 0 <= i < queue.len() implies (#[trigger] queue[i]).seq.ahead_of(una)
            + queue[i].payload.len() <= nxt.ahead_of(una) by {
            assert(queue[i].lies_within(una, nxt));
        }
        assert forall|i: int, j: int|
            0 <= i < j < queue.len() && (#[trigger] queue[i]).payload.len() > 0 && (
            #[trigger] queue[j]).payload.len() > 0 implies {
            ||| queue[i].seq.ahead_of(una) + queue[i].payload.len() <= queue[j].seq.ahead_of(una)
            ||| queue[j].seq.ahead_of(una) + queue[j].payload.len() <= queue[i].seq.ahead_of(una)
        } by {
            assert(queue[i].is_apart_from(queue[j], una));
        }
    }
}

/// Only empty segments can lie opposite to an acknowledgement, and only half a circle ahead of it
/// or one step less.
pub proof fn law_opposite_in_plain_numbers(queue: Seq<Segment>, ack: SeqNum)
    ensures
        none_opposite(queue, ack) <==> forall|i: int|
            0 <= i < queue.len() && (#[trigger] queue[i]).payload.len() == 0
                ==> queue[i].seq.ahead_of(ack) < 0x7fff_ffff || 0x8000_0000 < queue[i].seq.ahead_of(
                ack,
            ),
{
    if none_opposite(queue, ack) {
        assert forall|i: int|
            0 <= i < queue.len() && (#[trigger] queue[i]).payload.len()
                == 0 implies queue[i].seq.ahead_of(ack) < 0x7fff_ffff || 0x8000_0000
            < queue[i].seq.ahead_of(ack) by {
            assert(not_opposite(queue[i], ack));
        }
    }
}

/// Where an acknowledgement within the window lies after the start of a segment and not after its
/// end, the number of acknowledged bytes is the number of bytes of that very segment that lie
/// before it. Where it lies so in no segment, there is no such number.
pub proof fn law_acknowledged_len_counts_the_bytes_of_its_segment(
    queue: Seq<Segment>,
    una: SeqNum,
    nxt: SeqNum,
    ack: SeqNum,
)
    requires
        in_send_window(queue, una, nxt),
        ack.ahead_of(una) <= nxt.ahead_of(una),
        none_opposite(queue, ack),
    ensures
        forall|i: int|
            0 <= i < queue.len() && (#[trigger] queue[i]).seq.ahead_of(una) < ack.ahead_of(una)
                <= queue[i].seq.ahead_of(una) + queue[i].payload.len() ==> acknowledged_len(
                queue,
                ack,
            ) == Some(ack.ahead_of(una) - queue[i].seq.ahead_of(una)),
        (forall|i: int|
            0 <= i < queue.len() ==> !((#[trigger] queue[i]).seq.ahead_of(una) < ack.ahead_of(una)
                <= queue[i].seq.ahead_of(una) + queue[i].payload.len())) ==> acknowledged_len(
            queue,
            ack,
        ) is None,
{
    let pred = |p: Segment| p.holds(ack.plus(-1));
    lemma_first_index_in_range(queue, pred);
    let found = first_holding(queue, ack.plus(-1));
    if let Some(k) = found {
        assert(pred(queue[k]) && queue[k].lies_within(una, nxt) && not_opposite(queue[k], ack));
        lemma_hit(queue[k], una, nxt, ack);
    }
    assert forall|i: int|
        0 <= i < queue.len() && (#[trigger] queue[i]).seq.ahead_of(una) < ack.ahead_of(una)
            <= queue[i].seq.ahead_of(una) + queue[i].payload.len() implies acknowledged_len(
        queue,
        ack,
    ) == Some(ack.ahead_of(una) - queue[i].seq.ahead_of(una)) by {
        assert(queue[i].lies_within(una, nxt));
        lemma_holds_last_acknowledged(queue[i], una, nxt, ack);
        assert(pred(queue[i]));
        match found {
            Some(k) => {
                if k < i {
                    assert(queue[k].is_apart_from(queue[i], una));
                } else if i < k {
                    assert(queue[i].is_apart_from(queue[k], una));
                }
            },
            None => {},
        }
    }
}

/// Whether the byte before `ack` lies in the segment: no more than half a circle ahead of its
/// start, and at least one step and no more than half a circle before its end.
pub open spec fn reached_by(p: Segment, ack: SeqNum) -> bool {
    &&& (ack.0 - 1 - p.seq.0) % 0x1_0000_0000 <= 0x8000_0000
    &&& 1 <= (p.seq.0 + p.payload.len() - ack.0 + 1) % 0x1_0000_0000 <= 0x8000_0000
}

/// Whether the end of the segment is at least one step and no more than half a circle ahead of
/// `ack`.
pub open spec fn ends_beyond(p: Segment, ack: SeqNum) -> bool {
    1 <= (p.seq.0 + p.payload.len() - ack.0) % 0x1_0000_0000 <= 0x8000_0000
}

/// The positions, in order, of the segments that a filter keeps.
proof fn lemma_filter_positions(queue: Seq<Segment>, pred: spec_fn(Segment) -> bool) -> (kept: Seq<
    int,
>)
    ensures
        kept.len() == queue.filter(pred).len(),
        forall|k: int|
            0 <= k < kept.len() ==> 0 <= #[trigger] kept[k] < queue.len() && pred(queue[kept[k]])
                && queue.filter(pred)[k] == queue[kept[k]],
        forall|k: int, l: int| 0 <= k < l < kept.len() ==> kept[k] < kept[l],
        forall|i: int| 0 <= i < queue.len() && pred(#[trigger] queue[i]) ==> kept.contains(i),
    decreases queue.len(),
{
    reveal(Seq::filter);
    if queue.len() == 0 {
        Seq::empty()
    } else {
        let init = queue.drop_last();
        let last = queue.len() - 1;
        let before = lemma_filter_positions(init, pred);
        let kept = if pred(queue[last]) {
            before.push(last)
        } else {
            before
        };
        assert forall|k: int| 0 <= k < kept.len() implies 0 <= #[trigger] kept[k] < queue.len()
            && pred(queue[kept[k]]) && queue.filter(pred)[k] == queue[kept[k]] by {
            if k < before.len() {
                assert(init[before[k]] == queue[before[k]]);
            }
        }
        assert forall|i: int| 0 <= i < queue.len() && pred(#[trigger] queue[i]) implies kept.contains(
            i,
        ) by {
            if i < last {
                assert(init[i] == queue[i]);
                assert(before.contains(i));
                let k = choose|k: int| 0 <= k < before.len() && before[k] == i;
                assert(kept[k] == i);
            } else {
                assert(kept[before.len() as int] == i);
            }
        }
        kept
    }
}

/// An acknowledgement that reaches into no segment leaves, in their order and untouched, exactly
/// the segments that end beyond it, and tells the congestion control nothing.
pub proof fn law_untouched_segments_keep_their_order(queue: Seq<Segment>, ack: SeqNum) -> (kept:
    Seq<int>)
    requires
        forall|i: int| 0 <= i < queue.len() ==> !reached_by(#[trigger] queue[i], ack),
    ensures
        acknowledged_len(queue, ack) is None,
        acknowledge(queue, ack).len() == kept.len(),
        forall|k: int|
            0 <= k < kept.len() ==> 0 <= #[trigger] kept[k] < queue.len() && acknowledge(
                queue,
                ack,
            )[k] == queue[kept[k]],
        forall|k: int, l: int| 0 <= k < l < kept.len() ==> kept[k] < kept[l],
        forall|i: int|
            0 <= i < queue.len() ==> (kept.contains(i) <==> ends_beyond(#[trigger] queue[i], ack)),
{
    let holding = |p: Segment| p.holds(ack.plus(-1));
    let pred = |p: Segment| ack.is_before(p.end());
    lemma_first_index_in_range(queue, holding);
    if let Some(h) = first_holding(queue, ack.plus(-1)) {
        assert(holding(queue[h]));
        lemma_reached(queue[h], ack);
    }
    let kept = lemma_filter_positions(queue, pred);
    assert forall|i: int| 0 <= i < queue.len() implies (kept.contains(i) <==> ends_beyond(
        #[trigger] queue[i],
        ack,
    )) by {
        lemma_reached(queue[i], ack);
        assert(pred(queue[i]) <==> ends_beyond(queue[i], ack));
    }
    kept
}

/// What an acknowledgement does to a segment, in the terms of the order of sequence numbers.
proof fn lemma_reached(p: Segment, ack: SeqNum)
    ensures
        reached_by(p, ack) <==> p.holds(ack.plus(-1)),
        ends_beyond(p, ack) <==> ack.is_before(p.end()),
        ack.ahead_of(p.seq) == (ack.0 - p.seq.0) % 0x1_0000_0000,
        ack.ahead_of(p.seq) <= p.payload.len() ==> p.rest_from(ack).end() == p.end(),
{
}

/// The positions, in order, of the segments other than the one at `without` that a filter keeps.
proof fn lemma_filter_positions_without(
    queue: Seq<Segment>,
    without: int,
    pred: spec_fn(Segment) -> bool,
) -> (kept: Seq<int>)
    requires
        0 <= without < queue.len(),
    ensures
        kept.len() == queue.remove(without).filter(pred).len(),
        forall|k: int|
            0 <= k < kept.len() ==> 0 <= #[trigger] kept[k] < queue.len() && queue.remove(
                without,
            ).filter(pred)[k] == queue[kept[k]],
        forall|k: int, l: int| 0 <= k < l < kept.len() ==> kept[k] < kept[l],
        forall|i: int|
            0 <= i < queue.len() ==> (kept.contains(i) <==> i != without && pred(
                #[trigger] queue[i],
            )),
{
    let others = queue.remove(without);
    let among = lemma_filter_positions(others, pred);
    let kept = Seq::new(
        among.len(),
        |k: int| if among[k] < without { among[k] } else { among[k] + 1 },
    );
    assert forall|k: int| 0 <= k < kept.len() implies 0 <= #[trigger] kept[k] < queue.len()
        && others.filter(pred)[k] == queue[kept[k]] && kept[k] != without && pred(
        queue[kept[k]],
    ) by {
        assert(0 <= among[k] < others.len());
    }
    assert forall|i: int| 0 <= i < queue.len() implies (kept.contains(i) <==> i != without && pred(
        #[trigger] queue[i],
    )) by {
        if i != without && pred(queue[i]) {
            let m = if i < without { i } else { i - 1 };
            assert(others[m] == queue[i]);
            assert(among.contains(m));
            let k = choose|k: int| 0 <= k < among.len() && among[k] == m;
            assert(kept[k] == i);
        }
    }
    kept
}

proof fn lemma_filter_push(queue: Seq<Segment>, p: Segment, pred: spec_fn(Segment) -> bool)
    ensures
        pred(p) ==> queue.push(p).filter(pred) == queue.filter(pred).push(p),
        !pred(p) ==> queue.push(p).filter(pred) == queue.filter(pred),
{
    reveal(Seq::filter);
    assert(queue.push(p).drop_last() =~= queue);
}

/// An acknowledgement takes the first segment that it reaches into out of the queue and tells the
/// congestion control how many steps from its start it reached. Of the other segments those that
/// end beyond it stay, in their order and untouched. Where that segment has bytes from the
/// acknowledgement on and ends beyond it, exactly these bytes come back as the last segment.
pub proof fn law_reached_segment_is_cut_and_moves_to_the_end(
    queue: Seq<Segment>,
    ack: SeqNum,
    hit: int,
) -> (kept: Seq<int>)
    requires
        0 <= hit < queue.len(),
        reached_by(queue[hit], ack),
        forall|j: int| 0 <= j < hit ==> !reached_by(#[trigger] queue[j], ack),
    ensures
        ({
            let out = acknowledge(queue, ack);
            let steps = (ack.0 - queue[hit].seq.0) % 0x1_0000_0000;
            let comes_back = steps < queue[hit].payload.len() && ends_beyond(queue[hit], ack);
            &&& acknowledged_len(queue, ack) == Some(steps)
            &&& out.len() == kept.len() + if comes_back { 1int } else { 0 }
            &&& comes_back ==> {
                &&& out.last().seq == ack
                &&& out.last().payload.len() == queue[hit].payload.len() - steps
                &&& forall|k: int|
                    0 <= k < out.last().payload.len() ==> #[trigger] out.last().payload[k]
                        == queue[hit].payload[steps + k]
            }
            &&& forall|k: int|
                0 <= k < kept.len() ==> 0 <= #[trigger] kept[k] < queue.len() && out[k]
                    == queue[kept[k]]
            &&& forall|k: int, l: int| 0 <= k < l < kept.len() ==> kept[k] < kept[l]
            &&& forall|i: int|
                0 <= i < queue.len() ==> (kept.contains(i) <==> i != hit && ends_beyond(
                    #[trigger] queue[i],
                    ack,
                ))
        }),
{
    let holding = |p: Segment| p.holds(ack.plus(-1));
    let pred = |p: Segment| ack.is_before(p.end());
    let p = queue[hit];
    lemma_reached(p, ack);
    assert forall|j: int| 0 <= j < hit implies !holding(#[trigger] queue[j]) by {
        assert(!reached_by(queue[j], ack));
        lemma_reached(queue[j], ack);
    }
    lemma_first_index_found(queue, holding, hit);
    let others = queue.remove(hit);
    let kept = lemma_filter_positions_without(queue, hit, pred);
    assert forall|i: int| 0 <= i < queue.len() implies (kept.contains(i) <==> i != hit
        && ends_beyond(#[trigger] queue[i], ack)) by {
        lemma_reached(queue[i], ack);
        assert(pred(queue[i]) <==> ends_beyond(queue[i], ack));
    }
    if ack.ahead_of(p.seq) < p.payload.len() {
        let rest = p.rest_from(ack);
        lemma_filter_push(others, rest, pred);
        assert(pred(rest) <==> ends_beyond(p, ack));
    }
    kept
}

/// Two acknowledgements within the window, the later one not behind the earlier one, leave the
/// same bytes in flight as the later one alone.
pub proof fn law_later_acknowledgement_covers_the_earlier(
    queue: Seq<Segment>,
    una: SeqNum,
    nxt: SeqNum,
    first: SeqNum,
    second: SeqNum,
    s: SeqNum,
    b: u8,
)
    requires
        in_send_window(queue, una, nxt),
        first.ahead_of(una) <= second.ahead_of(una) <= nxt.ahead_of(una),
        none_opposite(queue, first),
        none_opposite(queue, second),
        none_opposite(acknowledge(queue, first), second),
    ensures
        carries(acknowledge(acknowledge(queue, first), second), s, b) <==> carries(
            acknowledge(queue, second),
            s,
            b,
        ),
{
    law_acknowledge_keeps_exactly_the_rest(queue, una, nxt, first, s, b);
    law_acknowledge_keeps_exactly_the_rest(queue, una, nxt, second, s, b);
    law_acknowledge_moves_the_window(queue, una, nxt, first);
    law_acknowledge_keeps_exactly_the_rest(acknowledge(queue, first), first, nxt, second, s, b);
}

} // verus!
