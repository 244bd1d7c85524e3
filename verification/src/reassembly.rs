//! Data that arrived ahead of its turn and waits for the gap before it to close.

use std::collections::BTreeMap;
use vstd::prelude::*;
use vstd::std_specs::btree::increasing_seq;
use vstd::std_specs::iter::IteratorSpec;

verus! {

/// The payload of a packet that arrived ahead of its turn.
#[derive(Debug)]
pub(crate) struct UnorderedPacket {
    pub(crate) payload: Vec<u8>,
}

impl UnorderedPacket {
    pub(crate) fn new(payload: Vec<u8>) -> (packet: Self)
        ensures
            packet.payload == payload,
    {
        Self { payload }
    }
}

/// The payloads that wait, each under the sequence number of its first byte.
pub(crate) open spec fn payloads(packets: Map<u32, UnorderedPacket>) -> Map<u32, Seq<u8>> {
    packets.map_values(|p: UnorderedPacket| p.payload@)
}

/// The number of bytes in all payloads of `waiting`.
pub open spec fn buffered(waiting: Map<u32, Seq<u8>>) -> nat
    decreases waiting.dom().len(),
{
    if waiting.dom().finite() && waiting.dom().len() > 0 {
        let key = waiting.dom().choose();
        waiting[key].len() + buffered(waiting.remove(key))
    } else {
        0
    }
}

/// The number of bytes in the payloads under `keys`.
spec fn buffered_under(waiting: Map<u32, Seq<u8>>, keys: Seq<u32>) -> nat
    decreases keys.len(),
{
    if keys.len() == 0 {
        0
    } else {
        buffered_under(waiting, keys.drop_last()) + waiting[keys.last()].len()
    }
}

/// Taking one payload away lowers the number of buffered bytes by its length.
pub proof fn lemma_buffered_remove(waiting: Map<u32, Seq<u8>>, key: u32)
    requires
        waiting.dom().finite(),
        waiting.contains_key(key),
    ensures
        buffered(waiting) == waiting[key].len() + buffered(waiting.remove(key)),
    decreases waiting.dom().len(),
{
    let first = waiting.dom().choose();
    if first != key {
        lemma_buffered_remove(waiting.remove(first), key);
        lemma_buffered_remove(waiting.remove(key), first);
        assert(waiting.remove(first).remove(key) =~= waiting.remove(key).remove(first));
    }
}

proof fn lemma_buffered_under(waiting: Map<u32, Seq<u8>>, keys: Seq<u32>)
    requires
        waiting.dom().finite(),
        keys.no_duplicates(),
        keys.to_set() == waiting.dom(),
    ensures
        buffered(waiting) == buffered_under(waiting, keys),
    decreases keys.len(),
{
    if keys.len() == 0 {
        assert(waiting.dom() =~= Set::<u32>::empty());
    } else {
        let last = keys.last();
        let rest = waiting.remove(last);
        let others = keys.drop_last();
        assert(keys.contains(last));
        assert(waiting.dom().contains(last)) by {
            assert(keys.to_set().contains(last));
        }
        assert(others.to_set() =~= rest.dom()) by {
            assert forall|k: u32| others.to_set().contains(k) <==> rest.dom().contains(k) by {
                if rest.dom().contains(k) {
                    assert(keys.to_set().contains(k));
                    let i = choose|i: int| 0 <= i < keys.len() && keys[i] == k;
                    assert(others[i] == k);
                }
                if others.contains(k) {
                    let i = choose|i: int| 0 <= i < others.len() && others[i] == k;
                    assert(keys[i] == k);
                    assert(keys.to_set().contains(k));
                }
            }
        }
        lemma_buffered_remove(waiting, last);
        lemma_buffered_under(rest, others);
        lemma_buffered_under_agrees(waiting, rest, others);
    }
}

proof fn lemma_buffered_under_agrees(
    a: Map<u32, Seq<u8>>,
    b: Map<u32, Seq<u8>>,
    keys: Seq<u32>,
)
    requires
        forall|i: int| 0 <= i < keys.len() ==> a[#[trigger] keys[i]] == b[keys[i]],
    ensures
        buffered_under(a, keys) == buffered_under(b, keys),
    decreases keys.len(),
{
    if keys.len() > 0 {
        lemma_buffered_under_agrees(a, b, keys.drop_last());
        assert(a[keys[keys.len() - 1]] == b[keys[keys.len() - 1]]);
    }
}

/// The number of bytes that wait, or the largest `usize` where they are more.
pub(crate) fn buffered_len(packets: &BTreeMap<u32, UnorderedPacket>) -> (len: usize)
    ensures
        buffered(payloads(packets@)) <= usize::MAX ==> len == buffered(payloads(packets@)),
        buffered(payloads(packets@)) > usize::MAX ==> len == usize::MAX,
{
    let mut len: usize = 0;
    let values = packets.values();
    let ghost keys = choose|keys: Seq<u32>|
        {
            &&& increasing_seq(keys)
            &&& keys.to_set() == packets@.dom()
            &&& keys.no_duplicates()
            &&& values.remaining() == keys.map(|i: int, k| &packets@[k])
        };
    assert(keys.to_set() == packets@.dom());
    for packet in it: values
        invariant
            keys.to_set() == packets@.dom(),
            it.seq() == keys.map(|i: int, k| &packets@[k]),
            ({
                let seen = buffered_under(payloads(packets@), keys.take(it.index() as int));
                len == if seen <= usize::MAX { seen } else { usize::MAX as nat }
            }),
    {
        proof {
            let i = it.index() as int;
            assert(keys.take(i + 1).drop_last() =~= keys.take(i));
            assert(packets@.dom().contains(keys[i])) by {
                assert(keys.contains(keys[i]));
                assert(keys.to_set().contains(keys[i]));
            }
            assert(payloads(packets@)[keys[i]] == packet.payload@);
        }
        len = len.saturating_add(packet.payload.len());
    }
    proof {
        assert(keys.take(keys.len() as int) =~= keys);
        assert(payloads(packets@).dom() =~= packets@.dom());
        lemma_buffered_under(payloads(packets@), keys);
    }
    len
}

/// Nothing is buffered where nothing waits. A payload that comes to wait in a free place adds its
/// length; one that replaces another adds its length less the length of the other; and one that
/// is taken away takes its length with it.
pub proof fn law_buffered_bytes_add_up(
    waiting: Map<u32, Seq<u8>>,
    key: u32,
    payload: Seq<u8>,
)
    requires
        waiting.dom().finite(),
    ensures
        buffered(Map::<u32, Seq<u8>>::empty()) == 0,
        !waiting.contains_key(key) ==> buffered(waiting.insert(key, payload)) == buffered(waiting)
            + payload.len(),
        waiting.contains_key(key) ==> buffered(waiting.insert(key, payload)) == buffered(waiting)
            + payload.len() - waiting[key].len(),
        waiting.contains_key(key) ==> buffered(waiting.remove(key)) == buffered(waiting)
            - waiting[key].len(),
{
    let filled = waiting.insert(key, payload);
    lemma_buffered_remove(filled, key);
    if waiting.contains_key(key) {
        lemma_buffered_remove(waiting, key);
        assert(filled.remove(key) =~= waiting.remove(key));
    } else {
        assert(filled.remove(key) =~= waiting);
    }
}

} // verus!
