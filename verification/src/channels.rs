//! The queues of all channels, as the builder is given them, and the order
//! in which it takes them.

use crate::message::{fragment_views, queue_views, ChannelId, FragmentData, SingleData};
use crate::model::ChannelQueues;
use std::collections::BTreeMap;
use std::collections::VecDeque;
use vstd::prelude::*;
use vstd::std_specs::btree::increasing_seq;
use vstd::std_specs::cmp::OrdSpec;

verus! {

/// The two queues of one channel: the messages that are sent whole, and the
/// fragments.
pub type ChannelData = (VecDeque<SingleData>, VecDeque<FragmentData>);

/// The pending messages of one channel, as plain values.
pub open spec fn queues_of(
    channel: ChannelId,
    singles: Seq<SingleData>,
    fragments: Seq<FragmentData>,
) -> ChannelQueues {
    ChannelQueues {
        channel,
        singles: queue_views(singles),
        fragments: fragment_views(fragments),
    }
}


/// Every message and every fragment of every channel is well formed.
pub open spec fn data_wf(data: Map<ChannelId, ChannelData>) -> bool {
    forall|channel: ChannelId| #[trigger]
        data.contains_key(channel) ==> queues_of(
            channel,
            data[channel].0@,
            data[channel].1@,
        ).wf()
}

/// The queues of the channels with an id below `bound`, in ascending order
/// of the ids.
pub open spec fn channels_below(data: Map<ChannelId, ChannelData>, bound: int) -> Seq<ChannelQueues>
    decreases bound,
{
    if bound <= 0 {
        Seq::empty()
    } else {
        let before = channels_below(data, bound - 1);
        let channel = (bound - 1) as ChannelId;
        if data.contains_key(channel) {
            before.push(queues_of(channel, data[channel].0@, data[channel].1@))
        } else {
            before
        }
    }
}

/// The queues of all channels, in ascending order of the channel ids.
pub open spec fn channels_of(data: Map<ChannelId, ChannelData>) -> Seq<ChannelQueues> {
    channels_below(data, 0x1_0000)
}

/// The queues that the entries stand for.
pub open spec fn entry_queues(entries: Seq<(ChannelId, &ChannelData)>) -> Seq<ChannelQueues> {
    entries.map_values(|e: (ChannelId, &ChannelData)| queues_of(e.0, e.1.0@, e.1.1@))
}

/// Whether `entries` lists the channels of `data` with their queues, in
/// ascending order of the channel ids.
pub open spec fn lists_channels(
    entries: Seq<(ChannelId, &ChannelData)>,
    data: Map<ChannelId, ChannelData>,
) -> bool {
    &&& forall|i: int|
        0 <= i < entries.len() ==> data.contains_key((#[trigger] entries[i]).0)
            && data[entries[i].0] == *entries[i].1
    &&& forall|i: int, j: int|
        0 <= i < j < entries.len() ==> (#[trigger] entries[i]).0 < (#[trigger] entries[j]).0
    &&& forall|k: ChannelId|
        data.contains_key(k) ==> exists|i: int|
            0 <= i < entries.len() && (#[trigger] entries[i]).0 == k
}

/// The first `n` entries of a list of the channels are the channels below
/// `bound`, if exactly those ids are below `bound`.
proof fn lemma_channels_below(
    data: Map<ChannelId, ChannelData>,
    entries: Seq<(ChannelId, &ChannelData)>,
    bound: int,
    n: int,
)
    requires
        lists_channels(entries, data),
        0 <= bound <= 0x1_0000,
        0 <= n <= entries.len(),
        forall|i: int| 0 <= i < n ==> (#[trigger] entries[i]).0 < bound,
        forall|i: int| n <= i < entries.len() ==> (#[trigger] entries[i]).0 >= bound,
    ensures
        channels_below(data, bound) == entry_queues(entries.take(n)),
    decreases bound,
{
    if bound == 0 {
        if n > 0 {
            assert(entries[0].0 < bound);
        }
    } else {
        let channel = (bound - 1) as ChannelId;
        if data.contains_key(channel) {
            let i = choose|i: int| 0 <= i < entries.len() && (#[trigger] entries[i]).0 == channel;
            if i < n - 1 {
                assert(entries[i].0 < entries[n - 1].0);
            }
            lemma_channels_below(data, entries, bound - 1, n - 1);
        } else {
            lemma_channels_below(data, entries, bound - 1, n);
        }
    }
}

/// A list of the channels in ascending order holds the queues that
/// `channels_of` gives.
pub proof fn lemma_lists_channels(
    data: Map<ChannelId, ChannelData>,
    entries: Seq<(ChannelId, &ChannelData)>,
)
    requires
        lists_channels(entries, data),
    ensures
        entry_queues(entries) == channels_of(data),
{
    lemma_channels_below(data, entries, 0x1_0000, entries.len() as int);
}

/// In a sequence of channel ids that a map hands out in its order, each id
/// is smaller than those behind it.
proof fn lemma_increasing_keys(keys: Seq<ChannelId>, i: int, j: int)
    requires
        increasing_seq(keys),
        0 <= i < j < keys.len(),
    ensures
        keys[i] < keys[j],
{
    assert(keys[i].cmp_spec(&keys[j]) is Less);
}

/// The channels of `data` with their queues, in ascending order of the
/// channel ids.
pub fn channel_entries<'a>(data: &'a BTreeMap<ChannelId, ChannelData>) -> (entries: Vec<
    (ChannelId, &'a ChannelData),
>)
    ensures
        lists_channels(entries@, data@),
        entry_queues(entries@) == channels_of(data@),
{
    let mut entries: Vec<(ChannelId, &ChannelData)> = Vec::new();
    for kv in iter: data.iter()
        invariant
            entries@.len() == iter.index(),
            forall|i: int|
                #![trigger entries@[i]]
                #![trigger iter.seq()[i]]
                0 <= i < entries@.len() ==> entries@[i].0 == *iter.seq()[i].0 && *entries@[i].1
                    == *iter.seq()[i].1,
            increasing_seq(iter.seq().map_values(|kv: (&ChannelId, &ChannelData)| *kv.0)),
            forall|i: int|
                0 <= i < iter.seq().len() ==> data@.contains_key(*(#[trigger] iter.seq()[i]).0)
                    && data@[*iter.seq()[i].0] == *iter.seq()[i].1,
            forall|k: ChannelId|
                data@.contains_key(k) ==> exists|i: int|
                    0 <= i < iter.seq().len() && *(#[trigger] iter.seq()[i]).0 == k,
            forall|i: int, j: int|
                0 <= i < j < entries@.len() ==> (#[trigger] entries@[i]).0 < (
                #[trigger] entries@[j]).0,
    {
        proof {
            let keys = iter.seq().map_values(|kv: (&ChannelId, &ChannelData)| *kv.0);
            assert forall|i: int| 0 <= i < iter.index() implies *(#[trigger] iter.seq()[i]).0
                < *kv.0 by {
                lemma_increasing_keys(keys, i, iter.index());
            }
        }
        entries.push((*kv.0, kv.1));
    }
    proof {
        lemma_lists_channels(data@, entries@);
    }
    entries
}

} // verus!
