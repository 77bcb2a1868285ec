//! Puts the messages of a queue in order of encoded length.

use crate::layout::all_wf;
use crate::message::{queue_views, single_views, SingleData, SingleView};
use std::collections::VecDeque;
use vstd::prelude::*;

verus! {

/// `s` with `m` put before the first message that is at least as long as
/// `m` when encoded.
pub open spec fn insert_by_len(s: Seq<SingleView>, m: SingleView) -> Seq<SingleView>
    decreases s.len(),
{
    if s.len() == 0 || m.encoded_len() <= s[0].encoded_len() {
        seq![m] + s
    } else {
        seq![s[0]] + insert_by_len(s.drop_first(), m)
    }
}

/// The messages in order of encoded length, shortest first; messages of
/// equal length keep their order.
pub open spec fn sort_by_len(ms: Seq<SingleView>) -> Seq<SingleView>
    decreases ms.len(),
{
    if ms.len() == 0 {
        ms
    } else {
        insert_by_len(sort_by_len(ms.drop_first()), ms[0])
    }
}

/// No message is longer, when encoded, than one behind it.
pub open spec fn ascending(s: Seq<SingleView>) -> bool {
    forall|i: int, j: int| 0 <= i < j < s.len() ==> s[i].encoded_len() <= s[j].encoded_len()
}

/// Putting a message in leaves every message short enough to be sent
/// whole, if all were.
pub proof fn lemma_insert_all_wf(s: Seq<SingleView>, m: SingleView)
    requires
        all_wf(s),
        m.wf(),
    ensures
        all_wf(insert_by_len(s, m)),
        insert_by_len(s, m).len() == s.len() + 1,
    decreases s.len(),
{
    if s.len() > 0 && m.encoded_len() > s[0].encoded_len() {
        let rest = s.drop_first();
        lemma_insert_all_wf(rest, m);
    }
}

/// Sorting leaves every message short enough to be sent whole, if all
/// were, and keeps their number.
pub proof fn lemma_sort_all_wf(ms: Seq<SingleView>)
    requires
        all_wf(ms),
    ensures
        all_wf(sort_by_len(ms)),
        sort_by_len(ms).len() == ms.len(),
    decreases ms.len(),
{
    if ms.len() > 0 {
        let rest = ms.drop_first();
        lemma_sort_all_wf(rest);
        lemma_insert_all_wf(sort_by_len(rest), ms[0]);
    }
}

/// The index at which `insert_by_len` puts `m`: that of the first message
/// of `s` that is at least as long as `m` when encoded.
pub open spec fn insert_index(s: Seq<SingleView>, m: SingleView) -> int
    decreases s.len(),
{
    if s.len() == 0 || m.encoded_len() <= s[0].encoded_len() {
        0
    } else {
        1 + insert_index(s.drop_first(), m)
    }
}

/// `insert_by_len` puts `m` at `insert_index`, behind the shorter messages
/// and before one that is at least as long.
pub proof fn lemma_insert_index(s: Seq<SingleView>, m: SingleView)
    ensures
        0 <= insert_index(s, m) <= s.len(),
        forall|j: int|
            0 <= j < insert_index(s, m) ==> (#[trigger] s[j]).encoded_len() < m.encoded_len(),
        insert_index(s, m) < s.len() ==> m.encoded_len() <= s[insert_index(s, m)].encoded_len(),
        insert_by_len(s, m) == s.insert(insert_index(s, m), m),
    decreases s.len(),
{
    if s.len() > 0 && m.encoded_len() > s[0].encoded_len() {
        let rest = s.drop_first();
        lemma_insert_index(rest, m);
        let p = insert_index(s, m);
        assert forall|j: int| 0 <= j < p implies (#[trigger] s[j]).encoded_len()
            < m.encoded_len() by {
            if j > 0 {
                assert(s[j] == rest[j - 1]);
            }
        }
    }
}

/// Putting a message into an ascending sequence leaves it ascending and
/// adds the message to what it holds.
pub proof fn lemma_insert_ascending(s: Seq<SingleView>, m: SingleView)
    requires
        ascending(s),
    ensures
        ascending(insert_by_len(s, m)),
        insert_by_len(s, m).to_multiset() == s.to_multiset().insert(m),
{
    lemma_insert_index(s, m);
    let p = insert_index(s, m);
    vstd::seq_lib::to_multiset_insert(s, p, m);
}

/// The sorted messages are in ascending order of encoded length.
pub proof fn lemma_sort_ascending(ms: Seq<SingleView>)
    ensures
        ascending(sort_by_len(ms)),
    decreases ms.len(),
{
    if ms.len() > 0 {
        lemma_sort_ascending(ms.drop_first());
        lemma_insert_ascending(sort_by_len(ms.drop_first()), ms[0]);
    }
}

/// Sorting neither drops nor repeats nor invents a message: the sorted
/// messages are, as a multiset, the messages that were given.
pub proof fn lemma_sort_permutes(ms: Seq<SingleView>)
    ensures
        sort_by_len(ms).to_multiset() == ms.to_multiset(),
    decreases ms.len(),
{
    if ms.len() > 0 {
        let rest = ms.drop_first();
        lemma_sort_permutes(rest);
        lemma_sort_ascending(rest);
        lemma_insert_ascending(sort_by_len(rest), ms[0]);
        assert(ms =~= rest.insert(0, ms[0]));
        vstd::seq_lib::to_multiset_insert(rest, 0, ms[0]);
    }
}

/// The messages whose encoded length is `len`, in their order.
pub open spec fn with_len(ms: Seq<SingleView>, len: nat) -> Seq<SingleView>
    decreases ms.len(),
{
    if ms.len() == 0 {
        ms
    } else {
        (if ms[0].encoded_len() == len {
            seq![ms[0]]
        } else {
            Seq::empty()
        }) + with_len(ms.drop_first(), len)
    }
}

/// A message that is put in stands before the messages of its length.
pub proof fn lemma_insert_keeps_order(s: Seq<SingleView>, m: SingleView, len: nat)
    ensures
        with_len(insert_by_len(s, m), len) == (if m.encoded_len() == len {
            seq![m]
        } else {
            Seq::empty()
        }) + with_len(s, len),
    decreases s.len(),
{
    if s.len() == 0 || m.encoded_len() <= s[0].encoded_len() {
        assert((seq![m] + s).drop_first() =~= s);
    } else {
        let rest = s.drop_first();
        let inserted = insert_by_len(rest, m);
        lemma_insert_keeps_order(rest, m, len);
        assert((seq![s[0]] + inserted).drop_first() =~= inserted);
    }
}

/// **Sorting is stable.** The messages of each encoded length stand in the
/// sorted sequence in the order in which they were given.
pub proof fn lemma_sort_stable(ms: Seq<SingleView>, len: nat)
    ensures
        with_len(sort_by_len(ms), len) == with_len(ms, len),
    decreases ms.len(),
{
    if ms.len() > 0 {
        lemma_sort_stable(ms.drop_first(), len);
        lemma_insert_keeps_order(sort_by_len(ms.drop_first()), ms[0], len);
    }
}

/// A message that is longer than the first `p` messages of `s` and no
/// longer than the next one is put at index `p`.
pub proof fn lemma_insert_at(s: Seq<SingleView>, m: SingleView, p: int)
    requires
        0 <= p <= s.len(),
        forall|j: int| 0 <= j < p ==> (#[trigger] s[j]).encoded_len() < m.encoded_len(),
        p < s.len() ==> m.encoded_len() <= s[p].encoded_len(),
    ensures
        insert_by_len(s, m) == s.insert(p, m),
    decreases p,
{
    if p > 0 {
        let rest = s.drop_first();
        lemma_insert_at(rest, m, p - 1);
    }
}

/// The messages of `queue` in order of encoded length, shortest first;
/// messages of equal length keep their order.
pub fn sorted_by_len<'a>(queue: &'a VecDeque<SingleData>) -> (sorted: Vec<&'a SingleData>)
    requires
        all_wf(queue_views(queue@)),
    ensures
        single_views(sorted@) == sort_by_len(queue_views(queue@)),
{
    let ghost all = queue_views(queue@);
    let mut sorted: Vec<&SingleData> = Vec::new();
    let mut i: usize = queue.len();
    while i > 0
        invariant
            i <= queue@.len(),
            all == queue_views(queue@),
            all_wf(all),
            single_views(sorted@) == sort_by_len(all.subrange(i as int, all.len() as int)),
            sorted@.len() == all.len() - i,
            all_wf(single_views(sorted@)),
        decreases i,
    {
        i = i - 1;
        let m: &SingleData = &queue[i];
        assert(m@ == all[i as int]);
        let key: usize = m.len();
        let ghost before = single_views(sorted@);
        let mut p: usize = 0;
        while p < sorted.len()
            invariant
                p <= sorted@.len(),
                before == single_views(sorted@),
                all_wf(before),
                key == m@.encoded_len(),
                forall|j: int| 0 <= j < p ==> (#[trigger] before[j]).encoded_len() < key,
            ensures
                p <= sorted@.len(),
                forall|j: int| 0 <= j < p ==> (#[trigger] before[j]).encoded_len() < key,
                p < sorted@.len() ==> key <= before[p as int].encoded_len(),
            decreases sorted@.len() - p,
        {
            assert(before[p as int].wf());
            if sorted[p].len() >= key {
                break;
            }
            p = p + 1;
        }
        sorted.insert(p, m);
        proof {
            let tail = all.subrange(i as int, all.len() as int);
            assert(tail.drop_first() =~= all.subrange(i + 1, all.len() as int));
            lemma_insert_at(before, m@, p as int);
            assert(single_views(sorted@) =~= before.insert(p as int, m@));
        }
    }
    assert(all.subrange(0, all.len() as int) =~= all);
    sorted
}

} // verus!
