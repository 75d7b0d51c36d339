//! Properties that span several calls of the scheduler.
use vstd::arithmetic::power2::lemma2_to64;
use vstd::multiset::Multiset;
use vstd::prelude::*;
use vstd::seq_lib::lemma_multiset_commutative;

use crate::priority_queue::{is_max, lemma_top_exists, lemma_top_unique, top};
use crate::types::{
    backoff, lemma_order_facts, Attempt, Priority, QueueError, TaskQueue, MAX_TASK_RETRY,
};

verus! {

broadcast use vstd::seq_lib::group_to_multiset_ensures;

/// `pops` is what popping `m` until it is empty gives: each key is the
/// greatest of what is left.
pub open spec fn is_drain(m: Multiset<Priority>, pops: Seq<Priority>) -> bool
    decreases pops.len(),
{
    if pops.len() == 0 {
        m.len() == 0
    } else {
        &&& m.len() > 0
        &&& pops[0] == top(m)
        &&& is_drain(m.remove(pops[0]), pops.drop_first())
    }
}

/// The keys of class `rank` among `keys`, the most recently inserted first.
pub open spec fn newest_first(keys: Seq<Priority>, rank: int) -> Seq<Priority>
    decreases keys.len(),
{
    if keys.len() == 0 {
        Seq::empty()
    } else {
        let rest = newest_first(keys.drop_last(), rank);
        if keys.last().rank() == rank {
            seq![keys.last()] + rest
        } else {
            rest
        }
    }
}

/// Each key orders strictly below the ones before it.
pub open spec fn descending(t: Seq<Priority>) -> bool {
    forall|i: int, j: int| 0 <= i < j < t.len() ==> #[trigger] t[j].lower_than(#[trigger] t[i])
}

/// Draining the multiset of a strictly descending sequence gives that
/// sequence back.
proof fn lemma_drain_descending(t: Seq<Priority>, pops: Seq<Priority>)
    requires
        descending(t),
        is_drain(t.to_multiset(), pops),
    ensures
        pops == t,
    decreases t.len(),
{
    lemma_order_facts();
    let m = t.to_multiset();
    if t.len() == 0 {
        if pops.len() > 0 {
            assert(m.len() == 0);
        }
        assert(pops =~= t);
    } else {
        assert(pops.len() > 0);
        assert forall|q: Priority| #[trigger] m.count(q) > 0 implies q.at_most(t[0]) by {
            assert(t.contains(q));
            let k = choose|k: int| 0 <= k < t.len() && t[k] == q;
            if k > 0 {
                assert(t[k].lower_than(t[0]));
            }
        }
        assert(t.contains(t[0]));
        assert(is_max(m, t[0]));
        lemma_top_unique(m, t[0]);
        assert(t.remove(0) =~= t.drop_first());
        let rest = t.drop_first();
        assert(descending(rest)) by {
            assert forall|i: int, j: int| 0 <= i < j < rest.len() implies #[trigger] rest[j].lower_than(
                #[trigger] rest[i],
            ) by {
                assert(t[j + 1].lower_than(t[i + 1]));
            }
        }
        lemma_drain_descending(rest, pops.drop_first());
        assert(pops[0] == t[0]);
        assert(pops.len() == t.len());
        assert forall|i: int| 0 < i < t.len() implies pops[i] == t[i] by {
            assert(pops[i] == pops.drop_first()[i - 1]);
            assert(t[i] == rest[i - 1]);
        }
        assert(pops =~= t);
    }
}

/// The keys of one class, newest first, all have that class, strictly
/// decreasing sequence numbers, and numbers no larger than the count of keys.
proof fn lemma_newest_first_shape(keys: Seq<Priority>, rank: int)
    requires
        forall|i: int| 0 <= i < keys.len() ==> #[trigger] keys[i].seq_no() == i + 1,
    ensures
        forall|i: int|
            0 <= i < newest_first(keys, rank).len() ==> {
                &&& (#[trigger] newest_first(keys, rank)[i]).rank() == rank
                &&& 1 <= newest_first(keys, rank)[i].seq_no() <= keys.len()
            },
        forall|i: int, j: int|
            0 <= i < j < newest_first(keys, rank).len() ==> #[trigger] newest_first(
                keys,
                rank,
            )[j].seq_no() < #[trigger] newest_first(keys, rank)[i].seq_no(),
    decreases keys.len(),
{
    if keys.len() > 0 {
        let pre = keys.drop_last();
        assert forall|i: int| 0 <= i < pre.len() implies #[trigger] pre[i].seq_no() == i + 1 by {
            assert(pre[i] == keys[i]);
        }
        lemma_newest_first_shape(pre, rank);
        let x = keys.last();
        assert(x.seq_no() == keys.len());
        let rest = newest_first(pre, rank);
        let nf = newest_first(keys, rank);
        if x.rank() == rank {
            assert(nf == seq![x] + rest);
            assert forall|i: int| 0 < i < nf.len() implies #[trigger] nf[i] == rest[i - 1] by {}
            assert forall|i: int, j: int| 0 <= i < j < nf.len() implies #[trigger] nf[j].seq_no()
                < #[trigger] nf[i].seq_no() by {
                assert(nf[j] == rest[j - 1]);
                if i > 0 {
                    assert(nf[i] == rest[i - 1]);
                }
            }
        } else {
            assert(nf == rest);
        }
    }
}

/// Together the three classes, newest first, hold exactly the keys.
proof fn lemma_classes_multiset(keys: Seq<Priority>)
    ensures
        (newest_first(keys, 2) + newest_first(keys, 1) + newest_first(keys, 0)).to_multiset()
            == keys.to_multiset(),
    decreases keys.len(),
{
    broadcast use lemma_multiset_commutative;

    if keys.len() == 0 {
        assert(keys.to_multiset() =~= Multiset::empty());
        assert(newest_first(keys, 2) + newest_first(keys, 1) + newest_first(keys, 0) =~= Seq::<
            Priority,
        >::empty());
    } else {
        let pre = keys.drop_last();
        let x = keys.last();
        lemma_classes_multiset(pre);
        assert(keys =~= pre.push(x));
        assert(seq![x].to_multiset() =~= Multiset::empty().insert(x)) by {
            assert(seq![x] =~= Seq::<Priority>::empty().push(x));
            assert(Seq::<Priority>::empty().to_multiset() =~= Multiset::empty());
        }
        let h = newest_first(pre, 2);
        let m = newest_first(pre, 1);
        let l = newest_first(pre, 0);
        assert((h + m + l).to_multiset() =~= h.to_multiset().add(m.to_multiset()).add(
            l.to_multiset(),
        ));
        if x.rank() == 2 {
            assert((seq![x] + h).to_multiset() =~= h.to_multiset().insert(x));
            assert((seq![x] + h + m + l).to_multiset() =~= keys.to_multiset());
        } else if x.rank() == 1 {
            assert((seq![x] + m).to_multiset() =~= m.to_multiset().insert(x));
            assert(h + (seq![x] + m) + l =~= h + seq![x] + m + l);
            assert((h + (seq![x] + m) + l).to_multiset() =~= keys.to_multiset());
        } else {
            assert((seq![x] + l).to_multiset() =~= l.to_multiset().insert(x));
            assert((h + m + (seq![x] + l)).to_multiset() =~= keys.to_multiset());
        }
    }
}

/// Dispatch order: when the ready structure holds the keys of tasks inserted
/// with ids 1, 2, ... (in `keys`, in order of insertion), popping it until it
/// is empty gives every `High` key, newest first, then every `Medium` key,
/// newest first, then every `Low` key, newest first.
pub proof fn lemma_dispatch_order(keys: Seq<Priority>, pops: Seq<Priority>)
    requires
        forall|i: int| 0 <= i < keys.len() ==> #[trigger] keys[i].seq_no() == i + 1,
        is_drain(keys.to_multiset(), pops),
    ensures
        pops == newest_first(keys, 2) + newest_first(keys, 1) + newest_first(keys, 0),
{
    let h = newest_first(keys, 2);
    let m = newest_first(keys, 1);
    let l = newest_first(keys, 0);
    let t = h + m + l;
    lemma_newest_first_shape(keys, 2);
    lemma_newest_first_shape(keys, 1);
    lemma_newest_first_shape(keys, 0);
    assert(descending(t)) by {
        assert forall|i: int, j: int| 0 <= i < j < t.len() implies #[trigger] t[j].lower_than(
            #[trigger] t[i],
        ) by {
            if j < h.len() {
                assert(h[j].seq_no() < h[i].seq_no());
            } else if j < h.len() + m.len() {
                if i >= h.len() {
                    assert(m[j - h.len()].seq_no() < m[i - h.len()].seq_no());
                } else {
                    assert(h[i].rank() == 2);
                    assert(m[j - h.len()].rank() == 1);
                }
            } else {
                let k = j - h.len() - m.len();
                assert(l[k].rank() == 0);
                if i >= h.len() + m.len() {
                    assert(l[k].seq_no() < l[i - h.len() - m.len()].seq_no());
                } else if i >= h.len() {
                    assert(m[i - h.len()].rank() == 1);
                } else {
                    assert(h[i].rank() == 2);
                }
            }
        }
    }
    lemma_classes_multiset(keys);
    lemma_drain_descending(t, pops);
}

/// The ids that the successful results among `results` carry, in order.
pub open spec fn ok_ids(results: Seq<Result<u32, QueueError>>) -> Seq<u32>
    decreases results.len(),
{
    if results.len() == 0 {
        Seq::empty()
    } else {
        let rest = ok_ids(results.drop_last());
        match results.last() {
            Ok(id) => rest.push(id),
            Err(_) => rest,
        }
    }
}

/// Id allocation: along a run of `insert_task` calls on a fresh queue, where
/// `counters[i]` is the id counter before the i-th call and `results[i]` what
/// it returned, the successful calls return 1, 2, 3, ... in order, with no id
/// skipped or given twice, and the counter ends one past the last id given.
pub proof fn lemma_ids_in_order(counters: Seq<u32>, results: Seq<Result<u32, QueueError>>)
    requires
        counters.len() == results.len() + 1,
        counters[0] == 1,
        forall|i: int|
            0 <= i < results.len() ==> match #[trigger] results[i] {
                Ok(id) => id == counters[i] && counters[i + 1] == counters[i] + 1,
                Err(_) => counters[i + 1] == counters[i],
            },
    ensures
        forall|k: int| 0 <= k < ok_ids(results).len() ==> #[trigger] ok_ids(results)[k] == k + 1,
        counters.last() == ok_ids(results).len() + 1,
    decreases results.len(),
{
    if results.len() > 0 {
        let n = results.len() - 1;
        let pre = results.drop_last();
        let cpre = counters.drop_last();
        assert forall|i: int| 0 <= i < pre.len() implies match #[trigger] pre[i] {
            Ok(id) => id == cpre[i] && cpre[i + 1] == cpre[i] + 1,
            Err(_) => cpre[i + 1] == cpre[i],
        } by {
            assert(pre[i] == results[i]);
        }
        lemma_ids_in_order(cpre, pre);
        assert(results[n] == results.last());
    }
}

/// A failed first attempt: when `execute_task` on a well-formed queue `q0`
/// hands out `attempt` (leaving `q1`) and its handler fails, so that
/// `complete_task(attempt, false)` leaves `q2` and returns `r`, then the
/// task's failure counter goes up by exactly one, its delay becomes
/// `2^counter` seconds, and exactly one key, the attempt's, joins the failed
/// structure.
pub proof fn lemma_failed_attempt(
    q0: TaskQueue,
    q1: TaskQueue,
    q2: TaskQueue,
    attempt: Attempt,
    r: Result<(), QueueError>,
)
    requires
        q0.wf(),
        q0.priority_manager@.len() > 0,
        q0.resolve(top(q0.priority_manager@)) == Ok::<Attempt, QueueError>(attempt),
        q1.task_manager@ == q0.task_manager@,
        q1.failed_task_manager@ == q0.failed_task_manager@,
        TaskQueue::completion(q1, q2, attempt, false, r),
        q0.task_manager@[attempt.key.seq_no()].retry_counter < MAX_TASK_RETRY,
    ensures
        ({
            let id = attempt.key.seq_no();
            &&& r == Ok::<(), QueueError>(())
            &&& q2.task_manager@[id].retry_counter == q0.task_manager@[id].retry_counter + 1
            &&& q2.task_manager@[id].delay_secs == backoff(
                q2.task_manager@[id].retry_counter as nat,
            )
            &&& q2.failed_task_manager@ == q0.failed_task_manager@.insert(attempt.key)
            &&& q2.failed_task_manager@.len() == q0.failed_task_manager@.len() + 1
        }),
{
    let m = q0.priority_manager@;
    lemma_top_exists(m);
    let p = top(m);
    assert(q0.keyed(p));
    assert(attempt.key == p);
    lemma2_to64();
}

} // verus!
