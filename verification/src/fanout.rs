//! Best-effort fan-out of events to subscriber queues: every registered queue
//! gets a non-blocking enqueue attempt, full queues drop the event for that
//! subscriber alone, and queues whose receiving side closed are evicted after
//! the scan of the current publish.

use vstd::prelude::*;
use crate::events::LiveEvent;
use async_std::channel::Sender;
use std::sync::Arc;

verus! {

#[verifier::external_type_specification]
#[verifier::external_body]
#[verifier::reject_recursive_types(T)]
pub struct ExSender<T>(Sender<T>);

/// What one non-blocking enqueue attempt came to.
#[derive(Clone, Copy, Debug, PartialEq, Eq, Structural)]
pub enum SendOutcome {
    /// The event entered the subscriber's queue.
    Sent,
    /// The queue was full: the event is dropped for this subscriber only.
    Full,
    /// The receiving side is gone: the subscriber is to be evicted.
    Disconnected,
}

/// Relies on async-std's bounded channel `Sender::try_send`: a non-blocking
/// enqueue that either delivers the message, reports the queue full, or
/// reports the receiving side closed.
#[verifier::external_body]
fn try_send_event(chan: &Sender<Arc<LiveEvent>>, event: &Arc<LiveEvent>) -> (r: SendOutcome) {
    match chan.try_send(event.clone()) {
        Ok(()) => SendOutcome::Sent,
        Err(async_std::channel::TrySendError::Full(_)) => SendOutcome::Full,
        Err(async_std::channel::TrySendError::Closed(_)) => SendOutcome::Disconnected,
    }
}

/// The positions, in increasing order, whose enqueue attempt found the
/// subscriber gone.
pub open spec fn disconnected_indices(outs: Seq<SendOutcome>) -> Seq<int>
    decreases outs.len(),
{
    if outs.len() == 0 {
        Seq::empty()
    } else {
        let rest = disconnected_indices(outs.drop_last());
        if outs.last() is Disconnected {
            rest.push(outs.len() - 1)
        } else {
            rest
        }
    }
}

/// The subscriber list after one publish: every queue whose attempt did not
/// find it disconnected, in its original order.
pub open spec fn keep_open<T>(chans: Seq<T>, outs: Seq<SendOutcome>) -> Seq<T>
    decreases chans.len(),
{
    if chans.len() == 0 {
        Seq::empty()
    } else {
        let rest = keep_open(chans.drop_last(), outs.drop_last());
        if outs.len() == chans.len() && outs.last() is Disconnected {
            rest
        } else {
            rest.push(chans.last())
        }
    }
}

/// A sequence with the elements at the given positions taken out, the
/// positions being strictly increasing.
pub open spec fn remove_at<T>(s: Seq<T>, idxs: Seq<int>) -> Seq<T>
    decreases idxs.len(),
{
    if idxs.len() == 0 {
        s
    } else {
        remove_at(s.remove(idxs.last()), idxs.drop_last())
    }
}

pub open spec fn strictly_increasing(idxs: Seq<int>) -> bool {
    forall|k1: int, k2: int| 0 <= k1 < k2 < idxs.len() ==> idxs[k1] < idxs[k2]
}

proof fn lemma_strictly_increasing_gap(idxs: Seq<int>, k1: int, k2: int)
    requires
        strictly_increasing(idxs),
        0 <= k1 <= k2 < idxs.len(),
    ensures
        idxs[k2] - idxs[k1] >= k2 - k1,
    decreases k2 - k1,
{
    if k1 < k2 {
        lemma_strictly_increasing_gap(idxs, k1, k2 - 1);
    }
}

proof fn lemma_disconnected_indices_props(outs: Seq<SendOutcome>)
    ensures
        strictly_increasing(disconnected_indices(outs)),
        forall|k: int|
            0 <= k < disconnected_indices(outs).len() ==> 0 <= #[trigger] disconnected_indices(
                outs,
            )[k] < outs.len(),
    decreases outs.len(),
{
    if outs.len() > 0 {
        lemma_disconnected_indices_props(outs.drop_last());
    }
}

/// Add a subscriber's queue to the live list.
pub fn register(channels: &mut Vec<Sender<Arc<LiveEvent>>>, subscriber: Sender<Arc<LiveEvent>>)
    ensures
        final(channels)@ == old(channels)@.push(subscriber),
{
    channels.push(subscriber);
}

/// One publish scan: attempt a non-blocking enqueue of `event` to every
/// subscriber in the list, and report each attempt's outcome, position by
/// position.
pub fn scan_send(channels: &Vec<Sender<Arc<LiveEvent>>>, event: &Arc<LiveEvent>) -> (outcomes:
    Vec<SendOutcome>)
    ensures
        outcomes@.len() == channels@.len(),
{
    let mut outcomes: Vec<SendOutcome> = Vec::new();
    let mut i: usize = 0;
    while i < channels.len()
        invariant
            i <= channels@.len(),
            outcomes@.len() == i,
        decreases channels@.len() - i,
    {
        let r = try_send_event(&channels[i], event);
        outcomes.push(r);
        i += 1;
    }
    outcomes
}

/// The positions of the disconnected outcomes of one scan, in increasing
/// order.
pub fn disconnected_of(outcomes: &Vec<SendOutcome>) -> (idx: Vec<usize>)
    ensures
        idx@.map_values(|u: usize| u as int) == disconnected_indices(outcomes@),
{
    let mut idx: Vec<usize> = Vec::new();
    let mut i: usize = 0;
    while i < outcomes.len()
        invariant
            i <= outcomes@.len(),
            idx@.map_values(|u: usize| u as int) == disconnected_indices(outcomes@.take(i as int)),
        decreases outcomes@.len() - i,
    {
        proof {
            assert(outcomes@.take(i + 1).drop_last() =~= outcomes@.take(i as int));
            assert(outcomes@.take(i + 1).last() == outcomes@[i as int]);
        }
        if outcomes[i] == SendOutcome::Disconnected {
            let ghost before = idx@;
            idx.push(i);
            proof {
                assert(idx@.map_values(|u: usize| u as int) =~= before.map_values(
                    |u: usize| u as int,
                ).push(i as int));
            }
        }
        i += 1;
    }
    proof {
        assert(outcomes@.take(outcomes@.len() as int) =~= outcomes@);
    }
    idx
}

/// Take the subscribers at the given positions out of the list, the
/// positions being strictly increasing and in range. Removal runs from the
/// last position down so that earlier positions stay valid.
pub fn evict(channels: &mut Vec<Sender<Arc<LiveEvent>>>, idx: &Vec<usize>)
    requires
        strictly_increasing(idx@.map_values(|u: usize| u as int)),
        forall|k: int| 0 <= k < idx@.len() ==> (#[trigger] idx@[k]) < old(channels)@.len(),
    ensures
        final(channels)@ == remove_at(old(channels)@, idx@.map_values(|u: usize| u as int)),
{
    let ghost iidx = idx@.map_values(|u: usize| u as int);
    let ghost orig = channels@;
    proof {
        assert(iidx.take(idx@.len() as int) =~= iidx);
    }
    let mut j: usize = idx.len();
    while j > 0
        invariant
            iidx == idx@.map_values(|u: usize| u as int),
            strictly_increasing(iidx),
            j <= idx@.len(),
            channels@.len() == orig.len() - (idx@.len() - j),
            forall|k: int| 0 <= k < j ==> 0 <= #[trigger] iidx[k] < channels@.len(),
            remove_at(orig, iidx) == remove_at(channels@, iidx.take(j as int)),
        decreases j,
    {
        j -= 1;
        let ghost pre = channels@;
        let _ = channels.remove(idx[j]);
        proof {
            assert(iidx.take(j as int + 1).drop_last() =~= iidx.take(j as int));
            assert(iidx.take(j as int + 1).last() == iidx[j as int]);
            assert(channels@ =~= pre.remove(iidx[j as int]));
            assert forall|k: int| 0 <= k < j implies 0 <= #[trigger] iidx[k] < channels@.len() by {
                lemma_strictly_increasing_gap(iidx, k, j as int);
            }
        }
    }
    proof {
        assert(iidx.take(0) =~= Seq::<int>::empty());
    }
}

proof fn lemma_remove_at_keeps_last<T>(s: Seq<T>, idxs: Seq<int>)
    requires
        strictly_increasing(idxs),
        forall|k: int| 0 <= k < idxs.len() ==> 0 <= #[trigger] idxs[k] < s.len() - 1,
        s.len() >= 1,
    ensures
        remove_at(s, idxs) == remove_at(s.drop_last(), idxs).push(s.last()),
    decreases idxs.len(),
{
    if idxs.len() == 0 {
        assert(s =~= s.drop_last().push(s.last()));
    } else {
        let l = idxs.last();
        assert(s.remove(l) =~= s.drop_last().remove(l).push(s.last()));
        assert forall|k: int|
            0 <= k < idxs.drop_last().len() implies 0 <= #[trigger] idxs.drop_last()[k] < s.remove(
            l,
        ).len() - 1 by {
            assert(idxs.drop_last()[k] == idxs[k]);
            assert(idxs[k] < l);
        }
        lemma_remove_at_keeps_last(s.remove(l), idxs.drop_last());
        assert(s.remove(l).drop_last() =~= s.drop_last().remove(l));
        assert(s.remove(l).last() == s.last());
    }
}

/// Evicting the disconnected positions of one scan leaves exactly the open
/// subscribers, in order.
proof fn lemma_remove_at_keep_open<T>(chans: Seq<T>, outs: Seq<SendOutcome>)
    requires
        chans.len() == outs.len(),
    ensures
        remove_at(chans, disconnected_indices(outs)) == keep_open(chans, outs),
    decreases outs.len(),
{
    if outs.len() == 0 {
        assert(chans =~= keep_open(chans, outs));
    } else {
        lemma_disconnected_indices_props(outs.drop_last());
        lemma_remove_at_keep_open(chans.drop_last(), outs.drop_last());
        if outs.last() is Disconnected {
            let rest = disconnected_indices(outs.drop_last());
            assert(disconnected_indices(outs) == rest.push(outs.len() - 1));
            assert(rest.push(outs.len() - 1).drop_last() =~= rest);
            assert(chans.remove(outs.len() - 1) =~= chans.drop_last());
        } else {
            assert(disconnected_indices(outs) == disconnected_indices(outs.drop_last()));
            lemma_remove_at_keeps_last(chans, disconnected_indices(outs));
        }
    }
}

/// Whether `sub` can be had from `sup` by taking elements out, keeping the
/// order of the rest.
pub open spec fn is_subsequence<T>(sub: Seq<T>, sup: Seq<T>) -> bool
    decreases sup.len(),
{
    if sub.len() == 0 {
        true
    } else if sup.len() == 0 {
        false
    } else {
        (sub.last() == sup.last() && is_subsequence(sub.drop_last(), sup.drop_last()))
            || is_subsequence(sub, sup.drop_last())
    }
}

pub proof fn lemma_subsequence_reflexive<T>(s: Seq<T>)
    ensures
        is_subsequence(s, s),
    decreases s.len(),
{
    if s.len() > 0 {
        lemma_subsequence_reflexive(s.drop_last());
    }
}

pub proof fn lemma_subsequence_transitive<T>(a: Seq<T>, b: Seq<T>, c: Seq<T>)
    requires
        is_subsequence(a, b),
        is_subsequence(b, c),
    ensures
        is_subsequence(a, c),
    decreases c.len(),
{
    if a.len() > 0 {
        if b.last() == c.last() && is_subsequence(b.drop_last(), c.drop_last()) {
            if a.last() == b.last() && is_subsequence(a.drop_last(), b.drop_last()) {
                lemma_subsequence_transitive(a.drop_last(), b.drop_last(), c.drop_last());
            } else {
                lemma_subsequence_transitive(a, b.drop_last(), c.drop_last());
            }
        } else {
            lemma_subsequence_transitive(a, b, c.drop_last());
        }
    }
}

/// A publish only ever takes subscribers out of the list; the survivors keep
/// their order.
pub proof fn lemma_keep_open_is_subsequence<T>(chans: Seq<T>, outs: Seq<SendOutcome>)
    requires
        chans.len() == outs.len(),
    ensures
        is_subsequence(keep_open(chans, outs), chans),
    decreases chans.len(),
{
    if chans.len() > 0 {
        lemma_keep_open_is_subsequence(chans.drop_last(), outs.drop_last());
        let rest = keep_open(chans.drop_last(), outs.drop_last());
        if outs.last() is Disconnected {
            assert(keep_open(chans, outs) == rest);
        } else {
            assert(rest.push(chans.last()).drop_last() =~= rest);
            assert(rest.push(chans.last()).last() == chans.last());
        }
    }
}

/// Slow-consumer isolation: a subscriber whose enqueue attempt merely found
/// the queue full — or succeeded — stays in the list after the publish; only
/// its own event is dropped, delivery to every other subscriber having been
/// attempted independently.
pub proof fn lemma_full_queue_isolated<T>(chans: Seq<T>, outs: Seq<SendOutcome>, i: int)
    requires
        chans.len() == outs.len(),
        0 <= i < chans.len(),
        !(outs[i] is Disconnected),
    ensures
        keep_open(chans, outs).contains(chans[i]),
    decreases chans.len(),
{
    let k = keep_open(chans, outs);
    if i == chans.len() - 1 {
        assert(k[k.len() - 1] == chans[i]);
        assert(k.contains(chans[i]));
    } else {
        lemma_full_queue_isolated(chans.drop_last(), outs.drop_last(), i);
        let rest = keep_open(chans.drop_last(), outs.drop_last());
        let k2 = choose|k2: int| 0 <= k2 < rest.len() && rest[k2] == chans.drop_last()[i];
        assert(k[k2] == chans[i]);
        assert(k.contains(chans[i]));
    }
}

/// Lazy eviction: one publish removes exactly the subscribers whose attempt
/// found them disconnected — the list shrinks by their number, and everything
/// that remains stems from a position whose attempt did not find it gone.
pub proof fn lemma_lazy_eviction<T>(chans: Seq<T>, outs: Seq<SendOutcome>)
    requires
        chans.len() == outs.len(),
    ensures
        keep_open(chans, outs).len() == chans.len() - disconnected_indices(outs).len(),
        forall|j: int|
            0 <= j < keep_open(chans, outs).len() ==> exists|i: int|
                0 <= i < chans.len() && chans[i] == #[trigger] keep_open(chans, outs)[j] && !(
                outs[i] is Disconnected),
    decreases chans.len(),
{
    if chans.len() > 0 {
        lemma_lazy_eviction(chans.drop_last(), outs.drop_last());
        let k = keep_open(chans, outs);
        let rest = keep_open(chans.drop_last(), outs.drop_last());
        assert forall|j: int| 0 <= j < k.len() implies exists|i: int|
            0 <= i < chans.len() && chans[i] == #[trigger] k[j] && !(
            outs[i] is Disconnected) by {
            if j < rest.len() {
                let i0 = choose|i0: int|
                    0 <= i0 < chans.drop_last().len() && chans.drop_last()[i0] == rest[j] && !(
                    outs.drop_last()[i0] is Disconnected);
                assert(k[j] == rest[j]);
                assert(chans[i0] == k[j] && !(outs[i0] is Disconnected));
            } else {
                let i0 = chans.len() - 1;
                assert(k[j] == chans.last());
                assert(chans[i0] == k[j] && !(outs[i0] is Disconnected));
            }
        }
    }
}

/// The subscriber list after a sequence of publish scans, one outcome vector
/// per published event: each scan is followed by eviction of the subscribers
/// it found disconnected.
pub open spec fn publishes_fold<T>(start: Seq<T>, outs: Seq<Seq<SendOutcome>>) -> Seq<T>
    decreases outs.len(),
{
    if outs.len() == 0 {
        start
    } else {
        publishes_fold(keep_open(start, outs.first()), outs.drop_first())
    }
}

/// A well-formed publish history: every scan holds one outcome per subscriber
/// of the list as it stood when that scan began.
pub open spec fn publish_history_wf<T>(start: Seq<T>, outs: Seq<Seq<SendOutcome>>) -> bool
    decreases outs.len(),
{
    if outs.len() == 0 {
        true
    } else {
        outs.first().len() == start.len() && publish_history_wf(
            keep_open(start, outs.first()),
            outs.drop_first(),
        )
    }
}

/// The subscriber list went from `before` to `after` through exactly
/// `n_events` publish scans, each attempting every subscriber of the list as
/// it then stood and then evicting the disconnected.
pub open spec fn published_all<T>(before: Seq<T>, after: Seq<T>, n_events: nat) -> bool {
    exists|outs: Seq<Seq<SendOutcome>>|
        outs.len() == n_events && #[trigger] publish_history_wf(before, outs) && after
            == publishes_fold(before, outs)
}

/// Appending one more publish to a history folds one more eviction step.
pub proof fn lemma_publish_history_snoc<T>(
    start: Seq<T>,
    outs: Seq<Seq<SendOutcome>>,
    o: Seq<SendOutcome>,
)
    requires
        publish_history_wf(start, outs),
        o.len() == publishes_fold(start, outs).len(),
    ensures
        publish_history_wf(start, outs.push(o)),
        publishes_fold(start, outs.push(o)) == keep_open(publishes_fold(start, outs), o),
    decreases outs.len(),
{
    if outs.len() == 0 {
        assert(outs.push(o).first() == o);
        assert(outs.push(o).drop_first() =~= Seq::<Seq<SendOutcome>>::empty());
        assert(publishes_fold(start, outs) == start);
        assert(publishes_fold(keep_open(start, o), outs.push(o).drop_first()) == keep_open(
            start,
            o,
        ));
        assert(publish_history_wf(keep_open(start, o), outs.push(o).drop_first()));
    } else {
        let tail = outs.drop_first();
        let mid = keep_open(start, outs.first());
        assert(outs.push(o).first() == outs.first());
        assert(outs.push(o).drop_first() =~= tail.push(o));
        assert(publishes_fold(start, outs) == publishes_fold(mid, tail));
        assert(publish_history_wf(mid, tail));
        lemma_publish_history_snoc(mid, tail, o);
        assert(publishes_fold(start, outs.push(o)) == publishes_fold(mid, tail.push(o)));
        assert(publish_history_wf(start, outs.push(o)) == (outs.first().len() == start.len()
            && publish_history_wf(mid, tail.push(o))));
    }
}

/// Publish one event: attempt delivery to every subscriber registered when
/// the publish began, then evict exactly those found disconnected, keeping
/// the remaining queues in their original order. The outcome vector reports
/// every attempt, position by position against the original list.
pub fn send_event(channels: &mut Vec<Sender<Arc<LiveEvent>>>, event: &Arc<LiveEvent>) -> (outcomes:
    Vec<SendOutcome>)
    ensures
        outcomes@.len() == old(channels)@.len(),
        final(channels)@ == keep_open(old(channels)@, outcomes@),
{
    let outcomes = scan_send(channels, event);
    let idx = disconnected_of(&outcomes);
    proof {
        lemma_disconnected_indices_props(outcomes@);
        assert forall|k: int| 0 <= k < idx@.len() implies (#[trigger] idx@[k]) < channels@.len() by {
            assert(idx@.map_values(|u: usize| u as int)[k] == idx@[k] as int);
        }
    }
    evict(channels, &idx);
    proof {
        lemma_remove_at_keep_open(old(channels)@, outcomes@);
    }
    outcomes
}

} // verus!
