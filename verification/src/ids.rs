//! Per-category baseline of record ids from the last successful poll, and the
//! diff that compares it against the ids of a freshly polled snapshot.

use vstd::prelude::*;

verus! {

/// The first-occurrence deduplication of a sequence: every id keeps its first
/// position, later repetitions are dropped.
pub open spec fn dedup_of(s: Seq<isize>) -> Seq<isize>
    decreases s.len(),
{
    if s.len() == 0 {
        Seq::empty()
    } else {
        let rest = dedup_of(s.drop_last());
        if rest.contains(s.last()) {
            rest
        } else {
            rest.push(s.last())
        }
    }
}

/// The set of record ids present in one category as of the last successful
/// poll. Kept as a duplicate-free vector so iteration order is fixed.
pub struct IdSet {
    ids: Vec<isize>,
}

impl View for IdSet {
    type V = Seq<isize>;

    closed spec fn view(&self) -> Seq<isize> {
        self.ids@
    }
}

#[verifier::type_invariant]
spec fn id_set_inv(s: &IdSet) -> bool {
    forall|i: int, j: int| 0 <= i < j < s.ids@.len() ==> s.ids@[i] != s.ids@[j]
}

impl IdSet {
    /// An empty baseline.
    pub fn empty() -> (r: IdSet)
        ensures
            r@ == Seq::<isize>::empty(),
    {
        IdSet { ids: Vec::new() }
    }

    /// Whether `id` was present in the last successful poll.
    pub fn contains(&self, id: isize) -> (r: bool)
        ensures
            r == self@.contains(id),
    {
        let mut i: usize = 0;
        while i < self.ids.len()
            invariant
                i <= self.ids.len(),
                forall|k: int| 0 <= k < i ==> self.ids@[k] != id,
            decreases self.ids.len() - i,
        {
            if self.ids[i] == id {
                return true;
            }
            i += 1;
        }
        false
    }

    /// The number of distinct ids in the baseline.
    pub fn len(&self) -> (r: usize)
        ensures
            r == self@.len(),
    {
        self.ids.len()
    }

    /// Drop every id, returning the baseline to its cold-start state.
    pub fn clear(&mut self)
        ensures
            final(self)@ == Seq::<isize>::empty(),
    {
        *self = IdSet { ids: Vec::new() };
    }

    /// The id at position `i` of the baseline's iteration order.
    pub fn get(&self, i: usize) -> (r: isize)
        requires
            i < self@.len(),
        ensures
            r == self@[i as int],
    {
        self.ids[i]
    }

    /// The baseline holding the distinct ids of `ids`, first occurrences in
    /// their input order.
    pub fn from_ids(ids: &Vec<isize>) -> (r: IdSet)
        ensures
            r@ == dedup_of(ids@),
    {
        let mut kept: Vec<isize> = Vec::new();
        let mut i: usize = 0;
        while i < ids.len()
            invariant
                i <= ids@.len(),
                kept@ == dedup_of(ids@.take(i as int)),
            decreases ids@.len() - i,
        {
            proof {
                assert(ids@.take(i + 1).drop_last() =~= ids@.take(i as int));
                assert(ids@.take(i + 1).last() == ids@[i as int]);
            }
            if !ids_contain(&kept, ids[i]) {
                kept.push(ids[i]);
            }
            i += 1;
        }
        proof {
            assert(ids@.take(ids@.len() as int) =~= ids@);
            lemma_dedup_no_duplicates(ids@);
        }
        IdSet { ids: kept }
    }
}

/// Whether the id vector `v` holds `id`.
pub fn ids_contain(v: &Vec<isize>, id: isize) -> (r: bool)
    ensures
        r == v@.contains(id),
{
    let mut i: usize = 0;
    while i < v.len()
        invariant
            i <= v@.len(),
            forall|k: int| 0 <= k < i ==> v@[k] != id,
        decreases v@.len() - i,
    {
        if v[i] == id {
            return true;
        }
        i += 1;
    }
    false
}

/// Deduplication never produces a repeated id.
pub proof fn lemma_dedup_no_duplicates(s: Seq<isize>)
    ensures
        forall|i: int, j: int|
            0 <= i < j < dedup_of(s).len() ==> dedup_of(s)[i] != dedup_of(s)[j],
    decreases s.len(),
{
    if s.len() > 0 {
        lemma_dedup_no_duplicates(s.drop_last());
        let rest = dedup_of(s.drop_last());
        assert forall|i: int, j: int|
            0 <= i < j < dedup_of(s).len() implies dedup_of(s)[i] != dedup_of(s)[j] by {
            if !rest.contains(s.last()) && j == dedup_of(s).len() - 1 {
                assert(dedup_of(s)[i] == rest[i]);
                if rest[i] == s.last() {
                    assert(rest.contains(s.last()));
                }
            } else {
                assert(dedup_of(s)[i] == rest[i]);
                assert(dedup_of(s)[j] == rest[j]);
            }
        }
    }
}

/// Deduplication keeps exactly the ids of its input.
pub proof fn lemma_dedup_same_ids(s: Seq<isize>)
    ensures
        forall|id: isize| dedup_of(s).contains(id) <==> s.contains(id),
    decreases s.len(),
{
    if s.len() > 0 {
        lemma_dedup_same_ids(s.drop_last());
        assert forall|id: isize| s.contains(id) implies dedup_of(s).contains(id) by {
            let rest = dedup_of(s.drop_last());
            let k = choose|k: int| 0 <= k < s.len() && s[k] == id;
            if k < s.len() - 1 {
                assert(s.drop_last()[k] == id);
                assert(s.drop_last().contains(id));
                let k2 = choose|k2: int| 0 <= k2 < rest.len() && rest[k2] == id;
                assert(dedup_of(s)[k2] == id);
            } else {
                if rest.contains(id) {
                    let k2 = choose|k2: int| 0 <= k2 < rest.len() && rest[k2] == id;
                    assert(dedup_of(s)[k2] == id);
                } else {
                    assert(dedup_of(s)[dedup_of(s).len() - 1] == id);
                }
            }
        }
        assert forall|id: isize| dedup_of(s).contains(id) implies s.contains(id) by {
            let rest = dedup_of(s.drop_last());
            if rest.contains(id) {
                assert(s.drop_last().contains(id));
                let k = choose|k: int| 0 <= k < s.drop_last().len() && s.drop_last()[k] == id;
                assert(s[k] == id);
            } else {
                assert(id == s.last());
            }
        }
    }
}

/// The ids of `current` that are not in the `previous` baseline, kept in
/// `current`'s order, repetitions included.
pub open spec fn added_of(prev: Seq<isize>, cur: Seq<isize>) -> Seq<isize>
    decreases cur.len(),
{
    if cur.len() == 0 {
        Seq::empty()
    } else {
        let rest = added_of(prev, cur.drop_last());
        if prev.contains(cur.last()) {
            rest
        } else {
            rest.push(cur.last())
        }
    }
}

/// The ids of the `previous` baseline with no occurrence in `current`, kept
/// in the baseline's iteration order.
pub open spec fn removed_of(prev: Seq<isize>, cur: Seq<isize>) -> Seq<isize>
    decreases prev.len(),
{
    if prev.len() == 0 {
        Seq::empty()
    } else {
        let rest = removed_of(prev.drop_last(), cur);
        if cur.contains(prev.last()) {
            rest
        } else {
            rest.push(prev.last())
        }
    }
}

proof fn lemma_unsnoc_contains(s: Seq<isize>, x: isize)
    requires
        s.len() > 0,
    ensures
        s.contains(x) <==> (s.drop_last().contains(x) || x == s.last()),
{
    broadcast use vstd::seq_lib::lemma_seq_contains_after_push;

    assert(s =~= s.drop_last().push(s.last()));
    assert(s.drop_last().push(s.last()).contains(x) <==> (s.last() == x || s.drop_last().contains(
        x,
    )));
}

/// Diff correctness, membership form: an id is among the added exactly when
/// the poll holds it and the baseline does not.
pub proof fn lemma_added_mem(prev: Seq<isize>, cur: Seq<isize>, id: isize)
    ensures
        added_of(prev, cur).contains(id) <==> (cur.contains(id) && !prev.contains(id)),
    decreases cur.len(),
{
    broadcast use vstd::seq_lib::lemma_seq_contains_after_push;

    if cur.len() == 0 {
        assert(!cur.contains(id));
        assert(!added_of(prev, cur).contains(id));
    } else {
        lemma_added_mem(prev, cur.drop_last(), id);
        lemma_unsnoc_contains(cur, id);
        let rest = added_of(prev, cur.drop_last());
        if !prev.contains(cur.last()) {
            assert(added_of(prev, cur) == rest.push(cur.last()));
        }
    }
}

/// Diff correctness, membership form: an id is among the removed exactly when
/// the baseline holds it and the poll does not.
pub proof fn lemma_removed_mem(prev: Seq<isize>, cur: Seq<isize>, id: isize)
    ensures
        removed_of(prev, cur).contains(id) <==> (prev.contains(id) && !cur.contains(id)),
    decreases prev.len(),
{
    broadcast use vstd::seq_lib::lemma_seq_contains_after_push;

    if prev.len() == 0 {
        assert(!prev.contains(id));
        assert(!removed_of(prev, cur).contains(id));
    } else {
        lemma_removed_mem(prev.drop_last(), cur, id);
        lemma_unsnoc_contains(prev, id);
        let rest = removed_of(prev.drop_last(), cur);
        if !cur.contains(prev.last()) {
            assert(removed_of(prev, cur) == rest.push(prev.last()));
        }
    }
}

/// Diff correctness over sets: the added ids are exactly the poll's ids not
/// in the baseline, and the removed ids exactly the baseline's ids the poll
/// no longer holds.
pub proof fn lemma_diff_sets(prev: Seq<isize>, cur: Seq<isize>)
    ensures
        added_of(prev, cur).to_set() == cur.to_set().difference(prev.to_set()),
        removed_of(prev, cur).to_set() == prev.to_set().difference(cur.to_set()),
{
    assert(added_of(prev, cur).to_set() =~= cur.to_set().difference(prev.to_set())) by {
        assert forall|id: isize|
            added_of(prev, cur).to_set().contains(id) <==> cur.to_set().difference(
                prev.to_set(),
            ).contains(id) by {
            lemma_added_mem(prev, cur, id);
        }
    }
    assert(removed_of(prev, cur).to_set() =~= prev.to_set().difference(cur.to_set())) by {
        assert forall|id: isize|
            removed_of(prev, cur).to_set().contains(id) <==> prev.to_set().difference(
                cur.to_set(),
            ).contains(id) by {
            lemma_removed_mem(prev, cur, id);
        }
    }
}

/// After one poll the new baseline — the poll's distinct ids — equals the old
/// baseline with the added ids put in and the removed ids taken out.
pub proof fn lemma_baseline_update(prev: Seq<isize>, cur: Seq<isize>)
    ensures
        dedup_of(cur).to_set() == prev.to_set().union(added_of(prev, cur).to_set()).difference(
            removed_of(prev, cur).to_set(),
        ),
{
    lemma_dedup_same_ids(cur);
    let rhs = prev.to_set().union(added_of(prev, cur).to_set()).difference(
        removed_of(prev, cur).to_set(),
    );
    assert(dedup_of(cur).to_set() =~= rhs) by {
        assert forall|id: isize| dedup_of(cur).to_set().contains(id) <==> rhs.contains(id) by {
            lemma_added_mem(prev, cur, id);
            lemma_removed_mem(prev, cur, id);
        }
    }
}

/// Idempotence after convergence: once the baseline holds exactly the poll's
/// ids, running the diff against the same poll adds and removes nothing.
pub proof fn lemma_diff_converged(prev: Seq<isize>, cur: Seq<isize>)
    requires
        forall|id: isize| prev.contains(id) <==> cur.contains(id),
    ensures
        added_of(prev, cur) == Seq::<isize>::empty(),
        removed_of(prev, cur) == Seq::<isize>::empty(),
{
    let a = added_of(prev, cur);
    if a.len() > 0 {
        assert(a.contains(a[0]));
        lemma_added_mem(prev, cur, a[0]);
    }
    assert(a =~= Seq::<isize>::empty());
    let r = removed_of(prev, cur);
    if r.len() > 0 {
        assert(r.contains(r[0]));
        lemma_removed_mem(prev, cur, r[0]);
    }
    assert(r =~= Seq::<isize>::empty());
}

/// Join consistency of one publish with the snapshot stored beside it: the
/// new baseline holds exactly the snapshot's ids, every id an addition event
/// announced is present in the snapshot, and every id a removal event
/// announced is absent from it — so a subscriber that reads the snapshot
/// after the critical section observes a state already reflecting every event
/// of that publish.
pub proof fn lemma_join_consistency(prev: Seq<isize>, cur: Seq<isize>)
    ensures
        dedup_of(cur).to_set() == cur.to_set(),
        forall|id: isize| added_of(prev, cur).contains(id) ==> cur.contains(id),
        forall|id: isize| removed_of(prev, cur).contains(id) ==> !cur.contains(id),
{
    lemma_dedup_same_ids(cur);
    assert(dedup_of(cur).to_set() =~= cur.to_set());
    assert forall|id: isize| added_of(prev, cur).contains(id) implies cur.contains(id) by {
        lemma_added_mem(prev, cur, id);
    }
    assert forall|id: isize| removed_of(prev, cur).contains(id) implies !cur.contains(id) by {
        lemma_removed_mem(prev, cur, id);
    }
}

/// Compare a freshly polled category against its baseline: the first result
/// holds the ids new to this poll in input order, the second the ids that
/// vanished, in the baseline's iteration order.
pub fn diff(previous: &IdSet, current: &Vec<isize>) -> (r: (Vec<isize>, Vec<isize>))
    ensures
        r.0@ == added_of(previous@, current@),
        r.1@ == removed_of(previous@, current@),
{
    let mut added: Vec<isize> = Vec::new();
    let mut i: usize = 0;
    while i < current.len()
        invariant
            i <= current@.len(),
            added@ == added_of(previous@, current@.take(i as int)),
        decreases current@.len() - i,
    {
        proof {
            assert(current@.take(i + 1).drop_last() =~= current@.take(i as int));
            assert(current@.take(i + 1).last() == current@[i as int]);
        }
        if !previous.contains(current[i]) {
            added.push(current[i]);
        }
        i += 1;
    }
    proof {
        assert(current@.take(current@.len() as int) =~= current@);
    }

    let mut removed: Vec<isize> = Vec::new();
    let n = previous.len();
    let mut j: usize = 0;
    while j < n
        invariant
            n == previous@.len(),
            j <= n,
            removed@ == removed_of(previous@.take(j as int), current@),
        decreases n - j,
    {
        proof {
            assert(previous@.take(j + 1).drop_last() =~= previous@.take(j as int));
            assert(previous@.take(j + 1).last() == previous@[j as int]);
        }
        if !ids_contain(current, previous.get(j)) {
            removed.push(previous.get(j));
        }
        j += 1;
    }
    proof {
        assert(previous@.take(previous@.len() as int) =~= previous@);
    }
    (added, removed)
}

} // verus!
