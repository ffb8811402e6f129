//! The record and snapshot model, the per-task diff baselines, and the
//! critical section of one poll iteration: diff each category, publish the
//! events, and replace the stored snapshot and baselines together.

use vstd::prelude::*;
use crate::ids::{IdSet, dedup_of};
use crate::events::{LiveEvent, EventView, views_of, events_of, str_views, make_events};
use crate::fanout::{send_event, is_subsequence, lemma_subsequence_reflexive,
    lemma_subsequence_transitive, lemma_keep_open_is_subsequence, published_all,
    publish_history_wf, publishes_fold, lemma_publish_history_snoc, SendOutcome};
use async_std::channel::Sender;
use std::sync::Arc;

verus! {

/// The channel that hosts a broadcast, as the upstream sends it. The core
/// reads none of these fields; they ride along into serialized payloads.
#[derive(Debug, Clone)]
pub struct LiveChannel {
    pub id: isize,
    pub yt_channel_id: Option<String>,
    pub bb_space_id: Option<String>,
    pub name: String,
    pub photo: Option<String>,
    pub published_at: String,
    pub twitter_link: Option<String>,
}

/// One broadcast record of the upstream collection. Only `id` is interpreted
/// by the core: a record is keyed by it across polls. The rest is opaque
/// payload.
#[derive(Debug, Clone)]
pub struct Live {
    pub id: isize,
    pub yt_video_key: Option<String>,
    pub bb_video_id: Option<String>,
    pub title: String,
    pub thumbnail: Option<String>,
    pub live_schedule: Option<String>,
    pub live_start: Option<String>,
    pub live_end: Option<String>,
    pub live_viewers: Option<isize>,
    pub channel: LiveChannel,
}

/// One full snapshot of the collection, partitioned into its three fixed
/// categories. Exactly one snapshot is current at a time; a successful poll
/// replaces it whole.
#[derive(Debug, Clone)]
pub struct JetriLive {
    pub live: Vec<Live>,
    pub upcoming: Vec<Live>,
    pub ended: Vec<Live>,
}

impl Default for JetriLive {
    /// The empty snapshot, current until the first successful poll.
    fn default() -> (r: JetriLive)
        ensures
            r.live@ == Seq::<Live>::empty(),
            r.upcoming@ == Seq::<Live>::empty(),
            r.ended@ == Seq::<Live>::empty(),
    {
        JetriLive { live: Vec::new(), upcoming: Vec::new(), ended: Vec::new() }
    }
}

/// Why one poll iteration aborted. Every kind is recovered one level up: the
/// iteration is abandoned, the state keeps its prior values, and the loop
/// retries after its normal sleep.
#[derive(Debug, Clone, Copy, PartialEq, Eq, Structural)]
pub enum LiveError {
    /// The upstream fetch failed or exceeded its timeout.
    FetchFailed,
    /// The payload did not parse into a snapshot.
    DecodeFailed,
    /// A record could not be turned into its outgoing representation.
    SerializeFailed,
}

/// The ids of a sequence of records, in record order.
pub open spec fn ids_in(records: Seq<Live>) -> Seq<isize> {
    records.map_values(|l: Live| l.id)
}

/// The ids of the given records, in their order.
pub fn ids_of(records: &Vec<Live>) -> (r: Vec<isize>)
    ensures
        r@ == ids_in(records@),
{
    let mut r: Vec<isize> = Vec::new();
    let mut i: usize = 0;
    while i < records.len()
        invariant
            i <= records@.len(),
            r@.len() == i,
            forall|k: int| 0 <= k < i ==> r@[k] == records@[k].id,
        decreases records@.len() - i,
    {
        r.push(records[i].id);
        i += 1;
    }
    proof {
        assert(r@ =~= ids_in(records@));
    }
    r
}

/// The poll task's whole owned state: the current snapshot and, per category,
/// the baseline of ids seen in the last successful poll.
pub struct LiveTaskState {
    pub current: JetriLive,
    pub active: IdSet,
    pub upcoming: IdSet,
    pub ended: IdSet,
}

impl LiveTaskState {
    /// A fresh task state around an initial snapshot, with empty baselines:
    /// the first successful poll reports everything as added.
    pub fn new(current: JetriLive) -> (r: LiveTaskState)
        ensures
            r.current == current,
            r.active@ == Seq::<isize>::empty(),
            r.upcoming@ == Seq::<isize>::empty(),
            r.ended@ == Seq::<isize>::empty(),
    {
        LiveTaskState {
            current,
            active: IdSet::empty(),
            upcoming: IdSet::empty(),
            ended: IdSet::empty(),
        }
    }

    /// Reset every per-category baseline to its cold-start state, as a
    /// fixture-fed run does before each iteration, so the next poll reports
    /// the whole fixture as added; the snapshot is untouched.
    pub fn clear_baselines(&mut self)
        ensures
            final(self).active@ == Seq::<isize>::empty(),
            final(self).upcoming@ == Seq::<isize>::empty(),
            final(self).ended@ == Seq::<isize>::empty(),
            final(self).current == old(self).current,
    {
        self.active.clear();
        self.upcoming.clear();
        self.ended.clear();
    }
}

/// One successfully fetched, decoded and serialized poll: the new snapshot,
/// and for each category the serialized payload of each record, position by
/// position.
pub struct PollData {
    pub data: JetriLive,
    pub live_jsons: Vec<String>,
    pub upcoming_jsons: Vec<String>,
    pub ended_jsons: Vec<String>,
}

impl PollData {
    /// Each category carries one serialized payload per record.
    pub open spec fn wf(&self) -> bool {
        &&& self.live_jsons@.len() == self.data.live@.len()
        &&& self.upcoming_jsons@.len() == self.data.upcoming@.len()
        &&& self.ended_jsons@.len() == self.data.ended@.len()
    }

    /// Runtime check of `wf`, for callers outside verified code.
    pub fn check(&self) -> (r: bool)
        ensures
            r == self.wf(),
    {
        self.live_jsons.len() == self.data.live.len()
            && self.upcoming_jsons.len() == self.data.upcoming.len()
            && self.ended_jsons.len() == self.data.ended.len()
    }
}

/// How one successful poll leaves the task state: the snapshot replaced
/// whole, and each baseline holding exactly the distinct ids of its category.
pub open spec fn poll_post(pre: LiveTaskState, post: LiveTaskState, input: PollData) -> bool {
    &&& post.current == input.data
    &&& post.active@ == dedup_of(ids_in(input.data.live@))
    &&& post.upcoming@ == dedup_of(ids_in(input.data.upcoming@))
    &&& post.ended@ == dedup_of(ids_in(input.data.ended@))
}

/// Every event one successful poll publishes: each category's additions in
/// poll order then removals in baseline order, categories in their fixed
/// order.
pub open spec fn poll_events(pre: LiveTaskState, input: PollData) -> Seq<EventView> {
    events_of(
        pre.active@,
        ids_in(input.data.live@),
        str_views(input.live_jsons@),
        "live_add"@,
        "live_rem"@,
    ) + events_of(
        pre.upcoming@,
        ids_in(input.data.upcoming@),
        str_views(input.upcoming_jsons@),
        "upcoming_add"@,
        "upcoming_rem"@,
    ) + events_of(
        pre.ended@,
        ids_in(input.data.ended@),
        str_views(input.ended_jsons@),
        "ended_add"@,
        "ended_rem"@,
    )
}

/// No lost update, the snapshot side: once a poll's critical section has run,
/// the stored snapshot reflects every event that section published — each
/// added id is present in its category, each removed id absent, and each
/// baseline holds exactly its category's ids. A subscriber that registers
/// after the critical section therefore reads an initial state that already
/// contains every change it missed; one that registered before was attempted
/// on every publish of the section.
pub proof fn lemma_no_lost_update(pre: LiveTaskState, post: LiveTaskState, input: PollData)
    requires
        poll_post(pre, post, input),
    ensures
        forall|id: isize|
            crate::ids::added_of(pre.active@, ids_in(input.data.live@)).contains(id)
                ==> ids_in(post.current.live@).contains(id),
        forall|id: isize|
            crate::ids::removed_of(pre.active@, ids_in(input.data.live@)).contains(id)
                ==> !ids_in(post.current.live@).contains(id),
        post.active@.to_set() == ids_in(post.current.live@).to_set(),
        post.upcoming@.to_set() == ids_in(post.current.upcoming@).to_set(),
        post.ended@.to_set() == ids_in(post.current.ended@).to_set(),
{
    crate::ids::lemma_join_consistency(pre.active@, ids_in(input.data.live@));
    crate::ids::lemma_join_consistency(pre.upcoming@, ids_in(input.data.upcoming@));
    crate::ids::lemma_join_consistency(pre.ended@, ids_in(input.data.ended@));
}

/// The critical section of one successful poll iteration: diff every category
/// against its baseline, publish each resulting event to every subscriber,
/// then replace the snapshot and the baselines — all under the exclusive
/// access the caller holds, so a joining subscriber sees either the old state
/// (and will receive these events through its registered queue) or the new
/// one, never neither.
pub fn apply_update(
    state: &mut LiveTaskState,
    channels: &mut Vec<Sender<Arc<LiveEvent>>>,
    input: PollData,
) -> (events: Vec<LiveEvent>)
    requires
        input.wf(),
    ensures
        poll_post(*old(state), *final(state), input),
        views_of(events@) == poll_events(*old(state), input),
        published_all(old(channels)@, final(channels)@, events@.len()),
        is_subsequence(final(channels)@, old(channels)@),
{
    let live_ids = ids_of(&input.data.live);
    let upcoming_ids = ids_of(&input.data.upcoming);
    let ended_ids = ids_of(&input.data.ended);

    let mut events = make_events(&state.active, &live_ids, &input.live_jsons, "live_add", "live_rem");
    let mut more = make_events(
        &state.upcoming,
        &upcoming_ids,
        &input.upcoming_jsons,
        "upcoming_add",
        "upcoming_rem",
    );
    events.append(&mut more);
    let mut more = make_events(
        &state.ended,
        &ended_ids,
        &input.ended_jsons,
        "ended_add",
        "ended_rem",
    );
    events.append(&mut more);
    proof {
        assert(views_of(events@) =~= poll_events(*old(state), input));
    }

    let mut k: usize = 0;
    let ghost mut history: Seq<Seq<SendOutcome>> = Seq::empty();
    proof {
        lemma_subsequence_reflexive(channels@);
    }
    while k < events.len()
        invariant
            k <= events@.len(),
            is_subsequence(channels@, old(channels)@),
            history.len() == k,
            publish_history_wf(old(channels)@, history),
            channels@ == publishes_fold(old(channels)@, history),
        decreases events@.len() - k,
    {
        let shared = Arc::new(events[k].duplicate());
        let ghost pre = channels@;
        let outcomes = send_event(channels, &shared);
        proof {
            lemma_keep_open_is_subsequence(pre, outcomes@);
            lemma_subsequence_transitive(channels@, pre, old(channels)@);
            lemma_publish_history_snoc(old(channels)@, history, outcomes@);
            history = history.push(outcomes@);
        }
        k += 1;
    }
    proof {
        assert(publish_history_wf(old(channels)@, history));
        assert(published_all(old(channels)@, channels@, events@.len()));
    }

    state.active = IdSet::from_ids(&live_ids);
    state.upcoming = IdSet::from_ids(&upcoming_ids);
    state.ended = IdSet::from_ids(&ended_ids);
    state.current = input.data;
    events
}

/// One whole poll iteration as the supervisor sees it: a successfully
/// prepared poll runs the critical section and reports the published events;
/// a failed fetch, decode or serialization aborts the iteration with its
/// error, leaving the snapshot, the baselines and the subscriber list exactly
/// as they were.
pub fn poll_iteration(
    state: &mut LiveTaskState,
    channels: &mut Vec<Sender<Arc<LiveEvent>>>,
    input: Result<PollData, LiveError>,
) -> (r: Result<Vec<LiveEvent>, LiveError>)
    requires
        input matches Ok(d) ==> d.wf(),
    ensures
        match input {
            Ok(d) => {
                &&& r is Ok
                &&& poll_post(*old(state), *final(state), d)
                &&& views_of(r->Ok_0@) == poll_events(*old(state), d)
                &&& published_all(old(channels)@, final(channels)@, poll_events(*old(state), d).len())
                &&& is_subsequence(final(channels)@, old(channels)@)
            },
            Err(e) => {
                &&& r == Err::<Vec<LiveEvent>, LiveError>(e)
                &&& *final(state) == *old(state)
                &&& final(channels)@ == old(channels)@
            },
        },
{
    match input {
        Ok(d) => Ok(apply_update(state, channels, d)),
        Err(e) => Err(e),
    }
}

} // verus!
