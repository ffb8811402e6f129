use async_std::channel::{bounded, Receiver, Sender};
use std::sync::Arc;

use holosocket::events::LiveEvent;
use holosocket::fanout::{disconnected_of, register, send_event, SendOutcome};
use holosocket::state::{
    apply_update, ids_of, poll_iteration, JetriLive, Live, LiveChannel, LiveError, LiveTaskState,
    PollData,
};

fn mk_channel(id: isize) -> LiveChannel {
    LiveChannel {
        id,
        yt_channel_id: None,
        bb_space_id: None,
        name: format!("channel-{}", id),
        photo: None,
        published_at: String::from("2020-01-01T00:00:00.000Z"),
        twitter_link: None,
    }
}

fn mk_live(id: isize) -> Live {
    Live {
        id,
        yt_video_key: None,
        bb_video_id: None,
        title: format!("broadcast-{}", id),
        thumbnail: None,
        live_schedule: None,
        live_start: None,
        live_end: None,
        live_viewers: Some(0),
        channel: mk_channel(id),
    }
}

fn mk_event(kind: &str, json: &str) -> Arc<LiveEvent> {
    Arc::new(LiveEvent { event_type: String::from(kind), json: String::from(json) })
}

fn poll_of(live: Vec<Live>) -> PollData {
    let live_jsons = live.iter().map(|l| format!("{{\"id\":{}}}", l.id)).collect();
    PollData {
        data: JetriLive { live, upcoming: Vec::new(), ended: Vec::new() },
        live_jsons,
        upcoming_jsons: Vec::new(),
        ended_jsons: Vec::new(),
    }
}

fn sub(cap: usize) -> (Sender<Arc<LiveEvent>>, Receiver<Arc<LiveEvent>>) {
    bounded(cap)
}

#[test]
fn register_appends_subscriber() {
    let mut channels: Vec<Sender<Arc<LiveEvent>>> = Vec::new();
    let (s, _r) = sub(4);
    register(&mut channels, s);
    assert_eq!(channels.len(), 1);
}

#[test]
fn slow_consumer_is_isolated() {
    let (slow, slow_rx) = sub(1);
    let (fast, fast_rx) = sub(4);
    let mut channels = vec![slow, fast];

    let first = send_event(&mut channels, &mk_event("live_add", "a"));
    assert_eq!(first, vec![SendOutcome::Sent, SendOutcome::Sent]);

    // The slow queue is now full; the fast subscriber must still be served.
    let second = send_event(&mut channels, &mk_event("live_add", "b"));
    assert_eq!(second, vec![SendOutcome::Full, SendOutcome::Sent]);
    assert_eq!(channels.len(), 2);

    assert_eq!(fast_rx.try_recv().unwrap().json, "a");
    assert_eq!(fast_rx.try_recv().unwrap().json, "b");
    assert_eq!(slow_rx.try_recv().unwrap().json, "a");
    assert!(slow_rx.try_recv().is_err());
}

#[test]
fn closed_subscriber_is_evicted_after_one_publish() {
    let (gone, gone_rx) = sub(4);
    let (alive, alive_rx) = sub(4);
    let mut channels = vec![gone, alive];
    drop(gone_rx);

    let first = send_event(&mut channels, &mk_event("live_add", "a"));
    assert_eq!(first, vec![SendOutcome::Disconnected, SendOutcome::Sent]);
    assert_eq!(channels.len(), 1);

    let second = send_event(&mut channels, &mk_event("live_rem", "1"));
    assert_eq!(second, vec![SendOutcome::Sent]);
    assert_eq!(alive_rx.try_recv().unwrap().json, "a");
    assert_eq!(alive_rx.try_recv().unwrap().json, "1");
}

#[test]
fn disconnected_positions_are_reported_in_order() {
    let outcomes = vec![
        SendOutcome::Sent,
        SendOutcome::Disconnected,
        SendOutcome::Full,
        SendOutcome::Disconnected,
    ];
    assert_eq!(disconnected_of(&outcomes), vec![1, 3]);
    assert_eq!(disconnected_of(&Vec::new()), Vec::<usize>::new());
}

#[test]
fn initial_poll_emits_one_add() {
    let mut state = LiveTaskState::new(JetriLive::default());
    let (s, rx) = sub(8);
    let mut channels = vec![s];

    let input = poll_of(vec![mk_live(1)]);
    assert!(input.check());
    let events = poll_iteration(&mut state, &mut channels, Ok(input)).unwrap();

    assert_eq!(events.len(), 1);
    assert_eq!(events[0].event_type, "live_add");
    assert_eq!(events[0].json, "{\"id\":1}");
    assert!(state.active.contains(1));
    assert_eq!(state.active.len(), 1);
    assert_eq!(state.current.live.len(), 1);

    let got = rx.try_recv().unwrap();
    assert_eq!(got.event_type, "live_add");
    assert!(rx.try_recv().is_err());
}

#[test]
fn next_poll_emits_one_removal() {
    let mut state = LiveTaskState::new(JetriLive::default());
    let (s, rx) = sub(8);
    let mut channels = vec![s];

    poll_iteration(&mut state, &mut channels, Ok(poll_of(vec![mk_live(1)]))).unwrap();
    let events = poll_iteration(&mut state, &mut channels, Ok(poll_of(vec![]))).unwrap();

    assert_eq!(events.len(), 1);
    assert_eq!(events[0].event_type, "live_rem");
    assert_eq!(events[0].json, "1");
    assert_eq!(state.active.len(), 0);
    assert!(state.current.live.is_empty());

    assert_eq!(rx.try_recv().unwrap().event_type, "live_add");
    assert_eq!(rx.try_recv().unwrap().event_type, "live_rem");
    assert!(rx.try_recv().is_err());
}

#[test]
fn decode_failure_leaves_state_untouched() {
    let mut state = LiveTaskState::new(JetriLive::default());
    let (s, rx) = sub(8);
    let mut channels = vec![s];
    poll_iteration(&mut state, &mut channels, Ok(poll_of(vec![mk_live(1)]))).unwrap();
    let _ = rx.try_recv().unwrap();

    let r = poll_iteration(&mut state, &mut channels, Err(LiveError::DecodeFailed));
    assert_eq!(r.unwrap_err(), LiveError::DecodeFailed);
    assert!(state.active.contains(1));
    assert_eq!(state.active.len(), 1);
    assert_eq!(state.current.live.len(), 1);
    assert_eq!(channels.len(), 1);
    assert!(rx.try_recv().is_err());
}

#[test]
fn fetch_failure_aborts_and_state_survives_for_retry() {
    let mut state = LiveTaskState::new(JetriLive::default());
    let (s, rx) = sub(8);
    let mut channels = vec![s];
    poll_iteration(&mut state, &mut channels, Ok(poll_of(vec![mk_live(3)]))).unwrap();
    let _ = rx.try_recv().unwrap();

    let r = poll_iteration(&mut state, &mut channels, Err(LiveError::FetchFailed));
    assert_eq!(r.unwrap_err(), LiveError::FetchFailed);
    assert!(state.active.contains(3));

    // The retried iteration picks up against the untouched baseline.
    let events = poll_iteration(&mut state, &mut channels, Ok(poll_of(vec![mk_live(3)]))).unwrap();
    assert!(events.is_empty());
}

#[test]
fn registered_before_publish_receives_or_later_join_sees_snapshot() {
    // Ordering one: the subscriber registers before the critical section; it
    // must receive every event published there.
    let mut state = LiveTaskState::new(JetriLive::default());
    let (s, rx) = sub(8);
    let mut channels = Vec::new();
    register(&mut channels, s);
    poll_iteration(&mut state, &mut channels, Ok(poll_of(vec![mk_live(9)]))).unwrap();
    let received = rx.try_recv().is_ok();
    assert!(received);

    // Ordering two: the subscriber registers after the critical section; its
    // initial snapshot already reflects the change it never got an event for.
    let mut state2 = LiveTaskState::new(JetriLive::default());
    let mut channels2: Vec<Sender<Arc<LiveEvent>>> = Vec::new();
    poll_iteration(&mut state2, &mut channels2, Ok(poll_of(vec![mk_live(9)]))).unwrap();
    let (s2, rx2) = sub(8);
    register(&mut channels2, s2);
    let reflected = ids_of(&state2.current.live).contains(&9);
    assert!(rx2.try_recv().is_err());
    assert!(reflected);
}

#[test]
fn clear_baselines_resets_every_baseline_and_keeps_the_snapshot() {
    let mut state = LiveTaskState::new(JetriLive::default());
    let mut channels: Vec<Sender<Arc<LiveEvent>>> = Vec::new();
    let input = PollData {
        data: JetriLive {
            live: vec![mk_live(1)],
            upcoming: vec![mk_live(2)],
            ended: vec![mk_live(3)],
        },
        live_jsons: vec![String::from("a")],
        upcoming_jsons: vec![String::from("b")],
        ended_jsons: vec![String::from("c")],
    };
    assert!(input.check());
    let events = apply_update(&mut state, &mut channels, input);
    assert_eq!(events.len(), 3);
    assert_eq!(events[0].event_type, "live_add");
    assert_eq!(events[1].event_type, "upcoming_add");
    assert_eq!(events[2].event_type, "ended_add");

    // The mock-mode cold-start reset empties every baseline; the stored
    // snapshot is untouched.
    state.clear_baselines();
    assert_eq!(state.active.len(), 0);
    assert_eq!(state.upcoming.len(), 0);
    assert_eq!(state.ended.len(), 0);
    assert_eq!(state.current.live.len(), 1);
    assert_eq!(state.current.upcoming.len(), 1);
    assert_eq!(state.current.ended.len(), 1);

    // Diffing the same snapshot against the cleared baselines reports
    // everything as added again, as a cold start does.
    let reput = PollData {
        data: JetriLive {
            live: vec![mk_live(1)],
            upcoming: vec![mk_live(2)],
            ended: vec![mk_live(3)],
        },
        live_jsons: vec![String::from("a")],
        upcoming_jsons: vec![String::from("b")],
        ended_jsons: vec![String::from("c")],
    };
    let again = apply_update(&mut state, &mut channels, reput);
    assert_eq!(again.len(), 3);
}
