use mesh_share::runtime::ShareRuntime;
use mesh_share::swarm::{TrackerMessage, TrackerReply, TrackerState};

fn announce(ih: &str, pid: &str, event: &str, offers: usize) -> TrackerMessage {
    TrackerMessage {
        action: "announce".to_string(),
        info_hash: Some(ih.to_string()),
        peer_id: Some(pid.to_string()),
        event: event.to_string(),
        has_answer: false,
        to_peer_id: String::new(),
        offer_count: offers,
        scrape_hashes: None,
    }
}

fn s(x: &str) -> String {
    x.to_string()
}

#[test]
fn announce_registers_peers_and_counts_seeders() {
    let mut t = TrackerState::new();
    let a = t.announce(&s("h1"), &s("p1"), 1, &s(""), 0);
    assert_eq!((a.complete, a.incomplete), (0, 1));
    assert!(a.relays.is_empty());
    let b = t.announce(&s("h1"), &s("p2"), 2, &s("completed"), 3);
    assert_eq!((b.complete, b.incomplete), (1, 1));
    assert_eq!(b.relays, vec![(1, 0), (1, 1), (1, 2)]);
    let c = t.announce(&s("h1"), &s("p3"), 3, &s(""), 4);
    assert_eq!((c.complete, c.incomplete), (1, 2));
    assert_eq!(c.relays, vec![(1, 0), (2, 1), (1, 2), (2, 3)]);
    assert_eq!(t.total_seeders(), 1);
    assert_eq!(t.scrape(&vec![s("h1"), s("h2")]), vec![(s("h1"), 1, 2), (s("h2"), 0, 0)]);
}

#[test]
fn stopped_peer_leaves_swarm() {
    let mut t = TrackerState::new();
    t.announce(&s("h"), &s("p1"), 1, &s("completed"), 0);
    t.announce(&s("h"), &s("p2"), 2, &s(""), 0);
    let r = t.announce(&s("h"), &s("p1"), 1, &s("stopped"), 0);
    assert_eq!((r.complete, r.incomplete), (0, 1));
    assert_eq!(t.total_seeders(), 0);
}

#[test]
fn reannounce_moves_peer_to_new_connection() {
    let mut t = TrackerState::new();
    t.announce(&s("h"), &s("p1"), 1, &s(""), 0);
    t.announce(&s("h"), &s("p1"), 7, &s(""), 0);
    assert_eq!(t.answer_target(&s("h"), &s("p1")), Some(7));
    assert_eq!(t.answer_target(&s("h"), &s("zz")), None);
    assert_eq!(t.answer_target(&s("x"), &s("p1")), None);
    assert_eq!(t.scrape(&vec![s("h")]), vec![(s("h"), 0, 1)]);
}

#[test]
fn disconnect_removes_peer_and_empty_swarms() {
    let mut t = TrackerState::new();
    t.announce(&s("h1"), &s("p1"), 1, &s("completed"), 0);
    t.announce(&s("h2"), &s("p1"), 1, &s(""), 0);
    t.announce(&s("h2"), &s("p2"), 2, &s(""), 0);
    t.remove_peer(&s("p1"));
    assert_eq!(t.scrape(&vec![s("h1"), s("h2")]), vec![(s("h1"), 0, 0), (s("h2"), 0, 1)]);
    assert_eq!(t.total_seeders(), 0);
    assert_eq!(t.answer_target(&s("h2"), &s("p1")), None);
}

#[test]
fn tracker_messages_through_runtime() {
    let mut rt = ShareRuntime::new(vec![], false, 0);
    let mut slot: Option<String> = None;
    let r = rt.tracker_message(&announce("h", "p1", "completed", 0), 11, &mut slot);
    assert!(matches!(r, TrackerReply::Announce(ref o) if o.complete == 1 && o.incomplete == 0));
    assert_eq!(slot, Some(s("p1")));
    assert_eq!(rt.seeders_for_throttle(), 1);

    let mut slot2: Option<String> = None;
    let mut answer = announce("h", "p2", "", 0);
    answer.has_answer = true;
    answer.to_peer_id = s("p1");
    let r = rt.tracker_message(&answer, 12, &mut slot2);
    assert!(matches!(r, TrackerReply::Answer(Some(11))));
    assert_eq!(slot2, Some(s("p2")));
    answer.to_peer_id = String::new();
    assert!(matches!(rt.tracker_message(&answer, 12, &mut slot2), TrackerReply::Answer(None)));

    let scrape = TrackerMessage {
        action: s("scrape"),
        info_hash: None,
        peer_id: None,
        event: String::new(),
        has_answer: false,
        to_peer_id: String::new(),
        offer_count: 0,
        scrape_hashes: Some(vec![s("h")]),
    };
    let mut slot3: Option<String> = None;
    match rt.tracker_message(&scrape, 13, &mut slot3) {
        TrackerReply::Scrape(v) => assert_eq!(v, vec![(s("h"), 1, 0)]),
        _ => panic!("expected a scrape reply"),
    }
    assert_eq!(slot3, None);

    let mut other = announce("h", "p9", "", 0);
    other.action = s("unknown");
    assert!(matches!(rt.tracker_message(&other, 14, &mut slot3), TrackerReply::Nothing));
    let mut missing = announce("h", "p9", "", 0);
    missing.peer_id = None;
    assert!(matches!(rt.tracker_message(&missing, 14, &mut slot3), TrackerReply::Nothing));

    rt.tracker_disconnect(&s("p1"));
    assert_eq!(rt.seeders_for_throttle(), 0);
    rt.tracker_message(&announce("h", "p1", "completed", 0), 11, &mut slot);
    assert!(rt.stop() == false);
    assert_eq!(rt.seeders_for_throttle(), 0);
}
