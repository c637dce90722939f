use ipfs_bitswap::behaviour::{
    build_behaviour, identify_agent_version, identify_protocol_version, Behaviour,
    BehaviourAction, Expiry, PingOutcome, SwarmEvent, SwarmOptions, WANT_PRIORITY,
};
use ipfs_bitswap::cid::Cid;
use ipfs_bitswap::fs::FsBlockStore;
use ipfs_bitswap::bitswap::{Action, Outbound};
use ipfs_bitswap::message::{Block, Entry, Message};
use ipfs_bitswap::peer::PeerId;
use ipfs_bitswap::strategy::AltruisticStrategy;

fn peer(n: u8) -> PeerId {
    PeerId::from_bytes(vec![n; 4])
}

fn cid(text: &str) -> Cid {
    Cid::of_block(text.as_bytes()).unwrap()
}

fn node() -> Behaviour<AltruisticStrategy> {
    let options = SwarmOptions { peer_id: peer(0) };
    build_behaviour(&options, AltruisticStrategy::default())
}

fn whole_list(entries: Vec<Entry>) -> Message {
    Message { entries, full: true, blocks: Vec::new() }
}

#[test]
fn what_the_node_states_of_itself() {
    assert_eq!(identify_protocol_version(), "/ipfs/0.1.0");
    assert_eq!(identify_agent_version(), "rust-ipfs");
}

#[test]
fn a_new_node_knows_nobody() {
    let options = SwarmOptions { peer_id: peer(7) };
    let node = Behaviour::new(&options, AltruisticStrategy::default());
    assert_eq!(node.local_peer_id(), &peer(7));
    assert_eq!(node.session().peer_count(), 0);
    assert_eq!(node.session().wanted().len(), 0);
    assert!(!node.is_providing(&cid("a")));
}

#[test]
fn peers_found_nearby_are_dialled_and_taken_into_the_view() {
    let mut node = node();
    let actions = node.inject_event(SwarmEvent::MdnsDiscovered(vec![peer(1), peer(2), peer(1)]));
    assert_eq!(
        actions,
        vec![
            BehaviourAction::Dial { peer: peer(1), message: None },
            BehaviourAction::AddToPartialView(peer(1)),
            BehaviourAction::Dial { peer: peer(2), message: None },
            BehaviourAction::AddToPartialView(peer(2)),
            BehaviourAction::AddToPartialView(peer(1)),
        ]
    );
    assert_eq!(node.session().peer_count(), 2);
    assert_eq!(node.inject_event(SwarmEvent::MdnsDiscovered(Vec::new())), Vec::new());
}

#[test]
fn a_dialled_peer_is_sent_what_is_wanted() {
    let mut node = node();
    assert_eq!(WANT_PRIORITY, 1);
    assert_eq!(node.want_block(cid("a")), Vec::new());
    let actions = node.inject_event(SwarmEvent::MdnsDiscovered(vec![peer(1)]));
    let list = whole_list(vec![Entry { cid: cid("a"), priority: 1, cancel: false }]);
    assert_eq!(
        actions,
        vec![
            BehaviourAction::Dial { peer: peer(1), message: Some(list) },
            BehaviourAction::AddToPartialView(peer(1)),
        ]
    );
    let mut note = Message::new();
    note.want_block(cid("b"), 1);
    assert_eq!(node.want_block(cid("b")), vec![Outbound { peer: peer(1), message: note }]);
    let mut note = Message::new();
    note.cancel_block(cid("b"));
    assert_eq!(node.cancel_block(&cid("b")), vec![Outbound { peer: peer(1), message: note }]);
}

#[test]
fn expired_records_leave_the_view_unless_the_peer_is_still_known() {
    let mut node = node();
    node.inject_event(SwarmEvent::MdnsDiscovered(vec![peer(1), peer(2)]));
    let actions = node.inject_event(SwarmEvent::MdnsExpired(vec![
        Expiry { peer: peer(1), still_known: true },
        Expiry { peer: peer(2), still_known: false },
        Expiry { peer: peer(3), still_known: false },
    ]));
    assert_eq!(
        actions,
        vec![
            BehaviourAction::RemoveFromPartialView(peer(2)),
            BehaviourAction::RemoveFromPartialView(peer(3)),
        ]
    );
    // the exchange keeps its peers
    assert_eq!(node.session().peer_count(), 2);
}

#[test]
fn providers_found_connect_the_closest_peers() {
    let mut node = node();
    let actions = node.inject_event(SwarmEvent::KadProviders {
        key: vec![1, 2, 3],
        providers: Vec::new(),
        closest_peers: vec![peer(1)],
    });
    assert_eq!(actions, Vec::new());
    assert_eq!(node.session().peer_count(), 0);

    let actions = node.inject_event(SwarmEvent::KadProviders {
        key: vec![1, 2, 3],
        providers: vec![peer(5)],
        closest_peers: vec![peer(1), peer(2)],
    });
    assert_eq!(
        actions,
        vec![
            BehaviourAction::Dial { peer: peer(1), message: None },
            BehaviourAction::Dial { peer: peer(2), message: None },
        ]
    );
    assert!(node.session().is_connected(&peer(1)));
    assert!(node.session().is_connected(&peer(2)));
    assert!(!node.session().is_connected(&peer(5)));
}

#[test]
fn a_peer_out_of_reach_is_dropped() {
    let mut node = node();
    node.inject_event(SwarmEvent::MdnsDiscovered(vec![peer(1), peer(2)]));
    assert_eq!(node.inject_event(SwarmEvent::Unreachable(peer(1))), Vec::new());
    assert!(!node.session().is_connected(&peer(1)));
    assert!(node.session().is_connected(&peer(2)));
}

#[test]
fn the_other_events_change_nothing() {
    let mut node = node();
    node.inject_event(SwarmEvent::MdnsDiscovered(vec![peer(1)]));
    let events = vec![
        SwarmEvent::KadDiscovered(peer(4)),
        SwarmEvent::KadProvidersTimeout { key: vec![1] },
        SwarmEvent::KadOther,
        SwarmEvent::Ping { peer: peer(4), outcome: PingOutcome::Ping { rtt_millis: 12 } },
        SwarmEvent::Ping { peer: peer(4), outcome: PingOutcome::Pong },
        SwarmEvent::Ping { peer: peer(4), outcome: PingOutcome::Timeout },
        SwarmEvent::Ping { peer: peer(4), outcome: PingOutcome::Failure },
        SwarmEvent::Identify,
        SwarmEvent::Floodsub,
    ];
    for event in events {
        assert_eq!(node.inject_event(event), Vec::new());
    }
    assert_eq!(node.session().peer_count(), 1);
}

#[test]
fn providing_is_noted_and_nothing_more() {
    let mut node = node();
    node.inject_event(SwarmEvent::MdnsDiscovered(vec![peer(1)]));
    node.provide_block(cid("a"));
    node.provide_block(cid("a"));
    node.provide_block(cid("b"));
    assert!(node.is_providing(&cid("a")));
    assert!(node.is_providing(&cid("b")));
    node.stop_providing_block(&cid("a"));
    assert!(!node.is_providing(&cid("a")));
    assert!(node.is_providing(&cid("b")));
    node.stop_providing_block(&cid("a"));
    assert_eq!(node.session().wanted().len(), 0);
    assert_eq!(node.session().peer_count(), 1);
}

#[test]
fn messages_reach_the_session() {
    let mut node = node();
    node.want_block(cid("a"));
    node.inject_event(SwarmEvent::MdnsDiscovered(vec![peer(1)]));
    let store = FsBlockStore::open("root".to_string(), Ok(Vec::new())).unwrap();
    let block = Block::raw(b"a".to_vec()).unwrap();
    let mut message = Message::new();
    message.add_block(block.clone());
    let mut note = Message::new();
    note.cancel_block(cid("a"));
    assert_eq!(
        node.receive(&peer(1), message, &store),
        vec![
            Action::Store(block),
            Action::Resolved(cid("a")),
            Action::Send(Outbound { peer: peer(1), message: note }),
        ]
    );
    assert_eq!(node.next_send(), None);
}
