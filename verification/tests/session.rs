use ipfs_bitswap::bitswap::{answer, Action, Bitswap, Outbound};
use ipfs_bitswap::cid::Cid;
use ipfs_bitswap::fs::{BlockStoreEvent, Error, FsBlockStore, IoFailure};
use ipfs_bitswap::ledger::{Ledger, WantEntry, Wantlist};
use ipfs_bitswap::medium::MemFiles;
use ipfs_bitswap::message::{Block, Entry, Message};
use ipfs_bitswap::peer::PeerId;
use ipfs_bitswap::protocol::{protocol_name, BitswapConfig};
use ipfs_bitswap::strategy::{AltruisticStrategy, SendQueue, Strategy};

fn peer(n: u8) -> PeerId {
    PeerId::from_bytes(vec![0x12, 0x20, n])
}

fn cid(text: &str) -> Cid {
    Cid::of_block(text.as_bytes()).unwrap()
}

fn empty_store() -> FsBlockStore {
    FsBlockStore::open("root".to_string(), Ok(Vec::new())).unwrap()
}

fn store_with(files: &mut MemFiles, blocks: &[&str]) -> FsBlockStore {
    let mut store = FsBlockStore::open("root".to_string(), files.list()).unwrap();
    for text in blocks {
        let id = cid(text);
        let request = store.put(&id, text.as_bytes().to_vec());
        let outcome = files.perform(request).map(|_| ());
        store.completed_put(id, outcome);
    }
    store
}

fn wants(list: &Wantlist) -> Vec<(Cid, i32)> {
    (0..list.len()).map(|i| (list.get(i).cid.clone(), list.get(i).priority)).collect()
}

fn want_note(to: &PeerId, id: &Cid, priority: i32) -> Outbound {
    let mut message = Message::new();
    message.want_block(id.clone(), priority);
    Outbound { peer: to.clone(), message }
}

fn cancel_note(to: &PeerId, id: &Cid) -> Outbound {
    let mut message = Message::new();
    message.cancel_block(id.clone());
    Outbound { peer: to.clone(), message }
}

#[test]
fn want_list_keeps_order_and_updates_in_place() {
    let mut list = Wantlist::new();
    assert_eq!(list.len(), 0);
    list.want(cid("a"), 1);
    list.want(cid("b"), 2);
    list.want(cid("c"), 3);
    list.want(cid("b"), 9);
    assert_eq!(wants(&list), vec![(cid("a"), 1), (cid("b"), 9), (cid("c"), 3)]);
    assert!(list.contains(&cid("b")));
    assert_eq!(list.priority_of(&cid("b")), Some(9));
    assert_eq!(list.priority_of(&cid("x")), None);

    assert!(list.cancel(&cid("a")));
    assert!(!list.cancel(&cid("a")));
    assert!(!list.contains(&cid("a")));
    assert_eq!(wants(&list), vec![(cid("b"), 9), (cid("c"), 3)]);
    assert_eq!(wants(&list.copy()), wants(&list));
}

#[test]
fn ledger_notes_what_goes_out_and_what_comes_in() {
    let mut ledger = Ledger::new();
    ledger.send(&Entry { cid: cid("a"), priority: 4, cancel: false });
    ledger.receive(&Entry { cid: cid("b"), priority: 5, cancel: false });
    ledger.receive(&Entry { cid: cid("c"), priority: 6, cancel: false });
    assert_eq!(wants(ledger.sent()), vec![(cid("a"), 4)]);
    assert_eq!(wants(ledger.received()), vec![(cid("b"), 5), (cid("c"), 6)]);

    ledger.send(&Entry { cid: cid("a"), priority: 0, cancel: true });
    ledger.receive(&Entry { cid: cid("b"), priority: 0, cancel: true });
    ledger.served(&cid("c"));
    assert_eq!(wants(ledger.sent()), Vec::new());
    assert_eq!(wants(ledger.received()), Vec::new());

    let mut sent = Wantlist::new();
    sent.want(cid("z"), 1);
    let mut ledger = Ledger::with_sent(sent);
    ledger.receive(&Entry { cid: cid("b"), priority: 5, cancel: false });
    ledger.forget_received();
    assert_eq!(wants(ledger.sent()), vec![(cid("z"), 1)]);
    assert_eq!(wants(ledger.received()), Vec::new());
}

#[test]
fn queue_serves_by_priority_and_then_by_arrival() {
    let mut queue = SendQueue::new();
    queue.schedule(WantEntry { cid: cid("a"), priority: 1 });
    queue.schedule(WantEntry { cid: cid("b"), priority: 5 });
    queue.schedule(WantEntry { cid: cid("c"), priority: 1 });
    queue.schedule(WantEntry { cid: cid("d"), priority: 5 });
    queue.schedule(WantEntry { cid: cid("e"), priority: -3 });
    queue.schedule(WantEntry { cid: cid("f"), priority: 3 });
    assert_eq!(queue.len(), 6);
    let mut order = Vec::new();
    while let Some(entry) = queue.pop() {
        order.push(entry.cid);
    }
    assert_eq!(order, vec![cid("b"), cid("d"), cid("f"), cid("a"), cid("c"), cid("e")]);
    assert_eq!(queue.pop(), None);
}

#[test]
fn queue_holds_a_block_once() {
    let mut queue = SendQueue::new();
    queue.schedule(WantEntry { cid: cid("a"), priority: 1 });
    queue.schedule(WantEntry { cid: cid("b"), priority: 1 });
    // wanted again at the same priority: it goes behind the others
    queue.schedule(WantEntry { cid: cid("a"), priority: 1 });
    assert_eq!(queue.len(), 2);
    assert_eq!(queue.pop().map(|e| e.cid), Some(cid("b")));
    // wanted again at a higher one: it goes to the front
    queue.schedule(WantEntry { cid: cid("c"), priority: 0 });
    queue.schedule(WantEntry { cid: cid("c"), priority: 7 });
    assert_eq!(queue.pop(), Some(WantEntry { cid: cid("c"), priority: 7 }));
    assert!(queue.drop_block(&cid("a")));
    assert!(!queue.drop_block(&cid("a")));
    assert_eq!(queue.len(), 0);
}

#[test]
fn the_default_policy_serves_everyone() {
    let policy = AltruisticStrategy::default();
    assert!(policy.allow(&peer(1), &cid("a"), 0));
    assert!(policy.allow(&peer(2), &cid("b"), i32::MIN));
}

#[test]
fn connecting_sends_the_whole_want_list() {
    let mut session = Bitswap::new(AltruisticStrategy::default());
    assert_eq!(session.peer_count(), 0);
    // nothing wanted: nothing to send, and the peer is taken up all the same
    assert_eq!(session.connect(peer(1)), None);
    assert!(session.is_connected(&peer(1)));
    assert_eq!(session.peer_count(), 1);

    assert_eq!(session.want_block(cid("a"), 3), vec![want_note(&peer(1), &cid("a"), 3)]);
    assert_eq!(session.want_block(cid("b"), 1), vec![want_note(&peer(1), &cid("b"), 1)]);

    let first = session.connect(peer(2)).unwrap();
    assert_eq!(first.peer, peer(2));
    assert!(first.message.full);
    assert_eq!(
        first.message.entries,
        vec![
            Entry { cid: cid("a"), priority: 3, cancel: false },
            Entry { cid: cid("b"), priority: 1, cancel: false },
        ]
    );
    assert!(first.message.blocks.is_empty());
    assert_eq!(wants(session.ledger(&peer(2)).unwrap().sent()), wants(session.wanted()));
    // a peer that is connected is not taken up again
    assert_eq!(session.connect(peer(2)), None);
    assert_eq!(session.peer_count(), 2);
    assert!(session.ledger(&peer(3)).is_none());
}

#[test]
fn wanting_twice_updates_the_priority() {
    let mut session = Bitswap::new(AltruisticStrategy::default());
    session.connect(peer(1));
    session.want_block(cid("a"), 1);
    session.want_block(cid("b"), 1);
    let out = session.want_block(cid("a"), 8);
    assert_eq!(out, vec![want_note(&peer(1), &cid("a"), 8)]);
    assert_eq!(wants(session.wanted()), vec![(cid("a"), 8), (cid("b"), 1)]);
    assert_eq!(
        wants(session.ledger(&peer(1)).unwrap().sent()),
        vec![(cid("a"), 8), (cid("b"), 1)]
    );
}

#[test]
fn cancelling_tells_every_peer_and_is_idle_when_nothing_is_pending() {
    let mut session = Bitswap::new(AltruisticStrategy::default());
    session.connect(peer(1));
    session.connect(peer(2));
    assert_eq!(session.cancel_block(&cid("a")), Vec::new());
    session.want_block(cid("a"), 1);
    assert_eq!(
        session.cancel_block(&cid("a")),
        vec![cancel_note(&peer(1), &cid("a")), cancel_note(&peer(2), &cid("a"))]
    );
    assert_eq!(wants(session.wanted()), Vec::new());
    assert_eq!(wants(session.ledger(&peer(1)).unwrap().sent()), Vec::new());
    assert_eq!(session.cancel_block(&cid("a")), Vec::new());
}

#[test]
fn a_peer_that_goes_loses_its_ledger_and_the_wants_stay() {
    let mut session = Bitswap::new(AltruisticStrategy::default());
    session.connect(peer(1));
    session.connect(peer(2));
    session.want_block(cid("a"), 2);
    session.disconnect(&peer(1));
    assert!(!session.is_connected(&peer(1)));
    assert!(session.is_connected(&peer(2)));
    assert_eq!(session.peer_count(), 1);
    session.disconnect(&peer(1));
    assert_eq!(session.peer_count(), 1);
    assert_eq!(wants(session.wanted()), vec![(cid("a"), 2)]);
    // the next peer is asked for what is still wanted
    let first = session.connect(peer(3)).unwrap();
    assert_eq!(first.message.entries, vec![Entry { cid: cid("a"), priority: 2, cancel: false }]);
}

#[test]
fn a_block_that_was_wanted_resolves_and_is_stored() {
    let mut session = Bitswap::new(AltruisticStrategy::default());
    session.connect(peer(1));
    session.connect(peer(2));
    session.want_block(cid("a"), 1);
    let block = Block::raw(b"a".to_vec()).unwrap();
    let mut message = Message::new();
    message.add_block(block.clone());
    let actions = session.receive(&peer(2), message, &empty_store());
    assert_eq!(
        actions,
        vec![
            Action::Store(block),
            Action::Resolved(cid("a")),
            Action::Send(cancel_note(&peer(1), &cid("a"))),
            Action::Send(cancel_note(&peer(2), &cid("a"))),
        ]
    );
    assert_eq!(wants(session.wanted()), Vec::new());
}

#[test]
fn a_block_that_nobody_asked_for_is_stored_and_resolves_nothing() {
    let mut session = Bitswap::new(AltruisticStrategy::default());
    session.want_block(cid("a"), 1);
    let block = Block::raw(b"b".to_vec()).unwrap();
    let mut message = Message::new();
    message.add_block(block.clone());
    let actions = session.receive(&peer(1), message, &empty_store());
    // the peer is new: it gets the want-list first
    let mut first = Message::new();
    first.want_block(cid("a"), 1);
    first.full = true;
    assert_eq!(
        actions,
        vec![
            Action::Send(Outbound { peer: peer(1), message: first }),
            Action::Store(block),
        ]
    );
    assert!(session.is_connected(&peer(1)));
    assert_eq!(wants(session.wanted()), vec![(cid("a"), 1)]);
}

#[test]
fn a_cancelled_want_is_not_resolved_by_a_late_block() {
    let mut session = Bitswap::new(AltruisticStrategy::default());
    session.connect(peer(1));
    session.want_block(cid("a"), 1);
    session.cancel_block(&cid("a"));
    let block = Block::raw(b"a".to_vec()).unwrap();
    let mut message = Message::new();
    message.add_block(block.clone());
    message.add_block(block.clone());
    let actions = session.receive(&peer(1), message, &empty_store());
    assert_eq!(actions, vec![Action::Store(block.clone()), Action::Store(block)]);
}

#[test]
fn a_block_resolves_once() {
    let mut session = Bitswap::new(AltruisticStrategy::default());
    session.connect(peer(1));
    session.want_block(cid("a"), 1);
    let block = Block::raw(b"a".to_vec()).unwrap();
    let mut message = Message::new();
    message.add_block(block.clone());
    message.add_block(block.clone());
    let actions = session.receive(&peer(1), message, &empty_store());
    assert_eq!(
        actions,
        vec![
            Action::Store(block.clone()),
            Action::Resolved(cid("a")),
            Action::Send(cancel_note(&peer(1), &cid("a"))),
            Action::Store(block),
        ]
    );
}

#[test]
fn wanted_blocks_that_are_held_become_due_in_order() {
    let mut files = MemFiles::new();
    let store = store_with(&mut files, &["a", "b", "c"]);
    let mut session = Bitswap::new(AltruisticStrategy::default());
    let mut message = Message::new();
    message.want_block(cid("a"), 1);
    message.want_block(cid("missing"), 9);
    message.want_block(cid("b"), 5);
    message.want_block(cid("c"), 5);
    assert_eq!(session.receive(&peer(1), message, &store), Vec::new());
    assert_eq!(
        wants(session.ledger(&peer(1)).unwrap().received()),
        vec![(cid("a"), 1), (cid("missing"), 9), (cid("b"), 5), (cid("c"), 5)]
    );
    assert_eq!(session.next_send(), Some((peer(1), cid("b"))));
    assert_eq!(session.next_send(), Some((peer(1), cid("c"))));
    assert_eq!(session.next_send(), Some((peer(1), cid("a"))));
    assert_eq!(session.next_send(), None);
    // what was served is wanted no longer; what is not held stays wanted
    assert_eq!(wants(session.ledger(&peer(1)).unwrap().received()), vec![(cid("missing"), 9)]);
}

#[test]
fn a_cancellation_takes_the_block_off_the_queue() {
    let mut files = MemFiles::new();
    let store = store_with(&mut files, &["a", "b"]);
    let mut session = Bitswap::new(AltruisticStrategy::default());
    let mut message = Message::new();
    message.want_block(cid("a"), 1);
    message.want_block(cid("b"), 1);
    message.cancel_block(cid("a"));
    session.receive(&peer(1), message, &store);
    assert_eq!(wants(session.ledger(&peer(1)).unwrap().received()), vec![(cid("b"), 1)]);
    assert_eq!(session.next_send(), Some((peer(1), cid("b"))));
    assert_eq!(session.next_send(), None);
}

#[test]
fn a_whole_list_replaces_what_the_peer_wanted() {
    let mut files = MemFiles::new();
    let store = store_with(&mut files, &["a", "b"]);
    let mut session = Bitswap::new(AltruisticStrategy::default());
    let mut message = Message::new();
    message.want_block(cid("a"), 1);
    session.receive(&peer(1), message, &store);
    let mut message = Message::new();
    message.want_block(cid("b"), 1);
    message.full = true;
    session.receive(&peer(1), message, &store);
    assert_eq!(wants(session.ledger(&peer(1)).unwrap().received()), vec![(cid("b"), 1)]);
    assert_eq!(session.next_send(), Some((peer(1), cid("b"))));
    assert_eq!(session.next_send(), None);
}

#[test]
fn peers_are_served_in_the_order_of_connecting() {
    let mut files = MemFiles::new();
    let store = store_with(&mut files, &["a", "b"]);
    let mut session = Bitswap::new(AltruisticStrategy::default());
    session.connect(peer(1));
    let mut message = Message::new();
    message.want_block(cid("a"), 1);
    session.receive(&peer(2), message, &store);
    let mut message = Message::new();
    message.want_block(cid("b"), 1);
    session.receive(&peer(1), message, &store);
    assert_eq!(session.next_send(), Some((peer(1), cid("b"))));
    assert_eq!(session.next_send(), Some((peer(2), cid("a"))));
    assert_eq!(session.next_send(), None);
}

#[test]
fn the_store_answers_and_the_block_goes_out() {
    let a = cid("a");
    let mut message = Message::new();
    message.add_block(Block::raw(b"a".to_vec()).unwrap());
    let found = BlockStoreEvent::Get(a.clone(), Ok(Some(b"a".to_vec())));
    assert_eq!(answer(peer(1), found), Some(Outbound { peer: peer(1), message }));
    // no block, bytes of another block, a failure, another kind of event
    assert_eq!(answer(peer(1), BlockStoreEvent::Get(a.clone(), Ok(None))), None);
    let spoiled = BlockStoreEvent::Get(a.clone(), Ok(Some(b"b".to_vec())));
    assert_eq!(answer(peer(1), spoiled), None);
    let failed = BlockStoreEvent::Get(a.clone(), Err(Error::Io(IoFailure::NotFound)));
    assert_eq!(answer(peer(1), failed), None);
    assert_eq!(answer(peer(1), BlockStoreEvent::Put(a, Ok(()))), None);
}

struct Node {
    id: PeerId,
    session: Bitswap<AltruisticStrategy>,
    store: FsBlockStore,
    files: MemFiles,
    resolved: Vec<Cid>,
}

impl Node {
    fn new(n: u8, blocks: &[&str]) -> Node {
        let mut files = MemFiles::new();
        let store = store_with(&mut files, blocks);
        Node {
            id: peer(n),
            session: Bitswap::new(AltruisticStrategy::default()),
            store,
            files,
            resolved: Vec::new(),
        }
    }

    /// Takes bytes off the wire, and gives what is to go back.
    fn take(&mut self, from: &PeerId, wire: &[u8]) -> Vec<Vec<u8>> {
        let info = protocol_name();
        let message = BitswapConfig::default().upgrade_inbound(wire, &info).unwrap();
        let mut out = Vec::new();
        for action in self.session.receive(from, message, &self.store) {
            match action {
                Action::Send(send) => {
                    assert_eq!(&send.peer, from);
                    out.push(send.message.upgrade_outbound(&info).unwrap());
                }
                Action::Store(block) => {
                    let (id, data) = block.into_parts();
                    let request = self.store.put(&id, data);
                    let outcome = self.files.perform(request).map(|_| ());
                    let event = self.store.completed_put(id.clone(), outcome);
                    assert_eq!(event, BlockStoreEvent::Put(id, Ok(())));
                }
                Action::Resolved(id) => self.resolved.push(id),
            }
        }
        while let Some((to, id)) = self.session.next_send() {
            assert_eq!(&to, from);
            let request = self.store.get(&id);
            let outcome = self.files.perform(request).map(|found| found.unwrap());
            let event = self.store.completed_get(id, outcome);
            let send = answer(to, event).unwrap();
            out.push(send.message.upgrade_outbound(&info).unwrap());
        }
        out
    }
}

#[test]
fn two_nodes_exchange_a_block() {
    let x = cid("x");
    let mut a = Node::new(1, &[]);
    let mut b = Node::new(2, &["x"]);
    assert!(!a.store.contains(&x));
    assert!(b.store.contains(&x));

    assert_eq!(a.session.want_block(x.clone(), 1), Vec::new());
    let first = a.session.connect(b.id.clone()).unwrap();
    let wire = first.message.upgrade_outbound(&protocol_name()).unwrap();

    let back = b.take(&a.id, &wire);
    assert_eq!(back.len(), 1);
    let (a_id, b_id) = (a.id.clone(), b.id.clone());
    let again = a.take(&b_id, &back[0]);

    assert_eq!(a.resolved, vec![x.clone()]);
    assert!(a.store.contains(&x));
    assert_eq!(wants(a.session.wanted()), Vec::new());
    let request = a.store.get(&x);
    assert_eq!(a.files.perform(request), Ok(Some(b"x".to_vec())));

    // the cancellation that goes back finds nothing left to cancel
    assert_eq!(again.len(), 1);
    assert_eq!(b.take(&a_id, &again[0]), Vec::<Vec<u8>>::new());
    assert_eq!(wants(b.session.ledger(&a_id).unwrap().received()), Vec::new());
}
