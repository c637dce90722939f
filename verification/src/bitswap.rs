//! The exchange session: what this node wants, what each connected peer
//! wants, and what is due to whom.
//!
//! The session decides; its caller talks to the network and to the store.
//! Every operation says in its result what is to be sent or stored.

use crate::cid::Cid;
use crate::fs::{BlockStoreEvent, FsBlockStore};
use crate::ledger::{
    applied, holds, lemma_place, lemma_upsert, place, unique, upsert, without, Ledger,
    LedgerView, Priority, Want, WantEntry, Wantlist,
};
use crate::message::{block_ok, Block, BlockView, Entry, EntryView, Message, MessageView};
use crate::peer::PeerId;
use crate::strategy::{descending, scheduled, SendQueue, Strategy};
use vstd::prelude::*;

verus! {

/// What the session keeps for one peer, as contracts speak of it.
pub struct PeerView {
    /// The peer.
    pub id: Seq<u8>,
    /// The wants exchanged with it.
    pub ledger: LedgerView,
    /// The blocks due to it, in the order of sending.
    pub queue: Seq<Want>,
}

/// The session as contracts speak of it.
pub struct SessionView {
    /// The connected peers, in the order in which they connected.
    pub peers: Seq<PeerView>,
    /// What this node wants.
    pub wanted: Seq<Want>,
}

/// A message for a peer, as contracts speak of it.
pub struct OutboundView {
    pub peer: Seq<u8>,
    pub message: MessageView,
}

/// What the caller is to do, as contracts speak of it.
pub enum ActionView {
    Send(OutboundView),
    Store(BlockView),
    Resolved(Seq<u8>),
}

/// A message for a peer.
#[derive(Debug, PartialEq, Eq)]
pub struct Outbound {
    /// Who is to get the message.
    pub peer: PeerId,
    /// The message.
    pub message: Message,
}

impl View for Outbound {
    type V = OutboundView;

    open spec fn view(&self) -> OutboundView {
        OutboundView { peer: self.peer@, message: self.message@ }
    }
}

/// What the caller is to do after a message has come in.
#[derive(Debug, PartialEq, Eq)]
pub enum Action {
    /// Send the message to the peer.
    Send(Outbound),
    /// Write the block to the store.
    Store(Block),
    /// Tell whoever waits for the block that it has come.
    Resolved(Cid),
}

impl View for Action {
    type V = ActionView;

    open spec fn view(&self) -> ActionView {
        match self {
            Action::Send(out) => ActionView::Send(out@),
            Action::Store(block) => ActionView::Store(block@),
            Action::Resolved(cid) => ActionView::Resolved(cid@),
        }
    }
}

/// The messages that `out` stand for.
pub open spec fn outbound_of(out: Seq<Outbound>) -> Seq<OutboundView> {
    out.map_values(|o: Outbound| o@)
}

/// The actions that `actions` stand for.
pub open spec fn actions_of(actions: Seq<Action>) -> Seq<ActionView> {
    actions.map_values(|a: Action| a@)
}

/// The place of the first peer `id` in `peers`, or the length of `peers`
/// where it is not among them.
pub open spec fn peer_at(peers: Seq<PeerView>, id: Seq<u8>) -> int
    decreases peers.len(),
{
    if peers.len() == 0 || peers[0].id == id {
        0
    } else {
        1 + peer_at(peers.drop_first(), id)
    }
}

/// Whether `id` is among `peers`.
pub open spec fn known(peers: Seq<PeerView>, id: Seq<u8>) -> bool {
    peer_at(peers, id) < peers.len()
}

/// Whether no peer occurs twice in `peers`.
pub open spec fn distinct_peers(peers: Seq<PeerView>) -> bool {
    forall|i: int, j: int|
        0 <= i < j < peers.len() ==> (#[trigger] peers[i]).id != (#[trigger] peers[j]).id
}

/// `peer_at` finds the first place of `id`, where it has one.
pub proof fn lemma_peer_at(peers: Seq<PeerView>, id: Seq<u8>)
    ensures
        0 <= peer_at(peers, id) <= peers.len(),
        forall|i: int| 0 <= i < peer_at(peers, id) ==> (#[trigger] peers[i]).id != id,
        known(peers, id) ==> peers[peer_at(peers, id)].id == id,
        !known(peers, id) ==> forall|i: int| 0 <= i < peers.len() ==> (#[trigger] peers[i]).id != id,
    decreases peers.len(),
{
    if peers.len() > 0 && peers[0].id != id {
        let rest = peers.drop_first();
        lemma_peer_at(rest, id);
        assert forall|i: int| 0 <= i < peer_at(peers, id) implies (#[trigger] peers[i]).id != id by {
            if i > 0 {
                assert(rest[i - 1].id != id);
            }
        }
        if known(rest, id) {
            assert(peers[peer_at(rest, id) + 1] == rest[peer_at(rest, id)]);
        }
    }
}

/// The entry that wants `want`.
pub open spec fn want_entry(want: Want) -> EntryView {
    EntryView { id: want.id, priority: want.priority, cancel: false }
}

/// The entry that cancels the want of `id`.
pub open spec fn cancel_entry(id: Seq<u8>) -> EntryView {
    EntryView { id, priority: 0, cancel: true }
}

/// The message that carries the one entry `entry`.
pub open spec fn note(entry: EntryView) -> MessageView {
    MessageView { entries: seq![entry], full: false, blocks: Seq::empty() }
}

/// The message that carries the whole want-list `wanted`.
pub open spec fn whole_list(wanted: Seq<Want>) -> MessageView {
    MessageView {
        entries: wanted.map_values(|w: Want| want_entry(w)),
        full: true,
        blocks: Seq::empty(),
    }
}

/// A peer with the entry `entry` noted as sent to it.
pub open spec fn told(peer: PeerView, entry: EntryView) -> PeerView {
    PeerView {
        ledger: LedgerView { sent: applied(peer.ledger.sent, entry), ..peer.ledger },
        ..peer
    }
}

/// The session after `entry` has gone out to every connected peer.
pub open spec fn broadcast(s: SessionView, entry: EntryView) -> SessionView {
    SessionView {
        peers: s.peers.map_values(|p: PeerView| told(p, entry)),
        wanted: applied(s.wanted, entry),
    }
}

/// The messages by which `entry` goes out to every connected peer.
pub open spec fn notes(peers: Seq<PeerView>, entry: EntryView) -> Seq<OutboundView> {
    peers.map_values(|p: PeerView| OutboundView { peer: p.id, message: note(entry) })
}

/// The session after `peer` has connected: a peer that is new gets a ledger
/// that holds, as sent, all that this node wants.
pub open spec fn connected(s: SessionView, peer: Seq<u8>) -> SessionView {
    if known(s.peers, peer) {
        s
    } else {
        SessionView {
            peers: s.peers.push(
                PeerView {
                    id: peer,
                    ledger: LedgerView { sent: s.wanted, received: Seq::empty() },
                    queue: Seq::empty(),
                },
            ),
            ..s
        }
    }
}

/// What a connecting peer is sent: the whole want-list, where the peer is new
/// and anything is wanted.
pub open spec fn greeting(s: SessionView, peer: Seq<u8>) -> Option<OutboundView> {
    if known(s.peers, peer) || s.wanted.len() == 0 {
        None
    } else {
        Some(OutboundView { peer, message: whole_list(s.wanted) })
    }
}

/// The session after `peer` has gone: its ledger and its queue are dropped,
/// and what this node wants stays wanted.
pub open spec fn disconnected(s: SessionView, peer: Seq<u8>) -> SessionView {
    if known(s.peers, peer) {
        SessionView { peers: s.peers.remove(peer_at(s.peers, peer)), ..s }
    } else {
        s
    }
}

/// The session after this node has come to want `id` at `priority`.
pub open spec fn wanting(s: SessionView, id: Seq<u8>, priority: Priority) -> SessionView {
    broadcast(s, want_entry(Want { id, priority }))
}

/// The session after this node has ceased to want `id`.
pub open spec fn cancelled(s: SessionView, id: Seq<u8>) -> SessionView {
    if holds(s.wanted, id) {
        broadcast(s, cancel_entry(id))
    } else {
        s
    }
}

/// The messages by which a cancellation of `id` goes out: none where `id`
/// was not wanted.
pub open spec fn cancel_notes(s: SessionView, id: Seq<u8>) -> Seq<OutboundView> {
    if holds(s.wanted, id) {
        notes(s.peers, cancel_entry(id))
    } else {
        Seq::empty()
    }
}

/// Whether a block `id` that comes in now resolves a want.
pub open spec fn resolves(s: SessionView, id: Seq<u8>) -> bool {
    holds(s.wanted, id)
}

/// What is to be done with a block that has come in: it is stored in any
/// case; where it was wanted, the want is resolved and the peers are told
/// that it is wanted no longer.
pub open spec fn block_actions(s: SessionView, block: BlockView) -> Seq<ActionView> {
    if resolves(s, block.id) {
        seq![ActionView::Store(block), ActionView::Resolved(block.id)] + cancel_notes(
            s,
            block.id,
        ).map_values(|o: OutboundView| ActionView::Send(o))
    } else {
        seq![ActionView::Store(block)]
    }
}

/// The session and the actions after the blocks of a message, taken in
/// order.
pub open spec fn after_blocks(s: SessionView, blocks: Seq<BlockView>) -> (SessionView, Seq<
    ActionView,
>)
    decreases blocks.len(),
{
    if blocks.len() == 0 {
        (s, Seq::empty())
    } else {
        let (before, actions) = after_blocks(s, blocks.drop_last());
        (cancelled(before, blocks.last().id), actions + block_actions(before, blocks.last()))
    }
}

/// A peer's state after one entry of its want-list has come in. The entry is
/// noted in the ledger. A cancellation takes the block off the queue. A want
/// makes the block due where the policy allows it and the store has it, and
/// else changes nothing that is due.
pub open spec fn heard(peer: PeerView, entry: EntryView, serve: bool) -> PeerView {
    PeerView {
        id: peer.id,
        ledger: LedgerView { received: applied(peer.ledger.received, entry), ..peer.ledger },
        queue: if entry.cancel {
            without(peer.queue, entry.id)
        } else if serve {
            scheduled(peer.queue, Want { id: entry.id, priority: entry.priority })
        } else {
            peer.queue
        },
    }
}

/// A peer's state after the entries of a message, taken in order. `serve`
/// says of a block and a priority whether the policy allows it and the store
/// has it.
pub open spec fn after_entries(
    peer: PeerView,
    entries: Seq<EntryView>,
    serve: spec_fn(Seq<u8>, Priority) -> bool,
) -> PeerView
    decreases entries.len(),
{
    if entries.len() == 0 {
        peer
    } else {
        let e = entries.last();
        heard(after_entries(peer, entries.drop_last(), serve), e, serve(e.id, e.priority))
    }
}

/// A peer's state before the entries of a message are taken: a message that
/// carries the whole want-list replaces what was received and due before.
pub open spec fn reset(peer: PeerView, full: bool) -> PeerView {
    if full {
        PeerView {
            id: peer.id,
            ledger: LedgerView { received: Seq::empty(), ..peer.ledger },
            queue: Seq::empty(),
        }
    } else {
        peer
    }
}

/// The session and the actions after `message` has come in from `peer`. The
/// peer is connected first where it was not; then the blocks are taken, then
/// the entries.
pub open spec fn received(
    s: SessionView,
    peer: Seq<u8>,
    message: MessageView,
    serve: spec_fn(Seq<u8>, Priority) -> bool,
) -> (SessionView, Seq<ActionView>) {
    let first = match greeting(s, peer) {
        Some(out) => seq![ActionView::Send(out)],
        None => Seq::empty(),
    };
    let (s1, actions) = after_blocks(connected(s, peer), message.blocks);
    let at = peer_at(s1.peers, peer);
    let now = after_entries(reset(s1.peers[at], message.full), message.entries, serve);
    (SessionView { peers: s1.peers.update(at, now), ..s1 }, first + actions)
}

/// The first peer to which a block is due, if there is one.
pub open spec fn due_at(peers: Seq<PeerView>) -> int
    decreases peers.len(),
{
    if peers.len() == 0 || peers[0].queue.len() > 0 {
        0
    } else {
        1 + due_at(peers.drop_first())
    }
}

/// The session after the next block due has been handed out for sending: it
/// leaves its queue, and the peer's want of it is met.
pub open spec fn served(s: SessionView) -> SessionView {
    let at = due_at(s.peers);
    if at < s.peers.len() {
        let p = s.peers[at];
        SessionView {
            peers: s.peers.update(
                at,
                PeerView {
                    id: p.id,
                    ledger: LedgerView {
                        received: without(p.ledger.received, p.queue[0].id),
                        ..p.ledger
                    },
                    queue: p.queue.drop_first(),
                },
            ),
            ..s
        }
    } else {
        s
    }
}

/// What the session keeps for one connected peer.
#[derive(Debug)]
pub struct PeerState {
    id: PeerId,
    ledger: Ledger,
    queue: SendQueue,
}

impl View for PeerState {
    type V = PeerView;

    closed spec fn view(&self) -> PeerView {
        PeerView { id: self.id@, ledger: self.ledger@, queue: self.queue@ }
    }
}

/// The peers that `peers` stand for.
pub open spec fn peers_of(peers: Seq<PeerState>) -> Seq<PeerView> {
    peers.map_values(|p: PeerState| p@)
}

/// Of a block and a priority, whether the policy allows `peer` the block and
/// the store holds it.
pub open spec fn serving<S: Strategy>(strategy: S, peer: Seq<u8>, stored: Set<Seq<u8>>) -> spec_fn(
    Seq<u8>,
    Priority,
) -> bool {
    |id: Seq<u8>, priority: Priority| strategy.serves(peer, id, priority) && stored.contains(id)
}

/// The exchange session of one node, with the serving policy `S`.
#[derive(Debug)]
pub struct Bitswap<S: Strategy> {
    peers: Vec<PeerState>,
    wanted: Wantlist,
    strategy: S,
}

impl<S: Strategy> View for Bitswap<S> {
    type V = SessionView;

    closed spec fn view(&self) -> SessionView {
        SessionView { peers: peers_of(self.peers@), wanted: self.wanted@ }
    }
}

/// The message that carries the one block `block`.
pub open spec fn parcel(block: BlockView) -> MessageView {
    MessageView { entries: Seq::empty(), full: false, blocks: seq![block] }
}

/// What `peer` is sent once the store has answered the reading of a block
/// that was due to it: the block, where the store gave bytes and they are the
/// bytes of that block; else nothing.
pub open spec fn answer_to(peer: Seq<u8>, event: BlockStoreEvent) -> Option<OutboundView> {
    match event {
        BlockStoreEvent::Get(cid, Ok(Some(data))) => if block_ok(cid@, data@) {
            Some(OutboundView { peer, message: parcel(BlockView { id: cid@, data: data@ }) })
        } else {
            None
        },
        _ => None,
    }
}

/// Makes the message that answers a want of `peer`, from the event by which
/// the store answered the reading of the block. Bytes that are not those of
/// the block are not sent.
pub fn answer(peer: PeerId, event: BlockStoreEvent) -> (r: Option<Outbound>)
    ensures
        match r {
            Some(out) => answer_to(peer@, event) == Some(out@),
            None => answer_to(peer@, event) is None,
        },
{
    match event {
        BlockStoreEvent::Get(cid, Ok(Some(data))) => match Block::new(cid, data) {
            Some(block) => {
                let mut message = Message::new();
                assert(message@.entries =~= Seq::<EntryView>::empty());
                assert(message@.blocks =~= Seq::<BlockView>::empty());
                message.add_block(block);
                assert(message@.blocks =~= seq![block@]);
                Some(Outbound { peer, message })
            },
            None => None,
        },
        _ => None,
    }
}

/// The items of `items`, last first.
fn backwards<T>(items: Vec<T>) -> (r: Vec<T>)
    ensures
        r@.len() == items@.len(),
        forall|t: int| 0 <= t < r@.len() ==> #[trigger] r@[t] == items@[items@.len() - 1 - t],
{
    let mut rest = items;
    let mut r: Vec<T> = Vec::new();
    while rest.len() > 0
        invariant
            rest@.len() + r@.len() == items@.len(),
            rest@ == items@.subrange(0, rest@.len() as int),
            forall|t: int| 0 <= t < r@.len() ==> #[trigger] r@[t] == items@[items@.len() - 1 - t],
        decreases rest.len(),
    {
        let last = rest.pop().unwrap();
        r.push(last);
    }
    r
}

/// The message that carries the one entry `entry`.
fn note_of(entry: &Entry) -> (r: Message)
    ensures
        r@ == note(entry@),
{
    let mut entries: Vec<Entry> = Vec::new();
    entries.push(entry.clone());
    let r = Message { entries, full: false, blocks: Vec::new() };
    assert(r@.entries =~= seq![entry@]);
    assert(r@.blocks =~= Seq::<BlockView>::empty());
    r
}

/// The message that carries the whole of `wanted`.
fn whole_list_of(wanted: &Wantlist) -> (r: Message)
    ensures
        r@ == whole_list(wanted@),
{
    let mut entries: Vec<Entry> = Vec::new();
    let mut i: usize = 0;
    while i < wanted.len()
        invariant
            i <= wanted@.len(),
            entries.len() == i,
            forall|t: int| 0 <= t < i ==> (#[trigger] entries[t])@ == want_entry(wanted@[t]),
        decreases wanted@.len() - i,
    {
        let w = wanted.get(i);
        entries.push(Entry { cid: w.cid.clone(), priority: w.priority, cancel: false });
        i = i + 1;
    }
    let r = Message { entries, full: true, blocks: Vec::new() };
    assert(r@.entries =~= whole_list(wanted@).entries);
    assert(r@.blocks =~= Seq::<BlockView>::empty());
    r
}

impl<S: Strategy> Bitswap<S> {
    /// The serving policy.
    pub closed spec fn policy(&self) -> S {
        self.strategy
    }

    /// A session with no peer and no want.
    pub fn new(strategy: S) -> (r: Bitswap<S>)
        ensures
            r@.peers.len() == 0,
            r@.wanted.len() == 0,
            r.policy() == strategy,
    {
        Bitswap { peers: Vec::new(), wanted: Wantlist::new(), strategy }
    }

    /// What this node wants.
    pub fn wanted(&self) -> (r: &Wantlist)
        ensures
            r@ == self@.wanted,
    {
        &self.wanted
    }

    /// The number of connected peers.
    pub fn peer_count(&self) -> (r: usize)
        ensures
            r == self@.peers.len(),
    {
        self.peers.len()
    }

    /// The place of `peer` among the connected peers, or their number where
    /// it is not connected.
    fn find(&self, peer: &PeerId) -> (r: usize)
        ensures
            r == peer_at(self@.peers, peer@),
            r <= self.peers.len(),
    {
        let mut i: usize = 0;
        assert(self@.peers.skip(0) =~= self@.peers);
        while i < self.peers.len()
            invariant
                i <= self.peers.len(),
                peer_at(self@.peers, peer@) == i + peer_at(self@.peers.skip(i as int), peer@),
            decreases self.peers.len() - i,
        {
            proof {
                let rest = self@.peers.skip(i as int);
                assert(rest[0] == self.peers[i as int]@);
                assert(rest.drop_first() =~= self@.peers.skip(i + 1));
            }
            if self.peers[i].id.same(peer) {
                return i;
            }
            i = i + 1;
        }
        i
    }

    /// Whether `peer` is connected.
    pub fn is_connected(&self, peer: &PeerId) -> (r: bool)
        ensures
            r == known(self@.peers, peer@),
    {
        self.find(peer) < self.peers.len()
    }

    /// The ledger of `peer`, where it is connected.
    pub fn ledger(&self, peer: &PeerId) -> (r: Option<&Ledger>)
        ensures
            match r {
                Some(ledger) => known(self@.peers, peer@) && ledger@ == self@.peers[peer_at(
                    self@.peers,
                    peer@,
                )].ledger,
                None => !known(self@.peers, peer@),
            },
    {
        let at = self.find(peer);
        if at < self.peers.len() {
            Some(&self.peers[at].ledger)
        } else {
            None
        }
    }

    /// Takes up a peer that has become reachable, and says what it is to be
    /// sent: the whole want-list, where the peer is new and anything is
    /// wanted.
    pub fn connect(&mut self, peer: PeerId) -> (r: Option<Outbound>)
        ensures
            final(self)@ == connected(old(self)@, peer@),
            final(self).policy() == old(self).policy(),
            match r {
                Some(out) => greeting(old(self)@, peer@) == Some(out@),
                None => greeting(old(self)@, peer@) is None,
            },
    {
        if self.find(&peer) < self.peers.len() {
            return None;
        }
        let r = if self.wanted.len() == 0 {
            None
        } else {
            Some(Outbound { peer: peer.clone(), message: whole_list_of(&self.wanted) })
        };
        let state = PeerState {
            id: peer,
            ledger: Ledger::with_sent(self.wanted.copy()),
            queue: SendQueue::new(),
        };
        self.peers.push(state);
        assert(peers_of(self.peers@) =~= peers_of(old(self).peers@).push(state@));
        r
    }

    /// Drops a peer that has become unreachable, with its ledger and its
    /// queue. What this node wants stays wanted, for the next peer.
    pub fn disconnect(&mut self, peer: &PeerId)
        ensures
            final(self)@ == disconnected(old(self)@, peer@),
            final(self).policy() == old(self).policy(),
    {
        let at = self.find(peer);
        if at < self.peers.len() {
            self.peers.remove(at);
            assert(peers_of(self.peers@) =~= peers_of(old(self).peers@).remove(at as int));
        }
    }

    /// Notes `entry` as sent to every connected peer, and gives the messages
    /// that carry it.
    fn tell_all(&mut self, entry: &Entry) -> (out: Vec<Outbound>)
        ensures
            final(self)@.peers == old(self)@.peers.map_values(|p: PeerView| told(p, entry@)),
            final(self)@.wanted == old(self)@.wanted,
            final(self).policy() == old(self).policy(),
            outbound_of(out@) == notes(old(self)@.peers, entry@),
    {
        let mut out: Vec<Outbound> = Vec::new();
        let ghost before = self@.peers;
        let mut i: usize = 0;
        while i < self.peers.len()
            invariant
                i <= self.peers.len(),
                self.peers.len() == before.len(),
                self.wanted == old(self).wanted,
                self.strategy == old(self).strategy,
                out.len() == i,
                forall|t: int| 0 <= t < i ==> (#[trigger] self.peers[t])@ == told(before[t], entry@),
                forall|t: int| i <= t < before.len() ==> (#[trigger] self.peers[t])@ == before[t],
                forall|t: int|
                    0 <= t < i ==> (#[trigger] out[t])@ == (OutboundView {
                        peer: before[t].id,
                        message: note(entry@),
                    }),
            decreases self.peers.len() - i,
        {
            out.push(Outbound { peer: self.peers[i].id.clone(), message: note_of(entry) });
            self.peers[i].ledger.send(entry);
            i = i + 1;
        }
        assert(peers_of(self.peers@) =~= before.map_values(|p: PeerView| told(p, entry@)));
        assert(outbound_of(out@) =~= notes(before, entry@));
        out
    }

    /// Registers that this node wants `cid` at `priority`, and gives the
    /// messages that tell every connected peer. A block that is wanted
    /// already takes the new priority and is not wanted twice.
    pub fn want_block(&mut self, cid: Cid, priority: Priority) -> (out: Vec<Outbound>)
        ensures
            final(self)@ == wanting(old(self)@, cid@, priority),
            final(self).policy() == old(self).policy(),
            outbound_of(out@) == notes(
                old(self)@.peers,
                want_entry(Want { id: cid@, priority }),
            ),
    {
        let entry = Entry { cid: cid.clone(), priority, cancel: false };
        self.wanted.want(cid, priority);
        self.tell_all(&entry)
    }

    /// Registers that this node wants `cid` no longer, and gives the messages
    /// that tell every connected peer. Nothing happens where `cid` was not
    /// wanted.
    pub fn cancel_block(&mut self, cid: &Cid) -> (out: Vec<Outbound>)
        ensures
            final(self)@ == cancelled(old(self)@, cid@),
            final(self).policy() == old(self).policy(),
            outbound_of(out@) == cancel_notes(old(self)@, cid@),
    {
        if self.wanted.cancel(cid) {
            let entry = Entry { cid: cid.clone(), priority: 0, cancel: true };
            self.tell_all(&entry)
        } else {
            proof {
                crate::ledger::lemma_without(old(self)@.wanted, cid@);
            }
            let out: Vec<Outbound> = Vec::new();
            assert(outbound_of(out@) =~= Seq::<OutboundView>::empty());
            out
        }
    }

    /// Takes one block that has come in, and adds to `actions` what is to be
    /// done with it.
    fn take_block(&mut self, block: Block, actions: &mut Vec<Action>)
        ensures
            final(self)@ == cancelled(old(self)@, block@.id),
            final(self).policy() == old(self).policy(),
            actions_of(final(actions)@) == actions_of(old(actions)@) + block_actions(
                old(self)@,
                block@,
            ),
    {
        let ghost start = actions_of(actions@);
        let cid = block.cid().clone();
        let resolved = self.wanted.contains(&cid);
        let notes = self.cancel_block(&cid);
        actions.push(Action::Store(block));
        assert(actions_of(actions@) =~= start + seq![ActionView::Store(block@)]);
        if resolved {
            actions.push(Action::Resolved(cid));
            let ghost mid = actions_of(actions@);
            assert(mid =~= start + seq![ActionView::Store(block@), ActionView::Resolved(cid@)]);
            let ghost sends = outbound_of(notes@);
            let mut i: usize = 0;
            let n: usize = notes.len();
            let mut notes = backwards(notes);
            let ghost reversed = notes@;
            while i < n
                invariant
                    i <= n,
                    n == sends.len(),
                    notes.len() == n - i,
                    reversed.len() == n,
                    forall|t: int| 0 <= t < n ==> (#[trigger] reversed[t])@ == sends[n - 1 - t],
                    notes@ == reversed.subrange(0, n - i),
                    actions_of(actions@) == mid + sends.subrange(0, i as int).map_values(
                        |o: OutboundView| ActionView::Send(o),
                    ),
                decreases n - i,
            {
                let ghost had = actions_of(actions@);
                let next = notes.pop().unwrap();
                assert(next@ == sends[i as int]);
                actions.push(Action::Send(next));
                assert(actions_of(actions@) =~= had + seq![ActionView::Send(sends[i as int])]);
                assert(sends.subrange(0, i + 1).map_values(|o: OutboundView| ActionView::Send(o))
                    =~= sends.subrange(0, i as int).map_values(
                    |o: OutboundView| ActionView::Send(o),
                ) + seq![ActionView::Send(sends[i as int])]);
                i = i + 1;
            }
            assert(sends.subrange(0, n as int) =~= sends);
        }
    }

    /// Takes one entry of the want-list of the peer at place `at`.
    fn hear(&mut self, at: usize, entry: &Entry, store: &FsBlockStore)
        requires
            at < old(self)@.peers.len(),
        ensures
            final(self)@.peers == old(self)@.peers.update(
                at as int,
                heard(
                    old(self)@.peers[at as int],
                    entry@,
                    serving(old(self).policy(), old(self)@.peers[at as int].id, store@)(
                        entry@.id,
                        entry@.priority,
                    ),
                ),
            ),
            final(self)@.wanted == old(self)@.wanted,
            final(self).policy() == old(self).policy(),
    {
        self.peers[at].ledger.receive(entry);
        if entry.cancel {
            self.peers[at].queue.drop_block(&entry.cid);
        } else if self.strategy.allow(&self.peers[at].id, &entry.cid, entry.priority)
            && store.contains(&entry.cid) {
            self.peers[at].queue.schedule(
                WantEntry { cid: entry.cid.clone(), priority: entry.priority },
            );
        }
        assert(peers_of(self.peers@) =~= peers_of(old(self).peers@).update(
            at as int,
            self.peers[at as int]@,
        ));
    }

    /// Takes a message that has come in from `peer`, and says what is to be
    /// done. The peer is taken up first where it was not connected. Each
    /// block is to be stored, wanted or not; a block that was wanted resolves
    /// its want, which is then cancelled with every peer. Each entry of the
    /// peer's want-list is noted in its ledger; a block that it wants becomes
    /// due where the policy allows it and `store` holds it.
    pub fn receive(&mut self, peer: &PeerId, message: Message, store: &FsBlockStore) -> (actions:
        Vec<Action>)
        ensures
            final(self)@ == received(
                old(self)@,
                peer@,
                message@,
                serving(old(self).policy(), peer@, store@),
            ).0,
            actions_of(actions@) == received(
                old(self)@,
                peer@,
                message@,
                serving(old(self).policy(), peer@, store@),
            ).1,
            final(self).policy() == old(self).policy(),
    {
        let ghost serve = serving(self.policy(), peer@, store@);
        let ghost shown = message@;
        let mut actions: Vec<Action> = Vec::new();
        match self.connect(peer.clone()) {
            Some(out) => {
                actions.push(Action::Send(out));
            },
            None => {},
        }
        let ghost first = actions_of(actions@);
        assert(first =~= match greeting(old(self)@, peer@) {
            Some(out) => seq![ActionView::Send(out)],
            None => Seq::empty(),
        });
        let ghost s0 = self@;
        let Message { entries, full, blocks } = message;
        let n: usize = blocks.len();
        let mut blocks = backwards(blocks);
        let ghost reversed = blocks@;
        let mut i: usize = 0;
        while i < n
            invariant
                i <= n,
                n == shown.blocks.len(),
                blocks.len() == n - i,
                reversed.len() == n,
                forall|t: int| 0 <= t < n ==> (#[trigger] reversed[t])@ == shown.blocks[n - 1 - t],
                blocks@ == reversed.subrange(0, n - i),
                self@ == after_blocks(s0, shown.blocks.subrange(0, i as int)).0,
                actions_of(actions@) == first + after_blocks(
                    s0,
                    shown.blocks.subrange(0, i as int),
                ).1,
                self.policy() == old(self).policy(),
            decreases n - i,
        {
            let block = blocks.pop().unwrap();
            proof {
                let upto = shown.blocks.subrange(0, i + 1);
                assert(upto.drop_last() =~= shown.blocks.subrange(0, i as int));
                assert(upto.last() == block@);
            }
            let ghost now = self@;
            self.take_block(block, &mut actions);
            assert(actions_of(actions@) =~= first + (after_blocks(
                s0,
                shown.blocks.subrange(0, i as int),
            ).1 + block_actions(now, block@)));
            i = i + 1;
        }
        assert(shown.blocks.subrange(0, n as int) =~= shown.blocks);
        let ghost s1 = self@;
        proof {
            lemma_connected_known(old(self)@, peer@);
            lemma_after_blocks_peers(s0, shown.blocks, peer@);
        }
        let at = self.find(peer);
        if full {
            self.peers[at].ledger.forget_received();
            self.peers[at].queue = SendQueue::new();
        }
        assert(self.peers[at as int]@ == reset(s1.peers[at as int], full));
        let ghost start = self.peers[at as int]@;
        let mut k: usize = 0;
        while k < entries.len()
            invariant
                k <= entries.len(),
                at < self@.peers.len(),
                entries_view(entries@) == shown.entries,
                self@.wanted == s1.wanted,
                start.id == peer@,
                self@.peers == s1.peers.update(
                    at as int,
                    after_entries(start, shown.entries.subrange(0, k as int), serve),
                ),
                at < s1.peers.len(),
                serve == serving(old(self).policy(), peer@, store@),
                self.policy() == old(self).policy(),
            decreases entries.len() - k,
        {
            proof {
                let upto = shown.entries.subrange(0, k + 1);
                assert(upto.drop_last() =~= shown.entries.subrange(0, k as int));
                assert(upto.last() == entries[k as int]@);
                lemma_after_entries_id(start, shown.entries.subrange(0, k as int), serve);
            }
            self.hear(at, &entries[k], store);
            k = k + 1;
        }
        assert(shown.entries.subrange(0, k as int) =~= shown.entries);
        actions
    }

    /// Hands out the next block that is due: to the first peer, in the order
    /// of connecting, to which any is due, the first block of its queue. The
    /// caller reads the block from the store and sends it.
    pub fn next_send(&mut self) -> (r: Option<(PeerId, Cid)>)
        ensures
            final(self)@ == served(old(self)@),
            final(self).policy() == old(self).policy(),
            match r {
                Some((peer, cid)) => due_at(old(self)@.peers) < old(self)@.peers.len() && peer@
                    == old(self)@.peers[due_at(old(self)@.peers)].id && cid@ == old(
                    self,
                )@.peers[due_at(old(self)@.peers)].queue[0].id,
                None => due_at(old(self)@.peers) == old(self)@.peers.len(),
            },
    {
        let mut i: usize = 0;
        assert(self@.peers.skip(0) =~= self@.peers);
        while i < self.peers.len()
            invariant
                i <= self.peers.len(),
                self.peers == old(self).peers,
                self.wanted == old(self).wanted,
                self.strategy == old(self).strategy,
                due_at(self@.peers) == i + due_at(self@.peers.skip(i as int)),
            decreases self.peers.len() - i,
        {
            proof {
                let rest = self@.peers.skip(i as int);
                assert(rest[0] == self.peers[i as int]@);
                assert(rest.drop_first() =~= self@.peers.skip(i + 1));
            }
            if self.peers[i].queue.len() > 0 {
                let entry = self.peers[i].queue.pop().unwrap();
                self.peers[i].ledger.served(&entry.cid);
                assert(peers_of(self.peers@) =~= peers_of(old(self).peers@).update(
                    i as int,
                    self.peers[i as int]@,
                ));
                return Some((self.peers[i].id.clone(), entry.cid));
            }
            i = i + 1;
        }
        None
    }
}

/// The entries that `entries` stand for.
pub open spec fn entries_view(entries: Seq<Entry>) -> Seq<EntryView> {
    entries.map_values(|e: Entry| e@)
}

/// A peer is connected once it has connected.
pub proof fn lemma_connected_known(s: SessionView, peer: Seq<u8>)
    ensures
        known(connected(s, peer).peers, peer),
        connected(s, peer).peers[peer_at(connected(s, peer).peers, peer)].id == peer,
        distinct_peers(s.peers) ==> distinct_peers(connected(s, peer).peers),
{
    lemma_peer_at(s.peers, peer);
    let now = connected(s, peer).peers;
    if !known(s.peers, peer) {
        lemma_peer_at_push(s.peers, now.last());
    }
    lemma_peer_at(now, peer);
    if distinct_peers(s.peers) && !known(s.peers, peer) {
        assert forall|i: int, j: int| 0 <= i < j < now.len() implies (#[trigger] now[i]).id != (
        #[trigger] now[j]).id by {
            if j < s.peers.len() {
                assert(s.peers[i].id != s.peers[j].id);
            } else {
                assert(s.peers[i].id != peer);
            }
        }
    }
}

/// A peer pushed behind peers among which it is not stands at the end.
proof fn lemma_peer_at_push(peers: Seq<PeerView>, last: PeerView)
    requires
        !known(peers, last.id),
    ensures
        peer_at(peers.push(last), last.id) == peers.len(),
    decreases peers.len(),
{
    let now = peers.push(last);
    if peers.len() > 0 {
        lemma_peer_at(peers, last.id);
        assert(peers[0].id != last.id);
        assert(now.drop_first() =~= peers.drop_first().push(last));
        lemma_peer_at_push(peers.drop_first(), last);
    } else {
        assert(now.drop_first().len() == 0);
    }
}

/// Blocks that come in change no peer's place or identity.
pub proof fn lemma_after_blocks_peers(s: SessionView, blocks: Seq<BlockView>, peer: Seq<u8>)
    ensures
        after_blocks(s, blocks).0.peers.len() == s.peers.len(),
        forall|i: int|
            0 <= i < s.peers.len() ==> (#[trigger] after_blocks(s, blocks).0.peers[i]).id
                == s.peers[i].id,
        peer_at(after_blocks(s, blocks).0.peers, peer) == peer_at(s.peers, peer),
    decreases blocks.len(),
{
    if blocks.len() > 0 {
        lemma_after_blocks_peers(s, blocks.drop_last(), peer);
        let before = after_blocks(s, blocks.drop_last()).0;
        let now = after_blocks(s, blocks).0;
        assert(now.peers.len() == before.peers.len());
        assert forall|i: int| 0 <= i < s.peers.len() implies (#[trigger] now.peers[i]).id
            == s.peers[i].id by {
            assert(before.peers[i].id == s.peers[i].id);
        }
        lemma_same_ids(before.peers, now.peers, peer);
    }
}

/// The place of a peer depends on the identities alone.
pub proof fn lemma_same_ids(a: Seq<PeerView>, b: Seq<PeerView>, peer: Seq<u8>)
    requires
        a.len() == b.len(),
        forall|i: int| 0 <= i < a.len() ==> (#[trigger] a[i]).id == b[i].id,
    ensures
        peer_at(a, peer) == peer_at(b, peer),
    decreases a.len(),
{
    if a.len() > 0 {
        assert(a[0].id == b[0].id);
        if a[0].id != peer {
            assert forall|i: int| 0 <= i < a.drop_first().len() implies (
            #[trigger] a.drop_first()[i]).id == b.drop_first()[i].id by {
                assert(a[i + 1].id == b[i + 1].id);
            }
            lemma_same_ids(a.drop_first(), b.drop_first(), peer);
        }
    }
}

/// Entries that come in leave the peer its identity.
pub proof fn lemma_after_entries_id(
    peer: PeerView,
    entries: Seq<EntryView>,
    serve: spec_fn(Seq<u8>, Priority) -> bool,
)
    ensures
        after_entries(peer, entries, serve).id == peer.id,
    decreases entries.len(),
{
    if entries.len() > 0 {
        lemma_after_entries_id(peer, entries.drop_last(), serve);
    }
}

/// Blocks that come in make nothing wanted that was not.
pub proof fn lemma_after_blocks_wanted(s: SessionView, blocks: Seq<BlockView>, id: Seq<u8>)
    requires
        !resolves(s, id),
    ensures
        !resolves(after_blocks(s, blocks).0, id),
    decreases blocks.len(),
{
    if blocks.len() > 0 {
        lemma_after_blocks_wanted(s, blocks.drop_last(), id);
        let before = after_blocks(s, blocks.drop_last()).0;
        crate::ledger::lemma_without(before.wanted, blocks.last().id);
    }
}

/// No spurious resolution: once the want of `id` is cancelled, a block `id`
/// that comes in resolves nothing. It is stored and that is all.
pub proof fn lemma_cancel_prevents_resolution(s: SessionView, block: BlockView)
    ensures
        !resolves(cancelled(s, block.id), block.id),
        block_actions(cancelled(s, block.id), block) == seq![ActionView::Store(block)],
        cancelled(cancelled(s, block.id), block.id) == cancelled(s, block.id),
{
    crate::ledger::lemma_without(s.wanted, block.id);
}

/// What is not wanted stays so, whatever happens but a new want of it: a
/// peer that connects or goes, a want or a cancellation of another block, a
/// message that comes in, a block that is handed out.
pub proof fn lemma_unwanted_stays(
    s: SessionView,
    id: Seq<u8>,
    other: Seq<u8>,
    priority: Priority,
    peer: Seq<u8>,
    message: MessageView,
    serve: spec_fn(Seq<u8>, Priority) -> bool,
)
    requires
        !resolves(s, id),
        other != id,
    ensures
        !resolves(connected(s, peer), id),
        !resolves(disconnected(s, peer), id),
        !resolves(wanting(s, other, priority), id),
        !resolves(cancelled(s, other), id),
        !resolves(cancelled(s, id), id),
        !resolves(received(s, peer, message, serve).0, id),
        !resolves(served(s), id),
{
    lemma_upsert(s.wanted, other, priority);
    crate::ledger::lemma_without(s.wanted, other);
    crate::ledger::lemma_without(s.wanted, id);
    lemma_after_blocks_wanted(connected(s, peer), message.blocks, id);
}

/// Wanting is idempotent in what is wanted: a block wanted again is not
/// wanted twice, and takes the priority given last.
pub proof fn lemma_want_again(s: SessionView, id: Seq<u8>, first: Priority, second: Priority)
    requires
        unique(s.wanted),
    ensures
        unique(wanting(s, id, first).wanted),
        resolves(wanting(s, id, first), id),
        wanting(wanting(s, id, first), id, second).wanted == wanting(s, id, second).wanted,
        wanting(wanting(s, id, first), id, second).wanted.len() == wanting(s, id, first).wanted.len(),
{
    lemma_upsert(s.wanted, id, first);
    let once = upsert(s.wanted, id, first);
    lemma_upsert(once, id, second);
    lemma_place(s.wanted, id);
    lemma_place(once, id);
    let at = place(s.wanted, id);
    if at < s.wanted.len() {
        assert(once[at].id == id);
        assert(place(once, id) == at) by {
            if place(once, id) < at {
                assert(once[place(once, id)] == s.wanted[place(once, id)]);
            }
        }
    } else {
        assert(once[s.wanted.len() as int].id == id);
        assert(place(once, id) == s.wanted.len()) by {
            if place(once, id) < s.wanted.len() {
                assert(once[place(once, id)] == s.wanted[place(once, id)]);
            }
        }
    }
    assert(upsert(once, id, second) =~= upsert(s.wanted, id, second));
}

/// Whether what is kept for a peer fits what this node wants: the peer has
/// been told exactly that, each block that it wants is noted once, and the
/// blocks due to it stand once each, by descending priority.
pub open spec fn peer_coherent(p: PeerView, wanted: Seq<Want>) -> bool {
    &&& p.ledger.sent == wanted
    &&& unique(p.ledger.received)
    &&& unique(p.queue)
    &&& descending(p.queue)
}

/// Whether the session is coherent: no block is wanted twice, no peer is
/// connected twice, and what is kept for each peer fits.
pub open spec fn coherent(s: SessionView) -> bool {
    &&& unique(s.wanted)
    &&& distinct_peers(s.peers)
    &&& forall|i: int| 0 <= i < s.peers.len() ==> peer_coherent(#[trigger] s.peers[i], s.wanted)
}

/// A session starts coherent and stays so, whatever happens; and a peer that
/// has gone is connected no longer.
pub proof fn lemma_coherent(
    s: SessionView,
    id: Seq<u8>,
    priority: Priority,
    peer: Seq<u8>,
    message: MessageView,
    serve: spec_fn(Seq<u8>, Priority) -> bool,
)
    requires
        coherent(s),
    ensures
        coherent(SessionView { peers: Seq::empty(), wanted: Seq::empty() }),
        coherent(connected(s, peer)),
        coherent(disconnected(s, peer)),
        !known(disconnected(s, peer).peers, peer),
        coherent(wanting(s, id, priority)),
        coherent(cancelled(s, id)),
        coherent(received(s, peer, message, serve).0),
        coherent(served(s)),
{
    lemma_connected_known(s, peer);
    let joined = connected(s, peer);
    assert forall|i: int| 0 <= i < joined.peers.len() implies peer_coherent(
        #[trigger] joined.peers[i],
        joined.wanted,
    ) by {
        if i < s.peers.len() {
            assert(peer_coherent(s.peers[i], s.wanted));
        }
    }
    lemma_gone(s, peer);
    lemma_broadcast_coherent(s, want_entry(Want { id, priority }));
    lemma_broadcast_coherent(s, cancel_entry(id));
    lemma_received_coherent(s, peer, message, serve);
    lemma_served_coherent(s);
}

/// A peer that goes leaves the session coherent, and is connected no longer.
proof fn lemma_gone(s: SessionView, peer: Seq<u8>)
    requires
        coherent(s),
    ensures
        coherent(disconnected(s, peer)),
        !known(disconnected(s, peer).peers, peer),
{
    lemma_peer_at(s.peers, peer);
    let gone = disconnected(s, peer).peers;
    if known(s.peers, peer) {
        let at = peer_at(s.peers, peer);
        assert forall|i: int| 0 <= i < gone.len() implies peer_coherent(
            #[trigger] gone[i],
            s.wanted,
        ) by {
            let a = if i < at { i } else { i + 1 };
            assert(gone[i] == s.peers[a]);
            assert(peer_coherent(s.peers[a], s.wanted));
        }
        assert forall|i: int, j: int| 0 <= i < j < gone.len() implies (#[trigger] gone[i]).id != (
        #[trigger] gone[j]).id by {
            let a = if i < at { i } else { i + 1 };
            let b = if j < at { j } else { j + 1 };
            assert(gone[i] == s.peers[a]);
            assert(gone[j] == s.peers[b]);
        }
        lemma_peer_at(gone, peer);
        if known(gone, peer) {
            let j = peer_at(gone, peer);
            let b = if j < at { j } else { j + 1 };
            assert(gone[j] == s.peers[b]);
            if b < at {
                assert(s.peers[b].id != s.peers[at].id);
            } else {
                assert(s.peers[at].id != s.peers[b].id);
            }
        }
    }
}

/// An entry that goes out to every peer leaves the session coherent.
proof fn lemma_broadcast_coherent(s: SessionView, entry: EntryView)
    requires
        coherent(s),
    ensures
        coherent(broadcast(s, entry)),
{
    let now = broadcast(s, entry);
    crate::ledger::lemma_applied(s.wanted, entry);
    lemma_same_ids_distinct(s.peers, now.peers);
    assert forall|i: int| 0 <= i < now.peers.len() implies peer_coherent(
        #[trigger] now.peers[i],
        now.wanted,
    ) by {
        assert(peer_coherent(s.peers[i], s.wanted));
    }
}

/// Blocks that come in leave the session coherent.
proof fn lemma_after_blocks_coherent(s: SessionView, blocks: Seq<BlockView>)
    requires
        coherent(s),
    ensures
        coherent(after_blocks(s, blocks).0),
    decreases blocks.len(),
{
    if blocks.len() > 0 {
        lemma_after_blocks_coherent(s, blocks.drop_last());
        let before = after_blocks(s, blocks.drop_last()).0;
        lemma_broadcast_coherent(before, cancel_entry(blocks.last().id));
    }
}

/// Entries that come in from a peer leave what is kept for it coherent.
proof fn lemma_after_entries_coherent(
    p: PeerView,
    entries: Seq<EntryView>,
    serve: spec_fn(Seq<u8>, Priority) -> bool,
    wanted: Seq<Want>,
)
    requires
        peer_coherent(p, wanted),
    ensures
        peer_coherent(after_entries(p, entries, serve), wanted),
        after_entries(p, entries, serve).id == p.id,
    decreases entries.len(),
{
    if entries.len() > 0 {
        lemma_after_entries_coherent(p, entries.drop_last(), serve, wanted);
        let before = after_entries(p, entries.drop_last(), serve);
        let e = entries.last();
        crate::ledger::lemma_applied(before.ledger.received, e);
        crate::ledger::lemma_without(before.queue, e.id);
        crate::strategy::lemma_without_descending(before.queue, e.id);
        crate::strategy::lemma_scheduled(before.queue, Want { id: e.id, priority: e.priority });
    }
}

/// A message that comes in leaves the session coherent.
proof fn lemma_received_coherent(
    s: SessionView,
    peer: Seq<u8>,
    message: MessageView,
    serve: spec_fn(Seq<u8>, Priority) -> bool,
)
    requires
        coherent(s),
    ensures
        coherent(received(s, peer, message, serve).0),
{
    lemma_connected_known(s, peer);
    let s0 = connected(s, peer);
    assert(coherent(s0)) by {
        assert forall|i: int| 0 <= i < s0.peers.len() implies peer_coherent(
            #[trigger] s0.peers[i],
            s0.wanted,
        ) by {
            if i < s.peers.len() {
                assert(peer_coherent(s.peers[i], s.wanted));
            }
        }
    }
    lemma_after_blocks_coherent(s0, message.blocks);
    lemma_after_blocks_peers(s0, message.blocks, peer);
    let s1 = after_blocks(s0, message.blocks).0;
    let at = peer_at(s1.peers, peer);
    lemma_peer_at(s1.peers, peer);
    assert(peer_coherent(s1.peers[at], s1.wanted));
    let start = reset(s1.peers[at], message.full);
    lemma_after_entries_coherent(start, message.entries, serve, s1.wanted);
    let now = received(s, peer, message, serve).0;
    lemma_same_ids_distinct(s1.peers, now.peers);
    assert forall|i: int| 0 <= i < now.peers.len() implies peer_coherent(
        #[trigger] now.peers[i],
        now.wanted,
    ) by {
        if i != at {
            assert(peer_coherent(s1.peers[i], s1.wanted));
        }
    }
}

/// A block that is handed out leaves the session coherent.
proof fn lemma_served_coherent(s: SessionView)
    requires
        coherent(s),
    ensures
        coherent(served(s)),
{
    lemma_due_at(s.peers);
    let at = due_at(s.peers);
    let now = served(s);
    lemma_same_ids_distinct(s.peers, now.peers);
    if at < s.peers.len() {
        let p = s.peers[at];
        assert(peer_coherent(p, s.wanted));
        crate::ledger::lemma_without(p.ledger.received, p.queue[0].id);
        let rest = p.queue.drop_first();
        assert forall|i: int, j: int| 0 <= i < j < rest.len() implies (#[trigger] rest[i]).id != (
        #[trigger] rest[j]).id && rest[i].priority >= rest[j].priority by {
            assert(p.queue[i + 1].id != p.queue[j + 1].id);
            assert(p.queue[i + 1].priority >= p.queue[j + 1].priority);
        }
        assert forall|i: int| 0 <= i < now.peers.len() implies peer_coherent(
            #[trigger] now.peers[i],
            now.wanted,
        ) by {
            if i != at {
                assert(peer_coherent(s.peers[i], s.wanted));
            }
        }
    }
}

/// Whether no peer occurs twice depends on the identities alone.
proof fn lemma_same_ids_distinct(a: Seq<PeerView>, b: Seq<PeerView>)
    requires
        a.len() == b.len(),
        forall|i: int| 0 <= i < a.len() ==> (#[trigger] a[i]).id == b[i].id,
        distinct_peers(a),
    ensures
        distinct_peers(b),
{
    assert forall|i: int, j: int| 0 <= i < j < b.len() implies (#[trigger] b[i]).id != (
    #[trigger] b[j]).id by {
        assert(a[i].id != a[j].id);
    }
}

/// `due_at` finds the first peer to which a block is due, where there is
/// one.
pub proof fn lemma_due_at(peers: Seq<PeerView>)
    ensures
        0 <= due_at(peers) <= peers.len(),
        forall|i: int| 0 <= i < due_at(peers) ==> (#[trigger] peers[i]).queue.len() == 0,
        due_at(peers) < peers.len() ==> peers[due_at(peers)].queue.len() > 0,
    decreases peers.len(),
{
    if peers.len() > 0 && peers[0].queue.len() == 0 {
        let rest = peers.drop_first();
        lemma_due_at(rest);
        assert forall|i: int| 0 <= i < due_at(peers) implies (#[trigger] peers[i]).queue.len()
            == 0 by {
            if i > 0 {
                assert(rest[i - 1].queue.len() == 0);
            }
        }
        if due_at(rest) < rest.len() {
            assert(peers[due_at(rest) + 1] == rest[due_at(rest)]);
        }
    }
}

} // verus!
