//! The node's behaviour towards the network: it takes the events of the
//! services around the exchange (discovery on the local network, the
//! distributed hash table, liveness, metadata, publish/subscribe) and says what
//! follows from each for the exchange session.
//!
//! The services themselves run outside; their events come in as one
//! enumerated type, and what is to be done goes out as actions.

use crate::bitswap::{
    actions_of, cancel_notes, cancelled, coherent, connected, disconnected, due_at, greeting,
    known, lemma_coherent, lemma_connected_known, lemma_peer_at, notes, outbound_of, peer_at,
    received, served, serving, want_entry, wanting, Action, Bitswap, Outbound, SessionView,
};
use crate::fs::FsBlockStore;
use crate::cid::Cid;
use crate::index::CidSet;
use crate::ledger::{Priority, Want};
use crate::message::{Message, MessageView};
use crate::peer::PeerId;
use crate::strategy::Strategy;
use vstd::prelude::*;

verus! {

/// The priority at which `Behaviour::want_block` wants a block.
pub const WANT_PRIORITY: Priority = 1;

/// The protocol version that the node states of itself to its peers.
pub fn identify_protocol_version() -> (r: &'static str)
    ensures
        r@ == "/ipfs/0.1.0"@,
{
    "/ipfs/0.1.0"
}

/// The agent that the node states of itself to its peers.
pub fn identify_agent_version() -> (r: &'static str)
    ensures
        r@ == "rust-ipfs"@,
{
    "rust-ipfs"
}

/// A peer whose record on the local network has run out, and whether the
/// discovery service still knows the peer by another record.
#[derive(Debug, PartialEq, Eq)]
pub struct Expiry {
    /// The peer.
    pub peer: PeerId,
    /// Whether the peer is still known.
    pub still_known: bool,
}

/// How a liveness probe ended.
#[derive(Debug, PartialEq, Eq, Structural, Clone, Copy)]
pub enum PingOutcome {
    /// The peer answered, after so many milliseconds.
    Ping { rtt_millis: u64 },
    /// This node answered the peer.
    Pong,
    /// The peer did not answer in time.
    Timeout,
    /// The probe failed otherwise.
    Failure,
}

/// An event of one of the services around the exchange.
#[derive(Debug, PartialEq, Eq)]
pub enum SwarmEvent {
    /// Peers were found on the local network.
    MdnsDiscovered(Vec<PeerId>),
    /// Records of peers on the local network ran out.
    MdnsExpired(Vec<Expiry>),
    /// The hash table came to know a peer.
    KadDiscovered(PeerId),
    /// A query for the providers of a key ended: with these providers, and
    /// these peers closest to the key.
    KadProviders { key: Vec<u8>, providers: Vec<PeerId>, closest_peers: Vec<PeerId> },
    /// A query for the providers of a key ran out of time.
    KadProvidersTimeout { key: Vec<u8> },
    /// Any other event of the hash table.
    KadOther,
    /// A liveness probe of a peer ended.
    Ping { peer: PeerId, outcome: PingOutcome },
    /// A peer's metadata came in.
    Identify,
    /// An event of publish/subscribe.
    Floodsub,
    /// A peer can be reached no longer.
    Unreachable(PeerId),
}

/// What is to be done after an event.
#[derive(Debug, PartialEq, Eq)]
pub enum BehaviourAction {
    /// Open a connection to the peer, and send it the message if there is
    /// one.
    Dial { peer: PeerId, message: Option<Message> },
    /// Take the peer into the partial view of publish/subscribe.
    AddToPartialView(PeerId),
    /// Take the peer out of the partial view of publish/subscribe.
    RemoveFromPartialView(PeerId),
}

/// An action as contracts speak of it.
pub enum BehaviourActionView {
    Dial { peer: Seq<u8>, message: Option<MessageView> },
    AddToPartialView(Seq<u8>),
    RemoveFromPartialView(Seq<u8>),
}

impl View for BehaviourAction {
    type V = BehaviourActionView;

    open spec fn view(&self) -> BehaviourActionView {
        match self {
            BehaviourAction::Dial { peer, message } => BehaviourActionView::Dial {
                peer: peer@,
                message: match message {
                    Some(m) => Some(m@),
                    None => None,
                },
            },
            BehaviourAction::AddToPartialView(peer) => BehaviourActionView::AddToPartialView(peer@),
            BehaviourAction::RemoveFromPartialView(peer) => BehaviourActionView::RemoveFromPartialView(
                peer@,
            ),
        }
    }
}

/// The actions that `actions` stand for.
pub open spec fn shown(actions: Seq<BehaviourAction>) -> Seq<BehaviourActionView> {
    actions.map_values(|a: BehaviourAction| a@)
}

/// The peers that `peers` stand for.
pub open spec fn ids(peers: Seq<PeerId>) -> Seq<Seq<u8>> {
    peers.map_values(|p: PeerId| p@)
}

/// What follows when a peer becomes reachable: a peer that is not connected
/// is dialled, with the whole want-list where anything is wanted.
pub open spec fn dial(s: SessionView, peer: Seq<u8>) -> Seq<BehaviourActionView> {
    if known(s.peers, peer) {
        Seq::empty()
    } else {
        seq![
            BehaviourActionView::Dial {
                peer,
                message: match greeting(s, peer) {
                    Some(out) => Some(out.message),
                    None => None,
                },
            },
        ]
    }
}

/// The session and the actions after peers were found on the local network:
/// each in turn is connected and taken into the partial view.
pub open spec fn found(s: SessionView, peers: Seq<Seq<u8>>) -> (SessionView, Seq<
    BehaviourActionView,
>)
    decreases peers.len(),
{
    if peers.len() == 0 {
        (s, Seq::empty())
    } else {
        let (before, actions) = found(s, peers.drop_last());
        let peer = peers.last();
        (
            connected(before, peer),
            actions + dial(before, peer) + seq![BehaviourActionView::AddToPartialView(peer)],
        )
    }
}

/// The session and the actions after the peers closest to a key came in: each
/// in turn is connected.
pub open spec fn reached(s: SessionView, peers: Seq<Seq<u8>>) -> (SessionView, Seq<
    BehaviourActionView,
>)
    decreases peers.len(),
{
    if peers.len() == 0 {
        (s, Seq::empty())
    } else {
        let (before, actions) = reached(s, peers.drop_last());
        let peer = peers.last();
        (connected(before, peer), actions + dial(before, peer))
    }
}

/// The actions after records ran out: a peer that is known no longer leaves
/// the partial view.
pub open spec fn expired(list: Seq<Expiry>) -> Seq<BehaviourActionView>
    decreases list.len(),
{
    if list.len() == 0 {
        Seq::empty()
    } else {
        let last = list.last();
        expired(list.drop_last()) + if last.still_known {
            Seq::empty()
        } else {
            seq![BehaviourActionView::RemoveFromPartialView(last.peer@)]
        }
    }
}

/// The session and the actions after `event`. Peers found on the local
/// network are connected and taken into the partial view. Where a query found
/// providers, the peers closest to the key are connected. A peer that cannot
/// be reached is dropped. The other events change nothing.
pub open spec fn after_event(s: SessionView, event: SwarmEvent) -> (SessionView, Seq<
    BehaviourActionView,
>) {
    match event {
        SwarmEvent::MdnsDiscovered(peers) => found(s, ids(peers@)),
        SwarmEvent::MdnsExpired(list) => (s, expired(list@)),
        SwarmEvent::KadProviders { key, providers, closest_peers } => if providers@.len() == 0 {
            (s, Seq::empty())
        } else {
            reached(s, ids(closest_peers@))
        },
        SwarmEvent::Unreachable(peer) => (disconnected(s, peer@), Seq::empty()),
        _ => (s, Seq::empty()),
    }
}

/// What a node is made with.
#[derive(Debug)]
pub struct SwarmOptions {
    /// The identity of this node.
    pub peer_id: PeerId,
}

/// The behaviour as contracts speak of it.
pub struct BehaviourView {
    /// The exchange session.
    pub session: SessionView,
    /// The blocks that this node has said it provides.
    pub providing: Set<Seq<u8>>,
}

/// The behaviour of a node, with the serving policy `S`.
#[derive(Debug)]
pub struct Behaviour<S: Strategy> {
    local: PeerId,
    bitswap: Bitswap<S>,
    providing: CidSet,
}

impl<S: Strategy> View for Behaviour<S> {
    type V = BehaviourView;

    closed spec fn view(&self) -> BehaviourView {
        BehaviourView { session: self.bitswap@, providing: self.providing@ }
    }
}

impl<S: Strategy> Behaviour<S> {
    /// The serving policy.
    pub closed spec fn policy(&self) -> S {
        self.bitswap.policy()
    }

    /// The identity of the node.
    pub closed spec fn local(&self) -> Seq<u8> {
        self.local@
    }

    /// The behaviour of a node that has met no peer, wants nothing and
    /// provides nothing.
    pub fn new(options: &SwarmOptions, strategy: S) -> (r: Behaviour<S>)
        ensures
            r@.session.peers.len() == 0,
            r@.session.wanted.len() == 0,
            r@.providing == Set::<Seq<u8>>::empty(),
            r.policy() == strategy,
            r.local() == options.peer_id@,
    {
        Behaviour {
            local: options.peer_id.clone(),
            bitswap: Bitswap::new(strategy),
            providing: CidSet::new(),
        }
    }

    /// The exchange session.
    pub fn session(&self) -> (r: &Bitswap<S>)
        ensures
            r@ == self@.session,
            r.policy() == self.policy(),
    {
        &self.bitswap
    }

    /// Registers that this node wants the block `cid` no longer, and gives
    /// the messages that tell every connected peer.
    pub fn cancel_block(&mut self, cid: &Cid) -> (out: Vec<Outbound>)
        ensures
            final(self)@.session == cancelled(old(self)@.session, cid@),
            final(self)@.providing == old(self)@.providing,
            final(self).policy() == old(self).policy(),
            final(self).local() == old(self).local(),
            outbound_of(out@) == cancel_notes(old(self)@.session, cid@),
    {
        self.bitswap.cancel_block(cid)
    }

    /// Takes a message that has come in from `peer`, and says what is to be
    /// done.
    pub fn receive(&mut self, peer: &PeerId, message: Message, store: &FsBlockStore) -> (actions:
        Vec<Action>)
        ensures
            final(self)@.session == received(
                old(self)@.session,
                peer@,
                message@,
                serving(old(self).policy(), peer@, store@),
            ).0,
            actions_of(actions@) == received(
                old(self)@.session,
                peer@,
                message@,
                serving(old(self).policy(), peer@, store@),
            ).1,
            final(self)@.providing == old(self)@.providing,
            final(self).policy() == old(self).policy(),
            final(self).local() == old(self).local(),
    {
        self.bitswap.receive(peer, message, store)
    }

    /// Hands out the next block that is due to a peer.
    pub fn next_send(&mut self) -> (r: Option<(PeerId, Cid)>)
        ensures
            final(self)@.session == served(old(self)@.session),
            final(self)@.providing == old(self)@.providing,
            final(self).policy() == old(self).policy(),
            final(self).local() == old(self).local(),
            match r {
                Some((peer, cid)) => due_at(old(self)@.session.peers) < old(
                    self,
                )@.session.peers.len() && peer@ == old(self)@.session.peers[due_at(
                    old(self)@.session.peers,
                )].id && cid@ == old(self)@.session.peers[due_at(
                    old(self)@.session.peers,
                )].queue[0].id,
                None => due_at(old(self)@.session.peers) == old(self)@.session.peers.len(),
            },
    {
        self.bitswap.next_send()
    }

    /// The identity of the node.
    pub fn local_peer_id(&self) -> (r: &PeerId)
        ensures
            r@ == self.local(),
    {
        &self.local
    }

    /// Connects to one peer that has become reachable, and adds the dialling
    /// to `actions` where the peer is new.
    fn reach(&mut self, peer: &PeerId, actions: &mut Vec<BehaviourAction>)
        ensures
            final(self)@.session == connected(old(self)@.session, peer@),
            final(self)@.providing == old(self)@.providing,
            final(self).policy() == old(self).policy(),
            final(self).local() == old(self).local(),
            shown(final(actions)@) == shown(old(actions)@) + dial(old(self)@.session, peer@),
    {
        let new = !self.bitswap.is_connected(peer);
        let first = self.bitswap.connect(peer.clone());
        if new {
            let message = match first {
                Some(out) => Some(out.message),
                None => None,
            };
            let ghost before = shown(actions@);
            let action = BehaviourAction::Dial { peer: peer.clone(), message };
            actions.push(action);
            assert(shown(actions@) =~= before + seq![action@]);
        } else {
            assert(shown(actions@) =~= shown(actions@) + Seq::<BehaviourActionView>::empty());
        }
    }

    /// Takes an event of one of the services around the exchange, and says
    /// what is to be done.
    pub fn inject_event(&mut self, event: SwarmEvent) -> (actions: Vec<BehaviourAction>)
        ensures
            final(self)@.session == after_event(old(self)@.session, event).0,
            shown(actions@) == after_event(old(self)@.session, event).1,
            final(self)@.providing == old(self)@.providing,
            final(self).policy() == old(self).policy(),
            final(self).local() == old(self).local(),
    {
        let mut actions: Vec<BehaviourAction> = Vec::new();
        assert(shown(actions@) =~= Seq::<BehaviourActionView>::empty());
        match event {
            SwarmEvent::MdnsDiscovered(peers) => {
                let ghost start = self@.session;
                let mut i: usize = 0;
                while i < peers.len()
                    invariant
                        i <= peers.len(),
                        self@.session == found(start, ids(peers@).subrange(0, i as int)).0,
                        shown(actions@) == found(start, ids(peers@).subrange(0, i as int)).1,
                        self@.providing == old(self)@.providing,
                        self.policy() == old(self).policy(),
                        self.local() == old(self).local(),
                    decreases peers.len() - i,
                {
                    proof {
                        let upto = ids(peers@).subrange(0, i + 1);
                        assert(upto.drop_last() =~= ids(peers@).subrange(0, i as int));
                        assert(upto.last() == peers[i as int]@);
                    }
                    let ghost now = self@.session;
                    let ghost had = shown(actions@);
                    self.reach(&peers[i], &mut actions);
                    let added = BehaviourAction::AddToPartialView(peers[i].clone());
                    actions.push(added);
                    assert(shown(actions@) =~= had + dial(now, peers[i as int]@) + seq![added@]);
                    i = i + 1;
                }
                assert(ids(peers@).subrange(0, i as int) =~= ids(peers@));
            },
            SwarmEvent::MdnsExpired(list) => {
                let mut i: usize = 0;
                while i < list.len()
                    invariant
                        i <= list.len(),
                        shown(actions@) == expired(list@.subrange(0, i as int)),
                    decreases list.len() - i,
                {
                    proof {
                        let upto = list@.subrange(0, i + 1);
                        assert(upto.drop_last() =~= list@.subrange(0, i as int));
                        assert(upto.last() == list[i as int]);
                    }
                    let ghost had = shown(actions@);
                    if !list[i].still_known {
                        let gone = BehaviourAction::RemoveFromPartialView(list[i].peer.clone());
                        actions.push(gone);
                        assert(shown(actions@) =~= had + seq![gone@]);
                    } else {
                        assert(had + Seq::<BehaviourActionView>::empty() =~= had);
                    }
                    i = i + 1;
                }
                assert(list@.subrange(0, i as int) =~= list@);
            },
            SwarmEvent::KadProviders { key, providers, closest_peers } => {
                if providers.len() > 0 {
                    let ghost start = self@.session;
                    let mut i: usize = 0;
                    while i < closest_peers.len()
                        invariant
                            i <= closest_peers.len(),
                            self@.session == reached(
                                start,
                                ids(closest_peers@).subrange(0, i as int),
                            ).0,
                            shown(actions@) == reached(
                                start,
                                ids(closest_peers@).subrange(0, i as int),
                            ).1,
                            self@.providing == old(self)@.providing,
                            self.policy() == old(self).policy(),
                            self.local() == old(self).local(),
                        decreases closest_peers.len() - i,
                    {
                        proof {
                            let upto = ids(closest_peers@).subrange(0, i + 1);
                            assert(upto.drop_last() =~= ids(closest_peers@).subrange(0, i as int));
                            assert(upto.last() == closest_peers[i as int]@);
                        }
                        self.reach(&closest_peers[i], &mut actions);
                        i = i + 1;
                    }
                    assert(ids(closest_peers@).subrange(0, i as int) =~= ids(closest_peers@));
                }
            },
            SwarmEvent::Unreachable(peer) => {
                self.bitswap.disconnect(&peer);
            },
            _ => {},
        }
        actions
    }

    /// Registers that this node wants the block `cid`, and gives the messages
    /// that tell every connected peer.
    pub fn want_block(&mut self, cid: Cid) -> (out: Vec<Outbound>)
        ensures
            final(self)@.session == wanting(old(self)@.session, cid@, WANT_PRIORITY),
            final(self)@.providing == old(self)@.providing,
            final(self).policy() == old(self).policy(),
            final(self).local() == old(self).local(),
            outbound_of(out@) == notes(
                old(self)@.session.peers,
                want_entry(Want { id: cid@, priority: WANT_PRIORITY }),
            ),
    {
        self.bitswap.want_block(cid, WANT_PRIORITY)
    }

    /// Registers that this node provides the block `cid`. Nothing is
    /// announced to the network.
    pub fn provide_block(&mut self, cid: Cid)
        ensures
            final(self)@.providing == old(self)@.providing.insert(cid@),
            final(self)@.session == old(self)@.session,
            final(self).policy() == old(self).policy(),
            final(self).local() == old(self).local(),
    {
        self.providing.insert(cid);
    }

    /// Registers that this node provides the block `cid` no longer. Nothing
    /// is announced to the network.
    pub fn stop_providing_block(&mut self, cid: &Cid)
        ensures
            final(self)@.providing == old(self)@.providing.remove(cid@),
            final(self)@.session == old(self)@.session,
            final(self).policy() == old(self).policy(),
            final(self).local() == old(self).local(),
    {
        self.providing.remove(cid);
    }

    /// Whether this node has said that it provides the block `cid`.
    pub fn is_providing(&self, cid: &Cid) -> (r: bool)
        ensures
            r == self@.providing.contains(cid@),
    {
        self.providing.contains(cid)
    }
}

/// Makes the behaviour of a node.
pub fn build_behaviour<S: Strategy>(options: &SwarmOptions, strategy: S) -> (r: Behaviour<S>)
    ensures
        r@.session.peers.len() == 0,
        r@.session.wanted.len() == 0,
        r@.providing == Set::<Seq<u8>>::empty(),
        r.policy() == strategy,
        r.local() == options.peer_id@,
{
    Behaviour::new(options, strategy)
}

/// Peers that become reachable one after the other leave the session
/// coherent, and each of them connected.
pub proof fn lemma_reached(s: SessionView, peers: Seq<Seq<u8>>)
    requires
        coherent(s),
    ensures
        coherent(reached(s, peers).0),
        found(s, peers).0 == reached(s, peers).0,
        forall|i: int| 0 <= i < peers.len() ==> known(reached(s, peers).0.peers, #[trigger] peers[i]),
        reached(s, peers).0.wanted == s.wanted,
        forall|peer: Seq<u8>| known(s.peers, peer) ==> known(reached(s, peers).0.peers, peer),
    decreases peers.len(),
{
    if peers.len() > 0 {
        let init = peers.drop_last();
        let last = peers.last();
        lemma_reached(s, init);
        let before = reached(s, init).0;
        let now = connected(before, last);
        lemma_coherent(before, last, 0, last, crate::codec::nothing(), |id: Seq<u8>, p: Priority| true);
        lemma_connected_known(before, last);
        assert forall|peer: Seq<u8>| known(before.peers, peer) implies known(now.peers, peer) by {
            lemma_stays_known(before, last, peer);
        }
        assert forall|i: int| 0 <= i < peers.len() implies known(
            now.peers,
            #[trigger] peers[i],
        ) by {
            if i < init.len() {
                assert(peers[i] == init[i]);
            }
        }
    }
}

/// A peer that is connected stays so when another connects.
proof fn lemma_stays_known(s: SessionView, new: Seq<u8>, peer: Seq<u8>)
    requires
        known(s.peers, peer),
    ensures
        known(connected(s, new).peers, peer),
{
    let now = connected(s, new).peers;
    lemma_peer_at(s.peers, peer);
    lemma_peer_at(now, peer);
    if !known(now, peer) {
        assert(now[peer_at(s.peers, peer)].id != peer);
    }
}

/// Whatever the services report, the session stays coherent.
pub proof fn lemma_event_coherent(s: SessionView, event: SwarmEvent)
    requires
        coherent(s),
    ensures
        coherent(after_event(s, event).0),
{
    match event {
        SwarmEvent::MdnsDiscovered(peers) => {
            lemma_reached(s, ids(peers@));
        },
        SwarmEvent::KadProviders { key, providers, closest_peers } => {
            lemma_reached(s, ids(closest_peers@));
        },
        SwarmEvent::Unreachable(peer) => {
            lemma_coherent(s, peer@, 0, peer@, crate::codec::nothing(), |id: Seq<u8>, p: Priority| true);
        },
        _ => {},
    }
}

} // verus!
