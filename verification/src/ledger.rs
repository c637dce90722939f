//! Want-lists, and the ledger that keeps two of them for each peer.

use crate::cid::Cid;
use crate::message::{Entry, EntryView};
use vstd::prelude::*;

verus! {

/// How urgent a want is: a higher number is served first.
pub type Priority = i32;

/// A want as contracts speak of it: an identifier and its priority.
pub struct Want {
    pub id: Seq<u8>,
    pub priority: Priority,
}

/// Whether `wants` holds a want of `id`.
pub open spec fn holds(wants: Seq<Want>, id: Seq<u8>) -> bool {
    exists|i: int| 0 <= i < wants.len() && (#[trigger] wants[i]).id == id
}

/// Whether no identifier is wanted twice in `wants`.
pub open spec fn unique(wants: Seq<Want>) -> bool {
    forall|i: int, j: int|
        0 <= i < j < wants.len() ==> (#[trigger] wants[i]).id != (#[trigger] wants[j]).id
}

/// The place of the first want of `id` in `wants`, or the length of `wants`
/// where there is none.
pub open spec fn place(wants: Seq<Want>, id: Seq<u8>) -> int
    decreases wants.len(),
{
    if wants.len() == 0 || wants[0].id == id {
        0
    } else {
        1 + place(wants.drop_first(), id)
    }
}

/// `wants` with `id` wanted at `priority`: a want of `id` that is there keeps
/// its place and takes the new priority, a new one goes to the end.
pub open spec fn upsert(wants: Seq<Want>, id: Seq<u8>, priority: Priority) -> Seq<Want> {
    let at = place(wants, id);
    if at < wants.len() {
        wants.update(at, Want { id, priority })
    } else {
        wants.push(Want { id, priority })
    }
}

/// `wants` without the wants of `id`, the others in their order.
pub open spec fn without(wants: Seq<Want>, id: Seq<u8>) -> Seq<Want> {
    wants.filter(|w: Want| w.id != id)
}

/// `place` finds the first want of `id`, where there is one.
pub proof fn lemma_place(wants: Seq<Want>, id: Seq<u8>)
    ensures
        0 <= place(wants, id) <= wants.len(),
        forall|i: int| 0 <= i < place(wants, id) ==> (#[trigger] wants[i]).id != id,
        place(wants, id) < wants.len() ==> wants[place(wants, id)].id == id,
        holds(wants, id) <==> place(wants, id) < wants.len(),
    decreases wants.len(),
{
    if wants.len() > 0 && wants[0].id != id {
        let rest = wants.drop_first();
        lemma_place(rest, id);
        assert forall|i: int| 0 <= i < place(wants, id) implies (#[trigger] wants[i]).id != id by {
            if i > 0 {
                assert(rest[i - 1].id != id);
            }
        }
        if holds(wants, id) {
            let i = choose|i: int| 0 <= i < wants.len() && (#[trigger] wants[i]).id == id;
            assert(rest[i - 1].id == id);
        }
        if place(rest, id) < rest.len() {
            assert(wants[place(rest, id) + 1] == rest[place(rest, id)]);
        }
    }
}

/// What is wanted after `upsert`: `id` at `priority`, and whatever else was
/// wanted before, as it was. Nothing comes to be wanted twice.
pub proof fn lemma_upsert(wants: Seq<Want>, id: Seq<u8>, priority: Priority)
    ensures
        holds(upsert(wants, id, priority), id),
        forall|other: Seq<u8>|
            other != id ==> (holds(upsert(wants, id, priority), other) <==> holds(wants, other)),
        unique(wants) ==> unique(upsert(wants, id, priority)),
        upsert(wants, id, priority).len() == if holds(wants, id) {
            wants.len()
        } else {
            wants.len() + 1
        },
{
    lemma_place(wants, id);
    let at = place(wants, id);
    let now = upsert(wants, id, priority);
    let slot = if at < wants.len() { at } else { wants.len() as int };
    assert(now[slot].id == id);
    assert forall|other: Seq<u8>| other != id implies (holds(now, other) <==> holds(wants, other)) by {
        if holds(now, other) {
            let i = choose|i: int| 0 <= i < now.len() && (#[trigger] now[i]).id == other;
            assert(wants[i].id == other);
        }
        if holds(wants, other) {
            let i = choose|i: int| 0 <= i < wants.len() && (#[trigger] wants[i]).id == other;
            assert(now[i].id == other);
        }
    }
    if unique(wants) {
        assert forall|i: int, j: int| 0 <= i < j < now.len() implies (#[trigger] now[i]).id != (
        #[trigger] now[j]).id by {
            if at < wants.len() {
                assert(wants[i].id != wants[j].id);
                if i == at {
                    assert(wants[j].id != id);
                } else if j == at {
                    assert(wants[i].id != id);
                }
            } else {
                if j < wants.len() {
                    assert(wants[i].id != wants[j].id);
                } else {
                    assert(wants[i].id != id);
                }
            }
        }
    }
}

/// What is wanted after `without`: whatever was wanted before, but `id`. The
/// order stays, and nothing comes to be wanted twice.
pub proof fn lemma_without(wants: Seq<Want>, id: Seq<u8>)
    ensures
        !holds(without(wants, id), id),
        forall|other: Seq<u8>| other != id ==> (holds(without(wants, id), other) <==> holds(wants, other)),
        unique(wants) ==> unique(without(wants, id)),
        !holds(wants, id) ==> without(wants, id) == wants,
        without(wants, id).len() <= wants.len(),
    decreases wants.len(),
{
    reveal(Seq::filter);
    let keep = |w: Want| w.id != id;
    if wants.len() > 0 {
        let init = wants.drop_last();
        let last = wants.last();
        lemma_without(init, id);
        let now = without(wants, id);
        let before = without(init, id);
        assert(now == if keep(last) { before.push(last) } else { before });
        if holds(now, id) {
            let i = choose|i: int| 0 <= i < now.len() && (#[trigger] now[i]).id == id;
            if i < before.len() {
                assert(before[i].id == id);
            }
        }
        assert forall|other: Seq<u8>| other != id implies (holds(now, other) <==> holds(wants, other)) by {
            if holds(now, other) {
                let i = choose|i: int| 0 <= i < now.len() && (#[trigger] now[i]).id == other;
                if i < before.len() {
                    assert(before[i].id == other);
                    assert(holds(init, other));
                    let j = choose|j: int| 0 <= j < init.len() && (#[trigger] init[j]).id == other;
                    assert(wants[j].id == other);
                } else {
                    assert(wants[wants.len() - 1].id == other);
                }
            }
            if holds(wants, other) {
                let j = choose|j: int| 0 <= j < wants.len() && (#[trigger] wants[j]).id == other;
                if j < init.len() {
                    assert(init[j].id == other);
                    assert(holds(init, other));
                    assert(holds(before, other));
                    let i = choose|i: int| 0 <= i < before.len() && (#[trigger] before[i]).id == other;
                    assert(now[i].id == other);
                } else {
                    assert(now[now.len() - 1].id == other);
                }
            }
        }
        if unique(wants) {
            assert(unique(init)) by {
                assert forall|i: int, j: int| 0 <= i < j < init.len() implies (#[trigger] init[i]).id
                    != (#[trigger] init[j]).id by {
                    assert(wants[i].id != wants[j].id);
                }
            }
            assert forall|i: int, j: int| 0 <= i < j < now.len() implies (#[trigger] now[i]).id != (
            #[trigger] now[j]).id by {
                if j < before.len() {
                    assert(before[i].id != before[j].id);
                } else {
                    assert(before[i].id != id);
                    assert(holds(before, before[i].id));
                    assert(holds(init, before[i].id));
                    let k = choose|k: int| 0 <= k < init.len() && (#[trigger] init[k]).id == before[i].id;
                    assert(wants[k].id != wants[wants.len() - 1].id);
                }
            }
        }
        if !holds(wants, id) {
            assert(!holds(init, id)) by {
                if holds(init, id) {
                    let k = choose|k: int| 0 <= k < init.len() && (#[trigger] init[k]).id == id;
                    assert(wants[k].id == id);
                }
            }
            assert(wants[wants.len() - 1].id != id);
            assert(now =~= wants);
        }
    }
}

/// Where no identifier is wanted twice, `without` takes out the one want of
/// `id`.
pub proof fn lemma_without_one(wants: Seq<Want>, id: Seq<u8>, at: int)
    requires
        unique(wants),
        0 <= at < wants.len(),
        wants[at].id == id,
    ensures
        without(wants, id) == wants.remove(at),
    decreases wants.len(),
{
    reveal(Seq::filter);
    let init = wants.drop_last();
    let last = wants.last();
    assert(unique(init)) by {
        assert forall|i: int, j: int| 0 <= i < j < init.len() implies (#[trigger] init[i]).id != (
        #[trigger] init[j]).id by {
            assert(wants[i].id != wants[j].id);
        }
    }
    if at == wants.len() - 1 {
        if holds(init, id) {
            let k = choose|k: int| 0 <= k < init.len() && (#[trigger] init[k]).id == id;
            assert(wants[k].id != wants[at].id);
        }
        lemma_without(init, id);
        assert(wants.remove(at) =~= init);
    } else {
        lemma_without_one(init, id, at);
        assert(wants[at].id != wants[wants.len() - 1].id);
        assert(wants.remove(at) =~= init.remove(at).push(last));
    }
}

/// One entry of a want-list.
#[derive(Debug, PartialEq, Eq)]
pub struct WantEntry {
    /// The block that is wanted.
    pub cid: Cid,
    /// How urgently.
    pub priority: Priority,
}

impl View for WantEntry {
    type V = Want;

    open spec fn view(&self) -> Want {
        Want { id: self.cid@, priority: self.priority }
    }
}

impl Clone for WantEntry {
    fn clone(&self) -> (r: Self)
        ensures
            r@ == self@,
    {
        WantEntry { cid: self.cid.clone(), priority: self.priority }
    }
}

/// The wants that `entries` stand for, in their order.
pub open spec fn wants_of(entries: Seq<WantEntry>) -> Seq<Want> {
    entries.map_values(|e: WantEntry| e@)
}

/// A want-list: the blocks that one side wants of the other, each once, in
/// the order in which they came to be wanted. Its view is the sequence of its
/// wants.
#[derive(Debug)]
pub struct Wantlist {
    entries: Vec<WantEntry>,
}

impl View for Wantlist {
    type V = Seq<Want>;

    closed spec fn view(&self) -> Seq<Want> {
        wants_of(self.entries@)
    }
}

impl Wantlist {
    #[verifier::type_invariant]
    spec fn valid(&self) -> bool {
        unique(wants_of(self.entries@))
    }

    /// The empty want-list.
    pub fn new() -> (r: Wantlist)
        ensures
            r@ == Seq::<Want>::empty(),
    {
        let r = Wantlist { entries: Vec::new() };
        assert(r@ =~= Seq::<Want>::empty());
        r
    }

    /// The number of wants. No identifier is wanted twice.
    pub fn len(&self) -> (r: usize)
        ensures
            r == self@.len(),
            unique(self@),
    {
        proof {
            use_type_invariant(self);
        }
        self.entries.len()
    }

    /// The want at place `i`.
    pub fn get(&self, i: usize) -> (r: &WantEntry)
        requires
            i < self@.len(),
        ensures
            r@ == self@[i as int],
    {
        &self.entries[i]
    }

    /// The place of the want of `cid`, or the number of wants where there is
    /// none.
    fn position(&self, cid: &Cid) -> (r: usize)
        ensures
            r == place(self@, cid@),
            r <= self.entries.len(),
    {
        let mut i: usize = 0;
        assert(self@.skip(0) =~= self@);
        while i < self.entries.len()
            invariant
                i <= self.entries.len(),
                place(self@, cid@) == i + place(self@.skip(i as int), cid@),
            decreases self.entries.len() - i,
        {
            proof {
                let rest = self@.skip(i as int);
                assert(rest[0] == self.entries[i as int]@);
                assert(rest.drop_first() =~= self@.skip(i + 1));
            }
            if self.entries[i].cid.same(cid) {
                return i;
            }
            i = i + 1;
        }
        i
    }

    /// Whether `cid` is wanted.
    pub fn contains(&self, cid: &Cid) -> (r: bool)
        ensures
            r == holds(self@, cid@),
    {
        proof {
            lemma_place(self@, cid@);
        }
        self.position(cid) < self.entries.len()
    }

    /// The priority at which `cid` is wanted, if it is.
    pub fn priority_of(&self, cid: &Cid) -> (r: Option<Priority>)
        ensures
            match r {
                Some(p) => holds(self@, cid@) && self@[place(self@, cid@)].priority == p,
                None => !holds(self@, cid@),
            },
    {
        proof {
            lemma_place(self@, cid@);
        }
        let at = self.position(cid);
        if at < self.entries.len() {
            Some(self.entries[at].priority)
        } else {
            None
        }
    }

    /// A want-list with the same wants.
    pub fn copy(&self) -> (r: Wantlist)
        ensures
            r@ == self@,
    {
        proof {
            use_type_invariant(self);
        }
        let mut entries: Vec<WantEntry> = Vec::new();
        let mut i: usize = 0;
        while i < self.entries.len()
            invariant
                i <= self.entries.len(),
                entries.len() == i,
                forall|t: int| 0 <= t < i ==> (#[trigger] entries[t])@ == self.entries[t]@,
            decreases self.entries.len() - i,
        {
            entries.push(self.entries[i].clone());
            i = i + 1;
        }
        assert(wants_of(entries@) =~= wants_of(self.entries@));
        Wantlist { entries }
    }

    /// Wants `cid` at `priority`. A block that is wanted already keeps its
    /// place and takes the new priority.
    pub fn want(&mut self, cid: Cid, priority: Priority)
        ensures
            final(self)@ == upsert(old(self)@, cid@, priority),
    {
        proof {
            use_type_invariant(&*self);
            lemma_place(self@, cid@);
            lemma_upsert(self@, cid@, priority);
        }
        let at = self.position(&cid);
        let ghost before = self@;
        // Moved out whole and put back, so that the list is valid throughout.
        let mut taken = Wantlist { entries: Vec::new() };
        core::mem::swap(self, &mut taken);
        let mut entries = taken.entries;
        if at < entries.len() {
            entries.set(at, WantEntry { cid, priority });
        } else {
            entries.push(WantEntry { cid, priority });
        }
        assert(wants_of(entries@) =~= upsert(before, cid@, priority));
        *self = Wantlist { entries };
    }

    /// Wants `cid` no longer, and says whether it was wanted.
    pub fn cancel(&mut self, cid: &Cid) -> (was: bool)
        ensures
            final(self)@ == without(old(self)@, cid@),
            was == holds(old(self)@, cid@),
    {
        proof {
            use_type_invariant(&*self);
            lemma_place(self@, cid@);
            lemma_without(self@, cid@);
        }
        let at = self.position(cid);
        if at < self.entries.len() {
            let ghost before = self@;
            // Moved out whole and put back, so that the list is valid throughout.
            let mut taken = Wantlist { entries: Vec::new() };
            core::mem::swap(self, &mut taken);
            let mut entries = taken.entries;
            entries.remove(at);
            proof {
                lemma_without_one(before, cid@, at as int);
                assert(wants_of(entries@) =~= before.remove(at as int));
            }
            *self = Wantlist { entries };
            true
        } else {
            false
        }
    }
}

/// A ledger as contracts speak of it.
pub struct LedgerView {
    /// What this side has told the peer that it wants.
    pub sent: Seq<Want>,
    /// What the peer has told this side that it wants.
    pub received: Seq<Want>,
}

/// `wants` after one entry of a message: a want is taken up, a cancellation
/// takes the want back.
pub open spec fn applied(wants: Seq<Want>, entry: EntryView) -> Seq<Want> {
    if entry.cancel {
        without(wants, entry.id)
    } else {
        upsert(wants, entry.id, entry.priority)
    }
}

/// One entry leaves no block wanted twice, and touches no other block.
pub proof fn lemma_applied(wants: Seq<Want>, entry: EntryView)
    ensures
        unique(wants) ==> unique(applied(wants, entry)),
        holds(applied(wants, entry), entry.id) == !entry.cancel,
        forall|other: Seq<u8>|
            other != entry.id ==> (holds(applied(wants, entry), other) <==> holds(wants, other)),
{
    lemma_upsert(wants, entry.id, entry.priority);
    lemma_without(wants, entry.id);
}

/// The bookkeeping for one peer: the wants sent to it and the wants received
/// from it.
#[derive(Debug)]
pub struct Ledger {
    sent: Wantlist,
    received: Wantlist,
}

impl View for Ledger {
    type V = LedgerView;

    closed spec fn view(&self) -> LedgerView {
        LedgerView { sent: self.sent@, received: self.received@ }
    }
}

impl Ledger {
    /// The ledger of a peer to which `sent` has gone out and from which
    /// nothing has come in.
    pub fn with_sent(sent: Wantlist) -> (r: Ledger)
        ensures
            r@.sent == sent@,
            r@.received == Seq::<Want>::empty(),
    {
        Ledger { sent, received: Wantlist::new() }
    }

    /// Forgets what was received from the peer.
    pub fn forget_received(&mut self)
        ensures
            final(self)@.received == Seq::<Want>::empty(),
            final(self)@.sent == old(self)@.sent,
    {
        self.received = Wantlist::new();
    }

    /// The ledger of a peer with which nothing has been exchanged.
    pub fn new() -> (r: Ledger)
        ensures
            r@.sent == Seq::<Want>::empty(),
            r@.received == Seq::<Want>::empty(),
    {
        Ledger { sent: Wantlist::new(), received: Wantlist::new() }
    }

    /// The wants sent to the peer.
    pub fn sent(&self) -> (r: &Wantlist)
        ensures
            r@ == self@.sent,
    {
        &self.sent
    }

    /// The wants received from the peer.
    pub fn received(&self) -> (r: &Wantlist)
        ensures
            r@ == self@.received,
    {
        &self.received
    }

    /// Notes that `entry` goes out to the peer.
    pub fn send(&mut self, entry: &Entry)
        ensures
            final(self)@.sent == applied(old(self)@.sent, entry@),
            final(self)@.received == old(self)@.received,
    {
        if entry.cancel {
            self.sent.cancel(&entry.cid);
        } else {
            self.sent.want(entry.cid.clone(), entry.priority);
        }
    }

    /// Notes that `entry` came in from the peer.
    pub fn receive(&mut self, entry: &Entry)
        ensures
            final(self)@.received == applied(old(self)@.received, entry@),
            final(self)@.sent == old(self)@.sent,
    {
        if entry.cancel {
            self.received.cancel(&entry.cid);
        } else {
            self.received.want(entry.cid.clone(), entry.priority);
        }
    }

    /// Notes that the block `cid` went out to the peer: its want is met.
    pub fn served(&mut self, cid: &Cid)
        ensures
            final(self)@.received == without(old(self)@.received, cid@),
            final(self)@.sent == old(self)@.sent,
    {
        self.received.cancel(cid);
    }
}

} // verus!
