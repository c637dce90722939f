//! The serving policy, and the queue of blocks that are due to a peer.

use crate::cid::Cid;
use crate::ledger::{
    holds, lemma_place, lemma_without, lemma_without_one, place, unique, wants_of, without,
    Priority, Want, WantEntry,
};
use crate::peer::PeerId;
use vstd::prelude::*;

verus! {

/// A policy that decides which of the blocks that a peer wants it is given.
/// The ledger and the wire format do not depend on the policy.
pub trait Strategy {
    /// Whether the policy lets `peer` have the block `id`, wanted at
    /// `priority`.
    spec fn serves(&self, peer: Seq<u8>, id: Seq<u8>, priority: Priority) -> bool;

    /// Decides as `serves` says.
    fn allow(&self, peer: &PeerId, cid: &Cid, priority: Priority) -> (r: bool)
        ensures
            r == self.serves(peer@, cid@, priority),
    ;
}

/// The policy that gives every peer every block it wants: no rate limit, no
/// preference among peers.
#[derive(Debug, Clone, Copy, Default)]
pub struct AltruisticStrategy {}

impl Strategy for AltruisticStrategy {
    open spec fn serves(&self, peer: Seq<u8>, id: Seq<u8>, priority: Priority) -> bool {
        true
    }

    fn allow(&self, peer: &PeerId, cid: &Cid, priority: Priority) -> (r: bool) {
        true
    }
}

/// Whether the priorities in `queue` never rise from front to back.
pub open spec fn descending(queue: Seq<Want>) -> bool {
    forall|i: int, j: int|
        0 <= i < j < queue.len() ==> (#[trigger] queue[i]).priority >= (
        #[trigger] queue[j]).priority
}

/// The place in `queue` behind the wants at `priority` or above that stand
/// at its front.
pub open spec fn slot(queue: Seq<Want>, priority: Priority) -> int
    decreases queue.len(),
{
    if queue.len() == 0 || queue[0].priority < priority {
        0
    } else {
        1 + slot(queue.drop_first(), priority)
    }
}

/// `queue` with `want` due: it stands behind the wants of its priority or
/// above and before those below, and an earlier want of the same block is
/// gone.
pub open spec fn scheduled(queue: Seq<Want>, want: Want) -> Seq<Want> {
    let rest = without(queue, want.id);
    rest.insert(slot(rest, want.priority), want)
}

/// `slot` is the first place whose want is below `priority`.
pub proof fn lemma_slot(queue: Seq<Want>, priority: Priority)
    ensures
        0 <= slot(queue, priority) <= queue.len(),
        forall|i: int| 0 <= i < slot(queue, priority) ==> (#[trigger] queue[i]).priority >= priority,
        slot(queue, priority) < queue.len() ==> queue[slot(queue, priority)].priority < priority,
    decreases queue.len(),
{
    if queue.len() > 0 && queue[0].priority >= priority {
        let rest = queue.drop_first();
        lemma_slot(rest, priority);
        assert forall|i: int| 0 <= i < slot(queue, priority) implies (#[trigger] queue[i]).priority
            >= priority by {
            if i > 0 {
                assert(rest[i - 1].priority >= priority);
            }
        }
        if slot(rest, priority) < rest.len() {
            assert(queue[slot(rest, priority) + 1] == rest[slot(rest, priority)]);
        }
    }
}

/// `without` keeps the order of priorities.
pub proof fn lemma_without_descending(queue: Seq<Want>, id: Seq<u8>)
    requires
        descending(queue),
    ensures
        descending(without(queue, id)),
    decreases queue.len(),
{
    reveal(Seq::filter);
    if queue.len() > 0 {
        let init = queue.drop_last();
        let last = queue.last();
        assert(descending(init)) by {
            assert forall|i: int, j: int| 0 <= i < j < init.len() implies (
            #[trigger] init[i]).priority >= (#[trigger] init[j]).priority by {
                assert(queue[i].priority >= queue[j].priority);
            }
        }
        lemma_without_descending(init, id);
        let before = without(init, id);
        let now = without(queue, id);
        lemma_kept_above(init, id, last.priority);
        assert forall|i: int, j: int| 0 <= i < j < now.len() implies (#[trigger] now[i]).priority
            >= (#[trigger] now[j]).priority by {
            if j < before.len() {
                assert(before[i].priority >= before[j].priority);
            } else {
                assert(before[i].priority >= last.priority);
            }
        }
    }
}

/// Where every want is at `floor` or above, so is every want that `without`
/// keeps.
proof fn lemma_kept_above(queue: Seq<Want>, id: Seq<u8>, floor: Priority)
    ensures
        (forall|i: int| 0 <= i < queue.len() ==> (#[trigger] queue[i]).priority >= floor)
            ==> forall|i: int|
            0 <= i < without(queue, id).len() ==> (#[trigger] without(queue, id)[i]).priority
                >= floor,
    decreases queue.len(),
{
    reveal(Seq::filter);
    if queue.len() > 0 {
        let init = queue.drop_last();
        lemma_kept_above(init, id, floor);
        if forall|i: int| 0 <= i < queue.len() ==> (#[trigger] queue[i]).priority >= floor {
            assert forall|i: int| 0 <= i < init.len() implies (#[trigger] init[i]).priority
                >= floor by {
                assert(queue[i].priority >= floor);
            }
            let before = without(init, id);
            let now = without(queue, id);
            assert forall|i: int| 0 <= i < now.len() implies (#[trigger] now[i]).priority
                >= floor by {
                if i < before.len() {
                    assert(before[i].priority >= floor);
                } else {
                    assert(queue[queue.len() - 1].priority >= floor);
                }
            }
        }
    }
}

/// The order of serving: after `scheduled` the queue is still in descending
/// order of priority and holds no block twice; `want` stands behind every
/// want that was due at its priority or above; and the other wants are those
/// that were due before, in the order they had.
pub proof fn lemma_scheduled(queue: Seq<Want>, want: Want)
    requires
        descending(queue),
        unique(queue),
    ensures
        descending(scheduled(queue, want)),
        unique(scheduled(queue, want)),
        holds(scheduled(queue, want), want.id),
        without(scheduled(queue, want), want.id) == without(queue, want.id),
        forall|i: int|
            0 <= i < scheduled(queue, want).len() && (#[trigger] scheduled(queue, want)[i]).id
                != want.id && scheduled(queue, want)[i].priority >= want.priority ==> i < slot(
                without(queue, want.id),
                want.priority,
            ),
        scheduled(queue, want)[slot(without(queue, want.id), want.priority)] == want,
{
    let rest = without(queue, want.id);
    let at = slot(rest, want.priority);
    let now = scheduled(queue, want);
    lemma_without(queue, want.id);
    lemma_without_descending(queue, want.id);
    lemma_slot(rest, want.priority);
    assert forall|i: int, j: int| 0 <= i < j < now.len() implies (#[trigger] now[i]).priority >= (
    #[trigger] now[j]).priority && now[i].id != now[j].id by {
        let ri = if i < at { i } else { i - 1 };
        let rj = if j < at { j } else { j - 1 };
        if i != at && j != at {
            assert(rest[ri].priority >= rest[rj].priority);
            assert(rest[ri].id != rest[rj].id);
        } else if i == at {
            assert(rest[rj].priority <= rest[at].priority);
            assert(holds(rest, rest[rj].id));
        } else {
            assert(rest[ri].priority >= want.priority);
            assert(holds(rest, rest[ri].id));
        }
    }
    assert(now[at].id == want.id);
    assert forall|i: int|
        0 <= i < now.len() && (#[trigger] now[i]).id != want.id && now[i].priority
            >= want.priority implies i < at by {
        if i > at {
            assert(rest[i - 1].priority <= rest[at].priority);
        }
    }
    lemma_without_one(now, want.id, at);
    assert(now.remove(at) =~= rest);
}

/// The blocks that are due to one peer, in the order in which they are to be
/// sent: by descending priority, and among equal priorities in the order in
/// which they became due. Its view is the sequence of the wants they answer.
#[derive(Debug)]
pub struct SendQueue {
    entries: Vec<WantEntry>,
}

impl View for SendQueue {
    type V = Seq<Want>;

    closed spec fn view(&self) -> Seq<Want> {
        wants_of(self.entries@)
    }
}

impl SendQueue {
    #[verifier::type_invariant]
    spec fn valid(&self) -> bool {
        descending(wants_of(self.entries@)) && unique(wants_of(self.entries@))
    }

    /// The empty queue.
    pub fn new() -> (r: SendQueue)
        ensures
            r@ == Seq::<Want>::empty(),
    {
        let r = SendQueue { entries: Vec::new() };
        assert(r@ =~= Seq::<Want>::empty());
        r
    }

    /// The number of blocks due. The queue is in descending order of
    /// priority, and no block is due twice.
    pub fn len(&self) -> (r: usize)
        ensures
            r == self@.len(),
            descending(self@),
            unique(self@),
    {
        proof {
            use_type_invariant(self);
        }
        self.entries.len()
    }

    /// The place of `cid` in the queue, or its length where `cid` is not due.
    fn position(&self, cid: &Cid) -> (r: usize)
        ensures
            r == place(self@, cid@),
            r <= self.entries.len(),
    {
        let mut i: usize = 0;
        assert(self@.skip(0) =~= self@);
        while i < self.entries.len()
            invariant
                i <= self.entries.len(),
                place(self@, cid@) == i + place(self@.skip(i as int), cid@),
            decreases self.entries.len() - i,
        {
            proof {
                let rest = self@.skip(i as int);
                assert(rest[0] == self.entries[i as int]@);
                assert(rest.drop_first() =~= self@.skip(i + 1));
            }
            if self.entries[i].cid.same(cid) {
                return i;
            }
            i = i + 1;
        }
        i
    }

    /// Takes `cid` off the queue, and says whether it was due.
    pub fn drop_block(&mut self, cid: &Cid) -> (was: bool)
        ensures
            final(self)@ == without(old(self)@, cid@),
            was == holds(old(self)@, cid@),
    {
        proof {
            use_type_invariant(&*self);
            lemma_place(self@, cid@);
            lemma_without(self@, cid@);
            lemma_without_descending(self@, cid@);
        }
        let at = self.position(cid);
        if at < self.entries.len() {
            let ghost before = self@;
            // Moved out whole and put back, so that the queue is valid throughout.
            let mut taken = SendQueue { entries: Vec::new() };
            core::mem::swap(self, &mut taken);
            let mut entries = taken.entries;
            entries.remove(at);
            proof {
                lemma_without_one(before, cid@, at as int);
                assert(wants_of(entries@) =~= before.remove(at as int));
            }
            *self = SendQueue { entries };
            true
        } else {
            false
        }
    }

    /// Makes the block of `entry` due at its priority.
    pub fn schedule(&mut self, entry: WantEntry)
        ensures
            final(self)@ == scheduled(old(self)@, entry@),
    {
        proof {
            use_type_invariant(&*self);
            lemma_scheduled(self@, entry@);
        }
        self.drop_block(&entry.cid);
        let ghost rest = self@;
        let mut at: usize = 0;
        assert(self@.skip(0) =~= self@);
        while at < self.entries.len() && self.entries[at].priority >= entry.priority
            invariant
                at <= self.entries.len(),
                slot(self@, entry.priority) == at + slot(self@.skip(at as int), entry.priority),
                at < self.entries.len() ==> self@.skip(at as int)[0] == self.entries[at as int]@,
            decreases self.entries.len() - at,
        {
            proof {
                let tail = self@.skip(at as int);
                assert(tail.drop_first() =~= self@.skip(at + 1));
                if at + 1 < self.entries.len() {
                    assert(self@.skip(at + 1)[0] == self.entries[at + 1]@);
                }
            }
            at = at + 1;
        }
        // Moved out whole and put back, so that the queue is valid throughout.
        let mut taken = SendQueue { entries: Vec::new() };
        core::mem::swap(self, &mut taken);
        let mut entries = taken.entries;
        let ghost want = entry@;
        entries.insert(at, entry);
        assert(wants_of(entries@) =~= rest.insert(at as int, want));
        *self = SendQueue { entries };
    }

    /// Takes the block that is to be sent next off the queue.
    pub fn pop(&mut self) -> (r: Option<WantEntry>)
        ensures
            match r {
                Some(entry) => old(self)@.len() > 0 && entry@ == old(self)@[0] && final(self)@
                    == old(self)@.drop_first(),
                None => old(self)@.len() == 0 && final(self)@ == old(self)@,
            },
    {
        proof {
            use_type_invariant(&*self);
        }
        if self.entries.len() == 0 {
            return None;
        }
        let ghost before = self@;
        // Moved out whole and put back, so that the queue is valid throughout.
        let mut taken = SendQueue { entries: Vec::new() };
        core::mem::swap(self, &mut taken);
        let mut entries = taken.entries;
        let first = entries.remove(0);
        proof {
            assert(wants_of(entries@) =~= before.drop_first());
            assert forall|i: int, j: int| 0 <= i < j < before.drop_first().len() implies (
            #[trigger] before.drop_first()[i]).priority >= (
            #[trigger] before.drop_first()[j]).priority && before.drop_first()[i].id
                != before.drop_first()[j].id by {
                assert(before[i + 1].priority >= before[j + 1].priority);
                assert(before[i + 1].id != before[j + 1].id);
            }
        }
        *self = SendQueue { entries };
        Some(first)
    }
}

} // verus!
