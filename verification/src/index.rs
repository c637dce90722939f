//! A set of block identifiers held in memory.

use crate::cid::Cid;
use vstd::prelude::*;

verus! {

/// The identifiers that occur in `items`.
pub open spec fn ids_of(items: Seq<Cid>) -> Set<Seq<u8>> {
    Set::new(|id: Seq<u8>| exists|i: int| 0 <= i < items.len() && #[trigger] items[i]@ == id)
}

/// Whether no identifier occurs twice in `items`.
pub open spec fn distinct(items: Seq<Cid>) -> bool {
    forall|i: int, j: int| 0 <= i < j < items.len() ==> #[trigger] items[i]@ != #[trigger] items[j]@
}

/// A set of identifiers. Its view is the set of their binary forms.
#[derive(Debug)]
pub struct CidSet {
    items: Vec<Cid>,
}

impl View for CidSet {
    type V = Set<Seq<u8>>;

    closed spec fn view(&self) -> Set<Seq<u8>> {
        ids_of(self.items@)
    }
}

impl CidSet {
    #[verifier::type_invariant]
    spec fn valid(&self) -> bool {
        distinct(self.items@)
    }

    /// The empty set.
    pub fn new() -> (r: CidSet)
        ensures
            r@ == Set::<Seq<u8>>::empty(),
    {
        let r = CidSet { items: Vec::new() };
        assert(r@ =~= Set::<Seq<u8>>::empty());
        r
    }

    /// Where `cid` stands in the items, if anywhere.
    fn position(&self, cid: &Cid) -> (r: Option<usize>)
        ensures
            match r {
                Some(i) => i < self.items.len() && self.items[i as int]@ == cid@,
                None => !self@.contains(cid@),
            },
    {
        let mut i: usize = 0;
        while i < self.items.len()
            invariant
                i <= self.items.len(),
                forall|t: int| 0 <= t < i ==> self.items[t]@ != cid@,
            decreases self.items.len() - i,
        {
            if self.items[i].same(cid) {
                return Some(i);
            }
            i = i + 1;
        }
        None
    }

    /// Whether `cid` is in the set.
    pub fn contains(&self, cid: &Cid) -> (r: bool)
        ensures
            r == self@.contains(cid@),
    {
        self.position(cid).is_some()
    }

    /// Puts `cid` into the set, and says whether it was new.
    pub fn insert(&mut self, cid: Cid) -> (fresh: bool)
        ensures
            final(self)@ == old(self)@.insert(cid@),
            fresh == !old(self)@.contains(cid@),
    {
        proof {
            use_type_invariant(&*self);
        }
        match self.position(&cid) {
            Some(_) => {
                assert(self@ =~= self@.insert(cid@));
                false
            },
            None => {
                let ghost before = self.items@;
                // Moved out whole and put back, so that the set is valid throughout.
                let mut taken = CidSet { items: Vec::new() };
                core::mem::swap(self, &mut taken);
                let mut items = taken.items;
                items.push(cid);
                *self = CidSet { items };
                assert(self.items@ == before.push(cid));
                assert forall|id: Seq<u8>| ids_of(self.items@).contains(id) <==> ids_of(
                    before,
                ).insert(cid@).contains(id) by {
                    if ids_of(self.items@).contains(id) {
                        let i = choose|i: int| 0 <= i < self.items.len() && self.items[i]@ == id;
                        if i < before.len() {
                            assert(before[i]@ == id);
                        }
                    }
                    if ids_of(before).contains(id) {
                        let i = choose|i: int| 0 <= i < before.len() && before[i]@ == id;
                        assert(self.items[i]@ == id);
                    }
                    if id == cid@ {
                        assert(self.items[before.len() as int]@ == id);
                    }
                }
                assert(self@ =~= ids_of(before).insert(cid@));
                true
            },
        }
    }

    /// Takes `cid` out of the set, and says whether it was there.
    pub fn remove(&mut self, cid: &Cid) -> (was: bool)
        ensures
            final(self)@ == old(self)@.remove(cid@),
            was == old(self)@.contains(cid@),
    {
        proof {
            use_type_invariant(&*self);
        }
        match self.position(cid) {
            Some(at) => {
                let ghost before = self.items@;
                // Moved out whole and put back, so that the set is valid throughout.
                let mut taken = CidSet { items: Vec::new() };
                core::mem::swap(self, &mut taken);
                let mut items = taken.items;
                items.remove(at);
                *self = CidSet { items };
                assert(self.items@ == before.remove(at as int));
                assert forall|id: Seq<u8>| ids_of(self.items@).contains(id) <==> ids_of(
                    before,
                ).remove(cid@).contains(id) by {
                    if ids_of(self.items@).contains(id) {
                        let i = choose|i: int| 0 <= i < self.items.len() && self.items[i]@ == id;
                        if i < at {
                            assert(before[i]@ == id);
                        } else {
                            assert(before[i + 1]@ == id);
                        }
                    }
                    if ids_of(before).remove(cid@).contains(id) {
                        let i = choose|i: int| 0 <= i < before.len() && before[i]@ == id;
                        if i < at {
                            assert(self.items[i]@ == id);
                        } else {
                            assert(self.items[i - 1]@ == id);
                        }
                    }
                }
                assert(self@ =~= ids_of(before).remove(cid@));
                true
            },
            None => {
                assert(self@ =~= self@.remove(cid@));
                false
            },
        }
    }

    /// The number of identifiers in the set.
    pub fn len(&self) -> (r: usize)
        ensures
            r == self@.len(),
            self@.finite(),
    {
        proof {
            use_type_invariant(self);
            lemma_ids_len(self.items@);
        }
        self.items.len()
    }
}

/// A sequence without repetition holds as many identifiers as it is long.
pub proof fn lemma_ids_len(items: Seq<Cid>)
    requires
        distinct(items),
    ensures
        ids_of(items).finite(),
        ids_of(items).len() == items.len(),
    decreases items.len(),
{
    if items.len() == 0 {
        assert(ids_of(items) =~= Set::<Seq<u8>>::empty());
    } else {
        let init = items.drop_last();
        let last = items.last();
        lemma_ids_len(init);
        assert forall|id: Seq<u8>| ids_of(items).contains(id) <==> ids_of(init).insert(
            last@,
        ).contains(id) by {
            if ids_of(items).contains(id) {
                let i = choose|i: int| 0 <= i < items.len() && items[i]@ == id;
                if i < init.len() {
                    assert(init[i]@ == id);
                }
            }
            if ids_of(init).contains(id) {
                let i = choose|i: int| 0 <= i < init.len() && init[i]@ == id;
                assert(items[i]@ == id);
            }
            if id == last@ {
                assert(items[items.len() - 1]@ == id);
            }
        }
        assert(ids_of(items) =~= ids_of(init).insert(last@));
        if ids_of(init).contains(last@) {
            let i = choose|i: int| 0 <= i < init.len() && init[i]@ == last@;
            assert(items[i]@ == items[items.len() - 1]@);
        }
    }
}

} // verus!
