//! Messages of the exchange protocol: wants, cancellations and blocks.

use crate::cid::{hashed_cid, Cid};
use crate::ledger::Priority;
use crate::varint::{read_varint, u64_varint_at};
use vstd::prelude::*;

verus! {

/// Content code that version-0 identifiers imply.
pub const DAG_PB: u64 = 0x70;

/// What an identifier says of how it was made: everything but the digest.
#[derive(Debug, PartialEq, Eq, Structural, Clone, Copy)]
pub struct Prefix {
    /// The version of the identifier.
    pub version: u64,
    /// The content code.
    pub codec: u64,
    /// The code of the hash function.
    pub hash_code: u64,
    /// The length of the digest, in bytes.
    pub hash_len: u64,
}

/// The four numbers that `b` starts with, and the number of bytes they take.
pub open spec fn prefix_at(b: Seq<u8>) -> Option<(Prefix, int)> {
    match u64_varint_at(b, 0) {
        None => None,
        Some((version, k0)) => match u64_varint_at(b, k0 as int) {
            None => None,
            Some((codec, k1)) => match u64_varint_at(b, k0 + k1) {
                None => None,
                Some((hash_code, k2)) => match u64_varint_at(b, k0 + k1 + k2) {
                    None => None,
                    Some((hash_len, k3)) => Some(
                        (Prefix { version, codec, hash_code, hash_len }, k0 + k1 + k2 + k3),
                    ),
                },
            },
        },
    }
}

/// Whether `id` has the shape of a version-0 identifier: a SHA2-256 digest
/// behind its two-byte header, and nothing else.
pub open spec fn is_v0(id: Seq<u8>) -> bool {
    id.len() == 34 && id[0] == 0x12 && id[1] == 0x20
}

/// The prefix of the identifier with the binary form `id`.
pub open spec fn prefix_of(id: Seq<u8>) -> Option<Prefix> {
    if is_v0(id) {
        Some(Prefix { version: 0, codec: DAG_PB, hash_code: 0x12, hash_len: 0x20 })
    } else {
        match prefix_at(id) {
            Some((prefix, _)) => Some(prefix),
            None => None,
        }
    }
}

/// Reads the four numbers that `b` starts with.
pub fn read_prefix(b: &[u8]) -> (r: Option<(Prefix, usize)>)
    ensures
        match r {
            Some((prefix, k)) => prefix_at(b@) == Some((prefix, k as int)) && k <= b.len(),
            None => prefix_at(b@) is None,
        },
{
    proof {
        crate::varint::lemma_varint_at_bounds(b@, 0);
    }
    let (version, k0) = match read_varint(b, 0) {
        Some(found) => found,
        None => {
            return None;
        },
    };
    proof {
        crate::varint::lemma_varint_at_bounds(b@, k0 as int);
    }
    let (codec, k1) = match read_varint(b, k0) {
        Some(found) => found,
        None => {
            return None;
        },
    };
    proof {
        crate::varint::lemma_varint_at_bounds(b@, k0 + k1);
    }
    let (hash_code, k2) = match read_varint(b, k0 + k1) {
        Some(found) => found,
        None => {
            return None;
        },
    };
    proof {
        crate::varint::lemma_varint_at_bounds(b@, k0 + k1 + k2);
    }
    let (hash_len, k3) = match read_varint(b, k0 + k1 + k2) {
        Some(found) => found,
        None => {
            return None;
        },
    };
    Some((Prefix { version, codec, hash_code, hash_len }, k0 + k1 + k2 + k3))
}

/// Whether `id` is the identifier of `data`: made as the prefix of `id` says,
/// `data` gets `id`.
pub open spec fn block_ok(id: Seq<u8>, data: Seq<u8>) -> bool {
    prefix_of(id) matches Some(prefix) && hashed_cid(
        prefix.version,
        prefix.codec,
        prefix.hash_code,
        data,
    ) == Some(id)
}

/// A block as contracts speak of it.
pub struct BlockView {
    pub id: Seq<u8>,
    pub data: Seq<u8>,
}

/// A block: bytes, and the identifier that those bytes have. Every value of
/// the type satisfies `block_ok`.
#[derive(Debug, PartialEq, Eq)]
pub struct Block {
    cid: Cid,
    data: Vec<u8>,
}

impl View for Block {
    type V = BlockView;

    closed spec fn view(&self) -> BlockView {
        BlockView { id: self.cid@, data: self.data@ }
    }
}

impl Clone for Block {
    fn clone(&self) -> (r: Self)
        ensures
            r@ == self@,
    {
        proof {
            use_type_invariant(self);
        }
        let data = self.data.clone();
        assert(data@ =~= self.data@);
        Block { cid: self.cid.clone(), data }
    }
}

/// The prefix of `cid`.
pub fn prefix(cid: &Cid) -> (r: Option<Prefix>)
    ensures
        r == prefix_of(cid@),
{
    let bytes = cid.as_bytes();
    if bytes.len() == 34 && bytes[0] == 0x12 && bytes[1] == 0x20 {
        return Some(Prefix { version: 0, codec: DAG_PB, hash_code: 0x12, hash_len: 0x20 });
    }
    match read_prefix(bytes) {
        Some((prefix, _)) => Some(prefix),
        None => None,
    }
}

impl Block {
    #[verifier::type_invariant]
    spec fn valid(&self) -> bool {
        block_ok(self.cid@, self.data@)
    }

    /// The block of `data` under `cid`, where `cid` is the identifier of
    /// `data`.
    pub fn new(cid: Cid, data: Vec<u8>) -> (r: Option<Block>)
        ensures
            match r {
                Some(block) => block@ == (BlockView { id: cid@, data: data@ }) && block_ok(
                    cid@,
                    data@,
                ),
                None => !block_ok(cid@, data@),
            },
    {
        let made = match prefix(&cid) {
            Some(p) => Cid::hashed(p.version, p.codec, p.hash_code, data.as_slice()),
            None => None,
        };
        match made {
            Some(own) => if own.same(&cid) {
                Some(Block { cid, data })
            } else {
                None
            },
            None => None,
        }
    }

    /// The block of `data`, under the identifier that a prefix gives it.
    pub fn hashed(p: Prefix, data: Vec<u8>) -> (r: Option<Block>)
        ensures
            match r {
                Some(block) => hashed_cid(p.version, p.codec, p.hash_code, data@) == Some(
                    block@.id,
                ) && block@.data == data@ && block_ok(block@.id, data@),
                None => !(hashed_cid(p.version, p.codec, p.hash_code, data@) matches Some(id)
                    && block_ok(id, data@)),
            },
    {
        match Cid::hashed(p.version, p.codec, p.hash_code, data.as_slice()) {
            Some(cid) => Block::new(cid, data),
            None => None,
        }
    }

    /// The block of raw bytes `data`, under its version-1 SHA2-256
    /// identifier.
    pub fn raw(data: Vec<u8>) -> (r: Option<Block>)
        ensures
            match r {
                Some(block) => hashed_cid(1, crate::cid::RAW, crate::cid::SHA2_256, data@) == Some(
                    block@.id,
                ) && block@.data == data@ && block_ok(block@.id, data@),
                None => !(hashed_cid(1, crate::cid::RAW, crate::cid::SHA2_256, data@) matches Some(
                    id,
                ) && block_ok(id, data@)),
            },
    {
        Block::hashed(
            Prefix { version: 1, codec: crate::cid::RAW, hash_code: crate::cid::SHA2_256, hash_len: 32 },
            data,
        )
    }

    /// The identifier. It is the identifier of the bytes.
    pub fn cid(&self) -> (r: &Cid)
        ensures
            r@ == self@.id,
            block_ok(self@.id, self@.data),
    {
        proof {
            use_type_invariant(self);
        }
        &self.cid
    }

    /// The bytes.
    pub fn data(&self) -> (r: &[u8])
        ensures
            r@ == self@.data,
    {
        self.data.as_slice()
    }

    /// The identifier and the bytes, apart.
    pub fn into_parts(self) -> (r: (Cid, Vec<u8>))
        ensures
            r.0@ == self@.id,
            r.1@ == self@.data,
            block_ok(self@.id, self@.data),
    {
        proof {
            use_type_invariant(&self);
        }
        (self.cid, self.data)
    }
}

/// One entry of a message's want-list, as contracts speak of it.
pub struct EntryView {
    pub id: Seq<u8>,
    pub priority: Priority,
    pub cancel: bool,
}

/// One entry of a message's want-list: a want, or the cancellation of one.
#[derive(Debug, PartialEq, Eq)]
pub struct Entry {
    /// The block in question.
    pub cid: Cid,
    /// How urgently it is wanted.
    pub priority: Priority,
    /// Whether the entry takes an earlier want back.
    pub cancel: bool,
}

impl View for Entry {
    type V = EntryView;

    open spec fn view(&self) -> EntryView {
        EntryView { id: self.cid@, priority: self.priority, cancel: self.cancel }
    }
}

impl Clone for Entry {
    fn clone(&self) -> (r: Self)
        ensures
            r@ == self@,
    {
        Entry { cid: self.cid.clone(), priority: self.priority, cancel: self.cancel }
    }
}

/// A message, as contracts speak of it.
pub struct MessageView {
    pub entries: Seq<EntryView>,
    pub full: bool,
    pub blocks: Seq<BlockView>,
}

/// A message: entries of the sender's want-list, whether these are the whole
/// list, and blocks.
#[derive(Debug, PartialEq, Eq)]
pub struct Message {
    /// Wants and cancellations, in order.
    pub entries: Vec<Entry>,
    /// Whether the entries are the sender's whole want-list.
    pub full: bool,
    /// Blocks for the receiver.
    pub blocks: Vec<Block>,
}

/// The entries that `entries` stand for.
pub open spec fn entries_of(entries: Seq<Entry>) -> Seq<EntryView> {
    entries.map_values(|e: Entry| e@)
}

/// The blocks that `blocks` stand for.
pub open spec fn blocks_of(blocks: Seq<Block>) -> Seq<BlockView> {
    blocks.map_values(|b: Block| b@)
}

impl View for Message {
    type V = MessageView;

    open spec fn view(&self) -> MessageView {
        MessageView {
            entries: entries_of(self.entries@),
            full: self.full,
            blocks: blocks_of(self.blocks@),
        }
    }
}

impl Message {
    /// The message that says nothing.
    pub fn new() -> (r: Message)
        ensures
            r@.entries.len() == 0,
            !r@.full,
            r@.blocks.len() == 0,
    {
        Message { entries: Vec::new(), full: false, blocks: Vec::new() }
    }

    /// Whether the message says nothing.
    pub fn is_empty(&self) -> (r: bool)
        ensures
            r == (self@.entries.len() == 0 && self@.blocks.len() == 0),
    {
        self.entries.len() == 0 && self.blocks.len() == 0
    }

    /// Adds a want of `cid` at `priority`.
    pub fn want_block(&mut self, cid: Cid, priority: Priority)
        ensures
            final(self)@ == (MessageView {
                entries: old(self)@.entries.push(EntryView { id: cid@, priority, cancel: false }),
                ..old(self)@
            }),
    {
        self.entries.push(Entry { cid, priority, cancel: false });
        assert(entries_of(self.entries@) =~= entries_of(old(self).entries@).push(
            EntryView { id: cid@, priority, cancel: false },
        ));
    }

    /// Adds the cancellation of the want of `cid`.
    pub fn cancel_block(&mut self, cid: Cid)
        ensures
            final(self)@ == (MessageView {
                entries: old(self)@.entries.push(EntryView { id: cid@, priority: 0, cancel: true }),
                ..old(self)@
            }),
    {
        self.entries.push(Entry { cid, priority: 0, cancel: true });
        assert(entries_of(self.entries@) =~= entries_of(old(self).entries@).push(
            EntryView { id: cid@, priority: 0, cancel: true },
        ));
    }

    /// Adds a block.
    pub fn add_block(&mut self, block: Block)
        ensures
            final(self)@ == (MessageView {
                blocks: old(self)@.blocks.push(block@),
                ..old(self)@
            }),
    {
        self.blocks.push(block);
        assert(blocks_of(self.blocks@) =~= blocks_of(old(self).blocks@).push(block@));
    }
}

} // verus!
