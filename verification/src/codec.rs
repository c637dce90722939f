//! The serialised form of a message: length-delimited records of numbered
//! fields, as the exchange protocol in its version 1.1.0 writes them.
//!
//! A message holds, as field 1, the want-list (its entries as fields 1, the
//! flag for a whole list as field 2) and, as fields 3, the blocks (the prefix
//! of the identifier as field 1, the bytes as field 2). An entry holds the
//! identifier as field 1, the priority as field 2 and the cancellation flag as
//! field 3. Fields may come in any order; of a field that may come once the
//! last counts; fields with other numbers are passed over.

use crate::cid::{hashed_cid, is_cid, same_bytes, Cid};
use crate::ledger::Priority;
use crate::message::{
    block_ok, prefix, prefix_at, prefix_of, read_prefix, Block, BlockView, Entry, EntryView,
    Message, MessageView, Prefix,
};
use crate::varint::{
    lemma_varint_at_bounds, read_varint, u64_varint_at, varint, write_varint,
};
use crate::roundtrip::{lemma_codec_roundtrip, sound};
use vstd::prelude::*;
use vstd::slice::slice_subrange;

verus! {

/// Kind of a field whose value is one variable-length number.
pub const VARINT: u64 = 0;

/// Kind of a field whose value is eight bytes.
pub const FIXED64: u64 = 1;

/// Kind of a field whose value is a length and as many bytes.
pub const LEN: u64 = 2;

/// Kind of a field whose value is four bytes.
pub const FIXED32: u64 = 5;

/// One field as contracts speak of it: its number and kind, the number it
/// holds (for `VARINT`, or the length for `LEN`), where its value starts and
/// stops, and where the next field starts.
pub struct Field {
    pub number: u64,
    pub kind: u64,
    pub value: u64,
    pub start: int,
    pub stop: int,
    pub next: int,
}

/// The number encoded at `i`, and the place behind it, where that is not
/// beyond `end`.
pub open spec fn varint_in(b: Seq<u8>, i: int, end: int) -> Option<(u64, int)> {
    match u64_varint_at(b, i) {
        Some((v, k)) => if i + k <= end {
            Some((v, i + k))
        } else {
            None
        },
        None => None,
    }
}

/// The field that starts at `i` and stops at `end` at the latest.
#[verifier::opaque]
pub open spec fn field_at(b: Seq<u8>, i: int, end: int) -> Option<Field> {
    match varint_in(b, i, end) {
        None => None,
        Some((key, j)) => {
            let number = key / 8;
            let kind = key % 8;
            if number == 0 {
                None
            } else if kind == VARINT {
                match varint_in(b, j, end) {
                    Some((v, n)) => Some(
                        Field { number, kind, value: v, start: j, stop: n, next: n },
                    ),
                    None => None,
                }
            } else if kind == FIXED64 {
                if j + 8 <= end {
                    Some(Field { number, kind, value: 0, start: j, stop: j + 8, next: j + 8 })
                } else {
                    None
                }
            } else if kind == LEN {
                match varint_in(b, j, end) {
                    Some((len, d)) => if len <= end - d {
                        Some(
                            Field {
                                number,
                                kind,
                                value: len,
                                start: d,
                                stop: d + len,
                                next: d + len,
                            },
                        )
                    } else {
                        None
                    },
                    None => None,
                }
            } else if kind == FIXED32 {
                if j + 4 <= end {
                    Some(Field { number, kind, value: 0, start: j, stop: j + 4, next: j + 4 })
                } else {
                    None
                }
            } else {
                None
            }
        },
    }
}

/// A field takes at least one byte, and its value lies inside it.
pub proof fn lemma_field_at(b: Seq<u8>, i: int, end: int)
    ensures
        field_at(b, i, end) matches Some(f) ==> 0 <= i < f.start <= f.stop <= f.next <= end
            && f.stop == f.next,
{
    reveal(field_at);
    lemma_varint_at_bounds(b, i);
    match varint_in(b, i, end) {
        Some((key, j)) => {
            lemma_varint_at_bounds(b, j);
        },
        None => {},
    }
}

/// One field as the decoder holds it.
#[derive(Debug, Clone, Copy)]
pub struct Token {
    pub number: u64,
    pub kind: u64,
    pub value: u64,
    pub start: usize,
    pub stop: usize,
    pub next: usize,
}

impl View for Token {
    type V = Field;

    open spec fn view(&self) -> Field {
        Field {
            number: self.number,
            kind: self.kind,
            value: self.value,
            start: self.start as int,
            stop: self.stop as int,
            next: self.next as int,
        }
    }
}

/// Reads the number at `i`, where its encoding stops at `end` at the latest.
fn read_varint_in(b: &[u8], i: usize, end: usize) -> (r: Option<(u64, usize)>)
    requires
        end <= b.len(),
    ensures
        match r {
            Some((v, n)) => varint_in(b@, i as int, end as int) == Some((v, n as int)) && i < n
                <= end,
            None => varint_in(b@, i as int, end as int) is None,
        },
{
    proof {
        lemma_varint_at_bounds(b@, i as int);
    }
    match read_varint(b, i) {
        Some((v, k)) => if k <= end && i <= end - k {
            Some((v, i + k))
        } else {
            None
        },
        None => None,
    }
}

/// Reads the field that starts at `i` and stops at `end` at the latest.
pub fn read_field(b: &[u8], i: usize, end: usize) -> (r: Option<Token>)
    requires
        end <= b.len(),
    ensures
        match r {
            Some(t) => field_at(b@, i as int, end as int) == Some(t@) && i < t.start <= t.stop
                <= t.next <= end,
            None => field_at(b@, i as int, end as int) is None,
        },
{
    proof {
        reveal(field_at);
        lemma_field_at(b@, i as int, end as int);
    }
    let (key, j) = match read_varint_in(b, i, end) {
        Some(found) => found,
        None => {
            return None;
        },
    };
    let number: u64 = key / 8;
    let kind: u64 = key % 8;
    if number == 0 {
        None
    } else if kind == VARINT {
        match read_varint_in(b, j, end) {
            Some((v, n)) => Some(Token { number, kind, value: v, start: j, stop: n, next: n }),
            None => None,
        }
    } else if kind == FIXED64 {
        if end - j >= 8 {
            Some(Token { number, kind, value: 0, start: j, stop: j + 8, next: j + 8 })
        } else {
            None
        }
    } else if kind == LEN {
        match read_varint_in(b, j, end) {
            Some((len, d)) => if len <= (end - d) as u64 {
                let stop: usize = d + len as usize;
                Some(Token { number, kind, value: len, start: d, stop, next: stop })
            } else {
                None
            },
            None => None,
        }
    } else if kind == FIXED32 {
        if end - j >= 4 {
            Some(Token { number, kind, value: 0, start: j, stop: j + 4, next: j + 4 })
        } else {
            None
        }
    } else {
        None
    }
}

/// The priority that the number `v` stands for: its low 32 bits, read as a
/// signed number.
pub open spec fn priority_of_bits(v: u64) -> Priority {
    let low = v % 0x1_0000_0000;
    if low < 0x8000_0000 {
        low as Priority
    } else {
        (low - 0x1_0000_0000) as Priority
    }
}

/// The number that stands for `priority`: the priority itself, or for a
/// negative one its distance from 2^64.
pub open spec fn bits_of_priority(priority: Priority) -> u64 {
    if priority >= 0 {
        priority as u64
    } else {
        (0x1_0000_0000_0000_0000 + priority) as u64
    }
}

/// Reading the number of a priority gives the priority.
pub proof fn lemma_priority_roundtrip(priority: Priority)
    ensures
        priority_of_bits(bits_of_priority(priority)) == priority,
{
    if priority < 0 {
        let v = (0x1_0000_0000_0000_0000 + priority) as int;
        assert(v % 0x1_0000_0000 == 0x1_0000_0000 + priority) by {
            assert(v == 0xffff_ffff * 0x1_0000_0000 + (0x1_0000_0000 + priority));
        }
    }
}

/// The priority that `v` stands for.
pub fn priority_from(v: u64) -> (r: Priority)
    ensures
        r == priority_of_bits(v),
{
    let low: u64 = v % 0x1_0000_0000;
    if low < 0x8000_0000 {
        low as i32
    } else {
        (low as i64 - 0x1_0000_0000) as i32
    }
}

/// The number that stands for `priority`.
pub fn priority_bits(priority: Priority) -> (r: u64)
    ensures
        r == bits_of_priority(priority),
{
    if priority >= 0 {
        priority as u64
    } else {
        u64::MAX - ((-(priority as i64) - 1) as u64)
    }
}

/// What the fields of an entry have given so far.
pub struct EntryAcc {
    pub block: Option<Seq<u8>>,
    pub priority: Priority,
    pub cancel: bool,
}

/// What the fields of an entry give before any is read.
pub open spec fn entry_start() -> EntryAcc {
    EntryAcc { block: None, priority: 0, cancel: false }
}

/// What the fields of an entry have given once `f` is read too.
pub open spec fn entry_step(b: Seq<u8>, acc: EntryAcc, f: Field) -> EntryAcc {
    if f.number == 1 && f.kind == LEN {
        EntryAcc { block: Some(b.subrange(f.start, f.stop)), ..acc }
    } else if f.number == 2 && f.kind == VARINT {
        EntryAcc { priority: priority_of_bits(f.value), ..acc }
    } else if f.number == 3 && f.kind == VARINT {
        EntryAcc { cancel: f.value != 0, ..acc }
    } else {
        acc
    }
}

/// What the fields from `i` up to `end` give for an entry, after `acc`.
pub open spec fn entry_fields(b: Seq<u8>, i: int, end: int, acc: EntryAcc) -> Option<EntryAcc>
    decreases end - i,
{
    if i >= end {
        Some(acc)
    } else {
        match field_at(b, i, end) {
            Some(f) => if i < f.next <= end {
                entry_fields(b, f.next, end, entry_step(b, acc, f))
            } else {
                None
            },
            None => None,
        }
    }
}

/// The entry that an accumulation amounts to: it needs an identifier, whole
/// and in its one spelling.
pub open spec fn entry_of(acc: EntryAcc) -> Option<EntryView> {
    match acc.block {
        Some(raw) => if is_cid(raw) {
            Some(EntryView { id: raw, priority: acc.priority, cancel: acc.cancel })
        } else {
            None
        },
        None => None,
    }
}

/// The entry that the bytes from `start` up to `end` hold.
pub open spec fn entry_in(b: Seq<u8>, start: int, end: int) -> Option<EntryView> {
    match entry_fields(b, start, end, entry_start()) {
        Some(acc) => entry_of(acc),
        None => None,
    }
}

/// What the fields of a block have given so far.
pub struct BlockAcc {
    pub prefix: Option<Seq<u8>>,
    pub data: Seq<u8>,
}

/// What the fields of a block have given once `f` is read too.
pub open spec fn block_step(b: Seq<u8>, acc: BlockAcc, f: Field) -> BlockAcc {
    if f.number == 1 && f.kind == LEN {
        BlockAcc { prefix: Some(b.subrange(f.start, f.stop)), ..acc }
    } else if f.number == 2 && f.kind == LEN {
        BlockAcc { data: b.subrange(f.start, f.stop), ..acc }
    } else {
        acc
    }
}

/// What the fields from `i` up to `end` give for a block, after `acc`.
pub open spec fn block_fields(b: Seq<u8>, i: int, end: int, acc: BlockAcc) -> Option<BlockAcc>
    decreases end - i,
{
    if i >= end {
        Some(acc)
    } else {
        match field_at(b, i, end) {
            Some(f) => if i < f.next <= end {
                block_fields(b, f.next, end, block_step(b, acc, f))
            } else {
                None
            },
            None => None,
        }
    }
}

/// The block that a prefix and bytes amount to: the prefix is four numbers
/// and no more, and the bytes get an identifier under it.
pub open spec fn block_of(acc: BlockAcc) -> Option<BlockView> {
    match acc.prefix {
        Some(raw) => match prefix_at(raw) {
            Some((p, k)) => if k == raw.len() {
                match hashed_cid(p.version, p.codec, p.hash_code, acc.data) {
                    Some(id) => if block_ok(id, acc.data) {
                        Some(BlockView { id, data: acc.data })
                    } else {
                        None
                    },
                    None => None,
                }
            } else {
                None
            },
            None => None,
        },
        None => None,
    }
}

/// The block that the bytes from `start` up to `end` hold.
pub open spec fn block_in(b: Seq<u8>, start: int, end: int) -> Option<BlockView> {
    match block_fields(b, start, end, BlockAcc { prefix: None, data: Seq::empty() }) {
        Some(acc) => block_of(acc),
        None => None,
    }
}

/// What the fields of a want-list have given once `f` is read too.
pub open spec fn wantlist_step(b: Seq<u8>, acc: MessageView, f: Field) -> Option<MessageView> {
    if f.number == 1 && f.kind == LEN {
        match entry_in(b, f.start, f.stop) {
            Some(e) => Some(MessageView { entries: acc.entries.push(e), ..acc }),
            None => None,
        }
    } else if f.number == 2 && f.kind == VARINT {
        Some(MessageView { full: f.value != 0, ..acc })
    } else {
        Some(acc)
    }
}

/// What the fields from `i` up to `end` give for a want-list, after `acc`.
pub open spec fn wantlist_fields(b: Seq<u8>, i: int, end: int, acc: MessageView) -> Option<
    MessageView,
>
    decreases end - i,
{
    if i >= end {
        Some(acc)
    } else {
        match field_at(b, i, end) {
            Some(f) => if i < f.next <= end {
                match wantlist_step(b, acc, f) {
                    Some(now) => wantlist_fields(b, f.next, end, now),
                    None => None,
                }
            } else {
                None
            },
            None => None,
        }
    }
}

/// What the fields of a message have given once `f` is read too.
pub open spec fn message_step(b: Seq<u8>, acc: MessageView, f: Field) -> Option<MessageView> {
    if f.number == 1 && f.kind == LEN {
        wantlist_fields(b, f.start, f.stop, acc)
    } else if f.number == 3 && f.kind == LEN {
        match block_in(b, f.start, f.stop) {
            Some(block) => Some(MessageView { blocks: acc.blocks.push(block), ..acc }),
            None => None,
        }
    } else {
        Some(acc)
    }
}

/// What the fields from `i` up to `end` give for a message, after `acc`.
pub open spec fn message_fields(b: Seq<u8>, i: int, end: int, acc: MessageView) -> Option<
    MessageView,
>
    decreases end - i,
{
    if i >= end {
        Some(acc)
    } else {
        match field_at(b, i, end) {
            Some(f) => if i < f.next <= end {
                match message_step(b, acc, f) {
                    Some(now) => message_fields(b, f.next, end, now),
                    None => None,
                }
            } else {
                None
            },
            None => None,
        }
    }
}

/// The message that says nothing.
pub open spec fn nothing() -> MessageView {
    MessageView { entries: Seq::empty(), full: false, blocks: Seq::empty() }
}

/// The message that `b` holds, or `None` where `b` is no message.
pub open spec fn decoded(b: Seq<u8>) -> Option<MessageView> {
    message_fields(b, 0, b.len() as int, nothing())
}

/// Reads the entry that the bytes from `start` up to `end` hold.
fn read_entry(b: &[u8], start: usize, end: usize) -> (r: Option<Entry>)
    requires
        start <= end <= b.len(),
    ensures
        match r {
            Some(e) => entry_in(b@, start as int, end as int) == Some(e@),
            None => entry_in(b@, start as int, end as int) is None,
        },
{
    let mut block: Option<(usize, usize)> = None;
    let mut priority: Priority = 0;
    let mut cancel: bool = false;
    let ghost mut acc = entry_start();
    let mut i: usize = start;
    while i < end
        invariant
            start <= i <= end <= b.len(),
            entry_fields(b@, start as int, end as int, entry_start()) == entry_fields(
                b@,
                i as int,
                end as int,
                acc,
            ),
            acc.priority == priority,
            acc.cancel == cancel,
            match block {
                Some((s, e)) => s <= e <= b.len() && acc.block == Some(
                    b@.subrange(s as int, e as int),
                ),
                None => acc.block is None,
            },
        decreases end - i,
    {
        let t = match read_field(b, i, end) {
            Some(t) => t,
            None => {
                return None;
            },
        };
        proof {
            acc = entry_step(b@, acc, t@);
        }
        if t.number == 1 && t.kind == LEN {
            block = Some((t.start, t.stop));
        } else if t.number == 2 && t.kind == VARINT {
            priority = priority_from(t.value);
        } else if t.number == 3 && t.kind == VARINT {
            cancel = t.value != 0;
        }
        i = t.next;
    }
    match block {
        Some((s, e)) => {
            let raw = slice_subrange(b, s, e);
            match Cid::from_bytes(raw) {
                Some(cid) => if same_bytes(cid.as_bytes(), raw) {
                    Some(Entry { cid, priority, cancel })
                } else {
                    None
                },
                None => None,
            }
        },
        None => None,
    }
}

/// The bytes of `b` from `start` up to `end`, in a vector of their own.
fn copy_range(b: &[u8], start: usize, end: usize) -> (r: Vec<u8>)
    requires
        start <= end <= b.len(),
    ensures
        r@ == b@.subrange(start as int, end as int),
{
    let mut r: Vec<u8> = Vec::new();
    let mut i: usize = start;
    while i < end
        invariant
            start <= i <= end <= b.len(),
            r@ == b@.subrange(start as int, i as int),
        decreases end - i,
    {
        r.push(b[i]);
        assert(r@ =~= b@.subrange(start as int, i + 1));
        i = i + 1;
    }
    r
}

/// Reads the block that the bytes from `start` up to `end` hold.
fn read_block(b: &[u8], start: usize, end: usize) -> (r: Option<Block>)
    requires
        start <= end <= b.len(),
    ensures
        match r {
            Some(block) => block_in(b@, start as int, end as int) == Some(block@),
            None => block_in(b@, start as int, end as int) is None,
        },
{
    let mut stated: Option<(usize, usize)> = None;
    let mut data: (usize, usize) = (start, start);
    let ghost first = BlockAcc { prefix: None, data: Seq::empty() };
    let ghost mut acc = first;
    assert(b@.subrange(start as int, start as int) =~= Seq::<u8>::empty());
    let mut i: usize = start;
    while i < end
        invariant
            start <= i <= end <= b.len(),
            first == (BlockAcc { prefix: None, data: Seq::empty() }),
            block_fields(b@, start as int, end as int, first) == block_fields(
                b@,
                i as int,
                end as int,
                acc,
            ),
            data.0 <= data.1 <= b.len(),
            acc.data == b@.subrange(data.0 as int, data.1 as int),
            match stated {
                Some((s, e)) => s <= e <= b.len() && acc.prefix == Some(
                    b@.subrange(s as int, e as int),
                ),
                None => acc.prefix is None,
            },
        decreases end - i,
    {
        let t = match read_field(b, i, end) {
            Some(t) => t,
            None => {
                return None;
            },
        };
        proof {
            acc = block_step(b@, acc, t@);
        }
        if t.number == 1 && t.kind == LEN {
            stated = Some((t.start, t.stop));
        } else if t.number == 2 && t.kind == LEN {
            data = (t.start, t.stop);
        }
        i = t.next;
    }
    match stated {
        Some((s, e)) => {
            let raw = slice_subrange(b, s, e);
            match read_prefix(raw) {
                Some((p, k)) => if k == raw.len() {
                    match Block::hashed(p, copy_range(b, data.0, data.1)) {
                        Some(block) => Some(block),
                        None => None,
                    }
                } else {
                    None
                },
                None => None,
            }
        },
        None => None,
    }
}

/// Reads the fields of a want-list from `start` up to `end` into `message`,
/// and says whether they could be read. Where they could not, `message` is
/// good for nothing.
fn read_wantlist(b: &[u8], start: usize, end: usize, message: &mut Message) -> (ok: bool)
    requires
        start <= end <= b.len(),
    ensures
        match wantlist_fields(b@, start as int, end as int, old(message)@) {
            Some(now) => ok && final(message)@ == now,
            None => !ok,
        },
{
    let ghost first = message@;
    let mut i: usize = start;
    while i < end
        invariant
            start <= i <= end <= b.len(),
            first == old(message)@,
            wantlist_fields(b@, start as int, end as int, first) == wantlist_fields(
                b@,
                i as int,
                end as int,
                message@,
            ),
        decreases end - i,
    {
        let t = match read_field(b, i, end) {
            Some(t) => t,
            None => {
                return false;
            },
        };
        if t.number == 1 && t.kind == LEN {
            match read_entry(b, t.start, t.stop) {
                Some(entry) => {
                    let ghost before = message@;
                    message.entries.push(entry);
                    assert(message@.entries =~= before.entries.push(entry@));
                },
                None => {
                    return false;
                },
            }
        } else if t.number == 2 && t.kind == VARINT {
            message.full = t.value != 0;
        }
        i = t.next;
    }
    true
}

impl Message {
    /// Reads a message from its serialised form.
    pub fn from_bytes(b: &[u8]) -> (r: Option<Message>)
        ensures
            match r {
                Some(message) => decoded(b@) == Some(message@),
                None => decoded(b@) is None,
            },
    {
        let mut message = Message::new();
        assert(message@.entries =~= Seq::<EntryView>::empty());
        assert(message@.blocks =~= Seq::<BlockView>::empty());
        let end: usize = b.len();
        let mut i: usize = 0;
        while i < end
            invariant
                i <= end == b.len(),
                decoded(b@) == message_fields(b@, i as int, end as int, message@),
            decreases end - i,
        {
            let t = match read_field(b, i, end) {
                Some(t) => t,
                None => {
                    return None;
                },
            };
            if t.number == 1 && t.kind == LEN {
                if !read_wantlist(b, t.start, t.stop, &mut message) {
                    return None;
                }
            } else if t.number == 3 && t.kind == LEN {
                match read_block(b, t.start, t.stop) {
                    Some(block) => {
                        let ghost before = message@;
                        message.blocks.push(block);
                        assert(message@.blocks =~= before.blocks.push(block@));
                    },
                    None => {
                        return None;
                    },
                }
            }
            i = t.next;
        }
        Some(message)
    }
}

/// The bytes that open a field.
pub open spec fn key(number: u64, kind: u64) -> Seq<u8> {
    varint((number * 8 + kind) as nat)
}

/// A field that holds the number `v`.
pub open spec fn varint_field(number: u64, v: u64) -> Seq<u8> {
    key(number, VARINT) + varint(v as nat)
}

/// A field that holds the bytes `payload`.
pub open spec fn len_field(number: u64, payload: Seq<u8>) -> Seq<u8> {
    key(number, LEN) + varint(payload.len()) + payload
}

/// The number that stands for a flag.
pub open spec fn flag(set: bool) -> u64 {
    if set {
        1
    } else {
        0
    }
}

/// The serialised form of an entry.
#[verifier::opaque]
pub open spec fn entry_bytes(e: EntryView) -> Seq<u8> {
    len_field(1, e.id) + varint_field(2, bits_of_priority(e.priority)) + varint_field(
        3,
        flag(e.cancel),
    )
}

/// The serialised form of entries, each as a field 1.
pub open spec fn entries_bytes(entries: Seq<EntryView>) -> Seq<u8>
    decreases entries.len(),
{
    if entries.len() == 0 {
        Seq::empty()
    } else {
        entries_bytes(entries.drop_last()) + len_field(1, entry_bytes(entries.last()))
    }
}

/// The serialised form of a want-list.
pub open spec fn wantlist_bytes(entries: Seq<EntryView>, full: bool) -> Seq<u8> {
    entries_bytes(entries) + varint_field(2, flag(full))
}

/// The serialised form of a prefix.
pub open spec fn prefix_bytes(p: Prefix) -> Seq<u8> {
    varint(p.version as nat) + varint(p.codec as nat) + varint(p.hash_code as nat) + varint(
        p.hash_len as nat,
    )
}

/// The serialised form of a block.
#[verifier::opaque]
pub open spec fn block_bytes(block: BlockView) -> Seq<u8> {
    len_field(1, prefix_bytes(prefix_of(block.id).unwrap())) + len_field(2, block.data)
}

/// The serialised form of blocks, each as a field 3.
pub open spec fn blocks_bytes(blocks: Seq<BlockView>) -> Seq<u8>
    decreases blocks.len(),
{
    if blocks.len() == 0 {
        Seq::empty()
    } else {
        blocks_bytes(blocks.drop_last()) + len_field(3, block_bytes(blocks.last()))
    }
}

/// The serialised form of a message.
pub open spec fn encoded(m: MessageView) -> Seq<u8> {
    len_field(1, wantlist_bytes(m.entries, m.full)) + blocks_bytes(m.blocks)
}

/// Appends `bytes` to `out`.
fn append(out: &mut Vec<u8>, bytes: &[u8])
    ensures
        final(out)@ == old(out)@ + bytes@,
{
    let mut i: usize = 0;
    while i < bytes.len()
        invariant
            i <= bytes.len(),
            out@ == old(out)@ + bytes@.subrange(0, i as int),
        decreases bytes.len() - i,
    {
        out.push(bytes[i]);
        assert(out@ =~= old(out)@ + bytes@.subrange(0, i + 1));
        i = i + 1;
    }
    assert(bytes@.subrange(0, i as int) =~= bytes@);
}

/// Appends to `out` a field that holds the number `v`.
fn put_varint_field(out: &mut Vec<u8>, number: u64, v: u64)
    requires
        number <= 0xffff,
    ensures
        final(out)@ == old(out)@ + varint_field(number, v),
{
    write_varint(number * 8 + VARINT, out);
    write_varint(v, out);
    assert(out@ =~= old(out)@ + varint_field(number, v));
}

/// Appends to `out` a field that holds the bytes `payload`.
fn put_len_field(out: &mut Vec<u8>, number: u64, payload: &[u8])
    requires
        number <= 0xffff,
    ensures
        final(out)@ == old(out)@ + len_field(number, payload@),
{
    write_varint(number * 8 + LEN, out);
    write_varint(payload.len() as u64, out);
    append(out, payload);
    assert(out@ =~= old(out)@ + len_field(number, payload@));
}

/// The serialised form of `entry`.
fn entry_to_bytes(entry: &Entry) -> (r: Vec<u8>)
    ensures
        r@ == entry_bytes(entry@),
        is_cid(entry@.id),
{
    let mut r: Vec<u8> = Vec::new();
    put_len_field(&mut r, 1, entry.cid.as_bytes());
    put_varint_field(&mut r, 2, priority_bits(entry.priority));
    put_varint_field(&mut r, 3, if entry.cancel { 1 } else { 0 });
    reveal(entry_bytes);
    assert(r@ =~= entry_bytes(entry@));
    r
}

/// The serialised form of `p`.
fn prefix_to_bytes(p: &Prefix) -> (r: Vec<u8>)
    ensures
        r@ == prefix_bytes(*p),
{
    let mut r: Vec<u8> = Vec::new();
    write_varint(p.version, &mut r);
    write_varint(p.codec, &mut r);
    write_varint(p.hash_code, &mut r);
    write_varint(p.hash_len, &mut r);
    assert(r@ =~= prefix_bytes(*p));
    r
}

/// The serialised form of `block`.
fn block_to_bytes(block: &Block) -> (r: Vec<u8>)
    ensures
        r@ == block_bytes(block@),
        block_ok(block@.id, block@.data),
{
    let mut r: Vec<u8> = Vec::new();
    let p = match prefix(block.cid()) {
        Some(p) => p,
        None => unreached(),
    };
    let stated = prefix_to_bytes(&p);
    put_len_field(&mut r, 1, stated.as_slice());
    put_len_field(&mut r, 2, block.data());
    reveal(block_bytes);
    assert(r@ =~= block_bytes(block@));
    r
}

impl Message {
    /// The serialised form of the message. Read again, it gives the message.
    pub fn to_bytes(&self) -> (r: Vec<u8>)
        ensures
            r@ == encoded(self@),
            sound(self@),
            decoded(r@) == Some(self@),
    {
        let mut list: Vec<u8> = Vec::new();
        let mut i: usize = 0;
        while i < self.entries.len()
            invariant
                i <= self.entries.len(),
                list@ == entries_bytes(self@.entries.subrange(0, i as int)),
                forall|t: int| 0 <= t < i ==> is_cid(#[trigger] self@.entries[t].id),
            decreases self.entries.len() - i,
        {
            proof {
                let upto = self@.entries.subrange(0, i + 1);
                assert(upto.drop_last() =~= self@.entries.subrange(0, i as int));
                assert(upto.last() == self.entries[i as int]@);
            }
            let one = entry_to_bytes(&self.entries[i]);
            assert(self@.entries[i as int] == self.entries[i as int]@);
            put_len_field(&mut list, 1, one.as_slice());
            i = i + 1;
        }
        assert(self@.entries.subrange(0, i as int) =~= self@.entries);
        assert(forall|t: int|
            0 <= t < self@.entries.len() ==> is_cid(#[trigger] self@.entries[t].id));
        put_varint_field(&mut list, 2, if self.full { 1 } else { 0 });
        let mut r: Vec<u8> = Vec::new();
        put_len_field(&mut r, 1, list.as_slice());
        let ghost head = r@;
        let mut k: usize = 0;
        while k < self.blocks.len()
            invariant
                k <= self.blocks.len(),
                head == len_field(1, wantlist_bytes(self@.entries, self@.full)),
                forall|t: int| 0 <= t < self@.entries.len() ==> is_cid(#[trigger] self@.entries[t].id),
                forall|t: int|
                    0 <= t < k ==> block_ok((#[trigger] self@.blocks[t]).id, self@.blocks[t].data),
                r@ == head + blocks_bytes(self@.blocks.subrange(0, k as int)),
            decreases self.blocks.len() - k,
        {
            proof {
                let upto = self@.blocks.subrange(0, k + 1);
                assert(upto.drop_last() =~= self@.blocks.subrange(0, k as int));
                assert(upto.last() == self.blocks[k as int]@);
            }
            let one = block_to_bytes(&self.blocks[k]);
            assert(self@.blocks[k as int] == self.blocks[k as int]@);
            put_len_field(&mut r, 3, one.as_slice());
            assert(r@ =~= head + (blocks_bytes(self@.blocks.subrange(0, k as int)) + len_field(
                3,
                block_bytes(self.blocks[k as int]@),
            )));
            k = k + 1;
        }
        assert(self@.blocks.subrange(0, k as int) =~= self@.blocks);
        proof {
            assert(forall|t: int|
                0 <= t < self@.blocks.len() ==> block_ok(
                    (#[trigger] self@.blocks[t]).id,
                    self@.blocks[t].data,
                ));
            assert(r@ == encoded(self@));
            assert(r@.len() == r.len());
            assert(encoded(self@).len() <= u64::MAX);
            lemma_codec_roundtrip(self@);
        }
        r
    }
}

} // verus!
