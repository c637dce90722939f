//! Reading inverts writing: the message that `Message::from_bytes` reads from
//! the bytes that `Message::to_bytes` gives is the message that was written.

use crate::cid::is_cid;
use crate::codec::{
    bits_of_priority, block_bytes, block_fields, block_in, block_step, blocks_bytes, decoded,
    encoded, entries_bytes, entry_bytes, entry_fields, entry_in, entry_start, entry_step,
    field_at, flag, key, lemma_priority_roundtrip, len_field, message_fields, message_step,
    nothing, prefix_bytes, varint_field, varint_in, wantlist_bytes, wantlist_fields,
    wantlist_step, BlockAcc, EntryAcc, Field, LEN, VARINT,
};
use crate::message::{block_ok, prefix_at, prefix_of, BlockView, EntryView, MessageView, Prefix};
use crate::varint::{lemma_varint_len_u64, lemma_varint_roundtrip, lemma_varint_shape, varint};
use vstd::prelude::*;

verus! {

/// Where the encoding of `n` stands in `b` at `i`, the number at `i` is `n`.
pub proof fn lemma_varint_in(b: Seq<u8>, i: int, end: int, n: u64)
    requires
        0 <= i,
        i + varint(n as nat).len() <= end <= b.len(),
        b.subrange(i, i + varint(n as nat).len()) == varint(n as nat),
    ensures
        varint_in(b, i, end) == Some((n, i + varint(n as nat).len())),
{
    let k = varint(n as nat).len() as int;
    let pre = b.subrange(0, i);
    let post = b.subrange(i + k, b.len() as int);
    assert(pre + b.subrange(i, i + k) + post =~= b);
    lemma_varint_roundtrip(pre, n as nat, post);
    lemma_varint_len_u64(n);
}

/// Where a field that holds a number stands in `b` at `i`, that field is read
/// there.
pub proof fn lemma_varint_field(b: Seq<u8>, i: int, end: int, number: u64, v: u64)
    requires
        0 <= i,
        1 <= number <= 0xffff,
        i + varint_field(number, v).len() <= end <= b.len(),
        b.subrange(i, i + varint_field(number, v).len()) == varint_field(number, v),
    ensures
        field_at(b, i, end) == Some(
            Field {
                number,
                kind: VARINT,
                value: v,
                start: i + key(number, VARINT).len(),
                stop: i + varint_field(number, v).len(),
                next: i + varint_field(number, v).len(),
            },
        ),
{
    reveal(field_at);
    let whole = varint_field(number, v);
    let head = key(number, VARINT);
    let k = head.len() as int;
    let tag: u64 = (number * 8 + VARINT) as u64;
    assert(b.subrange(i, i + k) =~= whole.subrange(0, k));
    assert(whole.subrange(0, k) =~= head);
    lemma_varint_in(b, i, end, tag);
    assert(b.subrange(i + k, i + whole.len()) =~= whole.subrange(k, whole.len() as int));
    assert(whole.subrange(k, whole.len() as int) =~= varint(v as nat));
    lemma_varint_in(b, i + k, end, v);
    assert(tag / 8 == number && tag % 8 == VARINT);
}

/// Where a field that holds bytes stands in `b` at `i`, that field is read
/// there, and its value is those bytes.
pub proof fn lemma_len_field(b: Seq<u8>, i: int, end: int, number: u64, payload: Seq<u8>)
    requires
        0 <= i,
        1 <= number <= 0xffff,
        payload.len() <= u64::MAX,
        i + len_field(number, payload).len() <= end <= b.len(),
        b.subrange(i, i + len_field(number, payload).len()) == len_field(number, payload),
    ensures
        field_at(b, i, end) == Some(
            Field {
                number,
                kind: LEN,
                value: payload.len() as u64,
                start: i + len_field(number, payload).len() - payload.len(),
                stop: i + len_field(number, payload).len(),
                next: i + len_field(number, payload).len(),
            },
        ),
        b.subrange(
            i + len_field(number, payload).len() - payload.len(),
            i + len_field(number, payload).len(),
        ) == payload,
{
    reveal(field_at);
    let whole = len_field(number, payload);
    let head = key(number, LEN);
    let k = head.len() as int;
    let size = varint(payload.len());
    let s = size.len() as int;
    let tag: u64 = (number * 8 + LEN) as u64;
    assert(b.subrange(i, i + k) =~= whole.subrange(0, k));
    assert(whole.subrange(0, k) =~= head);
    lemma_varint_in(b, i, end, tag);
    assert(b.subrange(i + k, i + k + s) =~= whole.subrange(k, k + s));
    assert(whole.subrange(k, k + s) =~= size);
    lemma_varint_in(b, i + k, end, payload.len() as u64);
    assert(b.subrange(i + k + s, i + whole.len()) =~= whole.subrange(k + s, whole.len() as int));
    assert(whole.subrange(k + s, whole.len() as int) =~= payload);
    assert(tag / 8 == number && tag % 8 == LEN);
}

/// An entry is read from its serialised form, wherever that stands.
pub proof fn lemma_entry_roundtrip(b: Seq<u8>, i: int, e: EntryView)
    requires
        0 <= i,
        i + entry_bytes(e).len() <= b.len(),
        b.subrange(i, i + entry_bytes(e).len()) == entry_bytes(e),
        is_cid(e.id),
        e.id.len() <= u64::MAX,
    ensures
        entry_in(b, i, i + entry_bytes(e).len()) == Some(e),
{
    reveal(entry_bytes);
    let whole = entry_bytes(e);
    let end = i + whole.len();
    let f1 = len_field(1, e.id);
    let f2 = varint_field(2, bits_of_priority(e.priority));
    let f3 = varint_field(3, flag(e.cancel));
    let i2 = i + f1.len();
    let i3 = i2 + f2.len();
    assert(whole.len() == f1.len() + f2.len() + f3.len());
    assert(b.subrange(i, i2) =~= whole.subrange(0, f1.len() as int));
    assert(whole.subrange(0, f1.len() as int) =~= f1);
    lemma_len_field(b, i, end, 1, e.id);
    assert(b.subrange(i2, i3) =~= whole.subrange(f1.len() as int, (f1.len() + f2.len()) as int));
    assert(whole.subrange(f1.len() as int, (f1.len() + f2.len()) as int) =~= f2);
    lemma_varint_field(b, i2, end, 2, bits_of_priority(e.priority));
    assert(b.subrange(i3, end) =~= whole.subrange((f1.len() + f2.len()) as int, whole.len() as int));
    assert(whole.subrange((f1.len() + f2.len()) as int, whole.len() as int) =~= f3);
    lemma_varint_field(b, i3, end, 3, flag(e.cancel));
    lemma_priority_roundtrip(e.priority);
    lemma_varint_shape((1u64 * 8 + LEN) as nat);
    lemma_varint_shape((2u64 * 8 + VARINT) as nat);
    lemma_varint_shape((3u64 * 8 + VARINT) as nat);
    lemma_varint_shape(bits_of_priority(e.priority) as nat);
    lemma_varint_shape(flag(e.cancel) as nat);
    let a0 = entry_start();
    let a1 = entry_step(b, a0, field_at(b, i, end).unwrap());
    let a2 = entry_step(b, a1, field_at(b, i2, end).unwrap());
    let a3 = entry_step(b, a2, field_at(b, i3, end).unwrap());
    assert(entry_fields(b, end, end, a3) == Some(a3));
    assert(entry_fields(b, i3, end, a2) == Some(a3));
    assert(entry_fields(b, i2, end, a1) == Some(a3));
    assert(entry_fields(b, i, end, a0) == Some(a3));
    assert(a3 == EntryAcc { block: Some(e.id), priority: e.priority, cancel: e.cancel });
}

/// A field is never empty.
pub proof fn lemma_field_len(number: u64, payload: Seq<u8>, v: u64)
    ensures
        len_field(number, payload).len() > payload.len(),
        varint_field(number, v).len() >= 2,
{
    lemma_varint_shape((number * 8 + LEN) as nat);
    lemma_varint_shape((number * 8 + VARINT) as nat);
    lemma_varint_shape(payload.len());
    lemma_varint_shape(v as nat);
}

/// One entry, as a field of a want-list, is read and joins the entries that
/// were read before.
proof fn lemma_one_entry(b: Seq<u8>, j: int, end: int, e: EntryView, acc: MessageView)
    requires
        0 <= j,
        j + len_field(1, entry_bytes(e)).len() <= end <= b.len(),
        b.subrange(j, j + len_field(1, entry_bytes(e)).len()) == len_field(1, entry_bytes(e)),
        is_cid(e.id),
        entry_bytes(e).len() <= u64::MAX,
    ensures
        wantlist_fields(b, j, end, acc) == wantlist_fields(
            b,
            j + len_field(1, entry_bytes(e)).len(),
            end,
            MessageView { entries: acc.entries.push(e), ..acc },
        ),
{
    lemma_field_len(1, entry_bytes(e), 0);
    assert(e.id.len() < entry_bytes(e).len()) by {
        reveal(entry_bytes);
        lemma_field_len(1, e.id, 0);
    }
    lemma_len_field(b, j, end, 1, entry_bytes(e));
    let f = field_at(b, j, end).unwrap();
    lemma_entry_roundtrip(b, f.start, e);
    assert(wantlist_step(b, acc, f) == Some(MessageView { entries: acc.entries.push(e), ..acc }));
}

/// Entries are read from their serialised form, one after the other, and
/// join those that were read before.
pub proof fn lemma_entries_roundtrip(
    b: Seq<u8>,
    i: int,
    end: int,
    es: Seq<EntryView>,
    acc: MessageView,
)
    requires
        0 <= i,
        i + entries_bytes(es).len() <= end <= b.len(),
        b.subrange(i, i + entries_bytes(es).len()) == entries_bytes(es),
        forall|k: int| 0 <= k < es.len() ==> is_cid(#[trigger] es[k].id),
        entries_bytes(es).len() <= u64::MAX,
    ensures
        wantlist_fields(b, i, end, acc) == wantlist_fields(
            b,
            i + entries_bytes(es).len(),
            end,
            MessageView { entries: acc.entries + es, ..acc },
        ),
    decreases es.len(),
{
    if es.len() == 0 {
        assert(acc.entries + es =~= acc.entries);
    } else {
        let init = es.drop_last();
        let last = es.last();
        let whole = entries_bytes(es);
        let head = entries_bytes(init);
        let one = len_field(1, entry_bytes(last));
        let j = i + head.len();
        assert(whole == head + one);
        lemma_field_len(1, entry_bytes(last), 0);
        assert(b.subrange(i, j) =~= whole.subrange(0, head.len() as int));
        assert(whole.subrange(0, head.len() as int) =~= head);
        assert forall|k: int| 0 <= k < init.len() implies is_cid(#[trigger] init[k].id) by {
            assert(init[k] == es[k]);
        }
        lemma_entries_roundtrip(b, i, end, init, acc);
        let mid = MessageView { entries: acc.entries + init, ..acc };
        assert(b.subrange(j, j + one.len()) =~= whole.subrange(head.len() as int, whole.len() as int));
        assert(whole.subrange(head.len() as int, whole.len() as int) =~= one);
        assert(is_cid(es[es.len() - 1].id));
        lemma_one_entry(b, j, end, last, mid);
        assert(mid.entries.push(last) =~= acc.entries + es);
    }
}

/// A want-list is read from its serialised form, wherever that stands.
pub proof fn lemma_wantlist_roundtrip(
    b: Seq<u8>,
    i: int,
    es: Seq<EntryView>,
    full: bool,
    acc: MessageView,
)
    requires
        0 <= i,
        i + wantlist_bytes(es, full).len() <= b.len(),
        b.subrange(i, i + wantlist_bytes(es, full).len()) == wantlist_bytes(es, full),
        forall|k: int| 0 <= k < es.len() ==> is_cid(#[trigger] es[k].id),
        wantlist_bytes(es, full).len() <= u64::MAX,
    ensures
        wantlist_fields(b, i, i + wantlist_bytes(es, full).len(), acc) == Some(
            MessageView { entries: acc.entries + es, full, blocks: acc.blocks },
        ),
{
    let whole = wantlist_bytes(es, full);
    let end = i + whole.len();
    let head = entries_bytes(es);
    let tail = varint_field(2, flag(full));
    let j = i + head.len();
    lemma_field_len(2, Seq::empty(), flag(full));
    assert(b.subrange(i, j) =~= whole.subrange(0, head.len() as int));
    assert(whole.subrange(0, head.len() as int) =~= head);
    lemma_entries_roundtrip(b, i, end, es, acc);
    let mid = MessageView { entries: acc.entries + es, ..acc };
    assert(b.subrange(j, end) =~= whole.subrange(head.len() as int, whole.len() as int));
    assert(whole.subrange(head.len() as int, whole.len() as int) =~= tail);
    lemma_varint_field(b, j, end, 2, flag(full));
    let f = field_at(b, j, end).unwrap();
    let now = MessageView { full, ..mid };
    assert(wantlist_step(b, mid, f) == Some(now));
    assert(wantlist_fields(b, end, end, now) == Some(now));
    assert(wantlist_fields(b, j, end, mid) == Some(now));
}

/// A prefix is read from its serialised form, and nothing is left over.
pub proof fn lemma_prefix_roundtrip(p: Prefix)
    ensures
        prefix_at(prefix_bytes(p)) == Some((p, prefix_bytes(p).len() as int)),
{
    let b = prefix_bytes(p);
    let v0 = varint(p.version as nat);
    let v1 = varint(p.codec as nat);
    let v2 = varint(p.hash_code as nat);
    let v3 = varint(p.hash_len as nat);
    let k0 = v0.len() as int;
    let k1 = k0 + v1.len();
    let k2 = k1 + v2.len();
    let end = b.len() as int;
    assert(b.subrange(0, k0) =~= v0);
    lemma_varint_in(b, 0, end, p.version);
    assert(b.subrange(k0, k1) =~= v1);
    lemma_varint_in(b, k0, end, p.codec);
    assert(b.subrange(k1, k2) =~= v2);
    lemma_varint_in(b, k1, end, p.hash_code);
    assert(b.subrange(k2, end) =~= v3);
    lemma_varint_in(b, k2, end, p.hash_len);
}

/// A block is read from its serialised form, wherever that stands.
pub proof fn lemma_block_roundtrip(b: Seq<u8>, i: int, block: BlockView)
    requires
        0 <= i,
        i + block_bytes(block).len() <= b.len(),
        b.subrange(i, i + block_bytes(block).len()) == block_bytes(block),
        block_ok(block.id, block.data),
        block_bytes(block).len() <= u64::MAX,
    ensures
        block_in(b, i, i + block_bytes(block).len()) == Some(block),
{
    reveal(block_bytes);
    let p = prefix_of(block.id).unwrap();
    let whole = block_bytes(block);
    let end = i + whole.len();
    let f1 = len_field(1, prefix_bytes(p));
    let f2 = len_field(2, block.data);
    let i2 = i + f1.len();
    lemma_field_len(1, prefix_bytes(p), 0);
    lemma_field_len(2, block.data, 0);
    assert(b.subrange(i, i2) =~= whole.subrange(0, f1.len() as int));
    assert(whole.subrange(0, f1.len() as int) =~= f1);
    lemma_len_field(b, i, end, 1, prefix_bytes(p));
    assert(b.subrange(i2, end) =~= whole.subrange(f1.len() as int, whole.len() as int));
    assert(whole.subrange(f1.len() as int, whole.len() as int) =~= f2);
    lemma_len_field(b, i2, end, 2, block.data);
    lemma_prefix_roundtrip(p);
    let a0 = BlockAcc { prefix: None, data: Seq::empty() };
    let a1 = block_step(b, a0, field_at(b, i, end).unwrap());
    let a2 = block_step(b, a1, field_at(b, i2, end).unwrap());
    assert(block_fields(b, end, end, a2) == Some(a2));
    assert(block_fields(b, i2, end, a1) == Some(a2));
    assert(block_fields(b, i, end, a0) == Some(a2));
    assert(a2 == BlockAcc { prefix: Some(prefix_bytes(p)), data: block.data });
}

/// One block, as a field of a message, is read and joins the blocks that
/// were read before.
proof fn lemma_one_block(b: Seq<u8>, j: int, end: int, block: BlockView, acc: MessageView)
    requires
        0 <= j,
        j + len_field(3, block_bytes(block)).len() <= end <= b.len(),
        b.subrange(j, j + len_field(3, block_bytes(block)).len()) == len_field(
            3,
            block_bytes(block),
        ),
        block_ok(block.id, block.data),
        block_bytes(block).len() <= u64::MAX,
    ensures
        message_fields(b, j, end, acc) == message_fields(
            b,
            j + len_field(3, block_bytes(block)).len(),
            end,
            MessageView { blocks: acc.blocks.push(block), ..acc },
        ),
{
    lemma_field_len(3, block_bytes(block), 0);
    lemma_len_field(b, j, end, 3, block_bytes(block));
    let f = field_at(b, j, end).unwrap();
    lemma_block_roundtrip(b, f.start, block);
    assert(message_step(b, acc, f) == Some(MessageView { blocks: acc.blocks.push(block), ..acc }));
}

/// Blocks are read from their serialised form, one after the other, and join
/// those that were read before.
pub proof fn lemma_blocks_roundtrip(
    b: Seq<u8>,
    i: int,
    end: int,
    blocks: Seq<BlockView>,
    acc: MessageView,
)
    requires
        0 <= i,
        i + blocks_bytes(blocks).len() <= end <= b.len(),
        b.subrange(i, i + blocks_bytes(blocks).len()) == blocks_bytes(blocks),
        forall|k: int|
            0 <= k < blocks.len() ==> block_ok((#[trigger] blocks[k]).id, blocks[k].data),
        blocks_bytes(blocks).len() <= u64::MAX,
    ensures
        message_fields(b, i, end, acc) == message_fields(
            b,
            i + blocks_bytes(blocks).len(),
            end,
            MessageView { blocks: acc.blocks + blocks, ..acc },
        ),
    decreases blocks.len(),
{
    if blocks.len() == 0 {
        assert(acc.blocks + blocks =~= acc.blocks);
    } else {
        let init = blocks.drop_last();
        let last = blocks.last();
        let whole = blocks_bytes(blocks);
        let head = blocks_bytes(init);
        let one = len_field(3, block_bytes(last));
        let j = i + head.len();
        assert(whole == head + one);
        lemma_field_len(3, block_bytes(last), 0);
        assert(b.subrange(i, j) =~= whole.subrange(0, head.len() as int));
        assert(whole.subrange(0, head.len() as int) =~= head);
        assert forall|k: int| 0 <= k < init.len() implies block_ok(
            (#[trigger] init[k]).id,
            init[k].data,
        ) by {
            assert(init[k] == blocks[k]);
        }
        lemma_blocks_roundtrip(b, i, end, init, acc);
        let mid = MessageView { blocks: acc.blocks + init, ..acc };
        assert(b.subrange(j, j + one.len()) =~= whole.subrange(head.len() as int, whole.len() as int));
        assert(whole.subrange(head.len() as int, whole.len() as int) =~= one);
        assert(block_ok(blocks[blocks.len() - 1].id, blocks[blocks.len() - 1].data));
        lemma_one_block(b, j, end, last, mid);
        assert(mid.blocks.push(last) =~= acc.blocks + blocks);
    }
}

/// Whether a message can be written and read again: each entry names an
/// identifier, each block has the identifier of its bytes, and the lengths
/// fit in 64 bits.
pub open spec fn sound(m: MessageView) -> bool {
    &&& forall|k: int| 0 <= k < m.entries.len() ==> is_cid(#[trigger] m.entries[k].id)
    &&& forall|k: int|
        0 <= k < m.blocks.len() ==> block_ok((#[trigger] m.blocks[k]).id, m.blocks[k].data)
    &&& encoded(m).len() <= u64::MAX
}

/// Reading inverts writing.
pub proof fn lemma_codec_roundtrip(m: MessageView)
    requires
        sound(m),
    ensures
        decoded(encoded(m)) == Some(m),
{
    let b = encoded(m);
    let end = b.len() as int;
    let list = wantlist_bytes(m.entries, m.full);
    let f1 = len_field(1, list);
    let tail = blocks_bytes(m.blocks);
    let j = f1.len() as int;
    lemma_field_len(1, list, 0);
    assert(b.subrange(0, j) =~= f1);
    lemma_len_field(b, 0, end, 1, list);
    let f = field_at(b, 0, end).unwrap();
    lemma_wantlist_roundtrip(b, f.start, m.entries, m.full, nothing());
    let mid = MessageView { entries: m.entries, full: m.full, blocks: Seq::empty() };
    assert(nothing().entries + m.entries =~= m.entries);
    assert(message_step(b, nothing(), f) == Some(mid));
    assert(b.subrange(j, end) =~= tail);
    lemma_blocks_roundtrip(b, j, end, m.blocks, mid);
    assert(mid.blocks + m.blocks =~= m.blocks);
    let now = MessageView { blocks: m.blocks, ..mid };
    assert(message_fields(b, end, end, now) == Some(now));
    assert(now == m);
}

} // verus!
