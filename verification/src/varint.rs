//! Unsigned variable-length integers: seven payload bits per byte, least
//! significant group first, the high bit set on every byte but the last.

use vstd::prelude::*;

verus! {

/// Most bytes that the encoding of a `u64` takes, and the most that the
/// decoder reads.
pub const MAX_VARINT_LEN: usize = 10;

/// The encoding of `n`.
pub open spec fn varint(n: nat) -> Seq<u8>
    decreases n,
{
    if n < 128 {
        seq![n as u8]
    } else {
        seq![(n % 128 + 128) as u8] + varint(n / 128)
    }
}

/// The number that the bytes of `b` from index `i` on encode, with the number
/// of bytes that the encoding takes; `None` where `b` ends before the
/// encoding does.
pub open spec fn varint_at(b: Seq<u8>, i: int) -> Option<(nat, nat)>
    decreases b.len() - i,
{
    if i < 0 || i >= b.len() {
        None
    } else if b[i] < 128 {
        Some((b[i] as nat, 1nat))
    } else {
        match varint_at(b, i + 1) {
            Some((v, k)) => Some(((b[i] - 128) as nat + 128 * v, k + 1)),
            None => None,
        }
    }
}

/// What `read_varint` accepts: an encoding of at most `MAX_VARINT_LEN` bytes
/// whose value fits in a `u64`.
pub open spec fn u64_varint_at(b: Seq<u8>, i: int) -> Option<(u64, usize)> {
    match varint_at(b, i) {
        Some((v, k)) => if k <= MAX_VARINT_LEN && v <= u64::MAX {
            Some((v as u64, k as usize))
        } else {
            None
        },
        None => None,
    }
}

/// An encoding takes at least one byte and ends inside the sequence.
pub proof fn lemma_varint_at_bounds(b: Seq<u8>, i: int)
    ensures
        varint_at(b, i) matches Some((v, k)) ==> 1 <= k && 0 <= i && i + k <= b.len() && b[i + k
            - 1] < 128,
    decreases b.len() - i,
{
    if 0 <= i < b.len() && b[i] >= 128 {
        lemma_varint_at_bounds(b, i + 1);
    }
}

/// While every byte carries the continuation bit, the encoding that starts at
/// `i` is the one that starts at `j`, extended by the bytes between: it is no
/// shorter than `j - i + 1` bytes and its value is no smaller.
proof fn lemma_varint_at_continues(b: Seq<u8>, i: int, j: int)
    requires
        0 <= i <= j <= b.len(),
        forall|t: int| i <= t < j ==> b[t] >= 128,
    ensures
        varint_at(b, j) is None ==> varint_at(b, i) is None,
        varint_at(b, j) matches Some((vj, kj)) ==> (varint_at(b, i) matches Some((vi, ki)) && ki
            == kj + (j - i) && vi >= vj),
    decreases j - i,
{
    if i < j {
        lemma_varint_at_continues(b, i + 1, j);
    }
}

/// Reads the number encoded in `b` from index `start` on.
pub fn read_varint(b: &[u8], start: usize) -> (r: Option<(u64, usize)>)
    ensures
        r == u64_varint_at(b@, start as int),
{
    if start >= b.len() {
        return None;
    }
    // Find the byte that ends the encoding.
    let mut end: usize = start;
    while end < b.len() && end - start < MAX_VARINT_LEN && b[end] >= 128
        invariant
            start <= end <= b.len(),
            end - start <= MAX_VARINT_LEN,
            forall|t: int| start <= t < end ==> b@[t] >= 128,
        decreases b.len() - end,
    {
        end = end + 1;
    }
    proof {
        lemma_varint_at_continues(b@, start as int, end as int);
        lemma_varint_at_bounds(b@, end as int);
    }
    if end >= b.len() || end - start >= MAX_VARINT_LEN {
        return None;
    }
    // Fold the groups back to front.
    let mut value: u64 = b[end] as u64;
    let mut at: usize = end;
    while at > start
        invariant
            start <= at <= end < b.len(),
            end - start < MAX_VARINT_LEN,
            forall|t: int| start <= t < end ==> b@[t] >= 128,
            varint_at(b@, at as int) == Some((value as nat, (end - at + 1) as nat)),
        decreases at - start,
    {
        let low: u64 = (b[at - 1] - 128) as u64;
        proof {
            lemma_varint_at_continues(b@, start as int, (at - 1) as int);
        }
        if value > (u64::MAX - low) / 128 {
            return None;
        }
        value = low + 128 * value;
        at = at - 1;
    }
    Some((value, end - start + 1))
}

/// The encoding of `n` is never empty, and only its last byte lacks the
/// continuation bit.
pub proof fn lemma_varint_shape(n: nat)
    ensures
        varint(n).len() >= 1,
        forall|t: int| 0 <= t < varint(n).len() - 1 ==> varint(n)[t] >= 128,
        varint(n).last() < 128,
    decreases n,
{
    if n >= 128 {
        lemma_varint_shape(n / 128);
        let rest = varint(n / 128);
        assert forall|t: int| 0 <= t < varint(n).len() - 1 implies varint(n)[t] >= 128 by {
            if t > 0 {
                assert(varint(n)[t] == rest[t - 1]);
            }
        }
        assert(varint(n).last() == rest.last());
    }
}

/// Decoding inverts encoding, wherever the encoding stands in a longer
/// sequence.
pub proof fn lemma_varint_roundtrip(pre: Seq<u8>, n: nat, post: Seq<u8>)
    ensures
        varint_at(pre + varint(n) + post, pre.len() as int) == Some((n, varint(n).len())),
    decreases n,
{
    let b = pre + varint(n) + post;
    let i = pre.len() as int;
    assert(b[i] == varint(n)[0]);
    if n >= 128 {
        let head = seq![(n % 128 + 128) as u8];
        lemma_varint_roundtrip(pre + head, n / 128, post);
        assert(pre + head + varint(n / 128) + post =~= b);
    }
}

/// Powers of 128.
pub open spec fn pow128(k: nat) -> nat
    decreases k,
{
    if k == 0 {
        1
    } else {
        128 * pow128((k - 1) as nat)
    }
}

/// A number below `128^k` is encoded in at most `k` bytes.
pub proof fn lemma_varint_len(n: nat, k: nat)
    requires
        k >= 1,
        n < pow128(k),
    ensures
        varint(n).len() <= k,
    decreases n,
{
    if n >= 128 {
        if k == 1 {
            assert(pow128(1) == 128) by {
                reveal_with_fuel(pow128, 2);
            }
        } else {
            lemma_varint_len(n / 128, (k - 1) as nat);
        }
    }
}

/// The encoding of a `u64` takes at most `MAX_VARINT_LEN` bytes.
pub proof fn lemma_varint_len_u64(n: u64)
    ensures
        1 <= varint(n as nat).len() <= MAX_VARINT_LEN,
{
    assert(pow128(10) == 1180591620717411303424) by {
        reveal_with_fuel(pow128, 11);
    }
    lemma_varint_len(n as nat, 10);
    lemma_varint_shape(n as nat);
}

/// Appends the encoding of `n` to `out`.
pub fn write_varint(n: u64, out: &mut Vec<u8>)
    ensures
        final(out)@ == old(out)@ + varint(n as nat),
{
    let mut rest: u64 = n;
    while rest >= 128
        invariant
            out@ + varint(rest as nat) == old(out)@ + varint(n as nat),
        decreases rest,
    {
        let ghost before = out@;
        out.push((rest % 128 + 128) as u8);
        proof {
            let head = seq![(rest % 128 + 128) as u8];
            assert(out@ == before + head);
            assert(before + head + varint((rest / 128) as nat) =~= before + varint(rest as nat));
        }
        rest = rest / 128;
    }
    let ghost before = out@;
    out.push(rest as u8);
    assert(out@ =~= before + varint(rest as nat));
}

} // verus!
