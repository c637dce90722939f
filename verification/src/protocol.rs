//! The wire side of the exchange protocol: the identifier that is negotiated
//! for a connection, and the frame that carries one message.
//!
//! One upgrade of a connection carries one message in one frame. A frame is
//! the length of its payload, as a variable-length number, and the payload.

use crate::cid::same_bytes;
use crate::codec::{decoded, encoded};
use crate::message::{Message, MessageView};
use crate::roundtrip::{lemma_codec_roundtrip, sound};
use crate::varint::{
    lemma_varint_at_bounds, lemma_varint_len_u64, lemma_varint_roundtrip, read_varint,
    u64_varint_at, varint, varint_at, write_varint, MAX_VARINT_LEN,
};
use vstd::prelude::*;

verus! {

/// Largest payload, in bytes, that one frame may carry.
pub const MAX_BUF_SIZE: usize = 524_288;

/// Why an upgrade failed. The connection is not used for another attempt.
#[derive(Debug, PartialEq, Eq, Structural, Clone, Copy)]
pub enum BitswapError {
    /// The frame states a payload of more than `MAX_BUF_SIZE` bytes.
    FrameTooLarge,
    /// The length at the start of the frame cannot be read, or the frame
    /// ends before its payload does.
    MalformedFrame,
    /// The payload is no message.
    Decode,
    /// The protocol identifier is not one that this node speaks.
    UnsupportedVersion,
}

/// The identifier of the protocol that this node speaks:
/// `/ipfs/bitswap/1.1.0`, in ASCII.
pub open spec fn protocol_id() -> Seq<u8> {
    seq![
        0x2f, 0x69, 0x70, 0x66, 0x73, 0x2f, 0x62, 0x69, 0x74, 0x73, 0x77, 0x61, 0x70, 0x2f, 0x31,
        0x2e, 0x31, 0x2e, 0x30,
    ]
}

/// The identifier of the protocol that this node speaks.
pub fn protocol_name() -> (r: Vec<u8>)
    ensures
        r@ == protocol_id(),
{
    let r: Vec<u8> = vec![
        0x2f, 0x69, 0x70, 0x66, 0x73, 0x2f, 0x62, 0x69, 0x74, 0x73, 0x77, 0x61, 0x70, 0x2f, 0x31,
        0x2e, 0x31, 0x2e, 0x30,
    ];
    assert(r@ =~= protocol_id());
    r
}

/// The first place in `offered` of an identifier that this node speaks.
pub open spec fn first_spoken(offered: Seq<Vec<u8>>) -> int
    decreases offered.len(),
{
    if offered.len() == 0 || offered[0]@ == protocol_id() {
        0
    } else {
        1 + first_spoken(offered.drop_first())
    }
}

/// The frame that carries `payload`.
pub open spec fn framed(payload: Seq<u8>) -> Seq<u8> {
    varint(payload.len()) + payload
}

/// The payload of the frame that `wire` starts with. Bytes behind the frame
/// are not looked at.
pub open spec fn unframed(wire: Seq<u8>) -> Result<Seq<u8>, BitswapError> {
    match u64_varint_at(wire, 0) {
        None => Err(BitswapError::MalformedFrame),
        Some((len, k)) => if len > MAX_BUF_SIZE {
            Err(BitswapError::FrameTooLarge)
        } else if wire.len() - k < len {
            Err(BitswapError::MalformedFrame)
        } else {
            Ok(wire.subrange(k as int, k + len))
        },
    }
}

/// How far the reading of a frame has come.
#[derive(Debug, PartialEq, Eq, Structural, Clone, Copy)]
pub enum Progress {
    /// The frame is there, whole.
    Ready,
    /// So many bytes more are to be read before the next look.
    NeedMore(usize),
    /// Whatever follows, this will be no frame.
    Failed(BitswapError),
}

/// Whether the bytes of `wire` all carry the continuation bit, and are fewer
/// than a length takes at most: the length may yet come to an end.
pub open spec fn open_length(wire: Seq<u8>) -> bool {
    wire.len() < MAX_VARINT_LEN && forall|i: int| 0 <= i < wire.len() ==> wire[i] >= 128
}

/// How far `wire` is towards a frame. While the length is not at its end, one
/// more byte is asked for; once it is, all that the payload still lacks.
pub open spec fn progress(wire: Seq<u8>) -> Progress {
    match u64_varint_at(wire, 0) {
        Some((len, k)) => if len > MAX_BUF_SIZE {
            Progress::Failed(BitswapError::FrameTooLarge)
        } else if wire.len() - k < len {
            Progress::NeedMore((k + len - wire.len()) as usize)
        } else {
            Progress::Ready
        },
        None => if open_length(wire) {
            Progress::NeedMore(1)
        } else {
            Progress::Failed(BitswapError::MalformedFrame)
        },
    }
}

/// What an inbound upgrade makes of the bytes that came in, under the
/// identifier `info` that was negotiated.
pub open spec fn inbound(info: Seq<u8>, wire: Seq<u8>) -> Result<MessageView, BitswapError> {
    if info != protocol_id() {
        Err(BitswapError::UnsupportedVersion)
    } else {
        match unframed(wire) {
            Err(e) => Err(e),
            Ok(payload) => match decoded(payload) {
                Some(message) => Ok(message),
                None => Err(BitswapError::Decode),
            },
        }
    }
}

/// What an outbound upgrade puts on the wire for `message`, under the
/// identifier `info` that was negotiated.
pub open spec fn outbound(info: Seq<u8>, message: MessageView) -> Result<Seq<u8>, BitswapError> {
    if info != protocol_id() {
        Err(BitswapError::UnsupportedVersion)
    } else if encoded(message).len() > MAX_BUF_SIZE {
        Err(BitswapError::FrameTooLarge)
    } else {
        Ok(framed(encoded(message)))
    }
}

/// The size limit, from both sides: a payload of up to `MAX_BUF_SIZE` bytes
/// comes out of its frame as it went in, whatever follows the frame; a frame
/// that states a longer payload is refused.
pub proof fn lemma_frame_limit(payload: Seq<u8>, rest: Seq<u8>)
    ensures
        payload.len() <= MAX_BUF_SIZE ==> unframed(framed(payload) + rest) == Ok::<
            Seq<u8>,
            BitswapError,
        >(payload),
        MAX_BUF_SIZE < payload.len() <= u64::MAX ==> unframed(framed(payload) + rest) == Err::<
            Seq<u8>,
            BitswapError,
        >(BitswapError::FrameTooLarge),
        payload.len() > MAX_BUF_SIZE ==> unframed(framed(payload) + rest) is Err,
{
    let wire = framed(payload) + rest;
    let len = payload.len();
    lemma_varint_roundtrip(Seq::empty(), len, payload + rest);
    assert(Seq::<u8>::empty() + varint(len) + (payload + rest) =~= wire);
    let k = varint(len).len();
    assert(varint_at(wire, 0) == Some((len, k)));
    if len <= u64::MAX {
        lemma_varint_len_u64(len as u64);
        if len <= MAX_BUF_SIZE {
            assert(wire.subrange(k as int, (k + len) as int) =~= payload);
        }
    }
}

/// One message per upgrade, there and back: what an outbound upgrade writes
/// for a message, an inbound upgrade reads as that message, whatever follows
/// on the wire. A message whose serialised form is over the limit does not go
/// out.
pub proof fn lemma_upgrade_roundtrip(message: MessageView, rest: Seq<u8>)
    requires
        sound(message),
    ensures
        match outbound(protocol_id(), message) {
            Ok(wire) => encoded(message).len() <= MAX_BUF_SIZE && inbound(
                protocol_id(),
                wire + rest,
            ) == Ok::<MessageView, BitswapError>(message),
            Err(e) => encoded(message).len() > MAX_BUF_SIZE && e == BitswapError::FrameTooLarge,
        },
{
    lemma_frame_limit(encoded(message), rest);
    lemma_codec_roundtrip(message);
}

/// Reading in steps arrives where reading at once does: `wire` is ready
/// exactly where it holds a frame, what has failed is refused for the same
/// reason, and once the length is read, the bytes asked for complete the
/// frame.
pub proof fn lemma_progress(wire: Seq<u8>, more: Seq<u8>)
    ensures
        progress(wire) == Progress::Ready <==> unframed(wire) is Ok,
        progress(wire) matches Progress::Failed(e) ==> unframed(wire + more) == Err::<
            Seq<u8>,
            BitswapError,
        >(e),
        progress(wire) matches Progress::NeedMore(n) ==> n >= 1 && unframed(wire) == Err::<
            Seq<u8>,
            BitswapError,
        >(BitswapError::MalformedFrame),
        progress(wire) matches Progress::NeedMore(n) && u64_varint_at(wire, 0) is Some && more.len()
            == n ==> progress(wire + more) == Progress::Ready,
{
    let longer = wire + more;
    lemma_varint_at_bounds(wire, 0);
    lemma_varint_at_extends(wire, more, 0);
    match varint_at(wire, 0) {
        Some((v, k)) => {
            assert(varint_at(longer, 0) == Some((v, k)));
        },
        None => {
            if !open_length(wire) {
                lemma_length_closed(wire, more);
            }
        },
    }
}

/// The number encoded at `i` stays what it is when bytes are added behind.
proof fn lemma_varint_at_extends(wire: Seq<u8>, more: Seq<u8>, i: int)
    requires
        0 <= i,
    ensures
        varint_at(wire, i) is Some ==> varint_at(wire + more, i) == varint_at(wire, i),
    decreases wire.len() - i,
{
    if i < wire.len() {
        assert((wire + more)[i] == wire[i]);
        if wire[i] >= 128 {
            lemma_varint_at_extends(wire, more, i + 1);
        }
    }
}

/// A length that has not come to an end within the bytes it may take comes
/// to none, whatever follows.
proof fn lemma_length_closed(wire: Seq<u8>, more: Seq<u8>)
    requires
        varint_at(wire, 0) is None,
        !open_length(wire),
    ensures
        u64_varint_at(wire + more, 0) is None,
{
    let longer = wire + more;
    lemma_all_continue(wire, 0);
    assert(wire.len() >= MAX_VARINT_LEN);
    assert forall|t: int| 0 <= t < MAX_VARINT_LEN implies longer[t] >= 128 by {
        assert(longer[t] == wire[t]);
    }
    lemma_long_length(longer, 0, MAX_VARINT_LEN as int);
}

/// Where no number is encoded at `i`, every byte from `i` on carries the
/// continuation bit.
proof fn lemma_all_continue(wire: Seq<u8>, i: int)
    requires
        0 <= i,
        varint_at(wire, i) is None,
    ensures
        forall|t: int| i <= t < wire.len() ==> wire[t] >= 128,
    decreases wire.len() - i,
{
    if i < wire.len() {
        lemma_all_continue(wire, i + 1);
    }
}

/// An encoding that runs over `n` bytes with the continuation bit takes more
/// than `n` bytes.
proof fn lemma_long_length(wire: Seq<u8>, i: int, n: int)
    requires
        0 <= i,
        0 <= n,
        i + n <= wire.len(),
        forall|t: int| i <= t < i + n ==> wire[t] >= 128,
    ensures
        varint_at(wire, i) matches Some((v, k)) ==> k > n,
    decreases n,
{
    if n > 0 {
        lemma_long_length(wire, i + 1, n - 1);
    } else {
        lemma_varint_at_bounds(wire, i);
    }
}

/// Says how far `wire` is towards a frame.
pub fn frame_progress(wire: &[u8]) -> (r: Progress)
    ensures
        r == progress(wire@),
{
    proof {
        lemma_varint_at_bounds(wire@, 0);
    }
    match read_varint(wire, 0) {
        Some((len, k)) => {
            if len > MAX_BUF_SIZE as u64 {
                Progress::Failed(BitswapError::FrameTooLarge)
            } else if ((wire.len() - k) as u64) < len {
                Progress::NeedMore(k + len as usize - wire.len())
            } else {
                Progress::Ready
            }
        },
        None => {
            if wire.len() >= MAX_VARINT_LEN {
                return Progress::Failed(BitswapError::MalformedFrame);
            }
            let mut i: usize = 0;
            while i < wire.len()
                invariant
                    i <= wire.len() < MAX_VARINT_LEN,
                    u64_varint_at(wire@, 0) is None,
                    forall|t: int| 0 <= t < i ==> wire@[t] >= 128,
                decreases wire.len() - i,
            {
                if wire[i] < 128 {
                    return Progress::Failed(BitswapError::MalformedFrame);
                }
                i = i + 1;
            }
            Progress::NeedMore(1)
        },
    }
}

/// Takes the payload out of the frame that `wire` starts with.
pub fn read_one(wire: &[u8]) -> (r: Result<Vec<u8>, BitswapError>)
    ensures
        match r {
            Ok(payload) => unframed(wire@) == Ok::<Seq<u8>, BitswapError>(payload@),
            Err(e) => unframed(wire@) == Err::<Seq<u8>, BitswapError>(e),
        },
{
    proof {
        lemma_varint_at_bounds(wire@, 0);
    }
    let (len, k) = match read_varint(wire, 0) {
        Some(found) => found,
        None => {
            return Err(BitswapError::MalformedFrame);
        },
    };
    if len > MAX_BUF_SIZE as u64 {
        return Err(BitswapError::FrameTooLarge);
    }
    if ((wire.len() - k) as u64) < len {
        return Err(BitswapError::MalformedFrame);
    }
    let end: usize = k + len as usize;
    let mut payload: Vec<u8> = Vec::new();
    let mut i: usize = k;
    while i < end
        invariant
            k <= i <= end <= wire.len(),
            payload@ == wire@.subrange(k as int, i as int),
        decreases end - i,
    {
        payload.push(wire[i]);
        assert(payload@ =~= wire@.subrange(k as int, i + 1));
        i = i + 1;
    }
    Ok(payload)
}

/// Puts `payload` into a frame. A payload over the limit is refused, and
/// nothing is to be sent.
pub fn write_one(payload: &[u8]) -> (r: Result<Vec<u8>, BitswapError>)
    ensures
        match r {
            Ok(wire) => payload@.len() <= MAX_BUF_SIZE && wire@ == framed(payload@),
            Err(e) => payload@.len() > MAX_BUF_SIZE && e == BitswapError::FrameTooLarge,
        },
{
    if payload.len() > MAX_BUF_SIZE {
        return Err(BitswapError::FrameTooLarge);
    }
    let mut wire: Vec<u8> = Vec::new();
    write_varint(payload.len() as u64, &mut wire);
    let ghost head = wire@;
    let mut i: usize = 0;
    while i < payload.len()
        invariant
            i <= payload.len(),
            wire@ == head + payload@.subrange(0, i as int),
        decreases payload.len() - i,
    {
        wire.push(payload[i]);
        assert(wire@ =~= head + payload@.subrange(0, i + 1));
        i = i + 1;
    }
    assert(payload@.subrange(0, i as int) =~= payload@);
    assert(head =~= varint(payload@.len()));
    Ok(wire)
}

/// The inbound side of the protocol.
#[derive(Clone, Copy, Debug, Default)]
pub struct BitswapConfig {}

impl BitswapConfig {
    /// The protocol identifiers that this node offers, the newest first.
    pub fn protocol_info(&self) -> (r: Vec<Vec<u8>>)
        ensures
            r@.len() == 1,
            r@[0]@ == protocol_id(),
    {
        let mut r: Vec<Vec<u8>> = Vec::new();
        r.push(protocol_name());
        r
    }

    /// Chooses among the identifiers that the other side offers: the first
    /// that this node speaks, by its place in `offered`.
    pub fn negotiate(&self, offered: &Vec<Vec<u8>>) -> (r: Option<usize>)
        ensures
            match r {
                Some(i) => i == first_spoken(offered@) && i < offered@.len() && offered@[i as int]@
                    == protocol_id(),
                None => first_spoken(offered@) == offered@.len() && forall|i: int|
                    0 <= i < offered@.len() ==> (#[trigger] offered@[i])@ != protocol_id(),
            },
    {
        let name = protocol_name();
        let mut i: usize = 0;
        assert(offered@.skip(0) =~= offered@);
        while i < offered.len()
            invariant
                i <= offered.len(),
                name@ == protocol_id(),
                first_spoken(offered@) == i + first_spoken(offered@.skip(i as int)),
                forall|t: int| 0 <= t < i ==> (#[trigger] offered@[t])@ != protocol_id(),
            decreases offered.len() - i,
        {
            proof {
                let rest = offered@.skip(i as int);
                assert(rest[0] == offered@[i as int]);
                assert(rest.drop_first() =~= offered@.skip(i + 1));
            }
            if same_bytes(offered[i].as_slice(), name.as_slice()) {
                return Some(i);
            }
            i = i + 1;
        }
        None
    }

    /// Reads the one message of an inbound upgrade from the bytes that came
    /// in, under the identifier `info` that was negotiated.
    pub fn upgrade_inbound(&self, wire: &[u8], info: &[u8]) -> (r: Result<Message, BitswapError>)
        ensures
            match r {
                Ok(message) => inbound(info@, wire@) == Ok::<MessageView, BitswapError>(message@),
                Err(e) => inbound(info@, wire@) == Err::<MessageView, BitswapError>(e),
            },
    {
        let name = protocol_name();
        if !same_bytes(info, name.as_slice()) {
            return Err(BitswapError::UnsupportedVersion);
        }
        let packet = match read_one(wire) {
            Ok(packet) => packet,
            Err(e) => {
                return Err(e);
            },
        };
        match Message::from_bytes(packet.as_slice()) {
            Some(message) => Ok(message),
            None => Err(BitswapError::Decode),
        }
    }
}

impl Message {
    /// The protocol identifiers under which a message can go out, the newest
    /// first.
    pub fn protocol_info(&self) -> (r: Vec<Vec<u8>>)
        ensures
            r@.len() == 1,
            r@[0]@ == protocol_id(),
    {
        let mut r: Vec<Vec<u8>> = Vec::new();
        r.push(protocol_name());
        r
    }

    /// Gives the bytes that an outbound upgrade is to write for this message,
    /// under the identifier `info` that was negotiated. A message whose
    /// serialised form is over the limit is refused before anything is sent.
    pub fn upgrade_outbound(&self, info: &[u8]) -> (r: Result<Vec<u8>, BitswapError>)
        ensures
            match r {
                Ok(wire) => outbound(info@, self@) == Ok::<Seq<u8>, BitswapError>(wire@),
                Err(e) => outbound(info@, self@) == Err::<Seq<u8>, BitswapError>(e),
            },
    {
        let name = protocol_name();
        if !same_bytes(info, name.as_slice()) {
            return Err(BitswapError::UnsupportedVersion);
        }
        let bytes = self.to_bytes();
        write_one(bytes.as_slice())
    }
}

} // verus!
