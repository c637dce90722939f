//! Block identifiers.
//!
//! An identifier is held in its binary form. Its text form, and the reading of
//! either form, are the work of `libipld`; this module names their results and
//! proves the rest from those names.

use vstd::prelude::*;

verus! {

/// Content code of a block of raw bytes.
pub const RAW: u64 = 0x55;

/// Hash code of SHA2-256.
pub const SHA2_256: u64 = 0x12;

/// Hash code of the identity function, which this library does not hash with.
pub const IDENTITY: u64 = 0x00;

/// The binary form of the identifier that `libipld` reads at the start of
/// `bytes`, or `None` where it reads none.
pub uninterp spec fn cid_decode(bytes: Seq<u8>) -> Option<Seq<u8>>;

/// The text form that `libipld` gives the identifier it reads from `bytes`,
/// or `None` where it reads none.
pub uninterp spec fn cid_text(bytes: Seq<u8>) -> Option<Seq<char>>;

/// The binary form of the identifier that `libipld` reads from `text`, or
/// `None` where it reads none.
pub uninterp spec fn cid_parse(text: Seq<char>) -> Option<Seq<u8>>;

/// The binary form of the identifier of version `version` with content code
/// `codec` whose hash is that of `data` under the hash function `hash_code`,
/// or `None` where `libipld` knows no such version or hash function, or
/// refuses the three together.
pub uninterp spec fn cid_hashed(version: u64, codec: u64, hash_code: u64, data: Seq<u8>) -> Option<
    Seq<u8>,
>;

/// The view of a vector that may be absent.
pub open spec fn bytes_of(r: Option<Vec<u8>>) -> Option<Seq<u8>> {
    match r {
        Some(b) => Some(b@),
        None => None,
    }
}

/// The view of a string that may be absent.
pub open spec fn text_of(r: Option<String>) -> Option<Seq<char>> {
    match r {
        Some(s) => Some(s@),
        None => None,
    }
}

/// Calls `Cid::try_from` on a byte slice and hands back `Cid::to_bytes` of
/// what it read. The contract only names the result.
#[verifier::external_body]
fn decode_bytes(bytes: &[u8]) -> (r: Option<Vec<u8>>)
    ensures
        bytes_of(r) == cid_decode(bytes@),
{
    match libipld::cid::Cid::try_from(bytes) {
        Ok(cid) => Some(cid.to_bytes()),
        Err(_) => None,
    }
}

/// Calls `Cid::to_string` on the identifier that `Cid::try_from` reads from a
/// byte slice. The contract only names the result.
#[verifier::external_body]
fn text_of_bytes(bytes: &[u8]) -> (r: Option<String>)
    ensures
        text_of(r) == cid_text(bytes@),
{
    match libipld::cid::Cid::try_from(bytes) {
        Ok(cid) => Some(cid.to_string()),
        Err(_) => None,
    }
}

/// Calls `Cid::try_from` on a string slice and hands back `Cid::to_bytes` of
/// what it read. The contract only names the result.
#[verifier::external_body]
fn parse_text(text: &str) -> (r: Option<Vec<u8>>)
    ensures
        bytes_of(r) == cid_parse(text@),
{
    match libipld::cid::Cid::try_from(text) {
        Ok(cid) => Some(cid.to_bytes()),
        Err(_) => None,
    }
}

/// Calls `Version::try_from` on the version, `Code::try_from` on the hash
/// code, `MultihashDigest::digest` on the data and `Cid::new` on the three,
/// and hands back `Cid::to_bytes`. The identity hash is left out: it panics
/// on long input. The contract only names the result.
#[verifier::external_body]
fn hash_to_cid(version: u64, codec: u64, hash_code: u64, data: &[u8]) -> (r: Option<Vec<u8>>)
    requires
        hash_code != IDENTITY,
    ensures
        bytes_of(r) == cid_hashed(version, codec, hash_code, data@),
{
    let version = libipld::cid::Version::try_from(version).ok()?;
    let code = libipld::multihash::Code::try_from(hash_code).ok()?;
    let hash = libipld::multihash::MultihashDigest::digest(&code, data);
    match libipld::cid::Cid::new(version, codec, hash) {
        Ok(cid) => Some(cid.to_bytes()),
        Err(_) => None,
    }
}

/// Whether `bytes` is the binary form of an identifier, whole and in its one
/// spelling: read as binary it gives itself, and it survives the way through
/// its text form, which is not empty.
pub open spec fn is_cid(bytes: Seq<u8>) -> bool {
    &&& cid_decode(bytes) == Some(bytes)
    &&& cid_text(bytes) matches Some(text) && text.len() > 0 && cid_parse(text) == Some(bytes)
}

/// `Some(bytes)` where `is_cid(bytes)`, else `None`.
pub open spec fn checked(bytes: Option<Seq<u8>>) -> Option<Seq<u8>> {
    match bytes {
        Some(b) => if is_cid(b) {
            Some(b)
        } else {
            None
        },
        None => None,
    }
}

/// What `Cid::hashed` gives: the identifier that `cid_hashed` names, where it
/// survives the way through its text form and the hash is not the identity.
pub open spec fn hashed_cid(version: u64, codec: u64, hash_code: u64, data: Seq<u8>) -> Option<
    Seq<u8>,
> {
    if hash_code == IDENTITY {
        None
    } else {
        checked(cid_hashed(version, codec, hash_code, data))
    }
}

/// Whether two byte slices hold the same bytes.
pub fn same_bytes(a: &[u8], b: &[u8]) -> (r: bool)
    ensures
        r == (a@ == b@),
{
    if a.len() != b.len() {
        return false;
    }
    let mut i: usize = 0;
    while i < a.len()
        invariant
            a.len() == b.len(),
            i <= a.len(),
            forall|t: int| 0 <= t < i ==> a@[t] == b@[t],
        decreases a.len() - i,
    {
        if a[i] != b[i] {
            return false;
        }
        i = i + 1;
    }
    assert(a@ =~= b@);
    true
}

/// Whether `bytes` passes the check that `is_cid` states.
fn survives_text(bytes: &[u8]) -> (r: bool)
    ensures
        r == is_cid(bytes@),
{
    let whole = match decode_bytes(bytes) {
        Some(own) => same_bytes(own.as_slice(), bytes),
        None => false,
    };
    if !whole {
        return false;
    }
    match text_of_bytes(bytes) {
        Some(text) => if text.as_str().is_empty() {
            false
        } else {
            match parse_text(text.as_str()) {
                Some(back) => same_bytes(back.as_slice(), bytes),
                None => false,
            }
        },
        None => false,
    }
}

/// A block identifier. Its view is its binary form, and every value of the
/// type satisfies `is_cid`.
#[derive(Debug, PartialEq, Eq, Hash)]
pub struct Cid {
    bytes: Vec<u8>,
}

impl View for Cid {
    type V = Seq<u8>;

    closed spec fn view(&self) -> Seq<u8> {
        self.bytes@
    }
}

/// The view of an identifier that may be absent.
pub open spec fn cid_of(r: Option<Cid>) -> Option<Seq<u8>> {
    match r {
        Some(c) => Some(c@),
        None => None,
    }
}

impl Clone for Cid {
    fn clone(&self) -> (r: Self)
        ensures
            r@ == self@,
    {
        proof {
            use_type_invariant(self);
        }
        let bytes = self.bytes.clone();
        assert(bytes@ =~= self.bytes@);
        Cid { bytes }
    }
}

impl Cid {
    #[verifier::type_invariant]
    spec fn valid(&self) -> bool {
        is_cid(self.bytes@)
    }

    /// The identifier that `bytes` starts with.
    pub fn from_bytes(bytes: &[u8]) -> (r: Option<Cid>)
        ensures
            cid_of(r) == checked(cid_decode(bytes@)),
    {
        match decode_bytes(bytes) {
            Some(own) => if survives_text(own.as_slice()) {
                Some(Cid { bytes: own })
            } else {
                None
            },
            None => None,
        }
    }

    /// The identifier that `text` denotes.
    pub fn from_text(text: &str) -> (r: Option<Cid>)
        ensures
            cid_of(r) == checked(cid_parse(text@)),
    {
        match parse_text(text) {
            Some(own) => if survives_text(own.as_slice()) {
                Some(Cid { bytes: own })
            } else {
                None
            },
            None => None,
        }
    }

    /// The identifier of `data` of version `version` with content code
    /// `codec`, hashed with the function `hash_code`. `None` for the identity
    /// hash, and for a version or hash function that is not known.
    pub fn hashed(version: u64, codec: u64, hash_code: u64, data: &[u8]) -> (r: Option<Cid>)
        ensures
            cid_of(r) == hashed_cid(version, codec, hash_code, data@),
    {
        if hash_code == IDENTITY {
            return None;
        }
        match hash_to_cid(version, codec, hash_code, data) {
            Some(own) => if survives_text(own.as_slice()) {
                Some(Cid { bytes: own })
            } else {
                None
            },
            None => None,
        }
    }

    /// The identifier of a block of raw bytes: version 1, SHA2-256.
    pub fn of_block(data: &[u8]) -> (r: Option<Cid>)
        ensures
            cid_of(r) == hashed_cid(1, RAW, SHA2_256, data@),
    {
        Cid::hashed(1, RAW, SHA2_256, data)
    }

    /// The binary form.
    pub fn as_bytes(&self) -> (r: &[u8])
        ensures
            r@ == self@,
            is_cid(self@),
    {
        proof {
            use_type_invariant(self);
        }
        self.bytes.as_slice()
    }

    /// The binary form, in a vector of its own.
    pub fn to_bytes(&self) -> (r: Vec<u8>)
        ensures
            r@ == self@,
    {
        let r = self.bytes.clone();
        assert(r@ =~= self.bytes@);
        r
    }

    /// The text form.
    pub fn to_text(&self) -> (r: String)
        ensures
            cid_text(self@) == Some(r@),
            is_cid(self@),
    {
        proof {
            use_type_invariant(self);
        }
        match text_of_bytes(self.bytes.as_slice()) {
            Some(text) => text,
            None => unreached(),
        }
    }

    /// Whether `self` and `other` are the same identifier.
    pub fn same(&self, other: &Cid) -> (r: bool)
        ensures
            r == (self@ == other@),
    {
        same_bytes(self.bytes.as_slice(), other.bytes.as_slice())
    }
}

} // verus!
