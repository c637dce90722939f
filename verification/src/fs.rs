//! The block store: one file per block, flat under a root directory, and an
//! index in memory of the identifiers that have a file.
//!
//! The store decides and keeps the index; the caller does the file work. Each
//! operation hands out a `StoreRequest`, the caller carries it out, and the
//! matching `completed_*` function turns the outcome into a `BlockStoreEvent`.

use crate::cid::{checked, cid_parse, cid_text, is_cid, Cid};
use crate::index::CidSet;
use vstd::prelude::*;

verus! {

/// How a file operation failed.
#[derive(Debug, PartialEq, Eq, Clone)]
pub enum IoFailure {
    /// The file or directory is not there.
    NotFound,
    /// Any other failure, with its message.
    Other(String),
}

/// Why the store could not do what was asked.
#[derive(Debug, PartialEq, Eq, Clone)]
pub enum Error {
    /// A file operation failed.
    Io(IoFailure),
    /// A block file's name, without its suffix, is no identifier.
    InvalidCid(String),
}

/// The outcome of one request to the store, for the identifier it was made
/// for.
#[derive(Debug, PartialEq, Eq)]
pub enum BlockStoreEvent {
    /// The bytes of the block, or `None` where the store has no such block.
    Get(Cid, Result<Option<Vec<u8>>, Error>),
    /// The block was written.
    Put(Cid, Result<(), Error>),
    /// The block is gone.
    Remove(Cid, Result<(), Error>),
}

/// File work that the store asks of its caller, on a file under the root.
#[derive(Debug, PartialEq, Eq, Clone)]
pub enum StoreRequest {
    /// Read the whole file.
    Read { name: String },
    /// Create or replace the file with these bytes.
    Write { name: String, data: Vec<u8> },
    /// Delete the file.
    Delete { name: String },
}

/// The suffix of a block file's name.
pub open spec fn data_suffix() -> Seq<char> {
    seq!['.', 'd', 'a', 't', 'a']
}

/// The name of the file that holds the block whose identifier has the text
/// form `text`.
pub open spec fn block_file_name(text: Seq<char>) -> Seq<char> {
    text + data_suffix()
}

/// Whether `name` is the name of a block file: it ends in the suffix and is
/// longer than it.
pub open spec fn is_block_file(name: Seq<char>) -> bool {
    name.len() > 5 && name.subrange(name.len() - 5, name.len() as int) == data_suffix()
}

/// A block file's name without the suffix.
pub open spec fn file_stem(name: Seq<char>) -> Seq<char> {
    name.subrange(0, name.len() - 5)
}

/// The identifier that a block file's name stands for, if any.
pub open spec fn named_cid(name: Seq<char>) -> Option<Seq<u8>> {
    checked(cid_parse(file_stem(name)))
}

/// The name of the block file of the identifier `id`.
pub open spec fn file_of(id: Seq<u8>) -> Seq<char> {
    block_file_name(cid_text(id).unwrap())
}

/// The file of an identifier is a block file, and its name stands for that
/// identifier.
pub proof fn lemma_file_of(id: Seq<u8>)
    requires
        is_cid(id),
    ensures
        is_block_file(file_of(id)),
        file_stem(file_of(id)) == cid_text(id).unwrap(),
        named_cid(file_of(id)) == Some(id),
{
    let text = cid_text(id).unwrap();
    let name = file_of(id);
    assert(name.subrange(name.len() - 5, name.len() as int) =~= data_suffix());
    assert(file_stem(name) =~= text);
}

/// The name of the file that holds the block `cid`.
pub fn block_path(cid: &Cid) -> (name: String)
    ensures
        name@ == file_of(cid@),
        is_cid(cid@),
{
    let text = cid.to_text();
    proof {
        reveal_strlit(".data");
        assert(".data"@ =~= data_suffix());
    }
    text.concat(".data")
}

/// The text before the suffix, where `name` is the name of a block file.
pub fn block_stem(name: &str) -> (r: Option<String>)
    ensures
        match r {
            Some(stem) => is_block_file(name@) && stem@ == file_stem(name@),
            None => !is_block_file(name@),
        },
{
    let len: usize = name.unicode_len();
    if len <= 5 {
        return None;
    }
    let at: usize = len - 5;
    if name.get_char(at) == '.' && name.get_char(at + 1) == 'd' && name.get_char(at + 2) == 'a'
        && name.get_char(at + 3) == 't' && name.get_char(at + 4) == 'a' {
        assert(name@.subrange(at as int, len as int) =~= data_suffix());
        Some(String::from_str(name.substring_char(0, at)))
    } else {
        assert(name@.subrange(at as int, len as int)[0] == name@[at as int]);
        assert(name@.subrange(at as int, len as int)[1] == name@[at + 1]);
        assert(name@.subrange(at as int, len as int)[2] == name@[at + 2]);
        assert(name@.subrange(at as int, len as int)[3] == name@[at + 3]);
        assert(name@.subrange(at as int, len as int)[4] == name@[at + 4]);
        None
    }
}

/// Whether `name` is a block file's name that stands for no identifier.
pub open spec fn bad_name(name: Seq<char>) -> bool {
    is_block_file(name) && named_cid(name) is None
}

/// The identifiers that the block files among `names` stand for.
pub open spec fn listed_cids(names: Seq<String>) -> Set<Seq<u8>> {
    Set::new(
        |id: Seq<u8>|
            exists|i: int|
                0 <= i < names.len() && is_block_file(#[trigger] names[i]@) && named_cid(
                    names[i]@,
                ) == Some(id),
    )
}

/// What `FsBlockStore::open` makes of a listing of the root directory: the
/// set of the identifiers listed, or the first name that stands for none.
pub open spec fn scanned(names: Seq<String>) -> Result<Set<Seq<u8>>, Seq<char>>
    decreases names.len(),
{
    if names.len() == 0 {
        Ok(Set::empty())
    } else {
        match scanned(names.drop_last()) {
            Err(stem) => Err(stem),
            Ok(found) => {
                let name = names.last()@;
                if !is_block_file(name) {
                    Ok(found)
                } else {
                    match named_cid(name) {
                        Some(id) => Ok(found.insert(id)),
                        None => Err(file_stem(name)),
                    }
                }
            },
        }
    }
}

/// A listing is refused exactly where one of its names is bad, with the stem
/// of the first such name; else it gives the identifiers listed.
pub proof fn lemma_scanned(names: Seq<String>)
    ensures
        match scanned(names) {
            Ok(found) => found == listed_cids(names) && forall|i: int|
                0 <= i < names.len() ==> !bad_name(#[trigger] names[i]@),
            Err(stem) => exists|i: int|
                0 <= i < names.len() && bad_name(#[trigger] names[i]@) && stem == file_stem(
                    names[i]@,
                ) && forall|j: int| 0 <= j < i ==> !bad_name(#[trigger] names[j]@),
        },
    decreases names.len(),
{
    if names.len() == 0 {
        assert(listed_cids(names) =~= Set::<Seq<u8>>::empty());
    } else {
        let init = names.drop_last();
        let last = (names.len() - 1) as int;
        lemma_scanned(init);
        match scanned(init) {
            Err(stem) => {
                let i = choose|i: int|
                    0 <= i < init.len() && bad_name(#[trigger] init[i]@) && stem == file_stem(
                        init[i]@,
                    ) && forall|j: int| 0 <= j < i ==> !bad_name(#[trigger] init[j]@);
                assert(names[i] == init[i]);
                assert forall|j: int| 0 <= j < i implies !bad_name(#[trigger] names[j]@) by {
                    assert(names[j] == init[j]);
                }
            },
            Ok(found) => {
                let name = names[last]@;
                assert forall|i: int| 0 <= i < last implies !bad_name(#[trigger] names[i]@) by {
                    assert(names[i] == init[i]);
                }
                if is_block_file(name) && named_cid(name) is None {
                    assert(bad_name(names[last]@));
                } else {
                    let all = listed_cids(names);
                    let now = scanned(names)->Ok_0;
                    assert forall|id: Seq<u8>| all.contains(id) <==> now.contains(id) by {
                        if all.contains(id) {
                            let i = choose|i: int|
                                0 <= i < names.len() && is_block_file(#[trigger] names[i]@)
                                    && named_cid(names[i]@) == Some(id);
                            if i < last {
                                assert(init[i] == names[i]);
                                assert(listed_cids(init).contains(id));
                            }
                        }
                        if found.contains(id) {
                            let i = choose|i: int|
                                0 <= i < init.len() && is_block_file(#[trigger] init[i]@)
                                    && named_cid(init[i]@) == Some(id);
                            assert(init[i] == names[i]);
                        }
                        if is_block_file(name) && named_cid(name) == Some(id) {
                            assert(is_block_file(names[last]@));
                        }
                    }
                    assert(all =~= now);
                }
            },
        }
    }
}

/// A store of blocks in files. Its view is the set of identifiers in its
/// index.
#[derive(Debug)]
pub struct FsBlockStore {
    path: String,
    cids: CidSet,
}

impl View for FsBlockStore {
    type V = Set<Seq<u8>>;

    closed spec fn view(&self) -> Set<Seq<u8>> {
        self.cids@
    }
}

/// The event that ends a `get` of `cid`, for each outcome of reading its
/// file: a missing file is an answer, not an error.
pub open spec fn get_event(cid: Cid, outcome: Result<Vec<u8>, IoFailure>) -> BlockStoreEvent {
    match outcome {
        Ok(data) => BlockStoreEvent::Get(cid, Ok(Some(data))),
        Err(IoFailure::NotFound) => BlockStoreEvent::Get(cid, Ok(None)),
        Err(failure) => BlockStoreEvent::Get(cid, Err(Error::Io(failure))),
    }
}

/// The event that ends a `put` of `cid`, for each outcome of writing its
/// file.
pub open spec fn put_event(cid: Cid, outcome: Result<(), IoFailure>) -> BlockStoreEvent {
    match outcome {
        Ok(()) => BlockStoreEvent::Put(cid, Ok(())),
        Err(failure) => BlockStoreEvent::Put(cid, Err(Error::Io(failure))),
    }
}

/// The index after a `put` of `id` has ended: `id` is in it once the file is
/// written, and not before.
pub open spec fn index_after_put(index: Set<Seq<u8>>, id: Seq<u8>, written: bool) -> Set<
    Seq<u8>,
> {
    if written {
        index.insert(id)
    } else {
        index
    }
}

/// Whether a `remove` has succeeded: its file is deleted, or was not there.
pub open spec fn removed(outcome: Result<(), IoFailure>) -> bool {
    outcome is Ok || outcome == Err::<(), IoFailure>(IoFailure::NotFound)
}

/// The event that ends a `remove` of `cid`, for each outcome of deleting its
/// file.
pub open spec fn remove_event(cid: Cid, outcome: Result<(), IoFailure>) -> BlockStoreEvent {
    match outcome {
        Ok(()) => BlockStoreEvent::Remove(cid, Ok(())),
        Err(IoFailure::NotFound) => BlockStoreEvent::Remove(cid, Ok(())),
        Err(failure) => BlockStoreEvent::Remove(cid, Err(Error::Io(failure))),
    }
}

/// The index after a `remove` of `id` has ended: `id` leaves it where the
/// removal succeeded, and stays where it failed.
pub open spec fn index_after_remove(index: Set<Seq<u8>>, id: Seq<u8>, gone: bool) -> Set<
    Seq<u8>,
> {
    if gone {
        index.remove(id)
    } else {
        index
    }
}

impl FsBlockStore {
    /// The root directory.
    pub closed spec fn root(&self) -> Seq<char> {
        self.path@
    }

    /// Opens the store under `path`, from the outcome of listing that
    /// directory (after creating it where it was missing). A failed listing
    /// fails the opening; so does a block file whose name is no identifier.
    /// Other files are passed over.
    pub fn open(path: String, listing: Result<Vec<String>, IoFailure>) -> (r: Result<
        FsBlockStore,
        Error,
    >)
        ensures
            match listing {
                Err(failure) => r == Err::<FsBlockStore, Error>(Error::Io(failure)),
                Ok(names) => match scanned(names@) {
                    Ok(found) => r matches Ok(store) && store@ == found && store.root() == path@,
                    Err(stem) => r matches Err(Error::InvalidCid(s)) && s@ == stem,
                },
            },
    {
        let names = match listing {
            Ok(names) => names,
            Err(failure) => {
                return Err(Error::Io(failure));
            },
        };
        let mut cids = CidSet::new();
        let mut i: usize = 0;
        while i < names.len()
            invariant
                i <= names.len(),
                listing == Ok::<Vec<String>, IoFailure>(names),
                scanned(names@.subrange(0, i as int)) == Ok::<Set<Seq<u8>>, Seq<char>>(cids@),
            decreases names.len() - i,
        {
            proof {
                let next = names@.subrange(0, i + 1);
                assert(next.drop_last() =~= names@.subrange(0, i as int));
                assert(next.last() == names@[i as int]);
            }
            match block_stem(names[i].as_str()) {
                Some(stem) => match Cid::from_text(stem.as_str()) {
                    Some(cid) => {
                        cids.insert(cid);
                    },
                    None => {
                        proof {
                            let next = names@.subrange(0, i + 1);
                            assert(is_block_file(next.last()@));
                            assert(named_cid(next.last()@) is None);
                            assert(scanned(next) == Err::<Set<Seq<u8>>, Seq<char>>(stem@));
                            lemma_scanned_stays_refused(names@, i + 1);
                        }
                        return Err(Error::InvalidCid(stem));
                    },
                },
                None => {},
            }
            i = i + 1;
        }
        assert(names@.subrange(0, i as int) =~= names@);
        Ok(FsBlockStore { path, cids })
    }

    /// Whether the index holds `cid`. Answered from memory.
    pub fn contains(&self, cid: &Cid) -> (r: bool)
        ensures
            r == self@.contains(cid@),
    {
        self.cids.contains(cid)
    }

    /// Asks for the bytes of the block `cid`: its file is to be read.
    pub fn get(&self, cid: &Cid) -> (request: StoreRequest)
        ensures
            request matches StoreRequest::Read { name } && name@ == file_of(cid@),
    {
        StoreRequest::Read { name: block_path(cid) }
    }

    /// Ends a `get` of `cid` with the outcome of reading its file.
    pub fn completed_get(&self, cid: Cid, outcome: Result<Vec<u8>, IoFailure>) -> (event:
        BlockStoreEvent)
        ensures
            event == get_event(cid, outcome),
    {
        match outcome {
            Ok(data) => BlockStoreEvent::Get(cid, Ok(Some(data))),
            Err(IoFailure::NotFound) => BlockStoreEvent::Get(cid, Ok(None)),
            Err(failure) => BlockStoreEvent::Get(cid, Err(Error::Io(failure))),
        }
    }

    /// Asks to store `data` as the block `cid`: its file is to be written.
    /// The index is untouched until the writing has ended.
    pub fn put(&self, cid: &Cid, data: Vec<u8>) -> (request: StoreRequest)
        ensures
            request matches StoreRequest::Write { name, data: bytes } && name@ == file_of(cid@)
                && bytes == data,
    {
        StoreRequest::Write { name: block_path(cid), data }
    }

    /// Ends a `put` of `cid` with the outcome of writing its file. Only a
    /// written file brings `cid` into the index.
    pub fn completed_put(&mut self, cid: Cid, outcome: Result<(), IoFailure>) -> (event:
        BlockStoreEvent)
        ensures
            event == put_event(cid, outcome),
            final(self)@ == index_after_put(old(self)@, cid@, outcome is Ok),
            final(self).root() == old(self).root(),
    {
        match outcome {
            Ok(()) => {
                self.cids.insert(cid.clone());
                BlockStoreEvent::Put(cid, Ok(()))
            },
            Err(failure) => BlockStoreEvent::Put(cid, Err(Error::Io(failure))),
        }
    }

    /// Asks to drop the block `cid`: its file is to be deleted. The index is
    /// untouched until the deleting has ended.
    pub fn remove(&self, cid: &Cid) -> (request: StoreRequest)
        ensures
            request matches StoreRequest::Delete { name } && name@ == file_of(cid@),
    {
        StoreRequest::Delete { name: block_path(cid) }
    }

    /// Ends a `remove` of `cid` with the outcome of deleting its file. A
    /// file that was not there counts as deleted. Only then does `cid` leave
    /// the index.
    pub fn completed_remove(&mut self, cid: Cid, outcome: Result<(), IoFailure>) -> (event:
        BlockStoreEvent)
        ensures
            event == remove_event(cid, outcome),
            final(self)@ == index_after_remove(old(self)@, cid@, removed(outcome)),
            final(self).root() == old(self).root(),
    {
        match outcome {
            Ok(()) => {
                self.cids.remove(&cid);
                BlockStoreEvent::Remove(cid, Ok(()))
            },
            Err(IoFailure::NotFound) => {
                self.cids.remove(&cid);
                BlockStoreEvent::Remove(cid, Ok(()))
            },
            Err(failure) => BlockStoreEvent::Remove(cid, Err(Error::Io(failure))),
        }
    }

    /// The root directory's path.
    pub fn path(&self) -> (r: &str)
        ensures
            r@ == self.root(),
    {
        self.path.as_str()
    }
}

/// Once a prefix of a listing is refused, the whole listing is, for the same
/// name.
proof fn lemma_scanned_stays_refused(names: Seq<String>, upto: int)
    requires
        0 <= upto <= names.len(),
        scanned(names.subrange(0, upto)) is Err,
    ensures
        scanned(names) == scanned(names.subrange(0, upto)),
    decreases names.len() - upto,
{
    if upto < names.len() {
        let next = names.subrange(0, upto + 1);
        assert(next.drop_last() =~= names.subrange(0, upto));
        lemma_scanned_stays_refused(names, upto + 1);
    } else {
        assert(names.subrange(0, upto) =~= names);
    }
}

} // verus!
