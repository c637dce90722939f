//! What the block store expects of the place where its files live, and a
//! place of that kind held in memory.
//!
//! The model of a directory is a map from file names to contents. A
//! `StoreRequest` carried out faithfully changes that map as `files_after`
//! says.

use crate::cid::{is_cid, Cid};
use crate::fs::{
    bad_name, file_of, get_event, index_after_put, index_after_remove, is_block_file,
    lemma_file_of, lemma_scanned, listed_cids, named_cid, scanned, BlockStoreEvent, IoFailure,
    StoreRequest,
};
use vstd::prelude::*;

verus! {

/// A flat directory: the content of each file, by name.
pub type Files = Map<Seq<char>, Seq<u8>>;

/// The directory after `request` has been carried out on it with success.
pub open spec fn files_after(files: Files, request: StoreRequest) -> Files {
    match request {
        StoreRequest::Read { name } => files,
        StoreRequest::Write { name, data } => files.insert(name@, data@),
        StoreRequest::Delete { name } => files.remove(name@),
    }
}

/// Whether `name` is among `names`.
pub open spec fn listed(names: Seq<String>, name: Seq<char>) -> bool {
    exists|i: int| 0 <= i < names.len() && #[trigger] names[i]@ == name
}

/// Whether `names` lists exactly the files of the directory.
pub open spec fn lists(names: Seq<String>, files: Files) -> bool {
    forall|name: Seq<char>| #[trigger] files.dom().contains(name) <==> listed(names, name)
}

/// Round trip: once the writing that `put` asks for is done, the reading that
/// `get` asks for finds the bytes that were put, whatever the directory held
/// before, and the event of that `get` carries them.
pub proof fn lemma_put_then_get(
    files: Files,
    cid: Cid,
    data: Vec<u8>,
    write: StoreRequest,
    read: StoreRequest,
    found: Vec<u8>,
)
    requires
        write matches StoreRequest::Write { name, data: bytes } && name@ == file_of(cid@)
            && bytes == data,
        read matches StoreRequest::Read { name } && name@ == file_of(cid@) && found@
            == files_after(files, write)[name@],
    ensures
        files_after(files, write).dom().contains(file_of(cid@)),
        files_after(files_after(files, write), read) == files_after(files, write),
        found@ == data@,
        get_event(cid, Ok(found)) == BlockStoreEvent::Get(cid, Ok(Some(found))),
{
}

/// The index follows the files: an identifier is in it after its `put` has
/// ended well, is not after its `remove` has ended well, and an operation
/// that failed changes nothing. No operation touches another identifier.
pub proof fn lemma_index_follows(index: Set<Seq<u8>>, id: Seq<u8>, other: Seq<u8>)
    requires
        other != id,
    ensures
        index_after_put(index, id, true).contains(id),
        index_after_put(index, id, false) == index,
        !index_after_remove(index, id, true).contains(id),
        index_after_remove(index, id, false) == index,
        !index.contains(id) ==> index_after_remove(index_after_put(index, id, true), id, true)
            == index,
        index_after_put(index, id, true).contains(other) == index.contains(other),
        index_after_remove(index, id, true).contains(other) == index.contains(other),
{
    if !index.contains(id) {
        assert(index.insert(id).remove(id) =~= index);
    }
}

/// Persistence: a store that opens on a directory, and then puts `id` with
/// success, holds the index that opening on the directory as it then is
/// gives.
pub proof fn lemma_reopen_after_put(
    files: Files,
    before: Seq<String>,
    after: Seq<String>,
    write: StoreRequest,
    id: Seq<u8>,
)
    requires
        is_cid(id),
        lists(before, files),
        scanned(before) is Ok,
        write matches StoreRequest::Write { name, data } && name@ == file_of(id),
        lists(after, files_after(files, write)),
    ensures
        scanned(after) == Ok::<Set<Seq<u8>>, Seq<char>>(
            index_after_put(scanned(before)->Ok_0, id, true),
        ),
{
    let now = files_after(files, write);
    lemma_scanned(before);
    lemma_scanned(after);
    lemma_file_of(id);
    assert forall|i: int| 0 <= i < after.len() implies !bad_name(#[trigger] after[i]@) by {
        let name = after[i]@;
        assert(listed(after, name));
        assert(now.dom().contains(name));
        if name != file_of(id) {
            assert(files.dom().contains(name));
            assert(listed(before, name));
            let j = choose|j: int| 0 <= j < before.len() && #[trigger] before[j]@ == name;
            assert(!bad_name(before[j]@));
        }
    }
    let old_index = listed_cids(before);
    let new_index = listed_cids(after);
    assert forall|c: Seq<u8>| new_index.contains(c) <==> old_index.insert(id).contains(c) by {
        if new_index.contains(c) {
            let i = choose|i: int|
                0 <= i < after.len() && is_block_file(#[trigger] after[i]@) && named_cid(
                    after[i]@,
                ) == Some(c);
            let name = after[i]@;
            assert(listed(after, name));
            assert(now.dom().contains(name));
            if name != file_of(id) {
                assert(files.dom().contains(name));
                assert(listed(before, name));
                let j = choose|j: int| 0 <= j < before.len() && #[trigger] before[j]@ == name;
                assert(is_block_file(before[j]@));
            }
        }
        if old_index.contains(c) {
            let j = choose|j: int|
                0 <= j < before.len() && is_block_file(#[trigger] before[j]@) && named_cid(
                    before[j]@,
                ) == Some(c);
            let name = before[j]@;
            assert(listed(before, name));
            assert(files.dom().contains(name));
            assert(now.dom().contains(name));
            assert(listed(after, name));
            let i = choose|i: int| 0 <= i < after.len() && #[trigger] after[i]@ == name;
            assert(is_block_file(after[i]@));
        }
        if c == id {
            assert(now.dom().contains(file_of(id)));
            assert(listed(after, file_of(id)));
            let i = choose|i: int| 0 <= i < after.len() && #[trigger] after[i]@ == file_of(id);
            assert(is_block_file(after[i]@));
        }
    }
    assert(new_index =~= old_index.insert(id));
}

/// Whether an entry of `entries` has the name `name`.
pub open spec fn has_name(entries: Seq<(String, Vec<u8>)>, name: Seq<char>) -> bool {
    exists|i: int| 0 <= i < entries.len() && (#[trigger] entries[i]).0@ == name
}

/// The place of an entry of `entries` that has the name `name`.
pub open spec fn place_of(entries: Seq<(String, Vec<u8>)>, name: Seq<char>) -> int {
    choose|i: int| 0 <= i < entries.len() && (#[trigger] entries[i]).0@ == name
}

/// The files that `entries` holds.
pub open spec fn files_of(entries: Seq<(String, Vec<u8>)>) -> Files {
    Map::new(
        |name: Seq<char>| has_name(entries, name),
        |name: Seq<char>| entries[place_of(entries, name)].1@,
    )
}

/// Whether no name occurs twice in `entries`.
pub open spec fn distinct_names(entries: Seq<(String, Vec<u8>)>) -> bool {
    forall|i: int, j: int|
        0 <= i < j < entries.len() ==> (#[trigger] entries[i]).0@ != (#[trigger] entries[j]).0@
}

/// Where no name occurs twice, each entry's content is its file's.
pub proof fn lemma_files_of(entries: Seq<(String, Vec<u8>)>, i: int)
    requires
        distinct_names(entries),
        0 <= i < entries.len(),
    ensures
        files_of(entries).dom().contains(entries[i].0@),
        files_of(entries)[entries[i].0@] == entries[i].1@,
{
    let name = entries[i].0@;
    let k = place_of(entries, name);
    assert(0 <= k < entries.len() && entries[k].0@ == name);
    if k < i {
        assert(entries[k].0@ != entries[i].0@);
    } else if i < k {
        assert(entries[i].0@ != entries[k].0@);
    }
}

/// A directory in memory. Its view is the map from file names to contents.
#[derive(Debug)]
pub struct MemFiles {
    entries: Vec<(String, Vec<u8>)>,
}

impl View for MemFiles {
    type V = Files;

    closed spec fn view(&self) -> Files {
        files_of(self.entries@)
    }
}

impl MemFiles {
    #[verifier::type_invariant]
    spec fn valid(&self) -> bool {
        distinct_names(self.entries@)
    }

    /// The empty directory.
    pub fn new() -> (r: MemFiles)
        ensures
            r@ == Map::<Seq<char>, Seq<u8>>::empty(),
    {
        MemFiles { entries: Vec::new() }
    }

    /// Where the file `name` stands among the entries, if anywhere.
    fn position(&self, name: &str) -> (r: Option<usize>)
        ensures
            match r {
                Some(i) => i < self.entries.len() && self.entries[i as int].0@ == name@,
                None => !self@.dom().contains(name@),
            },
    {
        let wanted = String::from_str(name);
        let mut i: usize = 0;
        while i < self.entries.len()
            invariant
                i <= self.entries.len(),
                wanted@ == name@,
                forall|t: int| 0 <= t < i ==> (#[trigger] self.entries[t]).0@ != name@,
            decreases self.entries.len() - i,
        {
            if self.entries[i].0 == wanted {
                return Some(i);
            }
            i = i + 1;
        }
        None
    }

    /// Reads the file `name`.
    pub fn read(&self, name: &str) -> (r: Result<Vec<u8>, IoFailure>)
        ensures
            match r {
                Ok(data) => self@.dom().contains(name@) && data@ == self@[name@],
                Err(failure) => failure == IoFailure::NotFound && !self@.dom().contains(name@),
            },
    {
        proof {
            use_type_invariant(self);
        }
        match self.position(name) {
            Some(i) => {
                proof {
                    lemma_files_of(self.entries@, i as int);
                }
                let data = self.entries[i].1.clone();
                assert(data@ =~= self.entries[i as int].1@);
                Ok(data)
            },
            None => Err(IoFailure::NotFound),
        }
    }

    /// Creates or replaces the file `name` with `data`.
    pub fn write(&mut self, name: String, data: Vec<u8>) -> (r: Result<(), IoFailure>)
        ensures
            r is Ok,
            final(self)@ == old(self)@.insert(name@, data@),
    {
        proof {
            use_type_invariant(&*self);
        }
        let at = self.position(name.as_str());
        let ghost before = self.entries@;
        // Moved out whole and put back, so that the directory is valid throughout.
        let mut taken = MemFiles { entries: Vec::new() };
        core::mem::swap(self, &mut taken);
        let mut entries = taken.entries;
        match at {
            Some(i) => {
                entries.set(i, (name, data));
                proof {
                    lemma_replaced(before, i as int, name, data);
                }
            },
            None => {
                entries.push((name, data));
                proof {
                    lemma_pushed(before, name, data);
                }
            },
        }
        *self = MemFiles { entries };
        Ok(())
    }

    /// Deletes the file `name`.
    pub fn delete(&mut self, name: &str) -> (r: Result<(), IoFailure>)
        ensures
            match r {
                Ok(()) => old(self)@.dom().contains(name@) && final(self)@ == old(self)@.remove(
                    name@,
                ),
                Err(failure) => failure == IoFailure::NotFound && !old(self)@.dom().contains(name@)
                    && final(self)@ == old(self)@,
            },
    {
        proof {
            use_type_invariant(&*self);
        }
        match self.position(name) {
            Some(i) => {
                let ghost before = self.entries@;
                // Moved out whole and put back, so that the directory is valid throughout.
                let mut taken = MemFiles { entries: Vec::new() };
                core::mem::swap(self, &mut taken);
                let mut entries = taken.entries;
                entries.remove(i);
                proof {
                    lemma_removed(before, i as int);
                }
                *self = MemFiles { entries };
                Ok(())
            },
            None => Err(IoFailure::NotFound),
        }
    }

    /// Lists the names of the files.
    pub fn list(&self) -> (r: Result<Vec<String>, IoFailure>)
        ensures
            r matches Ok(names) && lists(names@, self@),
    {
        let mut names: Vec<String> = Vec::new();
        let mut i: usize = 0;
        while i < self.entries.len()
            invariant
                i <= self.entries.len(),
                names.len() == i,
                forall|t: int| 0 <= t < i ==> (#[trigger] names[t])@ == self.entries[t].0@,
            decreases self.entries.len() - i,
        {
            names.push(self.entries[i].0.clone());
            i = i + 1;
        }
        proof {
            assert forall|name: Seq<char>| #[trigger]
                self@.dom().contains(name) <==> listed(names@, name) by {
                if self@.dom().contains(name) {
                    let i = place_of(self.entries@, name);
                    assert(names[i]@ == name);
                }
                if listed(names@, name) {
                    let i = choose|i: int| 0 <= i < names.len() && #[trigger] names[i]@ == name;
                    assert(self.entries[i].0@ == name);
                }
            }
        }
        Ok(names)
    }

    /// Carries out `request`: the answer to a reading is the content, to a
    /// writing or deleting nothing.
    pub fn perform(&mut self, request: StoreRequest) -> (r: Result<Option<Vec<u8>>, IoFailure>)
        ensures
            r is Ok ==> final(self)@ == files_after(old(self)@, request),
            r is Err ==> final(self)@ == old(self)@,
            match request {
                StoreRequest::Read { name } => match r {
                    Ok(found) => found matches Some(data) && old(self)@.dom().contains(name@)
                        && data@ == old(self)@[name@],
                    Err(failure) => failure == IoFailure::NotFound && !old(self)@.dom().contains(
                        name@,
                    ),
                },
                StoreRequest::Write { name, data } => r == Ok::<Option<Vec<u8>>, IoFailure>(None),
                StoreRequest::Delete { name } => match r {
                    Ok(found) => found is None && old(self)@.dom().contains(name@),
                    Err(failure) => failure == IoFailure::NotFound && !old(self)@.dom().contains(
                        name@,
                    ),
                },
            },
    {
        match request {
            StoreRequest::Read { name } => match self.read(name.as_str()) {
                Ok(data) => Ok(Some(data)),
                Err(failure) => Err(failure),
            },
            StoreRequest::Write { name, data } => match self.write(name, data) {
                Ok(()) => Ok(None),
                Err(failure) => Err(failure),
            },
            StoreRequest::Delete { name } => match self.delete(name.as_str()) {
                Ok(()) => Ok(None),
                Err(failure) => Err(failure),
            },
        }
    }
}

/// Replacing the entry at `i` by one of the same name replaces the content
/// of that file.
proof fn lemma_replaced(entries: Seq<(String, Vec<u8>)>, i: int, name: String, data: Vec<u8>)
    requires
        distinct_names(entries),
        0 <= i < entries.len(),
        entries[i].0@ == name@,
    ensures
        distinct_names(entries.update(i, (name, data))),
        files_of(entries.update(i, (name, data))) == files_of(entries).insert(name@, data@),
{
    let now = entries.update(i, (name, data));
    assert forall|a: int, b: int| 0 <= a < b < now.len() implies (#[trigger] now[a]).0@ != (
    #[trigger] now[b]).0@ by {
        assert(entries[a].0@ != entries[b].0@);
    }
    let left = files_of(now);
    let right = files_of(entries).insert(name@, data@);
    assert forall|n: Seq<char>| left.dom().contains(n) <==> right.dom().contains(n) by {
        if has_name(now, n) {
            let k = place_of(now, n);
            assert(entries[k].0@ == n);
        }
        if has_name(entries, n) {
            let k = place_of(entries, n);
            assert(now[k].0@ == n);
        }
    }
    assert forall|n: Seq<char>| left.dom().contains(n) implies left[n] == right[n] by {
        let k = place_of(now, n);
        lemma_files_of(now, k);
        if k != i {
            assert(now[k] == entries[k]);
            lemma_files_of(entries, k);
            if k < i {
                assert(entries[k].0@ != entries[i].0@);
            } else {
                assert(entries[i].0@ != entries[k].0@);
            }
        }
    }
    assert(left =~= right);
}

/// Appending an entry of a new name adds that file.
proof fn lemma_pushed(entries: Seq<(String, Vec<u8>)>, name: String, data: Vec<u8>)
    requires
        distinct_names(entries),
        !files_of(entries).dom().contains(name@),
    ensures
        distinct_names(entries.push((name, data))),
        files_of(entries.push((name, data))) == files_of(entries).insert(name@, data@),
{
    let now = entries.push((name, data));
    let last = entries.len() as int;
    assert forall|a: int, b: int| 0 <= a < b < now.len() implies (#[trigger] now[a]).0@ != (
    #[trigger] now[b]).0@ by {
        if b < last {
            assert(entries[a].0@ != entries[b].0@);
        } else {
            assert(now[a] == entries[a]);
            assert(!has_name(entries, name@));
        }
    }
    let left = files_of(now);
    let right = files_of(entries).insert(name@, data@);
    assert(now[last].0@ == name@);
    assert forall|n: Seq<char>| left.dom().contains(n) <==> right.dom().contains(n) by {
        if has_name(now, n) {
            let k = place_of(now, n);
            if k < last {
                assert(entries[k].0@ == n);
            }
        }
        if has_name(entries, n) {
            let k = place_of(entries, n);
            assert(now[k].0@ == n);
        }
    }
    assert forall|n: Seq<char>| left.dom().contains(n) implies left[n] == right[n] by {
        let k = place_of(now, n);
        lemma_files_of(now, k);
        if k < last {
            assert(now[k] == entries[k]);
            lemma_files_of(entries, k);
        }
    }
    assert(left =~= right);
}

/// Taking the entry at `i` out takes that file out.
proof fn lemma_removed(entries: Seq<(String, Vec<u8>)>, i: int)
    requires
        distinct_names(entries),
        0 <= i < entries.len(),
    ensures
        distinct_names(entries.remove(i)),
        files_of(entries.remove(i)) == files_of(entries).remove(entries[i].0@),
{
    let now = entries.remove(i);
    let name = entries[i].0@;
    assert forall|a: int, b: int| 0 <= a < b < now.len() implies (#[trigger] now[a]).0@ != (
    #[trigger] now[b]).0@ by {
        let ea = if a < i { a } else { a + 1 };
        let eb = if b < i { b } else { b + 1 };
        assert(now[a] == entries[ea]);
        assert(now[b] == entries[eb]);
        assert(entries[ea].0@ != entries[eb].0@);
    }
    let left = files_of(now);
    let right = files_of(entries).remove(name);
    assert forall|n: Seq<char>| left.dom().contains(n) <==> right.dom().contains(n) by {
        if has_name(now, n) {
            let k = place_of(now, n);
            let e = if k < i { k } else { k + 1 };
            assert(now[k] == entries[e]);
            assert(entries[e].0@ == n);
            if e < i {
                assert(entries[e].0@ != entries[i].0@);
            } else {
                assert(entries[i].0@ != entries[e].0@);
            }
        }
        if has_name(entries, n) && n != name {
            let k = place_of(entries, n);
            let e = if k < i { k } else { k - 1 };
            assert(now[e] == entries[k]);
            assert(now[e].0@ == n);
        }
    }
    assert forall|n: Seq<char>| left.dom().contains(n) implies left[n] == right[n] by {
        let k = place_of(now, n);
        let e = if k < i { k } else { k + 1 };
        lemma_files_of(now, k);
        assert(now[k] == entries[e]);
        lemma_files_of(entries, e);
    }
    assert(left =~= right);
}

} // verus!
