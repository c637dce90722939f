use ipfs_bitswap::cid::Cid;
use ipfs_bitswap::fs::{
    block_path, block_stem, BlockStoreEvent, Error, FsBlockStore, IoFailure, StoreRequest,
};
use ipfs_bitswap::index::CidSet;
use ipfs_bitswap::medium::MemFiles;

fn block_one() -> (Cid, Vec<u8>) {
    let data = b"1".to_vec();
    let cid = Cid::of_block(&data).unwrap();
    (cid, data)
}

fn read(files: &mut MemFiles, request: StoreRequest) -> Result<Vec<u8>, IoFailure> {
    match files.perform(request) {
        Ok(found) => Ok(found.unwrap()),
        Err(failure) => Err(failure),
    }
}

fn done(files: &mut MemFiles, request: StoreRequest) -> Result<(), IoFailure> {
    match files.perform(request) {
        Ok(_) => Ok(()),
        Err(failure) => Err(failure),
    }
}

#[test]
fn test_fs_blockstore() {
    let mut files = MemFiles::new();
    let mut store = FsBlockStore::open("blockstore1".to_string(), files.list()).unwrap();
    let (cid, data) = block_one();

    assert!(!store.contains(&cid));

    let outcome = read(&mut files, store.get(&cid));
    let event = store.completed_get(cid.clone(), outcome);
    assert_eq!(event, BlockStoreEvent::Get(cid.clone(), Ok(None)));

    let outcome = done(&mut files, store.remove(&cid));
    let event = store.completed_remove(cid.clone(), outcome);
    assert_eq!(event, BlockStoreEvent::Remove(cid.clone(), Ok(())));

    let outcome = done(&mut files, store.put(&cid, data.clone()));
    let event = store.completed_put(cid.clone(), outcome);
    assert_eq!(event, BlockStoreEvent::Put(cid.clone(), Ok(())));

    assert!(store.contains(&cid));

    let outcome = read(&mut files, store.get(&cid));
    let event = store.completed_get(cid.clone(), outcome);
    assert_eq!(event, BlockStoreEvent::Get(cid.clone(), Ok(Some(data.clone()))));

    let outcome = done(&mut files, store.remove(&cid));
    let event = store.completed_remove(cid.clone(), outcome);
    assert_eq!(event, BlockStoreEvent::Remove(cid.clone(), Ok(())));

    assert!(!store.contains(&cid));

    let outcome = read(&mut files, store.get(&cid));
    let event = store.completed_get(cid.clone(), outcome);
    assert_eq!(event, BlockStoreEvent::Get(cid.clone(), Ok(None)));
}

#[test]
fn test_fs_blockstore_open() {
    let mut files = MemFiles::new();
    let (cid, data) = block_one();

    let mut store = FsBlockStore::open("blockstore2".to_string(), files.list()).unwrap();
    assert!(!store.contains(&cid));

    let outcome = done(&mut files, store.put(&cid, data.clone()));
    store.completed_put(cid.clone(), outcome);

    let store = FsBlockStore::open("blockstore2".to_string(), files.list()).unwrap();
    assert!(store.contains(&cid));

    let outcome = read(&mut files, store.get(&cid));
    let event = store.completed_get(cid.clone(), outcome);
    assert_eq!(event, BlockStoreEvent::Get(cid, Ok(Some(data))));
}

#[test]
fn block_file_is_named_by_text_and_suffix() {
    let (cid, _) = block_one();
    let store = FsBlockStore::open("root".to_string(), Ok(Vec::new())).unwrap();
    let expected = format!("{}.data", cid.to_text());
    assert_eq!(store.get(&cid), StoreRequest::Read { name: expected.clone() });
    assert_eq!(store.remove(&cid), StoreRequest::Delete { name: expected.clone() });
    assert_eq!(
        store.put(&cid, vec![1, 2]),
        StoreRequest::Write { name: expected, data: vec![1, 2] }
    );
    assert_eq!(
        cid.to_text(),
        "bafkreidlq2zhh7zu7tqz224aj37vup2xi6w2j2vcf4outqa6klo3pb23jm"
    );
}

#[test]
fn open_passes_over_other_files_and_refuses_bad_names() {
    let (cid, _) = block_one();
    let name = format!("{}.data", cid.to_text());
    let listing = vec!["README".to_string(), ".data".to_string(), name, "x.tmp".to_string()];
    let store = FsBlockStore::open("root".to_string(), Ok(listing)).unwrap();
    assert!(store.contains(&cid));
    assert_eq!(store.path(), "root");

    let listing = vec!["oops.data".to_string()];
    let refused = FsBlockStore::open("root".to_string(), Ok(listing));
    assert_eq!(refused.err(), Some(Error::InvalidCid("oops".to_string())));

    let refused = FsBlockStore::open(
        "root".to_string(),
        Err(IoFailure::Other("denied".to_string())),
    );
    assert_eq!(refused.err(), Some(Error::Io(IoFailure::Other("denied".to_string()))));
}

#[test]
fn failed_operations_leave_the_index_alone() {
    let (cid, _) = block_one();
    let mut store = FsBlockStore::open("root".to_string(), Ok(Vec::new())).unwrap();
    let denied = IoFailure::Other("denied".to_string());

    let event = store.completed_put(cid.clone(), Err(denied.clone()));
    assert_eq!(event, BlockStoreEvent::Put(cid.clone(), Err(Error::Io(denied.clone()))));
    assert!(!store.contains(&cid));

    store.completed_put(cid.clone(), Ok(()));
    assert!(store.contains(&cid));

    let event = store.completed_remove(cid.clone(), Err(denied.clone()));
    assert_eq!(event, BlockStoreEvent::Remove(cid.clone(), Err(Error::Io(denied.clone()))));
    assert!(store.contains(&cid));

    let event = store.completed_get(cid.clone(), Err(denied.clone()));
    assert_eq!(event, BlockStoreEvent::Get(cid.clone(), Err(Error::Io(denied))));

    let event = store.completed_remove(cid.clone(), Err(IoFailure::NotFound));
    assert_eq!(event, BlockStoreEvent::Remove(cid.clone(), Ok(())));
    assert!(!store.contains(&cid));
}

#[test]
fn identifier_set() {
    let a = Cid::of_block(b"a").unwrap();
    let b = Cid::of_block(b"b").unwrap();
    let mut set = CidSet::new();
    assert_eq!(set.len(), 0);
    assert!(!set.contains(&a));
    assert!(set.insert(a.clone()));
    assert!(!set.insert(a.clone()));
    assert!(set.insert(b.clone()));
    assert_eq!(set.len(), 2);
    assert!(set.contains(&a));
    assert!(set.remove(&a));
    assert!(!set.remove(&a));
    assert!(!set.contains(&a));
    assert!(set.contains(&b));
    assert_eq!(set.len(), 1);
}

#[test]
fn directory_in_memory() {
    let mut files = MemFiles::new();
    assert_eq!(files.list(), Ok(Vec::new()));
    assert_eq!(files.read("a"), Err(IoFailure::NotFound));
    assert_eq!(files.delete("a"), Err(IoFailure::NotFound));
    assert_eq!(files.write("a".to_string(), vec![1]), Ok(()));
    assert_eq!(files.write("b".to_string(), vec![2, 3]), Ok(()));
    assert_eq!(files.write("a".to_string(), vec![4]), Ok(()));
    assert_eq!(files.read("a"), Ok(vec![4]));
    assert_eq!(files.read("b"), Ok(vec![2, 3]));
    let mut names = files.list().unwrap();
    names.sort();
    assert_eq!(names, vec!["a".to_string(), "b".to_string()]);
    assert_eq!(files.delete("a"), Ok(()));
    assert_eq!(files.read("a"), Err(IoFailure::NotFound));
    assert_eq!(files.list(), Ok(vec!["b".to_string()]));

    assert_eq!(files.perform(StoreRequest::Read { name: "b".to_string() }), Ok(Some(vec![2, 3])));
    assert_eq!(
        files.perform(StoreRequest::Write { name: "c".to_string(), data: vec![9] }),
        Ok(None)
    );
    assert_eq!(files.perform(StoreRequest::Read { name: "c".to_string() }), Ok(Some(vec![9])));
    assert_eq!(files.perform(StoreRequest::Delete { name: "c".to_string() }), Ok(None));
    assert_eq!(
        files.perform(StoreRequest::Delete { name: "c".to_string() }),
        Err(IoFailure::NotFound)
    );
    assert_eq!(
        files.perform(StoreRequest::Read { name: "c".to_string() }),
        Err(IoFailure::NotFound)
    );
}

#[test]
fn file_names() {
    let (cid, _) = block_one();
    assert_eq!(
        block_path(&cid),
        "bafkreidlq2zhh7zu7tqz224aj37vup2xi6w2j2vcf4outqa6klo3pb23jm.data"
    );
    assert_eq!(block_stem("abc.data"), Some("abc".to_string()));
    assert_eq!(block_stem("a.b.data"), Some("a.b".to_string()));
    assert_eq!(block_stem("é.data"), Some("é".to_string()));
    assert_eq!(block_stem(".data"), None);
    assert_eq!(block_stem("data"), None);
    assert_eq!(block_stem("abc.dat"), None);
    assert_eq!(block_stem("abc.DATA"), None);
    assert_eq!(block_stem("abc.data "), None);
    assert_eq!(block_stem(""), None);
}
