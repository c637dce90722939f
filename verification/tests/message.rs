use ipfs_bitswap::cid::Cid;
use ipfs_bitswap::codec::{priority_bits, priority_from, read_field};
use ipfs_bitswap::message::{prefix, read_prefix, Block, Entry, Message, Prefix};

fn one() -> (Cid, Vec<u8>) {
    let data = b"1".to_vec();
    (Cid::of_block(&data).unwrap(), data)
}

fn id_of_one() -> Vec<u8> {
    let mut id = vec![0x01, 0x55, 0x12, 0x20];
    id.extend_from_slice(&[
        0x6b, 0x86, 0xb2, 0x73, 0xff, 0x34, 0xfc, 0xe1, 0x9d, 0x6b, 0x80, 0x4e, 0xff, 0x5a, 0x3f,
        0x57, 0x47, 0xad, 0xa4, 0xea, 0xa2, 0x2f, 0x1d, 0x49, 0xc0, 0x1e, 0x52, 0xdd, 0xb7, 0x87,
        0x5b, 0x4b,
    ]);
    id
}

#[test]
fn identifier_of_a_raw_block() {
    let (cid, _) = one();
    assert_eq!(cid.to_bytes(), id_of_one());
    assert_eq!(cid.as_bytes(), &id_of_one()[..]);
    assert_eq!(Cid::from_bytes(&id_of_one()), Some(cid.clone()));
    // what follows the identifier is not part of it
    let mut longer = id_of_one();
    longer.extend_from_slice(&[0xaa, 0xbb]);
    assert_eq!(Cid::from_bytes(&longer), Some(cid.clone()));
    assert_eq!(Cid::from_text(&cid.to_text()), Some(cid.clone()));
    assert_eq!(Cid::hashed(1, 0x55, 0x12, b"1"), Some(cid.clone()));
    assert!(cid.same(&cid.clone()));
    assert!(!cid.same(&Cid::of_block(b"2").unwrap()));
}

#[test]
fn identifiers_that_are_refused() {
    assert_eq!(Cid::from_text(""), None);
    assert_eq!(Cid::from_text("oops"), None);
    assert_eq!(Cid::from_bytes(&[]), None);
    assert_eq!(Cid::from_bytes(&[1, 0x55, 0x12, 0x20, 1, 2, 3]), None);
    // the identity hash is not hashed with
    assert_eq!(Cid::hashed(1, 0x55, 0x00, b"1"), None);
    // no such version, no such hash function
    assert_eq!(Cid::hashed(7, 0x55, 0x12, b"1"), None);
    assert_eq!(Cid::hashed(1, 0x55, 0x7777, b"1"), None);
    // version 0 takes the one content code only
    assert_eq!(Cid::hashed(0, 0x55, 0x12, b"1"), None);
}

#[test]
fn version_0_identifier() {
    let cid = Cid::hashed(0, 0x70, 0x12, b"1").unwrap();
    assert_eq!(cid.to_bytes(), id_of_one()[2..].to_vec());
    assert!(cid.to_text().starts_with("Qm"));
    assert_eq!(cid.to_text().len(), 46);
    assert_eq!(Cid::from_text(&cid.to_text()), Some(cid.clone()));
    assert_eq!(
        prefix(&cid),
        Some(Prefix { version: 0, codec: 0x70, hash_code: 0x12, hash_len: 0x20 })
    );
    let block = Block::new(cid.clone(), b"1".to_vec()).unwrap();
    let mut message = Message::new();
    message.add_block(block);
    assert_eq!(Message::from_bytes(&message.to_bytes()), Some(message));
}

#[test]
fn prefix_of_an_identifier() {
    let (cid, _) = one();
    let expected = Prefix { version: 1, codec: 0x55, hash_code: 0x12, hash_len: 0x20 };
    assert_eq!(prefix(&cid), Some(expected));
    assert_eq!(read_prefix(&[1, 0x55, 0x12, 0x20, 9, 9]), Some((expected, 4)));
    assert_eq!(read_prefix(&[1, 0x55, 0x12]), None);
    let wide = Prefix { version: 1, codec: 0x55, hash_code: 0xb220, hash_len: 0x20 };
    assert_eq!(read_prefix(&[1, 0x55, 0xa0, 0xe4, 0x02, 0x20]), Some((wide, 6)));
}

#[test]
fn a_block_holds_the_identifier_of_its_bytes() {
    let (cid, data) = one();
    let block = Block::new(cid.clone(), data.clone()).unwrap();
    assert_eq!(block.cid(), &cid);
    assert_eq!(block.data(), &data[..]);
    assert_eq!(Block::raw(data.clone()), Some(block.clone()));
    assert_eq!(block.clone().into_parts(), (cid.clone(), data));
    // other bytes under that identifier are no block
    assert_eq!(Block::new(cid, b"2".to_vec()), None);
}

#[test]
fn priorities_as_numbers() {
    assert_eq!(priority_bits(0), 0);
    assert_eq!(priority_bits(1), 1);
    assert_eq!(priority_bits(i32::MAX), 0x7fff_ffff);
    assert_eq!(priority_bits(-1), u64::MAX);
    assert_eq!(priority_bits(i32::MIN), 0xffff_ffff_8000_0000);
    assert_eq!(priority_from(0), 0);
    assert_eq!(priority_from(u64::MAX), -1);
    assert_eq!(priority_from(0xffff_ffff), -1);
    assert_eq!(priority_from(0x8000_0000), i32::MIN);
    assert_eq!(priority_from(0x1_0000_0005), 5);
    assert_eq!(priority_from(priority_bits(-12345)), -12345);
}

#[test]
fn fields() {
    let t = read_field(&[0x10, 0x07], 0, 2).unwrap();
    assert_eq!((t.number, t.kind, t.value, t.start, t.stop, t.next), (2, 0, 7, 1, 2, 2));
    let t = read_field(&[0xff, 0x0a, 0x02, 8, 9, 0xff], 1, 5).unwrap();
    assert_eq!((t.number, t.kind, t.value, t.start, t.stop, t.next), (1, 2, 2, 3, 5, 5));
    let t = read_field(&[0x09, 1, 2, 3, 4, 5, 6, 7, 8], 0, 9).unwrap();
    assert_eq!((t.number, t.kind, t.start, t.stop, t.next), (1, 1, 1, 9, 9));
    let t = read_field(&[0x0d, 1, 2, 3, 4], 0, 5).unwrap();
    assert_eq!((t.number, t.kind, t.start, t.stop, t.next), (1, 5, 1, 5, 5));
    // beyond the end, field number 0, a kind that is not read
    assert!(read_field(&[0x0a, 0x02, 8, 9], 0, 3).is_none());
    assert!(read_field(&[0x09, 1, 2, 3], 0, 4).is_none());
    assert!(read_field(&[0x00, 0x00], 0, 2).is_none());
    assert!(read_field(&[0x0b, 0x00], 0, 2).is_none());
    assert!(read_field(&[0x10], 0, 1).is_none());
    assert!(read_field(&[], 0, 0).is_none());
}

#[test]
fn serialised_form_of_a_message() {
    let (cid, data) = one();
    let mut message = Message::new();
    assert!(message.is_empty());
    assert_eq!(message.to_bytes(), vec![0x0a, 0x02, 0x10, 0x00]);

    message.want_block(cid.clone(), 1);
    assert!(!message.is_empty());
    let mut expected = vec![0x0a, 0x2e, 0x0a, 0x2a, 0x0a, 0x24];
    expected.extend_from_slice(&id_of_one());
    expected.extend_from_slice(&[0x10, 0x01, 0x18, 0x00, 0x10, 0x00]);
    assert_eq!(message.to_bytes(), expected);

    message.add_block(Block::new(cid, data).unwrap());
    expected.extend_from_slice(&[0x1a, 0x09, 0x0a, 0x04, 0x01, 0x55, 0x12, 0x20, 0x12, 0x01, 0x31]);
    assert_eq!(message.to_bytes(), expected);
    assert_eq!(Message::from_bytes(&expected), Some(message));
}

#[test]
fn reading_inverts_writing() {
    let (cid, data) = one();
    let other = Cid::of_block(b"other").unwrap();
    let mut message = Message::new();
    message.want_block(cid.clone(), -7);
    message.want_block(other.clone(), i32::MAX);
    message.cancel_block(cid.clone());
    message.full = true;
    message.add_block(Block::new(cid.clone(), data).unwrap());
    message.add_block(Block::raw(Vec::new()).unwrap());
    message.add_block(Block::raw(vec![0u8; 300]).unwrap());
    let read = Message::from_bytes(&message.to_bytes()).unwrap();
    assert_eq!(read, message);
    assert_eq!(
        read.entries,
        vec![
            Entry { cid: cid.clone(), priority: -7, cancel: false },
            Entry { cid: other, priority: i32::MAX, cancel: false },
            Entry { cid, priority: 0, cancel: true },
        ]
    );
    assert!(read.full);
    assert_eq!(read.blocks.len(), 3);
    assert_eq!(Message::from_bytes(&[]), Some(Message::new()));
}

#[test]
fn reading_takes_any_order_and_passes_over_what_it_does_not_know() {
    let (cid, data) = one();
    let id = id_of_one();
    // the entry: cancellation flag, an unknown field, priority, identifier
    let mut entry = vec![0x18, 0x01, 0x20, 0x02, 0x10, 0x09, 0x0a, 0x24];
    entry.extend_from_slice(&id);
    // the list: flag for a whole list, then the entry, then the flag again
    let mut list = vec![0x10, 0x01, 0x0a, entry.len() as u8];
    list.extend_from_slice(&entry);
    list.extend_from_slice(&[0x10, 0x00]);
    // the block: bytes first, then the prefix
    let block = vec![0x12, 0x01, 0x31, 0x0a, 0x04, 0x01, 0x55, 0x12, 0x20];
    // the message: block, an unknown field of eight bytes, the list,
    // an unknown field of bytes, and a second list with nothing but the flag
    let mut wire = vec![0x1a, block.len() as u8];
    wire.extend_from_slice(&block);
    wire.extend_from_slice(&[0x29, 1, 2, 3, 4, 5, 6, 7, 8]);
    wire.extend_from_slice(&[0x0a, list.len() as u8]);
    wire.extend_from_slice(&list);
    wire.extend_from_slice(&[0x12, 0x02, 0xaa, 0xbb]);
    wire.extend_from_slice(&[0x0a, 0x02, 0x10, 0x01]);

    let read = Message::from_bytes(&wire).unwrap();
    assert_eq!(read.entries, vec![Entry { cid: cid.clone(), priority: 9, cancel: true }]);
    assert!(read.full);
    assert_eq!(read.blocks, vec![Block::new(cid, data).unwrap()]);
}

#[test]
fn messages_that_are_refused() {
    let id = id_of_one();
    // an entry without identifier
    assert_eq!(Message::from_bytes(&[0x0a, 0x04, 0x0a, 0x02, 0x10, 0x01]), None);
    // an entry whose identifier is cut short
    let mut entry = vec![0x0a, 0x23];
    entry.extend_from_slice(&id[..35]);
    let mut list = vec![0x0a, entry.len() as u8];
    list.extend_from_slice(&entry);
    let mut wire = vec![0x0a, list.len() as u8];
    wire.extend_from_slice(&list);
    assert_eq!(Message::from_bytes(&wire), None);
    // an entry whose identifier is followed by more
    let mut entry = vec![0x0a, 0x25];
    entry.extend_from_slice(&id);
    entry.push(0);
    let mut list = vec![0x0a, entry.len() as u8];
    list.extend_from_slice(&entry);
    let mut wire = vec![0x0a, list.len() as u8];
    wire.extend_from_slice(&list);
    assert_eq!(Message::from_bytes(&wire), None);
    // a block without prefix, with a prefix cut short, with the identity hash
    assert_eq!(Message::from_bytes(&[0x1a, 0x03, 0x12, 0x01, 0x31]), None);
    assert_eq!(Message::from_bytes(&[0x1a, 0x05, 0x0a, 0x03, 0x01, 0x55, 0x12]), None);
    assert_eq!(Message::from_bytes(&[0x1a, 0x06, 0x0a, 0x04, 0x01, 0x55, 0x00, 0x01]), None);
    // a prefix with more than four numbers
    assert_eq!(
        Message::from_bytes(&[0x1a, 0x07, 0x0a, 0x05, 0x01, 0x55, 0x12, 0x20, 0x00]),
        None
    );
    // a field that ends beyond the message
    assert_eq!(Message::from_bytes(&[0x0a, 0x05]), None);
    assert_eq!(Message::from_bytes(&[0x0a]), None);
}

#[test]
fn a_block_without_bytes_is_the_empty_block() {
    let read = Message::from_bytes(&[0x1a, 0x06, 0x0a, 0x04, 0x01, 0x55, 0x12, 0x20]).unwrap();
    assert_eq!(read.blocks, vec![Block::raw(Vec::new()).unwrap()]);
}
