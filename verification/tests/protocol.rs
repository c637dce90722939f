use ipfs_bitswap::cid::Cid;
use ipfs_bitswap::message::{Block, Message};
use ipfs_bitswap::protocol::{
    frame_progress, protocol_name, read_one, write_one, BitswapConfig, BitswapError, Progress,
    MAX_BUF_SIZE,
};
use ipfs_bitswap::varint::{read_varint, write_varint};

#[test]
fn protocol_identifier_is_bitswap_1_1_0() {
    assert_eq!(protocol_name(), b"/ipfs/bitswap/1.1.0".to_vec());
    assert_eq!(BitswapConfig::default().protocol_info(), vec![b"/ipfs/bitswap/1.1.0".to_vec()]);
    assert_eq!(Message::new().protocol_info(), vec![b"/ipfs/bitswap/1.1.0".to_vec()]);
}

#[test]
fn negotiation_picks_the_spoken_identifier() {
    let config = BitswapConfig::default();
    let offered = vec![
        b"/ipfs/bitswap".to_vec(),
        b"/ipfs/bitswap/1.0.0".to_vec(),
        b"/ipfs/bitswap/1.1.0".to_vec(),
        b"/ipfs/bitswap/1.1.0".to_vec(),
    ];
    assert_eq!(config.negotiate(&offered), Some(2));
    let legacy = vec![b"/ipfs/bitswap".to_vec(), b"/ipfs/bitswap/1.0.0".to_vec()];
    assert_eq!(config.negotiate(&legacy), None);
    assert_eq!(config.negotiate(&Vec::new()), None);
}

#[test]
fn varint_examples() {
    let mut out = Vec::new();
    write_varint(0, &mut out);
    assert_eq!(out, vec![0x00]);
    let mut out = Vec::new();
    write_varint(127, &mut out);
    assert_eq!(out, vec![0x7f]);
    let mut out = vec![9];
    write_varint(128, &mut out);
    assert_eq!(out, vec![9, 0x80, 0x01]);
    let mut out = Vec::new();
    write_varint(300, &mut out);
    assert_eq!(out, vec![0xac, 0x02]);
    let mut out = Vec::new();
    write_varint(u64::MAX, &mut out);
    assert_eq!(out, vec![0xff, 0xff, 0xff, 0xff, 0xff, 0xff, 0xff, 0xff, 0xff, 0x01]);

    assert_eq!(read_varint(&[0xac, 0x02, 0x55], 0), Some((300, 2)));
    assert_eq!(read_varint(&[0x55, 0xac, 0x02], 1), Some((300, 2)));
    assert_eq!(read_varint(&out, 0), Some((u64::MAX, 10)));
    // not minimal, and still read
    assert_eq!(read_varint(&[0x80, 0x00], 0), Some((0, 2)));
}

#[test]
fn varint_refusals() {
    // nothing to read
    assert_eq!(read_varint(&[], 0), None);
    assert_eq!(read_varint(&[1], 1), None);
    assert_eq!(read_varint(&[1], 7), None);
    // ends before the last byte
    assert_eq!(read_varint(&[0x80], 0), None);
    assert_eq!(read_varint(&[0xff, 0xff], 0), None);
    // over 64 bits
    let over = [0xff, 0xff, 0xff, 0xff, 0xff, 0xff, 0xff, 0xff, 0xff, 0x02];
    assert_eq!(read_varint(&over, 0), None);
    // over ten bytes
    let long = [0x80, 0x80, 0x80, 0x80, 0x80, 0x80, 0x80, 0x80, 0x80, 0x80, 0x00];
    assert_eq!(read_varint(&long, 0), None);
}

#[test]
fn frame_examples() {
    assert_eq!(write_one(&[1, 2, 3]), Ok(vec![3, 1, 2, 3]));
    assert_eq!(write_one(&[]), Ok(vec![0]));
    assert_eq!(read_one(&[3, 1, 2, 3]), Ok(vec![1, 2, 3]));
    assert_eq!(read_one(&[0]), Ok(Vec::new()));
    // what follows the frame is not looked at
    assert_eq!(read_one(&[2, 7, 8, 9, 9, 9]), Ok(vec![7, 8]));
}

#[test]
fn frame_refusals() {
    assert_eq!(read_one(&[]), Err(BitswapError::MalformedFrame));
    assert_eq!(read_one(&[0x80]), Err(BitswapError::MalformedFrame));
    assert_eq!(read_one(&[3, 1, 2]), Err(BitswapError::MalformedFrame));
    let over = [0xff, 0xff, 0xff, 0xff, 0xff, 0xff, 0xff, 0xff, 0xff, 0x7f];
    assert_eq!(read_one(&over), Err(BitswapError::MalformedFrame));
}

#[test]
fn frame_at_the_limit_passes_and_one_over_fails() {
    assert_eq!(MAX_BUF_SIZE, 524_288);
    let payload = vec![0xabu8; MAX_BUF_SIZE];
    let wire = write_one(&payload).unwrap();
    assert_eq!(wire.len(), MAX_BUF_SIZE + 3);
    assert_eq!(&wire[..3], &[0x80, 0x80, 0x20]);
    assert_eq!(read_one(&wire), Ok(payload));

    let payload = vec![0xabu8; MAX_BUF_SIZE + 1];
    assert_eq!(write_one(&payload), Err(BitswapError::FrameTooLarge));
    let mut wire = vec![0x81, 0x80, 0x20];
    wire.extend_from_slice(&payload);
    assert_eq!(read_one(&wire), Err(BitswapError::FrameTooLarge));
    // the stated length decides, not what is there
    assert_eq!(read_one(&[0x81, 0x80, 0x20]), Err(BitswapError::FrameTooLarge));
    assert_eq!(read_one(&[0x80, 0x80, 0x20]), Err(BitswapError::MalformedFrame));
}

#[test]
fn upgrade_there_and_back() {
    let config = BitswapConfig::default();
    let info = protocol_name();
    let data = b"1".to_vec();
    let cid = Cid::of_block(&data).unwrap();
    let mut message = Message::new();
    message.want_block(cid.clone(), 5);
    message.cancel_block(cid.clone());
    message.add_block(Block::raw(data).unwrap());
    message.full = true;

    let wire = message.upgrade_outbound(&info).unwrap();
    assert_eq!(wire[0] as usize, wire.len() - 1);
    assert_eq!(config.upgrade_inbound(&wire, &info), Ok(message));
}

#[test]
fn upgrade_refusals() {
    let config = BitswapConfig::default();
    let info = protocol_name();
    let message = Message::new();
    let wire = message.upgrade_outbound(&info).unwrap();

    assert_eq!(
        message.upgrade_outbound(b"/ipfs/bitswap/1.0.0"),
        Err(BitswapError::UnsupportedVersion)
    );
    assert_eq!(
        config.upgrade_inbound(&wire, b"/ipfs/bitswap/1.0.0"),
        Err(BitswapError::UnsupportedVersion)
    );
    assert_eq!(config.upgrade_inbound(&[], &info), Err(BitswapError::MalformedFrame));
    assert_eq!(config.upgrade_inbound(&[2, 0x0a], &info), Err(BitswapError::MalformedFrame));
    // a frame whose payload is no message: a field that ends beyond the payload
    assert_eq!(config.upgrade_inbound(&[2, 0x0a, 0x05], &info), Err(BitswapError::Decode));
    assert_eq!(
        config.upgrade_inbound(&[0x81, 0x80, 0x20], &info),
        Err(BitswapError::FrameTooLarge)
    );
}

#[test]
fn an_oversized_message_does_not_go_out() {
    let info = protocol_name();
    let mut message = Message::new();
    message.add_block(Block::raw(vec![7u8; MAX_BUF_SIZE]).unwrap());
    assert_eq!(message.upgrade_outbound(&info), Err(BitswapError::FrameTooLarge));
}

#[test]
fn a_frame_is_read_in_steps() {
    assert_eq!(frame_progress(&[]), Progress::NeedMore(1));
    assert_eq!(frame_progress(&[0x80]), Progress::NeedMore(1));
    assert_eq!(frame_progress(&[0x80, 0x80]), Progress::NeedMore(1));
    assert_eq!(frame_progress(&[0x80, 0x80, 0x20]), Progress::NeedMore(MAX_BUF_SIZE));
    assert_eq!(
        frame_progress(&[0x81, 0x80, 0x20]),
        Progress::Failed(BitswapError::FrameTooLarge)
    );
    assert_eq!(frame_progress(&[0]), Progress::Ready);
    assert_eq!(frame_progress(&[3]), Progress::NeedMore(3));
    assert_eq!(frame_progress(&[3, 1]), Progress::NeedMore(2));
    assert_eq!(frame_progress(&[3, 1, 2, 3]), Progress::Ready);
    assert_eq!(frame_progress(&[3, 1, 2, 3, 4]), Progress::Ready);
    assert_eq!(
        frame_progress(&[0x80; 10]),
        Progress::Failed(BitswapError::MalformedFrame)
    );
    assert_eq!(frame_progress(&[0x80; 9]), Progress::NeedMore(1));
    let over = [0xff, 0xff, 0xff, 0xff, 0xff, 0xff, 0xff, 0xff, 0xff, 0x7f];
    assert_eq!(frame_progress(&over), Progress::Failed(BitswapError::MalformedFrame));

    // reading by the steps asked for ends with the frame that was written
    let wire = write_one(&[7u8; 200]).unwrap();
    let mut read = Vec::new();
    loop {
        match frame_progress(&read) {
            Progress::Ready => break,
            Progress::NeedMore(n) => {
                let at = read.len();
                read.extend_from_slice(&wire[at..at + n]);
            }
            Progress::Failed(e) => panic!("{:?}", e),
        }
    }
    assert_eq!(read, wire);
    assert_eq!(read_one(&read), Ok(vec![7u8; 200]));
}
