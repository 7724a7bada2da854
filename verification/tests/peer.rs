use leech::peer::{Block, Message, MessageType, Peer, PeerAddr};
use leech::torrent::Torrent;
use leech::bencoding::{BEncoding, DictEntry};

fn peer_test_entry(key: &str, value: BEncoding) -> DictEntry {
    DictEntry { key: key.as_bytes().to_vec(), value }
}

/// A torrent of `total` bytes in one file, cut into pieces of `piece_size`.
fn peer_test_torrent(total: i64, piece_size: i64) -> Torrent {
    let count = (total + piece_size - 1) / piece_size;
    let info = BEncoding::Dict(vec![
        peer_test_entry("length", BEncoding::Int(total)),
        peer_test_entry("name", BEncoding::Str(b"file.bin".to_vec())),
        peer_test_entry("piece length", BEncoding::Int(piece_size)),
        peer_test_entry("pieces", BEncoding::Str(vec![0xaa; 20 * count as usize])),
    ]);
    let root = BEncoding::Dict(vec![
        peer_test_entry("announce", BEncoding::Str(b"http://tracker/announce".to_vec())),
        peer_test_entry("info", info),
    ]);
    Torrent::new(BEncoding::encode(&root)).unwrap()
}

const REMOTE: PeerAddr = PeerAddr { ip: 0x0a000001, port: 6881 };

fn handshake_for(torrent: &Torrent) -> Vec<u8> {
    let mut bytes = vec![19u8];
    bytes.extend_from_slice(b"BitTorrent protocol");
    bytes.extend_from_slice(&[0u8; 8]);
    bytes.extend_from_slice(&torrent.info_hash.0);
    bytes.extend_from_slice(b"-XX0001-abcdefghijkl");
    bytes
}

/// A session that has completed the handshake, with empty queues.
fn shaken(torrent: &Torrent) -> Peer {
    let mut out = Vec::new();
    let mut blocks = Vec::new();
    let mut peer = Peer::new(REMOTE, torrent, 100, &mut out);
    peer.read(handshake_for(torrent));
    peer.process_data(100, &mut out, &mut blocks);
    assert!(peer.is_handshake_received);
    peer
}

fn sent(out: &[Message]) -> Vec<Vec<u8>> {
    out.iter()
        .map(|m| match m {
            Message::Data(addr, data) => {
                assert_eq!(*addr, REMOTE);
                data.clone()
            }
            other => panic!("unexpected {:?}", other),
        })
        .collect()
}

#[test]
fn message_ids_name_their_kinds() {
    assert_eq!(MessageType::from_u8(0), MessageType::Choke);
    assert_eq!(MessageType::from_u8(1), MessageType::UnChoke);
    assert_eq!(MessageType::from_u8(2), MessageType::Interested);
    assert_eq!(MessageType::from_u8(3), MessageType::NotInterested);
    assert_eq!(MessageType::from_u8(4), MessageType::Have);
    assert_eq!(MessageType::from_u8(5), MessageType::Bitfield);
    assert_eq!(MessageType::from_u8(6), MessageType::Request);
    assert_eq!(MessageType::from_u8(7), MessageType::Piece);
    assert_eq!(MessageType::from_u8(8), MessageType::Cancel);
    assert_eq!(MessageType::from_u8(9), MessageType::Port);
    assert_eq!(MessageType::from_u8(10), MessageType::Unknown);
    assert_eq!(MessageType::from_u8(255), MessageType::Unknown);
}

#[test]
fn a_new_session_sends_the_handshake() {
    let torrent = peer_test_torrent(100_000, 32768);
    let mut out = Vec::new();
    let peer = Peer::new(REMOTE, &torrent, 7, &mut out);
    let frames = sent(&out);
    assert_eq!(frames.len(), 1);
    let frame = &frames[0];
    assert_eq!(frame.len(), 68);
    assert_eq!(frame[0], 19);
    assert_eq!(&frame[1..20], b"BitTorrent protocol");
    assert_eq!(&frame[20..28], &[0u8; 8]);
    assert_eq!(&frame[28..48], &torrent.info_hash.0);
    assert_eq!(&frame[48..68], b"31415926535897932385");
    assert!(peer.is_handshake_sent);
    assert!(!peer.is_handshake_received);
    assert!(!peer.is_interested_sent);
    assert!(peer.is_choke_received);
    assert_eq!(peer.last_active, 7);
    assert_eq!(peer.last_keepalive, 7);
    assert_eq!(peer.is_piece_downloaded, vec![false; 4]);
    assert_eq!(peer.bitfield, vec![false; 4]);
    assert_eq!(peer.is_block_requested, vec![vec![false; 2], vec![false; 2], vec![false; 2], vec![false; 1]]);
    assert_eq!(peer.no_of_blocks_requested(), 0);
}

#[test]
fn a_handshake_for_this_torrent_is_answered_with_the_bitfield() {
    let mut torrent = peer_test_torrent(10 * 16384, 16384);
    torrent.is_piece_downloaded[0] = true;
    torrent.is_piece_downloaded[8] = true;
    torrent.is_piece_downloaded[9] = true;
    let mut out = Vec::new();
    let mut blocks = Vec::new();
    let mut peer = Peer::new(REMOTE, &torrent, 1, &mut out);
    out.clear();
    peer.read(handshake_for(&torrent));
    peer.process_data(2, &mut out, &mut blocks);
    assert!(peer.is_handshake_received);
    assert_eq!(peer.last_active, 2);
    assert_eq!(sent(&out), vec![vec![0, 0, 0, 3, 5, 0b1000_0000, 0b1100_0000]]);
    assert!(peer.data.is_empty());
    assert!(blocks.is_empty());
}

#[test]
fn a_handshake_for_another_torrent_drops_the_peer() {
    let torrent = peer_test_torrent(100_000, 32768);
    let mut out = Vec::new();
    let mut blocks = Vec::new();
    let mut peer = Peer::new(REMOTE, &torrent, 1, &mut out);
    out.clear();
    let mut bad = handshake_for(&torrent);
    bad[30] ^= 1;
    peer.read(bad);
    peer.process_data(2, &mut out, &mut blocks);
    assert!(!peer.is_handshake_received);
    assert_eq!(out.len(), 1);
    assert!(matches!(out[0], Message::Disconnect(addr) if addr == REMOTE));
}

#[test]
fn a_short_handshake_waits_for_more() {
    let torrent = peer_test_torrent(100_000, 32768);
    let mut out = Vec::new();
    let mut blocks = Vec::new();
    let mut peer = Peer::new(REMOTE, &torrent, 1, &mut out);
    out.clear();
    let whole = handshake_for(&torrent);
    peer.read(whole[..67].to_vec());
    assert_eq!(peer.get_message_length(), 68);
    peer.process_data(2, &mut out, &mut blocks);
    assert!(!peer.is_handshake_received);
    assert!(out.is_empty());
    assert_eq!(peer.data.len(), 67);
    assert_eq!(peer.last_active, 1);
    peer.read(whole[67..].to_vec());
    peer.process_data(3, &mut out, &mut blocks);
    assert!(peer.is_handshake_received);
}

#[test]
fn keepalive_consumes_four_bytes() {
    let torrent = peer_test_torrent(100_000, 32768);
    let mut peer = shaken(&torrent);
    let mut out = Vec::new();
    let mut blocks = Vec::new();
    peer.read(vec![0, 0, 0, 0]);
    assert_eq!(peer.get_message_length(), 4);
    assert_eq!(peer.get_message_type(&vec![0, 0, 0, 0]), MessageType::KeepAlive);
    peer.process_data(200, &mut out, &mut blocks);
    assert!(peer.data.is_empty());
    assert!(out.is_empty());
    assert!(blocks.is_empty());
    assert_eq!(peer.last_active, 200);
    assert!(peer.is_choke_received);
}

#[test]
fn unchoke_clears_the_choke() {
    let torrent = peer_test_torrent(100_000, 32768);
    let mut peer = shaken(&torrent);
    let mut out = Vec::new();
    let mut blocks = Vec::new();
    peer.read(vec![0, 0, 0, 1, 1]);
    peer.process_data(200, &mut out, &mut blocks);
    assert!(!peer.is_choke_received);
    assert!(peer.data.is_empty());
    peer.read(vec![0, 0, 0, 1, 0]);
    peer.process_data(201, &mut out, &mut blocks);
    assert!(peer.is_choke_received);
    assert!(out.is_empty());
}

#[test]
fn have_marks_the_piece() {
    let torrent = peer_test_torrent(10 * 16384, 16384);
    let mut peer = shaken(&torrent);
    let mut out = Vec::new();
    let mut blocks = Vec::new();
    peer.read(vec![0, 0, 0, 5, 4, 0, 0, 0, 7]);
    peer.process_data(200, &mut out, &mut blocks);
    let mut expected = vec![false; 10];
    expected[7] = true;
    assert_eq!(peer.is_piece_downloaded, expected);
    assert!(out.is_empty());
}

#[test]
fn have_for_a_piece_that_is_not_there_drops_the_peer() {
    let torrent = peer_test_torrent(10 * 16384, 16384);
    let mut peer = shaken(&torrent);
    let mut out = Vec::new();
    let mut blocks = Vec::new();
    peer.read(vec![0, 0, 0, 5, 4, 0, 0, 0, 10]);
    peer.process_data(200, &mut out, &mut blocks);
    assert_eq!(peer.is_piece_downloaded, vec![false; 10]);
    assert!(matches!(out[..], [Message::Disconnect(addr)] if addr == REMOTE));
}

#[test]
fn bitfield_sets_every_piece() {
    let torrent = peer_test_torrent(10 * 16384, 16384);
    let mut peer = shaken(&torrent);
    let mut out = Vec::new();
    let mut blocks = Vec::new();
    peer.read(vec![0, 0, 0, 3, 5, 0b1010_0000, 0b0100_0000]);
    peer.process_data(200, &mut out, &mut blocks);
    assert_eq!(
        peer.is_piece_downloaded,
        vec![true, false, true, false, false, false, false, false, false, true]
    );
    assert!(out.is_empty());
}

#[test]
fn bitfield_of_the_wrong_length_drops_the_peer() {
    let torrent = peer_test_torrent(8 * 16384, 16384);
    let mut peer = shaken(&torrent);
    let mut out = Vec::new();
    let mut blocks = Vec::new();
    // eight pieces take one byte, not two
    peer.read(vec![0, 0, 0, 3, 5, 0xff, 0xff]);
    peer.process_data(200, &mut out, &mut blocks);
    assert_eq!(peer.is_piece_downloaded, vec![false; 8]);
    assert!(matches!(out[..], [Message::Disconnect(_)]));
    out.clear();
    peer.read(vec![0, 0, 0, 2, 5, 0xff]);
    peer.process_data(200, &mut out, &mut blocks);
    assert_eq!(peer.is_piece_downloaded, vec![true; 8]);
    assert!(out.is_empty());
}

#[test]
fn piece_delivers_the_block_and_clears_the_request() {
    let torrent = peer_test_torrent(100_000, 32768);
    let mut peer = shaken(&torrent);
    let mut out = Vec::new();
    let mut blocks: Vec<Block> = Vec::new();
    peer.send_request(1, 16384, 16384, &mut out);
    assert_eq!(sent(&out), vec![vec![0, 0, 0, 13, 6, 0, 0, 0, 1, 0, 0, 0x40, 0, 0, 0, 0x40, 0]]);
    assert!(peer.is_block_requested[1][1]);
    assert_eq!(peer.no_of_blocks_requested(), 1);
    out.clear();
    let mut frame = vec![0, 0, 0, 12, 7, 0, 0, 0, 1, 0, 0, 0x40, 0];
    frame.extend_from_slice(&[9, 8, 7]);
    peer.read(frame);
    peer.process_data(200, &mut out, &mut blocks);
    assert_eq!(blocks.len(), 1);
    assert_eq!(blocks[0].piece, 1);
    assert_eq!(blocks[0].block, 1);
    assert_eq!(blocks[0].data, vec![9, 8, 7]);
    assert!(!peer.is_block_requested[1][1]);
    assert_eq!(peer.no_of_blocks_requested(), 0);
    assert!(out.is_empty());
}

#[test]
fn piece_for_a_block_that_is_not_there_drops_the_peer() {
    let torrent = peer_test_torrent(100_000, 32768);
    let mut peer = shaken(&torrent);
    let mut out = Vec::new();
    let mut blocks: Vec<Block> = Vec::new();
    // the last piece has one block only
    peer.read(vec![0, 0, 0, 10, 7, 0, 0, 0, 3, 0, 0, 0x40, 0, 1]);
    // a piece message without the offset
    peer.read(vec![0, 0, 0, 5, 7, 0, 0, 0, 0]);
    peer.process_data(200, &mut out, &mut blocks);
    assert!(blocks.is_empty());
    assert!(matches!(out[..], [Message::Disconnect(_), Message::Disconnect(_)]));
    assert!(peer.data.is_empty());
}

#[test]
fn other_messages_change_nothing() {
    let torrent = peer_test_torrent(100_000, 32768);
    let mut peer = shaken(&torrent);
    let mut out = Vec::new();
    let mut blocks = Vec::new();
    peer.read(vec![0, 0, 0, 1, 2]);
    peer.read(vec![0, 0, 0, 1, 3]);
    peer.read(vec![0, 0, 0, 13, 6, 0, 0, 0, 0, 0, 0, 0, 0, 0, 0, 0x40, 0]);
    peer.read(vec![0, 0, 0, 13, 8, 0, 0, 0, 0, 0, 0, 0, 0, 0, 0, 0x40, 0]);
    peer.read(vec![0, 0, 0, 3, 9, 0x1a, 0xe1]);
    peer.read(vec![0, 0, 0, 2, 77, 1]);
    peer.process_data(300, &mut out, &mut blocks);
    assert!(peer.data.is_empty());
    assert!(out.is_empty());
    assert!(blocks.is_empty());
    assert!(peer.is_choke_received);
    assert_eq!(peer.is_piece_downloaded, vec![false; 4]);
    assert_eq!(peer.last_active, 300);
}

#[test]
fn choke_of_the_wrong_length_drops_the_peer() {
    let torrent = peer_test_torrent(100_000, 32768);
    let mut peer = shaken(&torrent);
    let mut out = Vec::new();
    let mut blocks = Vec::new();
    peer.read(vec![0, 0, 0, 2, 1, 0]);
    peer.process_data(300, &mut out, &mut blocks);
    assert!(peer.is_choke_received);
    assert!(matches!(out[..], [Message::Disconnect(_)]));
}

#[test]
fn fragments_are_handled_as_the_whole_stream_is() {
    let torrent = peer_test_torrent(10 * 16384, 16384);
    let mut stream = handshake_for(&torrent);
    stream.extend_from_slice(&[0, 0, 0, 0]);
    stream.extend_from_slice(&[0, 0, 0, 1, 1]);
    stream.extend_from_slice(&[0, 0, 0, 5, 4, 0, 0, 0, 7]);
    stream.extend_from_slice(&[0, 0, 0, 3, 5, 0b0110_0000, 0]);
    stream.extend_from_slice(&[0, 0, 0, 11, 7, 0, 0, 0, 2, 0, 0, 0, 0, 5, 6]);
    stream.extend_from_slice(&[0, 0, 0, 5, 4, 0, 0, 0, 99]);
    stream.extend_from_slice(&[0, 0]);

    let mut whole_out = Vec::new();
    let mut whole_blocks = Vec::new();
    let mut whole = Peer::new(REMOTE, &torrent, 1, &mut whole_out);
    whole.read(stream.clone());
    whole.process_data(50, &mut whole_out, &mut whole_blocks);

    for chunk in [1usize, 2, 3, 5, 7, 64, 68, 69, 1000] {
        let mut out = Vec::new();
        let mut blocks = Vec::new();
        let mut peer = Peer::new(REMOTE, &torrent, 1, &mut out);
        for part in stream.chunks(chunk) {
            peer.read(part.to_vec());
            peer.process_data(50, &mut out, &mut blocks);
        }
        assert_eq!(format!("{:?}", out), format!("{:?}", whole_out), "chunks of {}", chunk);
        assert_eq!(format!("{:?}", blocks), format!("{:?}", whole_blocks));
        assert_eq!(peer.data, whole.data);
        assert_eq!(peer.is_piece_downloaded, whole.is_piece_downloaded);
        assert_eq!(peer.is_choke_received, whole.is_choke_received);
        assert_eq!(peer.is_handshake_received, whole.is_handshake_received);
        assert_eq!(peer.last_active, whole.last_active);
    }
    assert_eq!(whole.data, vec![0, 0]);
    assert_eq!(whole_blocks.len(), 1);
    assert!(!whole.is_choke_received);
    assert_eq!(whole.is_piece_downloaded[1..3], [true, true]);
}

#[test]
fn interest_is_sent_once() {
    let torrent = peer_test_torrent(100_000, 32768);
    let mut peer = shaken(&torrent);
    let mut out = Vec::new();
    peer.send_not_interested(&mut out);
    assert!(out.is_empty());
    peer.send_interested(&mut out);
    peer.send_interested(&mut out);
    assert_eq!(sent(&out), vec![vec![0, 0, 0, 1, 2]]);
    assert!(peer.is_interested_sent);
    out.clear();
    peer.send_not_interested(&mut out);
    peer.send_not_interested(&mut out);
    assert_eq!(sent(&out), vec![vec![0, 0, 0, 1, 3]]);
    assert!(!peer.is_interested_sent);
}

#[test]
fn have_is_announced() {
    let torrent = peer_test_torrent(100_000, 32768);
    let mut peer = shaken(&torrent);
    let mut out = Vec::new();
    peer.send_have(0x01020304, &mut out);
    assert_eq!(sent(&out), vec![vec![0, 0, 0, 5, 4, 1, 2, 3, 4]]);
}

#[test]
fn keepalive_is_held_back_for_thirty_seconds() {
    let torrent = peer_test_torrent(100_000, 32768);
    let mut out = Vec::new();
    let mut peer = Peer::new(REMOTE, &torrent, 1000, &mut out);
    out.clear();
    peer.send_keepalive(1029, &mut out);
    assert!(out.is_empty());
    assert_eq!(peer.last_keepalive, 1000);
    peer.send_keepalive(999, &mut out);
    assert!(out.is_empty());
    peer.send_keepalive(1030, &mut out);
    assert_eq!(sent(&out), vec![vec![0, 0, 0, 0]]);
    assert_eq!(peer.last_keepalive, 1030);
    peer.send_keepalive(1031, &mut out);
    assert_eq!(out.len(), 1);
}

#[test]
fn a_peer_is_late_after_thirty_seconds_of_silence() {
    let torrent = peer_test_torrent(100_000, 32768);
    let mut out = Vec::new();
    let peer = Peer::new(REMOTE, &torrent, 1000, &mut out);
    assert!(!peer.is_timed_out(1000));
    assert!(!peer.is_timed_out(1030));
    assert!(peer.is_timed_out(1031));
    assert!(!peer.is_timed_out(0));
}

#[test]
fn a_length_prefix_that_is_not_all_there_waits() {
    let torrent = peer_test_torrent(100_000, 32768);
    let mut peer = shaken(&torrent);
    let mut out = Vec::new();
    let mut blocks = Vec::new();
    peer.read(vec![0, 0, 0]);
    assert_eq!(peer.get_message_length(), u64::MAX);
    peer.process_data(200, &mut out, &mut blocks);
    assert_eq!(peer.data, vec![0, 0, 0]);
    peer.read(vec![0xff, 0xff, 0xff, 0xff]);
    peer.data.drain(0..3);
    assert_eq!(peer.get_message_length(), 4 + 0xffff_ffffu64);
    peer.process_data(200, &mut out, &mut blocks);
    assert_eq!(peer.data.len(), 4);
    assert!(out.is_empty());
}
