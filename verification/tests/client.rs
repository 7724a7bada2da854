use leech::bencoding::{BEncoding, DictEntry};
use leech::client::Client;
use leech::error::Error;
use leech::peer::{Block, Message, PeerAddr};

fn client_entry(key: &str, value: BEncoding) -> DictEntry {
    DictEntry { key: key.as_bytes().to_vec(), value }
}

fn client_for(total: i64, piece_size: i64) -> Client {
    let count = ((total + piece_size - 1) / piece_size) as usize;
    let info = BEncoding::Dict(vec![
        client_entry("length", BEncoding::Int(total)),
        client_entry("name", BEncoding::Str(b"f".to_vec())),
        client_entry("piece length", BEncoding::Int(piece_size)),
        client_entry("pieces", BEncoding::Str(vec![1; 20 * count])),
    ]);
    let root = BEncoding::Dict(vec![
        client_entry("announce", BEncoding::Str(b"http://t".to_vec())),
        client_entry("info", info),
    ]);
    Client::new(BEncoding::encode(&root)).unwrap()
}

fn addr(n: u32) -> PeerAddr {
    PeerAddr { ip: 0x0a000000 + n, port: 6881 }
}

fn handshake_of(client: &Client) -> Vec<u8> {
    let mut bytes = vec![19u8];
    bytes.extend_from_slice(b"BitTorrent protocol");
    bytes.extend_from_slice(&[0u8; 8]);
    bytes.extend_from_slice(&client.torrent.info_hash.0);
    bytes.extend_from_slice(&[b'x'; 20]);
    bytes
}

fn all_pieces(count: usize) -> Vec<u8> {
    let bytes = (count + 7) / 8;
    let mut frame = vec![0, 0, 0, (bytes + 1) as u8, 5];
    frame.extend(std::iter::repeat(0xff).take(bytes));
    frame
}

/// Connects peer `n`, which shakes hands, has every piece and unchokes.
fn join(client: &mut Client, n: u32, now: u64) {
    let mut out = Vec::new();
    let mut stream = handshake_of(client);
    stream.extend_from_slice(&all_pieces(client.torrent.no_of_pieces));
    stream.extend_from_slice(&[0, 0, 0, 1, 1]);
    client.handle(Message::AddPeer(addr(n)), now, &mut out);
    client.handle(Message::Data(addr(n), stream), now, &mut out);
}

fn requests(out: &[Message]) -> Vec<(PeerAddr, u32, u32, u32)> {
    let word = |b: &[u8]| u32::from_be_bytes([b[0], b[1], b[2], b[3]]);
    out.iter()
        .filter_map(|m| match m {
            Message::Data(a, d) if d.len() == 17 && d[4] == 6 => {
                assert_eq!(&d[..4], &[0, 0, 0, 13]);
                Some((*a, word(&d[5..9]), word(&d[9..13]), word(&d[13..17])))
            }
            _ => None,
        })
        .collect()
}

#[test]
fn a_metainfo_that_cannot_be_read_gives_no_client() {
    assert!(matches!(Client::new(b"nonsense".to_vec()), Err(Error::Decode(_))));
}

#[test]
fn a_peer_is_added_once() {
    let mut client = client_for(100_000, 32768);
    let mut out = Vec::new();
    client.add_peer(addr(1), 5, &mut out);
    assert_eq!(client.torrent.peers.len(), 1);
    assert_eq!(out.len(), 1);
    assert!(matches!(&out[0], Message::Data(a, d) if *a == addr(1) && d.len() == 68));
    client.add_peer(addr(1), 9, &mut out);
    assert_eq!(client.torrent.peers.len(), 1);
    assert_eq!(out.len(), 1);
    assert_eq!(client.torrent.peers[0].last_active, 5);
    client.handle(Message::AddPeer(addr(2)), 9, &mut out);
    assert_eq!(client.torrent.peers.len(), 2);
    assert_eq!(out.len(), 2);
    assert_eq!(client.find_peer(addr(2)), Some(1));
    assert_eq!(client.find_peer(addr(3)), None);
}

#[test]
fn bytes_go_to_the_session_of_their_peer() {
    let mut client = client_for(100_000, 32768);
    let mut out = Vec::new();
    client.add_peer(addr(1), 5, &mut out);
    client.add_peer(addr(2), 5, &mut out);
    client.on_data(addr(2), vec![1, 2], 6, &mut out);
    client.handle(Message::Data(addr(2), vec![3]), 6, &mut out);
    assert!(client.torrent.peers[0].data.is_empty());
    assert_eq!(client.torrent.peers[1].data, vec![1, 2, 3]);
    assert_eq!(out.len(), 2);
    // bytes from a peer not seen before open a session
    client.on_data(addr(3), vec![9], 7, &mut out);
    assert_eq!(client.torrent.peers.len(), 3);
    assert_eq!(client.torrent.peers[2].data, vec![9]);
    assert_eq!(out.len(), 3);
}

#[test]
fn a_disconnected_peer_is_forgotten() {
    let mut client = client_for(100_000, 32768);
    let mut out = Vec::new();
    let mut blocks = Vec::new();
    for n in 1..=3 {
        join(&mut client, n, 10);
    }
    client.process_peers(10, &mut out, &mut blocks);
    assert_eq!(client.torrent.seeders, vec![addr(1), addr(2), addr(3)]);
    client.handle(Message::Disconnect(addr(2)), 11, &mut out);
    assert_eq!(client.torrent.peers.len(), 2);
    assert_eq!(client.torrent.seeders, vec![addr(1), addr(3)]);
    assert_eq!(client.find_peer(addr(2)), None);
    assert_eq!(client.find_seeder(addr(3)), Some(1));
    client.on_disconnect(addr(2));
    client.on_disconnect(addr(9));
    assert_eq!(client.torrent.peers.len(), 2);
    assert_eq!(client.torrent.seeders, vec![addr(1), addr(3)]);
}

#[test]
fn a_turn_handles_bytes_and_tells_interest() {
    let mut client = client_for(100_000, 32768);
    let mut out = Vec::new();
    let mut blocks: Vec<Block> = Vec::new();
    join(&mut client, 1, 10);
    client.add_peer(addr(2), 10, &mut out);
    out.clear();
    client.process_peers(12, &mut out, &mut blocks);
    let p = &client.torrent.peers[0];
    assert!(p.is_handshake_received);
    assert!(p.is_interested_sent);
    assert!(!p.is_choke_received);
    assert_eq!(p.is_piece_downloaded, vec![true; 4]);
    assert_eq!(p.last_active, 12);
    // the bitfield answers the handshake, then interest is told
    assert_eq!(out.len(), 2);
    assert!(matches!(&out[0], Message::Data(a, d) if *a == addr(1) && d == &vec![0, 0, 0, 2, 5, 0]));
    assert!(matches!(&out[1], Message::Data(a, d) if *a == addr(1) && d == &vec![0, 0, 0, 1, 2]));
    // the peer that has not answered the handshake is left alone
    assert!(!client.torrent.peers[1].is_interested_sent);
    assert_eq!(client.torrent.seeders, vec![addr(1)]);
    out.clear();
    client.process_peers(13, &mut out, &mut blocks);
    assert!(out.is_empty());
    assert_eq!(client.torrent.seeders, vec![addr(1)]);
}

#[test]
fn a_keepalive_goes_out_when_due() {
    let mut client = client_for(100_000, 32768);
    let mut out = Vec::new();
    let mut blocks = Vec::new();
    join(&mut client, 1, 10);
    client.process_peers(10, &mut out, &mut blocks);
    out.clear();
    client.on_data(addr(1), vec![0, 0, 0, 0], 40, &mut out);
    client.process_peers(40, &mut out, &mut blocks);
    assert_eq!(out.len(), 1);
    assert!(matches!(&out[0], Message::Data(a, d) if *a == addr(1) && d == &vec![0, 0, 0, 0]));
    assert_eq!(client.torrent.peers[0].last_keepalive, 40);
}

#[test]
fn a_silent_peer_is_dropped() {
    let mut client = client_for(100_000, 32768);
    let mut out = Vec::new();
    let mut blocks = Vec::new();
    join(&mut client, 1, 10);
    client.process_peers(10, &mut out, &mut blocks);
    out.clear();
    client.process_peers(40, &mut out, &mut blocks);
    assert!(matches!(out[..], [Message::Data(_, _)]));
    out.clear();
    client.process_peers(41, &mut out, &mut blocks);
    assert!(matches!(out[..], [Message::Disconnect(a)] if a == addr(1)));
}

#[test]
fn a_choking_peer_is_not_asked() {
    let mut client = client_for(100_000, 32768);
    let mut out = Vec::new();
    let mut blocks = Vec::new();
    client.add_peer(addr(1), 10, &mut out);
    let mut stream = handshake_of(&client);
    stream.extend_from_slice(&all_pieces(4));
    client.on_data(addr(1), stream, 10, &mut out);
    client.process_peers(10, &mut out, &mut blocks);
    assert!(client.torrent.seeders.is_empty());
    out.clear();
    client.process_downloads(&mut out);
    assert!(out.is_empty());
}

#[test]
fn no_more_peers_are_asked_than_allowed() {
    let mut client = client_for(100_000, 32768);
    let mut out = Vec::new();
    let mut blocks = Vec::new();
    for n in 1..=10 {
        join(&mut client, n, 10);
    }
    client.process_peers(10, &mut out, &mut blocks);
    assert_eq!(client.torrent.seeders, (1..=7).map(addr).collect::<Vec<_>>());
    client.process_peers(11, &mut out, &mut blocks);
    assert_eq!(client.torrent.seeders.len(), 7);
    client.torrent.max_seeders = 8;
    client.process_peers(12, &mut out, &mut blocks);
    assert_eq!(client.torrent.seeders, (1..=8).map(addr).collect::<Vec<_>>());
}

#[test]
fn blocks_are_requested_in_order_from_the_first_peer_with_room() {
    let mut client = client_for(20 * 16384 + 100, 4 * 16384);
    let mut out = Vec::new();
    let mut blocks = Vec::new();
    join(&mut client, 1, 10);
    join(&mut client, 2, 10);
    client.process_peers(10, &mut out, &mut blocks);
    out.clear();
    client.process_downloads(&mut out);
    let asked = requests(&out);
    assert_eq!(asked.len(), 12);
    // a peer is asked while it has no more than five requests outstanding
    let expected: Vec<(PeerAddr, u32, u32, u32)> = (0..12u32)
        .map(|k| (if k < 6 { addr(1) } else { addr(2) }, k / 4, (k % 4) * 16384, 16384))
        .collect();
    assert_eq!(asked, expected);
    assert_eq!(client.torrent.peers[0].no_of_blocks_requested(), 6);
    assert_eq!(client.torrent.peers[1].no_of_blocks_requested(), 6);
    out.clear();
    client.process_downloads(&mut out);
    assert!(out.is_empty());
}

#[test]
fn a_received_block_makes_room_for_the_next_request() {
    let mut client = client_for(20 * 16384 + 100, 4 * 16384);
    let mut out = Vec::new();
    let mut blocks = Vec::new();
    join(&mut client, 1, 10);
    client.process_peers(10, &mut out, &mut blocks);
    client.process_downloads(&mut out);
    out.clear();
    let mut piece = vec![0, 0, 0, 12, 7, 0, 0, 0, 0, 0, 0, 0x40, 0];
    piece.extend_from_slice(&[1, 2, 3]);
    client.on_data(addr(1), piece, 11, &mut out);
    client.process_peers(11, &mut out, &mut blocks);
    assert_eq!(blocks.len(), 1);
    assert_eq!((blocks[0].piece, blocks[0].block), (0, 1));
    assert!(client.torrent.write_block(0, 1) == false);
    out.clear();
    client.process_downloads(&mut out);
    assert_eq!(requests(&out), vec![(addr(1), 1, 2 * 16384, 16384)]);
    assert_eq!(client.torrent.peers[0].no_of_blocks_requested(), 6);
}

#[test]
fn the_last_block_is_requested_with_its_own_length() {
    let mut client = client_for(16384 + 100, 16384);
    let mut out = Vec::new();
    let mut blocks = Vec::new();
    join(&mut client, 1, 10);
    client.process_peers(10, &mut out, &mut blocks);
    out.clear();
    client.process_downloads(&mut out);
    assert_eq!(requests(&out), vec![(addr(1), 0, 0, 16384), (addr(1), 1, 0, 100)]);
}

#[test]
fn pieces_that_a_peer_lacks_are_not_asked_of_it() {
    let mut client = client_for(3 * 16384, 16384);
    let mut out = Vec::new();
    let mut blocks = Vec::new();
    client.add_peer(addr(1), 10, &mut out);
    let mut stream = handshake_of(&client);
    stream.extend_from_slice(&[0, 0, 0, 2, 5, 0b0100_0000]);
    stream.extend_from_slice(&[0, 0, 0, 1, 1]);
    client.on_data(addr(1), stream, 10, &mut out);
    client.process_peers(10, &mut out, &mut blocks);
    out.clear();
    client.process_downloads(&mut out);
    assert_eq!(requests(&out), vec![(addr(1), 1, 0, 16384)]);
}

#[test]
fn downloaded_blocks_and_pieces_are_not_requested() {
    let mut client = client_for(4 * 16384, 2 * 16384);
    let mut out = Vec::new();
    let mut blocks = Vec::new();
    join(&mut client, 1, 10);
    client.process_peers(10, &mut out, &mut blocks);
    client.torrent.write_block(0, 0);
    out.clear();
    client.process_downloads(&mut out);
    assert_eq!(
        requests(&out),
        vec![(addr(1), 0, 16384, 16384), (addr(1), 1, 0, 16384), (addr(1), 1, 16384, 16384)]
    );
}

#[test]
fn a_complete_torrent_requests_nothing_and_tells_so() {
    let mut client = client_for(2 * 16384, 16384);
    let mut out = Vec::new();
    let mut blocks = Vec::new();
    join(&mut client, 1, 10);
    client.process_peers(10, &mut out, &mut blocks);
    assert_eq!(client.torrent.seeders.len(), 1);
    for p in 0..2 {
        client.torrent.is_piece_downloaded[p] = true;
        client.torrent.is_block_downloaded[p] = vec![true];
    }
    out.clear();
    client.process_downloads(&mut out);
    assert!(out.is_empty());
    client.process_peers(11, &mut out, &mut blocks);
    assert!(matches!(&out[..], [Message::Data(a, d)] if *a == addr(1) && d == &vec![0, 0, 0, 1, 3]));
    assert!(!client.torrent.peers[0].is_interested_sent);
}

#[test]
fn a_seeder_in_memory_serves_the_whole_content() {
    // two pieces of three blocks each
    let piece_size = 3 * 16384usize;
    let source: Vec<u8> = (0..2 * piece_size).map(|i| (i * 7 % 256) as u8).collect();
    let mut pieces = leech::utils::sha1(&source[..piece_size].to_vec());
    pieces.extend_from_slice(&leech::utils::sha1(&source[piece_size..].to_vec()));
    let info = BEncoding::Dict(vec![
        client_entry("length", BEncoding::Int(source.len() as i64)),
        client_entry("name", BEncoding::Str(b"f".to_vec())),
        client_entry("piece length", BEncoding::Int(piece_size as i64)),
        client_entry("pieces", BEncoding::Str(pieces)),
    ]);
    let root = BEncoding::Dict(vec![
        client_entry("announce", BEncoding::Str(b"http://t".to_vec())),
        client_entry("info", info),
    ]);
    let mut client = Client::new(BEncoding::encode(&root)).unwrap();
    assert_eq!(client.torrent.no_of_pieces, 2);
    assert_eq!(client.torrent.get_block_count(0), 3);

    let seeder = addr(1);
    let mut disk = vec![0u8; source.len()];
    let mut blocks: Vec<Block> = Vec::new();
    let mut inbound: Vec<Message> = vec![Message::AddPeer(seeder)];
    let mut greeted = false;
    let mut haves = Vec::new();
    let mut ticks = 0;
    while !client.torrent.is_complete() {
        ticks += 1;
        assert!(ticks <= 20, "the download does not end");
        let now = ticks as u64;
        let mut out = Vec::new();
        for event in inbound.drain(..) {
            client.handle(event, now, &mut out);
        }
        for block in blocks.drain(..) {
            let plan = client.torrent.block_plan(block.piece, block.block, block.data.len()).unwrap();
            for s in plan {
                assert_eq!(s.file, 0);
                disk[s.file_offset..s.file_offset + s.length]
                    .copy_from_slice(&block.data[s.data_offset..s.data_offset + s.length]);
            }
            if client.torrent.write_block(block.piece, block.block) {
                let plan = client.torrent.read_piece(block.piece);
                let mut data = Vec::new();
                for s in plan {
                    data.extend_from_slice(&disk[s.file_offset..s.file_offset + s.length]);
                }
                assert!(client.torrent.verify_piece(block.piece, &data, &mut out));
            }
        }
        client.process_peers(now, &mut out, &mut blocks);
        client.process_downloads(&mut out);

        // the seeder answers what it was sent
        for message in out {
            let data = match message {
                Message::Data(a, data) => {
                    assert_eq!(a, seeder);
                    data
                }
                other => panic!("unexpected {:?}", other),
            };
            if !greeted {
                assert_eq!(data.len(), 68);
                greeted = true;
                let mut answer = handshake_of(&client);
                answer.extend_from_slice(&all_pieces(2));
                answer.extend_from_slice(&[0, 0, 0, 1, 1]);
                inbound.push(Message::Data(seeder, answer));
            } else if data.len() == 17 && data[4] == 6 {
                let word = |b: &[u8]| u32::from_be_bytes([b[0], b[1], b[2], b[3]]) as usize;
                let (index, begin, length) = (word(&data[5..9]), word(&data[9..13]), word(&data[13..17]));
                let start = index * piece_size + begin;
                let mut answer = Vec::new();
                answer.extend_from_slice(&((9 + length) as u32).to_be_bytes());
                answer.push(7);
                answer.extend_from_slice(&data[5..13]);
                answer.extend_from_slice(&source[start..start + length]);
                // the answer arrives in two fragments
                let rest = answer.split_off(answer.len() / 2);
                inbound.push(Message::Data(seeder, answer));
                inbound.push(Message::Data(seeder, rest));
            } else if data.len() == 9 && data[4] == 4 {
                haves.push(data[8]);
            }
        }
    }
    assert_eq!(disk, source);
    assert_eq!(client.torrent.is_piece_downloaded, vec![true, true]);
    assert_eq!(haves, vec![0, 1]);
    assert_eq!(client.torrent.peers[0].no_of_blocks_requested(), 0);
}
