use leech::error::Error;
use leech::peer::PeerAddr;
use leech::tracker::{
    announce_url, http_peers, parse_peers, Announce, Tracker, UDPTracker, LISTEN_PORT, UDP_MAGIC,
};

const NOBODY: PeerAddr = PeerAddr { ip: 0, port: 0 };

fn test_hash() -> leech::utils::Hash {
    let mut bytes = [0u8; 20];
    for (i, b) in bytes.iter_mut().enumerate() {
        *b = 0xa0 + i as u8;
    }
    leech::utils::Hash(bytes)
}

#[test]
fn compact_peers_are_read() {
    let bytes = [10, 0, 0, 1, 0x1a, 0xe1, 192, 168, 1, 2, 0, 80];
    assert_eq!(
        parse_peers(&bytes, NOBODY).unwrap(),
        vec![PeerAddr { ip: 0x0a000001, port: 6881 }, PeerAddr { ip: 0xc0a80102, port: 80 }]
    );
    assert_eq!(parse_peers(&[], NOBODY).unwrap(), vec![]);
}

#[test]
fn the_own_address_is_left_out() {
    let own = PeerAddr { ip: 0x7f000001, port: LISTEN_PORT };
    let bytes = [127, 0, 0, 1, 0xdd, 0xd5, 127, 0, 0, 1, 0xdd, 0xd4, 10, 0, 0, 1, 0xdd, 0xd5];
    assert_eq!(LISTEN_PORT, 56789);
    assert_eq!(
        parse_peers(&bytes, own).unwrap(),
        vec![PeerAddr { ip: 0x7f000001, port: 56788 }, PeerAddr { ip: 0x0a000001, port: 56789 }]
    );
}

#[test]
fn a_broken_record_is_refused() {
    assert!(matches!(parse_peers(&[1, 2, 3, 4, 5], NOBODY), Err(Error::TrackerMalformedResponse)));
    assert!(matches!(parse_peers(&[0; 13], NOBODY), Err(Error::TrackerMalformedResponse)));
}

#[test]
fn the_http_announce_address() {
    let mut bytes = [0u8; 20];
    bytes[0] = 0x12;
    bytes[19] = 0xef;
    let url = announce_url("http://tracker.example/announce", &leech::utils::Hash(bytes), 56789);
    assert_eq!(
        url,
        "http://tracker.example/announce?info_hash=%12%00%00%00%00%00%00%00%00%00%00%00%00%00%00%00%00%00%00%ef\
         &peer_id=%33%31%34%31%35%39%32%36%35%33%35%38%39%37%39%33%32%33%38%35\
         &port=56789&uploaded=0&downloaded=0&left=0&event=started&compact=1"
    );
    assert!(announce_url("u", &leech::utils::Hash(bytes), 0).contains("&port=0&"));
}

#[test]
fn the_answer_of_an_http_tracker_is_read() {
    let mut body = b"d8:intervali1800e5:peers12:".to_vec();
    body.extend_from_slice(&[10, 0, 0, 1, 0x1a, 0xe1, 10, 0, 0, 2, 0x1a, 0xe2]);
    body.push(b'e');
    assert_eq!(
        http_peers(body, NOBODY).unwrap(),
        vec![PeerAddr { ip: 0x0a000001, port: 6881 }, PeerAddr { ip: 0x0a000002, port: 6882 }]
    );
    assert!(matches!(http_peers(b"d5:peers0:e".to_vec(), NOBODY), Ok(list) if list.is_empty()));
}

#[test]
fn a_malformed_answer_of_an_http_tracker_is_refused() {
    assert!(matches!(http_peers(b"d5:peers".to_vec(), NOBODY), Err(Error::Decode(_))));
    assert!(matches!(
        http_peers(b"d14:failure reason4:nopee".to_vec(), NOBODY),
        Err(Error::BEncoding(leech::bencoding::BEncodingParseError::MissingKey(ref k))) if k == "peers"
    ));
    assert!(matches!(
        http_peers(b"d5:peersi1ee".to_vec(), NOBODY),
        Err(Error::BEncoding(leech::bencoding::BEncodingParseError::NotAStr))
    ));
    assert!(matches!(
        http_peers(b"d5:peers5:abcdee".to_vec(), NOBODY),
        Err(Error::TrackerMalformedResponse)
    ));
    assert!(matches!(
        http_peers(b"le".to_vec(), NOBODY),
        Err(Error::BEncoding(leech::bencoding::BEncodingParseError::NotADict))
    ));
}

#[test]
fn the_udp_connect_packet() {
    assert_eq!(UDP_MAGIC, 0x41727101980);
    assert_eq!(
        UDPTracker::send_connect(0x1337),
        vec![0, 0, 0x04, 0x17, 0x27, 0x10, 0x19, 0x80, 0, 0, 0, 0, 0, 0, 0x13, 0x37]
    );
}

#[test]
fn the_udp_connect_answer() {
    let mut answer = vec![0, 0, 0, 0, 0, 0, 0x13, 0x37];
    answer.extend_from_slice(&[1, 2, 3, 4, 5, 6, 7, 8]);
    assert_eq!(UDPTracker::recv_connect(&answer, 0x1337).unwrap(), 0x0102030405060708);
    answer.extend_from_slice(&[0; 16]);
    assert_eq!(UDPTracker::recv_connect(&answer, 0x1337).unwrap(), 0x0102030405060708);
    assert!(matches!(UDPTracker::recv_connect(&answer, 0x1338), Err(Error::TrackerMalformedResponse)));
    assert!(matches!(UDPTracker::recv_connect(&answer[..15], 0x1337), Err(Error::TrackerMalformedResponse)));
    answer[3] = 3;
    assert!(matches!(UDPTracker::recv_connect(&answer, 0x1337), Err(Error::TrackerMalformedResponse)));
}

#[test]
fn the_udp_announce_packet() {
    let packet = UDPTracker::send_announce(0x0102030405060708, 0xcafe, &test_hash(), 56789);
    assert_eq!(packet.len(), 98);
    assert_eq!(&packet[0..8], &[1, 2, 3, 4, 5, 6, 7, 8]);
    assert_eq!(&packet[8..12], &[0, 0, 0, 1]);
    assert_eq!(&packet[12..16], &[0, 0, 0xca, 0xfe]);
    assert_eq!(&packet[16..36], &test_hash().0);
    assert_eq!(&packet[36..56], b"31415926535897932385");
    assert_eq!(&packet[56..80], &[0u8; 24]);
    assert_eq!(&packet[80..84], &[0, 0, 0, 2]);
    assert_eq!(&packet[84..88], &[0, 0, 0, 0]);
    assert_eq!(&packet[88..92], &[0, 0, 0, 0]);
    assert_eq!(&packet[92..96], &[0xff, 0xff, 0xff, 0xff]);
    assert_eq!(&packet[96..98], &[0xdd, 0xd5]);
}

#[test]
fn the_udp_announce_answer() {
    let mut answer = vec![0, 0, 0, 1, 0, 0, 0xca, 0xfe];
    answer.extend_from_slice(&[0, 0, 7, 8, 0, 0, 0, 3, 0, 0, 0, 5]);
    assert_eq!(UDPTracker::recv_announce(&answer, 0xcafe, NOBODY).unwrap(), vec![]);
    answer.extend_from_slice(&[10, 0, 0, 1, 0x1a, 0xe1, 10, 0, 0, 2, 0x1a, 0xe2]);
    assert_eq!(
        UDPTracker::recv_announce(&answer, 0xcafe, NOBODY).unwrap(),
        vec![PeerAddr { ip: 0x0a000001, port: 6881 }, PeerAddr { ip: 0x0a000002, port: 6882 }]
    );
    assert_eq!(
        UDPTracker::recv_announce(&answer, 0xcafe, PeerAddr { ip: 0x0a000001, port: 6881 }).unwrap(),
        vec![PeerAddr { ip: 0x0a000002, port: 6882 }]
    );
    assert!(matches!(UDPTracker::recv_announce(&answer, 0xcaff, NOBODY), Err(Error::TrackerMalformedResponse)));
    assert!(matches!(UDPTracker::recv_announce(&answer[..19], 0xcafe, NOBODY), Err(Error::TrackerMalformedResponse)));
    assert!(matches!(UDPTracker::recv_announce(&answer[..25], 0xcafe, NOBODY), Err(Error::TrackerMalformedResponse)));
    answer[3] = 0;
    assert!(matches!(UDPTracker::recv_announce(&answer, 0xcafe, NOBODY), Err(Error::TrackerMalformedResponse)));
}

#[test]
fn the_host_and_port_of_a_tracker_address() {
    assert_eq!(
        UDPTracker::get_addr_from_url("udp://tracker.coppersurfer.tk:6969/announce").unwrap(),
        "tracker.coppersurfer.tk:6969"
    );
    assert_eq!(UDPTracker::get_addr_from_url("udp://open.demonii.com:1337").unwrap(), "open.demonii.com:1337");
    assert_eq!(UDPTracker::get_addr_from_url("udp://h:1/a/b/c").unwrap(), "h:1");
    assert_eq!(UDPTracker::get_addr_from_url("udp://").unwrap(), "");
    assert!(UDPTracker::get_addr_from_url("udp:/host").is_none());
    assert!(UDPTracker::get_addr_from_url("host:80").is_none());
    assert!(UDPTracker::get_addr_from_url("").is_none());
}

#[test]
fn each_tracker_is_asked_in_its_own_way() {
    let tracker = Tracker::new(
        vec!["http://a/announce".to_string(), "udp://b:80/announce".to_string(), "udp:b".to_string(), "ud".to_string()],
        test_hash(),
    );
    match tracker.request(0, 6881) {
        Some(Announce::Http(url)) => assert_eq!(url, announce_url("http://a/announce", &test_hash(), 6881)),
        other => panic!("unexpected {:?}", other),
    }
    assert!(matches!(tracker.request(1, 6881), Some(Announce::Udp(ref a)) if a == "b:80"));
    assert!(matches!(tracker.request(2, 6881), Some(Announce::Unusable)));
    assert!(matches!(tracker.request(3, 6881), Some(Announce::Http(_))));
    assert!(tracker.request(4, 6881).is_none());
}

#[test]
fn the_first_tracker_that_knows_peers_wins() {
    let tracker = Tracker::new(vec![], test_hash());
    let a = PeerAddr { ip: 1, port: 1 };
    let b = PeerAddr { ip: 2, port: 2 };
    assert_eq!(tracker.get_peers_addresses(&vec![]), vec![]);
    assert_eq!(
        tracker.get_peers_addresses(&vec![Err(Error::TrackerUnreachable), Ok(vec![]), Err(Error::Io)]),
        vec![]
    );
    assert_eq!(
        tracker.get_peers_addresses(&vec![
            Err(Error::TrackerUnreachable),
            Ok(vec![]),
            Ok(vec![a, b]),
            Ok(vec![b]),
        ]),
        vec![a, b]
    );
}
