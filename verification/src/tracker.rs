//! The tracker client: the announce requests of both transports and the
//! reading of their answers. Sending and receiving are left to the caller.

use vstd::prelude::*;
use vstd::string::{StrSliceExecFns, StringExecFns};
use crate::bencoding::{dec_digits, decode_spec, lemma_dec_digits, push_decimal, BEncoding};
use crate::error::Error;
use crate::magnet::{chars_of, find_char, find_in};
use crate::metainfo::{bytes_at, fails_with, read_bytes};
use crate::peer::PeerAddr;
use crate::utils::{
    ascii_chars, be_bytes32, be_bytes64, be_value32, be_value64, byte_slice_to_u32,
    byte_slice_to_u64, lossy_string, my_peer_id, my_peer_id_bytes, percent_encoded,
    u32_to_byte_slice, u64_to_byte_slice,
};

verus! {

/// The port on which this client listens for peers.
pub const LISTEN_PORT: u16 = 56789;

/// The connection id that opens a UDP exchange with a tracker.
pub const UDP_MAGIC: u64 = 0x41727101980;

/// The trackers of a torrent, in the order in which they are asked.
pub struct Tracker {
    pub urls: Vec<String>,
    pub info_hash: crate::utils::Hash,
}

/// Record `k` of a compact peer list: four bytes of address and two of port,
/// both in network order.
pub open spec fn record_at(bytes: Seq<u8>, k: int) -> PeerAddr {
    PeerAddr {
        ip: be_value32(bytes.subrange(6 * k, 6 * k + 4)) as u32,
        port: (bytes[6 * k + 4] as int * 256 + bytes[6 * k + 5] as int) as u16,
    }
}

/// The peers in the records `0 .. n` of a compact peer list, but for the
/// address `own`.
pub open spec fn peers_spec(bytes: Seq<u8>, own: PeerAddr, n: int) -> Seq<PeerAddr>
    decreases n,
{
    if n <= 0 {
        Seq::empty()
    } else if record_at(bytes, n - 1) == own {
        peers_spec(bytes, own, n - 1)
    } else {
        peers_spec(bytes, own, n - 1).push(record_at(bytes, n - 1))
    }
}

/// Reads a compact peer list and leaves out this client's own address. A
/// list that is not a whole number of records is refused.
pub fn parse_peers(peers: &[u8], own: PeerAddr) -> (r: Result<Vec<PeerAddr>, Error>)
    ensures
        if peers@.len() % 6 == 0 {
            r matches Ok(list) && list@ == peers_spec(peers@, own, peers@.len() as int / 6)
        } else {
            r matches Err(Error::TrackerMalformedResponse)
        },
{
    let len: usize = peers.len();
    if len % 6 != 0 {
        return Err(Error::TrackerMalformedResponse);
    }
    let n: usize = len / 6;
    let mut list: Vec<PeerAddr> = Vec::new();
    let mut k: usize = 0;
    while k < n
        invariant
            k <= n,
            len == peers@.len(),
            n == len / 6,
            len % 6 == 0,
            list@ == peers_spec(peers@, own, k as int),
        decreases n - k,
    {
        let ip = byte_slice_to_u32(vstd::slice::slice_subrange(peers, 6 * k, 6 * k + 4));
        let port: u16 = (peers[6 * k + 4] as u16) * 256 + (peers[6 * k + 5] as u16);
        let addr = PeerAddr { ip, port };
        if !(addr.ip == own.ip && addr.port == own.port) {
            list.push(addr);
        }
        k += 1;
    }
    Ok(list)
}

/// The address of an HTTP announce: the tracker's address and the query
/// `info_hash`, `peer_id`, `port`, the three counters at zero, `event` and
/// `compact`.
pub open spec fn announce_url_spec(url: Seq<char>, info_hash: Seq<u8>, port: u16) -> Seq<char> {
    url + "?info_hash="@ + ascii_chars(percent_encoded(info_hash)) + "&peer_id="@ + ascii_chars(
        percent_encoded(my_peer_id_bytes()),
    ) + "&port="@ + ascii_chars(dec_digits(port as nat))
        + "&uploaded=0&downloaded=0&left=0&event=started&compact=1"@
}

/// The address to `GET` for an announce to an HTTP tracker.
pub fn announce_url(url: &str, info_hash: &crate::utils::Hash, port: u16) -> (text: String)
    ensures
        text@ == announce_url_spec(url@, info_hash@, port),
{
    let mut text = String::from_str(url);
    text.append("?info_hash=");
    text.append(info_hash.url_encoded().as_str());
    text.append("&peer_id=");
    text.append(my_peer_id().url_encoded().as_str());
    text.append("&port=");
    let mut digits: Vec<u8> = Vec::new();
    push_decimal(&mut digits, port as u64);
    proof {
        lemma_dec_digits(port as nat);
        assert(digits@ =~= dec_digits(port as nat));
    }
    text.append(lossy_string(&digits).as_str());
    text.append("&uploaded=0&downloaded=0&left=0&event=started&compact=1");
    text
}

/// Reads the answer of an HTTP tracker: a bencoded dictionary whose `peers`
/// is a compact peer list.
pub fn http_peers(body: Vec<u8>, own: PeerAddr) -> (r: Result<Vec<PeerAddr>, Error>)
    ensures
        match decode_spec(body@) {
            Err((reason, offset)) => r matches Err(Error::Decode(e)) && e.reason == reason
                && e.offset == offset,
            Ok(v) => match read_bytes(v, "peers") {
                Err(f) => r matches Err(e) && fails_with(e, f),
                Ok(bytes) => if bytes.len() % 6 == 0 {
                    r matches Ok(list) && list@ == peers_spec(bytes, own, bytes.len() as int / 6)
                } else {
                    r matches Err(Error::TrackerMalformedResponse)
                },
            },
        },
{
    let root = match BEncoding::decode(body) {
        Err(e) => {
            return Err(Error::Decode(e));
        },
        Ok(root) => root,
    };
    let peers = bytes_at(&root, "peers")?;
    parse_peers(peers.as_slice(), own)
}

/// The sixteen bytes that open a UDP exchange: the magic connection id, the
/// action 0 and the transaction id.
pub open spec fn connect_frame(transaction_id: u32) -> Seq<u8> {
    be_bytes64(UDP_MAGIC) + be_bytes32(0) + be_bytes32(transaction_id)
}

/// `n` zero bytes.
pub open spec fn zeros(n: nat) -> Seq<u8> {
    Seq::new(n, |i: int| 0u8)
}

/// The 98 bytes of a UDP announce: the connection id, the action 1, the
/// transaction id, the torrent's identity, this client's id, the three
/// counters at zero, the event 2 (started), no address, no key, as many
/// peers as the tracker likes, and the port.
pub open spec fn announce_frame(
    connection_id: u64,
    transaction_id: u32,
    info_hash: Seq<u8>,
    port: u16,
) -> Seq<u8> {
    be_bytes64(connection_id) + be_bytes32(1) + be_bytes32(transaction_id) + info_hash
        + my_peer_id_bytes() + zeros(24) + be_bytes32(2) + zeros(8) + be_bytes32(0xffff_ffff)
        + seq![(port / 256) as u8, (port % 256) as u8]
}

/// The exchange with a UDP tracker.
pub struct UDPTracker {}

impl UDPTracker {
    /// The host and port of a tracker address: what stands between its
    /// second slash and its third, or its end.
    pub fn get_addr_from_url(url: &str) -> (addr: Option<String>)
        ensures
            match authority(url@) {
                Some((from, to)) => addr matches Some(a) && a@ == url@.subrange(from, to),
                None => addr is None,
            },
    {
        let cs = chars_of(url);
        let n: usize = cs.len();
        let first = find_char(&cs, '/', 0, n);
        if first == n {
            return None;
        }
        let second = find_char(&cs, '/', first + 1, n);
        if second == n {
            return None;
        }
        let third = find_char(&cs, '/', second + 1, n);
        Some(String::from_str(url.substring_char(second + 1, third)))
    }

    /// The packet that opens the exchange.
    pub fn send_connect(transaction_id: u32) -> (packet: Vec<u8>)
        ensures
            packet@ == connect_frame(transaction_id),
    {
        let mut packet = u64_to_byte_slice(UDP_MAGIC);
        let action = u32_to_byte_slice(0);
        let id = u32_to_byte_slice(transaction_id);
        packet.extend_from_slice(action.as_slice());
        packet.extend_from_slice(id.as_slice());
        assert(packet@ =~= connect_frame(transaction_id));
        packet
    }

    /// Reads the answer to the opening packet: at least sixteen bytes with
    /// the action 0 and the transaction id of the request, then the
    /// connection id.
    pub fn recv_connect(buffer: &[u8], transaction_id: u32) -> (r: Result<u64, Error>)
        ensures
            if connect_answer(buffer@, transaction_id) {
                r matches Ok(id) && id == be_value64(buffer@.subrange(8, 16))
            } else {
                r matches Err(Error::TrackerMalformedResponse)
            },
    {
        if buffer.len() < 16 {
            return Err(Error::TrackerMalformedResponse);
        }
        let action = byte_slice_to_u32(vstd::slice::slice_subrange(buffer, 0, 4));
        let id = byte_slice_to_u32(vstd::slice::slice_subrange(buffer, 4, 8));
        if action != 0 || id != transaction_id {
            return Err(Error::TrackerMalformedResponse);
        }
        Ok(byte_slice_to_u64(vstd::slice::slice_subrange(buffer, 8, 16)))
    }

    /// The announce packet.
    pub fn send_announce(
        connection_id: u64,
        transaction_id: u32,
        info_hash: &crate::utils::Hash,
        port: u16,
    ) -> (packet: Vec<u8>)
        ensures
            packet@ == announce_frame(connection_id, transaction_id, info_hash@, port),
            packet@.len() == 98,
    {
        let mut packet = u64_to_byte_slice(connection_id);
        packet.extend_from_slice(u32_to_byte_slice(1).as_slice());
        packet.extend_from_slice(u32_to_byte_slice(transaction_id).as_slice());
        packet.extend_from_slice(info_hash.0.as_slice());
        packet.extend_from_slice(my_peer_id().0.as_slice());
        let counters: [u8; 24] = [0u8; 24];
        packet.extend_from_slice(counters.as_slice());
        packet.extend_from_slice(u32_to_byte_slice(2).as_slice());
        let blank: [u8; 8] = [0u8; 8];
        packet.extend_from_slice(blank.as_slice());
        packet.extend_from_slice(u32_to_byte_slice(0xffff_ffff).as_slice());
        packet.push((port / 256) as u8);
        packet.push((port % 256) as u8);
        assert(counters@ =~= zeros(24));
        assert(blank@ =~= zeros(8));
        assert(packet@ =~= announce_frame(connection_id, transaction_id, info_hash@, port));
        packet
    }

    /// Reads the answer to an announce: twenty bytes of header with the
    /// action 1 and the transaction id of the request, then a compact peer
    /// list.
    pub fn recv_announce(buffer: &[u8], transaction_id: u32, own: PeerAddr) -> (r: Result<
        Vec<PeerAddr>,
        Error,
    >)
        ensures
            if announce_answer(buffer@, transaction_id) {
                r matches Ok(list) && list@ == peers_spec(
                    buffer@.subrange(20, buffer@.len() as int),
                    own,
                    (buffer@.len() - 20) / 6,
                )
            } else {
                r matches Err(Error::TrackerMalformedResponse)
            },
    {
        if buffer.len() < 20 {
            return Err(Error::TrackerMalformedResponse);
        }
        let action = byte_slice_to_u32(vstd::slice::slice_subrange(buffer, 0, 4));
        let id = byte_slice_to_u32(vstd::slice::slice_subrange(buffer, 4, 8));
        if action != 1 || id != transaction_id {
            return Err(Error::TrackerMalformedResponse);
        }
        parse_peers(vstd::slice::slice_subrange(buffer, 20, buffer.len()), own)
    }
}

/// Where the host and port stand in a tracker address, if it has two slashes.
pub open spec fn authority(url: Seq<char>) -> Option<(int, int)> {
    let n = url.len() as int;
    let first = find_in(url, '/', 0, n);
    if first == n {
        None
    } else {
        let second = find_in(url, '/', first + 1, n);
        if second == n {
            None
        } else {
            Some((second + 1, find_in(url, '/', second + 1, n)))
        }
    }
}

/// True for a well-formed answer to the opening packet.
pub open spec fn connect_answer(buffer: Seq<u8>, transaction_id: u32) -> bool {
    &&& buffer.len() >= 16
    &&& be_value32(buffer.subrange(0, 4)) == 0
    &&& be_value32(buffer.subrange(4, 8)) == transaction_id
}

/// True for a well-formed answer to an announce.
pub open spec fn announce_answer(buffer: Seq<u8>, transaction_id: u32) -> bool {
    &&& buffer.len() >= 20
    &&& be_value32(buffer.subrange(0, 4)) == 1
    &&& be_value32(buffer.subrange(4, 8)) == transaction_id
    &&& (buffer.len() - 20) % 6 == 0
}


/// What to do to ask one tracker.
#[derive(Debug)]
pub enum Announce {
    /// `GET` this address and read the body with `http_peers`.
    Http(String),
    /// Exchange the UDP packets with this host and port.
    Udp(String),
    /// The tracker's address cannot be used.
    Unusable,
}

/// True for the address of a UDP tracker: one that starts with `udp`.
pub open spec fn is_udp(url: Seq<char>) -> bool {
    url.len() >= 3 && url.subrange(0, 3) == "udp"@
}

/// True when `a` is the way to ask the tracker at `url`.
pub open spec fn announce_of(url: Seq<char>, info_hash: Seq<u8>, port: u16, a: Announce) -> bool {
    if is_udp(url) {
        match authority(url) {
            Some((from, to)) => a matches Announce::Udp(addr) && addr@ == url.subrange(from, to),
            None => a is Unusable,
        }
    } else {
        a matches Announce::Http(text) && text@ == announce_url_spec(url, info_hash, port)
    }
}

/// The first list of peers among the answers `from ..` that is not empty,
/// or no peers.
pub open spec fn first_peers(answers: Seq<Result<Vec<PeerAddr>, Error>>, from: int) -> Seq<PeerAddr>
    decreases answers.len() - from,
{
    if 0 <= from < answers.len() {
        match answers[from] {
            Ok(list) => if list@.len() > 0 {
                list@
            } else {
                first_peers(answers, from + 1)
            },
            Err(_) => first_peers(answers, from + 1),
        }
    } else {
        Seq::empty()
    }
}

impl Tracker {
    /// The trackers at `urls`, asked about the torrent with this identity.
    pub fn new(urls: Vec<String>, info_hash: crate::utils::Hash) -> (tracker: Tracker)
        ensures
            tracker.urls == urls,
            tracker.info_hash == info_hash,
    {
        Tracker { urls, info_hash }
    }

    /// How to ask tracker number `index`, while there is one.
    pub fn request(&self, index: usize, port: u16) -> (r: Option<Announce>)
        ensures
            index >= self.urls@.len() ==> r is None,
            index < self.urls@.len() ==> r is Some && announce_of(
                self.urls@[index as int]@,
                self.info_hash@,
                port,
                r->0,
            ),
    {
        if index >= self.urls.len() {
            return None;
        }
        let url = self.urls[index].as_str();
        proof {
            reveal_strlit("udp");
        }
        let udp = url.unicode_len() >= 3 && url.get_char(0) == 'u' && url.get_char(1) == 'd'
            && url.get_char(2) == 'p';
        assert(udp == is_udp(url@)) by {
            if udp {
                assert(url@.subrange(0, 3) =~= "udp"@);
            } else if url@.len() >= 3 {
                assert(url@.subrange(0, 3)[0] == url@[0]);
                assert(url@.subrange(0, 3)[1] == url@[1]);
                assert(url@.subrange(0, 3)[2] == url@[2]);
            }
        }
        if udp {
            match UDPTracker::get_addr_from_url(url) {
                Some(addr) => Some(Announce::Udp(addr)),
                None => Some(Announce::Unusable),
            }
        } else {
            Some(Announce::Http(announce_url(url, &self.info_hash, port)))
        }
    }

    /// The peers to connect to, given the answers of the trackers asked so
    /// far, in the order of the trackers: the first list that is not empty.
    /// Trackers that failed or know no peer are passed over.
    pub fn get_peers_addresses(&self, answers: &Vec<Result<Vec<PeerAddr>, Error>>) -> (peers: Vec<
        PeerAddr,
    >)
        ensures
            peers@ == first_peers(answers@, 0),
    {
        let mut i: usize = 0;
        while i < answers.len()
            invariant
                i <= answers@.len(),
                first_peers(answers@, 0) == first_peers(answers@, i as int),
            decreases answers@.len() - i,
        {
            match &answers[i] {
                Ok(list) => {
                    if list.len() > 0 {
                        let mut peers: Vec<PeerAddr> = Vec::new();
                        let mut k: usize = 0;
                        while k < list.len()
                            invariant
                                k <= list@.len(),
                                peers@ == list@.subrange(0, k as int),
                            decreases list@.len() - k,
                        {
                            peers.push(list[k]);
                            k += 1;
                            assert(peers@ =~= list@.subrange(0, k as int));
                        }
                        assert(list@.subrange(0, k as int) =~= list@);
                        return peers;
                    }
                },
                Err(_) => {},
            }
            i += 1;
        }
        Vec::new()
    }
}

} // verus!
