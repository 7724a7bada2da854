//! The download orchestrator: it owns the torrent and every session, takes
//! in what the transport reports, lets each session handle its bytes, and
//! spreads block requests over the peers that accept them.

use vstd::prelude::*;
use crate::error::Error;
use crate::peer::{
    block_views, fed, followed_by, handshake_frame, interested_frame, keepalive_frame,
    count_rows, count_true, lemma_process_shape, lemma_shape_wf, message_views,
    not_interested_frame, opened, posted, process, refused, request_frame, same_shape, Block, BlockView, Effects, Message, MessageView, Peer, PeerAddr, PeerView,
};
use crate::geometry::{block_count, block_len, lemma_block_range};
use crate::torrent::{peer_views, same_torrent, Torrent};
use crate::utils::BLOCK_SIZE;

verus! {

/// The orchestrator of one download.
pub struct Client {
    pub torrent: Torrent,
}

/// The first index from `from` on whose session has the address, or the
/// number of sessions when there is none.
pub open spec fn peer_index(peers: Seq<PeerView>, addr: PeerAddr, from: int) -> int
    decreases peers.len() - from,
{
    if 0 <= from < peers.len() {
        if peers[from].addr == addr {
            from
        } else {
            peer_index(peers, addr, from + 1)
        }
    } else {
        peers.len() as int
    }
}

/// The first index from `from` on at which the address stands, or the length
/// of the list when it does not.
pub open spec fn addr_index(addrs: Seq<PeerAddr>, addr: PeerAddr, from: int) -> int
    decreases addrs.len() - from,
{
    if 0 <= from < addrs.len() {
        if addrs[from] == addr {
            from
        } else {
            addr_index(addrs, addr, from + 1)
        }
    } else {
        addrs.len() as int
    }
}

/// What `peer_index` finds is the first session with the address.
pub proof fn lemma_peer_index(peers: Seq<PeerView>, addr: PeerAddr, from: int)
    requires
        0 <= from <= peers.len(),
    ensures
        from <= peer_index(peers, addr, from) <= peers.len(),
        peer_index(peers, addr, from) < peers.len() ==> peers[peer_index(peers, addr, from)].addr
            == addr,
        forall|k: int| from <= k < peer_index(peers, addr, from) ==> peers[k].addr != addr,
    decreases peers.len() - from,
{
    if from < peers.len() && peers[from].addr != addr {
        lemma_peer_index(peers, addr, from + 1);
    }
}

/// What `addr_index` finds is the first place at which the address stands.
pub proof fn lemma_addr_index(addrs: Seq<PeerAddr>, addr: PeerAddr, from: int)
    requires
        0 <= from <= addrs.len(),
    ensures
        from <= addr_index(addrs, addr, from) <= addrs.len(),
        addr_index(addrs, addr, from) < addrs.len() ==> addrs[addr_index(addrs, addr, from)]
            == addr,
        forall|k: int| from <= k < addr_index(addrs, addr, from) ==> addrs[k] != addr,
    decreases addrs.len() - from,
{
    if from < addrs.len() && addrs[from] != addr {
        lemma_addr_index(addrs, addr, from + 1);
    }
}

/// The same progress: what is downloaded is as before.
pub open spec fn same_progress(a: Torrent, b: Torrent) -> bool {
    &&& a.is_piece_downloaded == b.is_piece_downloaded
    &&& a.is_block_downloaded == b.is_block_downloaded
}

/// The sessions once there is one with `addr`: a new one is opened at the
/// end if need be.
pub open spec fn with_peer(t: Torrent, addr: PeerAddr, now: u64) -> Seq<PeerView> {
    if t.has_peer(addr) {
        peer_views(t.peers@)
    } else {
        peer_views(t.peers@).push(opened(addr, &t, now))
    }
}

/// The handshake of a session newly opened with `addr`, if there was none.
pub open spec fn greeting(t: Torrent, addr: PeerAddr) -> Seq<MessageView> {
    if t.has_peer(addr) {
        Seq::empty()
    } else {
        seq![MessageView::Data(addr, handshake_frame(t.info_hash@))]
    }
}

/// Nothing but the sessions differs between `a` and `b`.
pub open spec fn only_peers_differ(a: Torrent, b: Torrent) -> bool {
    same_torrent(b, a) && same_progress(b, a) && b.seeders == a.seeders
}

/// `b` is `a` after a session with `addr` was made sure of at time `now`.
pub open spec fn added(
    a: Torrent,
    b: Torrent,
    out_before: Seq<Message>,
    out_after: Seq<Message>,
    addr: PeerAddr,
    now: u64,
) -> bool {
    &&& only_peers_differ(a, b)
    &&& peer_views(b.peers@) == with_peer(a, addr, now)
    &&& message_views(out_after) == message_views(out_before) + greeting(a, addr)
}

/// `b` is `a` after bytes from `addr` were taken in at time `now`.
pub open spec fn routed(
    a: Torrent,
    b: Torrent,
    out_before: Seq<Message>,
    out_after: Seq<Message>,
    addr: PeerAddr,
    data: Seq<u8>,
    now: u64,
) -> bool {
    let sessions = with_peer(a, addr, now);
    let i = peer_index(sessions, addr, 0);
    &&& only_peers_differ(a, b)
    &&& peer_views(b.peers@) == sessions.update(i, fed(sessions[i], data))
    &&& message_views(out_after) == message_views(out_before) + greeting(a, addr)
}

/// The list without its first occurrence of `addr`.
pub open spec fn without_addr(addrs: Seq<PeerAddr>, addr: PeerAddr) -> Seq<PeerAddr> {
    let j = addr_index(addrs, addr, 0);
    if j < addrs.len() {
        addrs.remove(j)
    } else {
        addrs
    }
}

/// The sessions without the one with `addr`.
pub open spec fn without_peer(peers: Seq<PeerView>, addr: PeerAddr) -> Seq<PeerView> {
    let i = peer_index(peers, addr, 0);
    if i < peers.len() {
        peers.remove(i)
    } else {
        peers
    }
}

/// `b` is `a` after the connection with `addr` ended.
pub open spec fn dropped(a: Torrent, b: Torrent, addr: PeerAddr) -> bool {
    &&& same_torrent(b, a)
    &&& same_progress(b, a)
    &&& b.seeders@ == without_addr(a.seeders@, addr)
    &&& peer_views(b.peers@) == without_peer(peer_views(a.peers@), addr)
}

impl Client {
    /// Reads the torrent from the bytes of a metainfo file.
    pub fn new(data: Vec<u8>) -> (r: Result<Client, Error>)
        ensures
            match Torrent::new_spec(data@) {
                Ok(m) => r matches Ok(c) && c.torrent.wf() && c.torrent.describes(m)
                    && c.torrent.untouched(),
                Err(f) => r matches Err(e) && crate::metainfo::fails_with(e, f),
            },
    {
        match Torrent::new(data) {
            Ok(torrent) => Ok(Client { torrent }),
            Err(e) => Err(e),
        }
    }

    /// The index of the session with the address, if there is one.
    pub fn find_peer(&self, addr: PeerAddr) -> (r: Option<usize>)
        ensures
            match r {
                Some(i) => i == peer_index(peer_views(self.torrent.peers@), addr, 0) && i
                    < self.torrent.peers@.len() && self.torrent.peers@[i as int]@.addr == addr,
                None => peer_index(peer_views(self.torrent.peers@), addr, 0)
                    == self.torrent.peers@.len() && !self.torrent.has_peer(addr),
            },
    {
        let ghost views = peer_views(self.torrent.peers@);
        let mut i: usize = 0;
        while i < self.torrent.peers.len()
            invariant
                i <= self.torrent.peers@.len(),
                views == peer_views(self.torrent.peers@),
                peer_index(views, addr, 0) == peer_index(views, addr, i as int),
                forall|k: int| 0 <= k < i ==> self.torrent.peers@[k]@.addr != addr,
            decreases self.torrent.peers@.len() - i,
        {
            assert(views[i as int] == self.torrent.peers@[i as int]@);
            let a = self.torrent.peers[i].addr;
            if a.ip == addr.ip && a.port == addr.port {
                return Some(i);
            }
            i += 1;
        }
        None
    }

    /// Makes sure that there is a session with the peer. A new session sends
    /// its handshake at once.
    pub fn add_peer(&mut self, addr: PeerAddr, now: u64, out: &mut Vec<Message>)
        requires
            old(self).torrent.wf(),
        ensures
            final(self).torrent.wf(),
            added(old(self).torrent, final(self).torrent, old(out)@, final(out)@, addr, now),
    {
        if self.find_peer(addr).is_some() {
            assert(message_views(out@) + Seq::<MessageView>::empty() =~= message_views(out@));
            return;
        }
        let peer = Peer::new(addr, &self.torrent, now, out);
        assert(message_views(out@) =~= message_views(old(out)@) + greeting(
            old(self).torrent,
            addr,
        ));
        self.torrent.peers.push(peer);
        proof {
            let a = old(self).torrent;
            let b = self.torrent;
            assert(peer_views(b.peers@) =~= peer_views(a.peers@).push(peer@));
            assert(b.peers@[a.peers@.len() as int]@.addr == addr);
            assert forall|k: int| 0 <= k < b.peers@.len() implies b.fits(
                (#[trigger] b.peers@[k])@,
            ) by {
                if k < a.peers@.len() {
                    assert(a.fits(a.peers@[k]@));
                }
            }
            assert forall|k: int| 0 <= k < b.seeders@.len() implies b.has_peer(
                #[trigger] b.seeders@[k],
            ) by {
                assert(a.has_peer(a.seeders@[k]));
                let w = choose|w: int|
                    0 <= w < a.peers@.len() && (#[trigger] a.peers@[w])@.addr == a.seeders@[k];
                assert(b.peers@[w]@.addr == b.seeders@[k]);
            }
        }
    }
}


impl Client {
    /// Takes in bytes that the transport read from a peer. A session is
    /// opened first if there is none.
    pub fn on_data(&mut self, addr: PeerAddr, data: Vec<u8>, now: u64, out: &mut Vec<Message>)
        requires
            old(self).torrent.wf(),
        ensures
            final(self).torrent.wf(),
            routed(old(self).torrent, final(self).torrent, old(out)@, final(out)@, addr, data@, now),
    {
        self.add_peer(addr, now, out);
        let ghost mid = self.torrent;
        let ghost sessions = peer_views(mid.peers@);
        proof {
            lemma_peer_index(sessions, addr, 0);
            let a = old(self).torrent;
            if a.has_peer(addr) {
                let w = choose|w: int| 0 <= w < a.peers@.len() && (#[trigger] a.peers@[w])@.addr == addr;
                assert(peer_views(a.peers@)[w] == a.peers@[w]@);
                assert(sessions[w] == mid.peers@[w]@);
                assert(mid.has_peer(addr));
            } else {
                let w = a.peers@.len() as int;
                assert(sessions[w] == mid.peers@[w]@);
                assert(mid.has_peer(addr));
            }
        }
        match self.find_peer(addr) {
            Some(i) => {
                self.torrent.peers[i].read(data);
                proof {
                    let b = self.torrent;
                    assert(peer_views(b.peers@) =~= sessions.update(
                        i as int,
                        fed(sessions[i as int], data@),
                    ));
                    assert forall|k: int| 0 <= k < mid.peers@.len() implies (
                    #[trigger] b.peers@[k])@.addr == mid.peers@[k]@.addr && b.fits(
                        b.peers@[k]@,
                    ) by {
                        assert(mid.fits(mid.peers@[k]@));
                        assert(peer_views(b.peers@)[k] == b.peers@[k]@);
                        assert(sessions[k] == mid.peers@[k]@);
                    }
                    lemma_peers_kept(mid, b);
                }
            },
            None => {},
        }
    }

    /// The place of a peer among those that requests go to, if it is one.
    pub fn find_seeder(&self, addr: PeerAddr) -> (r: Option<usize>)
        ensures
            match r {
                Some(j) => j == addr_index(self.torrent.seeders@, addr, 0) && j
                    < self.torrent.seeders@.len(),
                None => addr_index(self.torrent.seeders@, addr, 0) == self.torrent.seeders@.len(),
            },
    {
        let mut j: usize = 0;
        while j < self.torrent.seeders.len()
            invariant
                j <= self.torrent.seeders@.len(),
                addr_index(self.torrent.seeders@, addr, 0) == addr_index(
                    self.torrent.seeders@,
                    addr,
                    j as int,
                ),
            decreases self.torrent.seeders@.len() - j,
        {
            let s = self.torrent.seeders[j];
            if s.ip == addr.ip && s.port == addr.port {
                return Some(j);
            }
            j += 1;
        }
        None
    }

    /// Forgets the session with a peer whose connection ended, and sends the
    /// peer no more requests.
    pub fn on_disconnect(&mut self, addr: PeerAddr)
        requires
            old(self).torrent.wf(),
        ensures
            final(self).torrent.wf(),
            dropped(old(self).torrent, final(self).torrent, addr),
    {
        let ghost a = self.torrent;
        let ghost views = peer_views(a.peers@);
        proof {
            lemma_peer_index(views, addr, 0);
            lemma_addr_index(a.seeders@, addr, 0);
        }
        match self.find_peer(addr) {
            Some(i) => {
                self.torrent.peers.remove(i);
                assert(peer_views(self.torrent.peers@) =~= views.remove(i as int));
            },
            None => {},
        }
        match self.find_seeder(addr) {
            Some(j) => {
                self.torrent.seeders.remove(j);
            },
            None => {},
        }
        proof {
            lemma_dropped_wf(a, self.torrent, addr);
        }
    }

    /// Takes in one report of the transport: a peer that it connected, bytes
    /// that it read, or a connection that ended.
    pub fn handle(&mut self, event: Message, now: u64, out: &mut Vec<Message>)
        requires
            old(self).torrent.wf(),
        ensures
            final(self).torrent.wf(),
            match event@ {
                MessageView::AddPeer(addr) => added(
                    old(self).torrent,
                    final(self).torrent,
                    old(out)@,
                    final(out)@,
                    addr,
                    now,
                ),
                MessageView::Data(addr, data) => routed(
                    old(self).torrent,
                    final(self).torrent,
                    old(out)@,
                    final(out)@,
                    addr,
                    data,
                    now,
                ),
                MessageView::Disconnect(addr) => dropped(
                    old(self).torrent,
                    final(self).torrent,
                    addr,
                ) && final(out)@ == old(out)@,
            },
    {
        match event {
            Message::AddPeer(addr) => self.add_peer(addr, now, out),
            Message::Data(addr, data) => self.on_data(addr, data, now, out),
            Message::Disconnect(addr) => self.on_disconnect(addr),
        }
    }
}

/// A torrent whose sessions changed in state only, not in address or shape,
/// keeps its invariant.
pub proof fn lemma_peers_kept(a: Torrent, b: Torrent)
    requires
        a.wf(),
        only_peers_differ(a, b),
        b.peers@.len() == a.peers@.len(),
        forall|k: int|
            0 <= k < a.peers@.len() ==> (#[trigger] b.peers@[k])@.addr == a.peers@[k]@.addr
                && b.fits(b.peers@[k]@),
    ensures
        b.wf(),
{
    assert forall|k: int| 0 <= k < b.seeders@.len() implies b.has_peer(#[trigger] b.seeders@[k]) by {
        assert(a.has_peer(a.seeders@[k]));
        let w = choose|w: int|
            0 <= w < a.peers@.len() && (#[trigger] a.peers@[w])@.addr == a.seeders@[k];
        assert(b.peers@[w]@.addr == b.seeders@[k]);
    }
    assert forall|k: int, j: int| 0 <= k < j < b.peers@.len() implies (#[trigger] b.peers@[k])@.addr
        != (#[trigger] b.peers@[j])@.addr by {
        assert(a.peers@[k]@.addr != a.peers@[j]@.addr);
    }
}

proof fn lemma_dropped_wf(a: Torrent, b: Torrent, addr: PeerAddr)
    requires
        a.wf(),
        dropped(a, b, addr),
    ensures
        b.wf(),
{
    let views = peer_views(a.peers@);
    let after = peer_views(b.peers@);
    let i = peer_index(views, addr, 0);
    let j = addr_index(a.seeders@, addr, 0);
    lemma_peer_index(views, addr, 0);
    lemma_addr_index(a.seeders@, addr, 0);
    assert(after.len() == b.peers@.len());
    assert(views.len() == a.peers@.len());
    // where a session of `b` stood in `a`
    let origin = |k: int|
        if k < i {
            k
        } else {
            k + 1
        };
    assert forall|k: int| 0 <= k < b.peers@.len() implies {
        &&& 0 <= origin(k) < a.peers@.len()
        &&& (#[trigger] b.peers@[k])@ == a.peers@[origin(k)]@
    } by {
        assert(b.peers@[k]@ == after[k]);
        assert(a.peers@[origin(k)]@ == views[origin(k)]);
    }
    assert forall|k: int| 0 <= k < b.peers@.len() implies b.fits((#[trigger] b.peers@[k])@) by {
        assert(a.fits(a.peers@[origin(k)]@));
    }
    assert forall|k: int, m: int| 0 <= k < m < b.peers@.len() implies (#[trigger] b.peers@[k])@.addr
        != (#[trigger] b.peers@[m])@.addr by {
        assert(a.peers@[origin(k)]@.addr != a.peers@[origin(m)]@.addr);
    }
    let source = |k: int|
        if k < j {
            k
        } else {
            k + 1
        };
    assert forall|k: int| 0 <= k < b.seeders@.len() implies {
        &&& 0 <= source(k) < a.seeders@.len()
        &&& #[trigger] b.seeders@[k] == a.seeders@[source(k)]
        &&& b.seeders@[k] != addr
    } by {
        if j < a.seeders@.len() && source(k) != j {
            if source(k) < j {
                assert(a.seeders@[source(k)] != a.seeders@[j]);
            } else {
                assert(a.seeders@[j] != a.seeders@[source(k)]);
            }
        }
    }
    assert forall|k: int, m: int| 0 <= k < m < b.seeders@.len() implies #[trigger] b.seeders@[k]
        != #[trigger] b.seeders@[m] by {
        assert(a.seeders@[source(k)] != a.seeders@[source(m)]);
    }
    assert forall|k: int| 0 <= k < b.seeders@.len() implies b.has_peer(#[trigger] b.seeders@[k]) by {
        let s = b.seeders@[k];
        assert(a.has_peer(a.seeders@[source(k)]));
        let w = choose|w: int| 0 <= w < a.peers@.len() && (#[trigger] a.peers@[w])@.addr == s;
        assert(views[w] == a.peers@[w]@);
        assert(w != i);
        let w2 = if w < i {
            w
        } else {
            w - 1
        };
        assert(origin(w2) == w);
        assert(b.peers@[w2]@ == a.peers@[w]@);
    }
}


/// What one turn of a session brings about at time `now`: its buffer is
/// handled; a peer silent for too long is then dropped; one that has
/// completed the handshake is told whether this client wants pieces, which
/// it does until the torrent is complete, and is sent a keep-alive when one
/// is due.
pub open spec fn turn(p: PeerView, complete: bool, now: u64) -> Effects {
    let e = process(p, now);
    let q = e.peer;
    if now - q.last_active > 30 {
        followed_by(e, refused(q))
    } else if !q.is_handshake_sent || !q.is_handshake_received {
        e
    } else {
        let interest = if complete == q.is_interested_sent {
            seq![
                MessageView::Data(
                    q.addr,
                    if complete {
                        not_interested_frame()
                    } else {
                        interested_frame()
                    },
                ),
            ]
        } else {
            Seq::empty()
        };
        let due = now - q.last_keepalive >= 30;
        Effects {
            peer: PeerView {
                is_interested_sent: !complete,
                last_keepalive: if due {
                    now
                } else {
                    q.last_keepalive
                },
                ..q
            },
            out: e.out + interest + (if due {
                seq![MessageView::Data(q.addr, keepalive_frame())]
            } else {
                Seq::empty()
            }),
            blocks: e.blocks,
        }
    }
}

/// True when a session, after its turn, may be sent requests: it is not
/// silent, has completed the handshake and does not choke, and the torrent
/// is not complete.
pub open spec fn admitted(q: PeerView, complete: bool, now: u64) -> bool {
    &&& now - q.last_active <= 30
    &&& q.is_handshake_sent
    &&& q.is_handshake_received
    &&& !complete
    &&& !q.is_choke_received
}

/// The peers that requests go to after the turn of one session: the session
/// joins at the end when it may, is not there yet and there is room.
pub open spec fn enlist(
    seeders: Seq<PeerAddr>,
    q: PeerView,
    complete: bool,
    now: u64,
    max: int,
) -> Seq<PeerAddr> {
    if admitted(q, complete, now) && seeders.len() < max && !seeders.contains(q.addr) {
        seeders.push(q.addr)
    } else {
        seeders
    }
}

/// The messages posted by the turns of the sessions `0 .. n`.
pub open spec fn turns_out(peers: Seq<PeerView>, n: int, complete: bool, now: u64) -> Seq<
    MessageView,
>
    decreases n,
{
    if n <= 0 || n > peers.len() {
        Seq::empty()
    } else {
        turns_out(peers, n - 1, complete, now) + turn(peers[n - 1], complete, now).out
    }
}

/// The blocks delivered by the turns of the sessions `0 .. n`.
pub open spec fn turns_blocks(peers: Seq<PeerView>, n: int, complete: bool, now: u64) -> Seq<
    BlockView,
>
    decreases n,
{
    if n <= 0 || n > peers.len() {
        Seq::empty()
    } else {
        turns_blocks(peers, n - 1, complete, now) + turn(peers[n - 1], complete, now).blocks
    }
}

/// The peers that requests go to after the turns of the sessions `0 .. n`.
pub open spec fn turns_seeders(
    seeders: Seq<PeerAddr>,
    peers: Seq<PeerView>,
    n: int,
    complete: bool,
    now: u64,
    max: int,
) -> Seq<PeerAddr>
    decreases n,
{
    if n <= 0 || n > peers.len() {
        seeders
    } else {
        enlist(
            turns_seeders(seeders, peers, n - 1, complete, now, max),
            turn(peers[n - 1], complete, now).peer,
            complete,
            now,
            max,
        )
    }
}

/// The sessions after each has had its turn.
pub open spec fn turns_peers(peers: Seq<PeerView>, complete: bool, now: u64) -> Seq<PeerView> {
    Seq::new(peers.len(), |i: int| turn(peers[i], complete, now).peer)
}

/// A turn keeps the shape of the session.
pub proof fn lemma_turn_shape(p: PeerView, complete: bool, now: u64)
    ensures
        same_shape(p, turn(p, complete, now).peer),
{
    lemma_process_shape(p, now);
}

impl Client {
    /// Gives every session its turn, in order, and admits to the peers that
    /// requests go to those that may be, while there is room.
    pub fn process_peers(&mut self, now: u64, out: &mut Vec<Message>, blocks: &mut Vec<Block>)
        requires
            old(self).torrent.wf(),
        ensures
            final(self).torrent.wf(),
            same_torrent(final(self).torrent, old(self).torrent),
            same_progress(final(self).torrent, old(self).torrent),
            peer_views(final(self).torrent.peers@) == turns_peers(
                peer_views(old(self).torrent.peers@),
                old(self).torrent.complete(),
                now,
            ),
            final(self).torrent.seeders@.len() <= final(self).torrent.max_seeders,
            final(self).torrent.seeders@ == turns_seeders(
                old(self).torrent.seeders@,
                peer_views(old(self).torrent.peers@),
                old(self).torrent.peers@.len() as int,
                old(self).torrent.complete(),
                now,
                old(self).torrent.max_seeders as int,
            ),
            message_views(final(out)@) == message_views(old(out)@) + turns_out(
                peer_views(old(self).torrent.peers@),
                old(self).torrent.peers@.len() as int,
                old(self).torrent.complete(),
                now,
            ),
            block_views(final(blocks)@) == block_views(old(blocks)@) + turns_blocks(
                peer_views(old(self).torrent.peers@),
                old(self).torrent.peers@.len() as int,
                old(self).torrent.complete(),
                now,
            ),
    {
        let is_complete = self.torrent.is_complete();
        let ghost a = self.torrent;
        let ghost views = peer_views(a.peers@);
        let ghost max = a.max_seeders as int;
        let n: usize = self.torrent.peers.len();
        let mut i: usize = 0;
        proof {
            assert(message_views(out@) + Seq::<MessageView>::empty() =~= message_views(out@));
            assert(block_views(blocks@) + Seq::<BlockView>::empty() =~= block_views(blocks@));
        }
        while i < n
            invariant
                i <= n,
                n == a.peers@.len(),
                a.wf(),
                views == peer_views(a.peers@),
                max == a.max_seeders,
                is_complete == a.complete(),
                same_torrent(self.torrent, a),
                same_progress(self.torrent, a),
                self.torrent.peers@.len() == n,
                forall|k: int|
                    0 <= k < i ==> (#[trigger] self.torrent.peers@[k])@ == turn(
                        views[k],
                        is_complete,
                        now,
                    ).peer,
                forall|k: int| i <= k < n ==> (#[trigger] self.torrent.peers@[k])@ == views[k],
                self.torrent.seeders@ == turns_seeders(
                    a.seeders@,
                    views,
                    i as int,
                    is_complete,
                    now,
                    max,
                ),
                self.torrent.seeders@.len() <= max,
                forall|k: int|
                    0 <= k < self.torrent.seeders@.len() ==> a.has_peer(
                        #[trigger] self.torrent.seeders@[k],
                    ),
                forall|k: int, m: int|
                    0 <= k < m < self.torrent.seeders@.len() ==> #[trigger] self.torrent.seeders@[k]
                        != #[trigger] self.torrent.seeders@[m],
                message_views(out@) == message_views(old(out)@) + turns_out(
                    views,
                    i as int,
                    is_complete,
                    now,
                ),
                block_views(blocks@) == block_views(old(blocks)@) + turns_blocks(
                    views,
                    i as int,
                    is_complete,
                    now,
                ),
            decreases n - i,
        {
            let ghost p = views[i as int];
            let ghost t = turn(p, is_complete, now);
            let ghost e = process(p, now);
            let ghost queued = message_views(out@);
            let ghost stored = block_views(blocks@);
            proof {
                assert(a.fits(a.peers@[i as int]@));
                assert(self.torrent.peers@[i as int]@ == p);
                lemma_process_shape(p, now);
            }
            self.torrent.peers[i].process_data(now, out, blocks);
            let ghost after_data = message_views(out@);
            let mut enlist_it = false;
            if self.torrent.peers[i].is_timed_out(now) {
                self.torrent.peers[i].disconnect(out);
                proof {
                    assert(message_views(out@) =~= queued + t.out);
                }
            } else if !self.torrent.peers[i].is_handshake_sent
                || !self.torrent.peers[i].is_handshake_received {
            } else {
                if is_complete {
                    self.torrent.peers[i].send_not_interested(out);
                } else {
                    self.torrent.peers[i].send_interested(out);
                }
                self.torrent.peers[i].send_keepalive(now, out);
                enlist_it = !is_complete && !self.torrent.peers[i].is_choke_received;
                proof {
                    assert(message_views(out@) =~= queued + t.out);
                }
            }
            proof {
                assert(self.torrent.peers@[i as int]@ == t.peer);
                assert(enlist_it == admitted(t.peer, is_complete, now));
                assert(block_views(blocks@) =~= stored + t.blocks);
                assert(message_views(out@) =~= message_views(old(out)@) + turns_out(
                    views,
                    i + 1,
                    is_complete,
                    now,
                ));
                assert(block_views(blocks@) =~= block_views(old(blocks)@) + turns_blocks(
                    views,
                    i + 1,
                    is_complete,
                    now,
                ));
            }
            let addr = self.torrent.peers[i].addr;
            if enlist_it && self.torrent.seeders.len() < self.torrent.max_seeders {
                proof {
                    lemma_addr_index(self.torrent.seeders@, addr, 0);
                }
                if self.find_seeder(addr).is_none() {
                    let ghost before = self.torrent.seeders@;
                    assert(!before.contains(addr));
                    self.torrent.seeders.push(addr);
                    proof {
                        assert(a.peers@[i as int]@.addr == addr);
                        assert(a.has_peer(addr));
                    }
                } else {
                    let ghost j = addr_index(self.torrent.seeders@, addr, 0);
                    assert(self.torrent.seeders@[j] == addr);
                    assert(self.torrent.seeders@.contains(addr));
                }
            }
            i += 1;
        }
        proof {
            let b = self.torrent;
            assert(peer_views(b.peers@) =~= turns_peers(views, is_complete, now));
            assert forall|k: int| 0 <= k < a.peers@.len() implies (#[trigger] b.peers@[k])@.addr
                == a.peers@[k]@.addr && b.fits(b.peers@[k]@) by {
                lemma_turn_shape(views[k], is_complete, now);
                assert(a.fits(a.peers@[k]@));
                assert(views[k] == a.peers@[k]@);
                crate::peer::lemma_shape_wf(views[k], b.peers@[k]@);
            }
            assert(b.peers_ok()) by {
                assert forall|k: int| 0 <= k < b.seeders@.len() implies b.has_peer(
                    #[trigger] b.seeders@[k],
                ) by {
                    assert(a.has_peer(b.seeders@[k]));
                    let w = choose|w: int|
                        0 <= w < a.peers@.len() && (#[trigger] a.peers@[w])@.addr == b.seeders@[k];
                    assert(b.peers@[w]@.addr == b.seeders@[k]);
                }
                assert forall|k: int, j: int| 0 <= k < j < b.peers@.len() implies (
                #[trigger] b.peers@[k])@.addr != (#[trigger] b.peers@[j])@.addr by {
                    assert(a.peers@[k]@.addr != a.peers@[j]@.addr);
                }
            }
        }
    }
}


/// The sessions and the requests sent to them in the course of scheduling.
pub ghost struct Plan {
    pub peers: Seq<PeerView>,
    pub out: Seq<MessageView>,
}

/// True when some session has requested the block and not yet received it.
pub open spec fn is_requested(peers: Seq<PeerView>, piece: int, block: int) -> bool {
    exists|i: int| 0 <= i < peers.len() && (#[trigger] peers[i]).is_block_requested[piece][block]
}

/// The session of the first peer, among those that requests go to from place
/// `from` on, that has the piece and no more than `max_requests` requests
/// outstanding; or the number of sessions when there is none.
pub open spec fn pick(
    peers: Seq<PeerView>,
    seeders: Seq<PeerAddr>,
    piece: int,
    max_requests: int,
    from: int,
) -> int
    decreases seeders.len() - from,
{
    if 0 <= from < seeders.len() {
        let i = peer_index(peers, seeders[from], 0);
        if i < peers.len() && peers[i].is_piece_downloaded[piece] && peers[i].requested()
            <= max_requests {
            i
        } else {
            pick(peers, seeders, piece, max_requests, from + 1)
        }
    } else {
        peers.len() as int
    }
}

/// The session after a request for the block was sent to its peer.
pub open spec fn asked(p: PeerView, piece: int, block: int) -> PeerView {
    PeerView {
        is_block_requested: p.is_block_requested.update(
            piece,
            p.is_block_requested[piece].update(block, true),
        ),
        ..p
    }
}

/// Scheduling one block: a block that is neither downloaded nor requested
/// is requested from the peer that `pick` finds, if it finds one.
pub open spec fn plan_block(t: Torrent, plan: Plan, piece: int, block: int) -> Plan {
    if t.is_block_downloaded@[piece]@[block] || is_requested(plan.peers, piece, block) {
        plan
    } else {
        let i = pick(plan.peers, t.seeders@, piece, t.max_requests as int, 0);
        if i < plan.peers.len() {
            Plan {
                peers: plan.peers.update(i, asked(plan.peers[i], piece, block)),
                out: plan.out.push(
                    MessageView::Data(
                        plan.peers[i].addr,
                        request_frame(
                            piece as u32,
                            (block * BLOCK_SIZE) as u32,
                            block_len(t.total(), t.piece_size as int, piece, block) as u32,
                        ),
                    ),
                ),
            }
        } else {
            plan
        }
    }
}

/// Scheduling the blocks `0 .. n` of a piece, in order.
pub open spec fn plan_blocks(t: Torrent, plan: Plan, piece: int, n: int) -> Plan
    decreases n,
{
    if n <= 0 {
        plan
    } else {
        plan_block(t, plan_blocks(t, plan, piece, n - 1), piece, n - 1)
    }
}

/// Scheduling the pieces `0 .. n`, in order: every block of each piece that
/// is not downloaded.
pub open spec fn plan_pieces(t: Torrent, plan: Plan, n: int) -> Plan
    decreases n,
{
    if n <= 0 {
        plan
    } else if t.is_piece_downloaded@[n - 1] {
        plan_pieces(t, plan, n - 1)
    } else {
        plan_blocks(
            t,
            plan_pieces(t, plan, n - 1),
            n - 1,
            block_count(t.total(), t.piece_size as int, n - 1),
        )
    }
}

/// Scheduling a torrent: nothing once it is complete, else every piece.
pub open spec fn schedule(t: Torrent) -> Plan {
    let start = Plan { peers: peer_views(t.peers@), out: Seq::empty() };
    if t.complete() {
        start
    } else {
        plan_pieces(t, start, t.no_of_pieces as int)
    }
}

/// True when no session has more requests outstanding than it had before,
/// or than one above the limit.
pub open spec fn requests_bounded(before: Seq<PeerView>, after: Seq<PeerView>, max: int) -> bool {
    &&& after.len() == before.len()
    &&& forall|k: int|
        0 <= k < before.len() ==> (#[trigger] after[k]).requested() <= before[k].requested()
            || after[k].requested() <= max + 1
}

/// True when the sessions have kept their shapes.
pub open spec fn shapes_kept(before: Seq<PeerView>, after: Seq<PeerView>) -> bool {
    &&& after.len() == before.len()
    &&& forall|k: int| 0 <= k < before.len() ==> same_shape(before[k], #[trigger] after[k])
}

proof fn lemma_count_true_set(flags: Seq<bool>, j: int)
    requires
        0 <= j < flags.len(),
    ensures
        count_true(flags.update(j, true)) <= count_true(flags) + 1,
    decreases flags.len(),
{
    let after = flags.update(j, true);
    if j < flags.len() - 1 {
        assert(after.drop_last() =~= flags.drop_last().update(j, true));
        lemma_count_true_set(flags.drop_last(), j);
    } else {
        assert(after.drop_last() =~= flags.drop_last());
    }
}

proof fn lemma_count_rows_set(table: Seq<Seq<bool>>, i: int, j: int, n: int)
    requires
        0 <= i < table.len(),
        0 <= j < table[i].len(),
        0 <= n <= table.len(),
    ensures
        count_rows(table.update(i, table[i].update(j, true)), n) <= count_rows(table, n) + 1,
        n <= i ==> count_rows(table.update(i, table[i].update(j, true)), n) == count_rows(table, n),
    decreases n,
{
    if n > 0 {
        lemma_count_rows_set(table, i, j, n - 1);
        if n - 1 == i {
            lemma_count_true_set(table[i], j);
        }
    }
}

/// A request adds at most one to what is outstanding at a peer.
pub proof fn lemma_asked(p: PeerView, piece: int, block: int)
    requires
        0 <= piece < p.is_block_requested.len(),
        0 <= block < p.is_block_requested[piece].len(),
    ensures
        asked(p, piece, block).requested() <= p.requested() + 1,
        same_shape(p, asked(p, piece, block)),
{
    lemma_count_rows_set(p.is_block_requested, piece, block, p.is_block_requested.len() as int);
}

/// What `pick` finds has the piece and room for a request.
pub proof fn lemma_pick(
    peers: Seq<PeerView>,
    seeders: Seq<PeerAddr>,
    piece: int,
    max_requests: int,
    from: int,
)
    requires
        0 <= from,
    ensures
        0 <= pick(peers, seeders, piece, max_requests, from) <= peers.len(),
        pick(peers, seeders, piece, max_requests, from) < peers.len() ==> ({
            let p = peers[pick(peers, seeders, piece, max_requests, from)];
            p.is_piece_downloaded[piece] && p.requested() <= max_requests
        }),
    decreases seeders.len() - from,
{
    if from < seeders.len() {
        lemma_peer_index(peers, seeders[from], 0);
        lemma_pick(peers, seeders, piece, max_requests, from + 1);
    }
}

proof fn lemma_requested_views(t: Torrent, piece: int, block: int)
    ensures
        t.block_requested(piece, block) == is_requested(peer_views(t.peers@), piece, block),
{
    let views = peer_views(t.peers@);
    if t.block_requested(piece, block) {
        let i = choose|i: int|
            0 <= i < t.peers@.len() && (#[trigger] t.peers@[i])@.is_block_requested[piece][block];
        assert(views[i].is_block_requested[piece][block]);
    }
    if is_requested(views, piece, block) {
        let i = choose|i: int|
            0 <= i < views.len() && (#[trigger] views[i]).is_block_requested[piece][block];
        assert(t.peers@[i]@.is_block_requested[piece][block]);
    }
}

impl Client {
    /// The session of the first peer that may be asked for a block of the
    /// piece, if there is one.
    pub fn pick_seeder(&self, piece: usize) -> (r: Option<usize>)
        requires
            self.torrent.wf(),
            piece < self.torrent.no_of_pieces,
        ensures
            match r {
                Some(i) => i < self.torrent.peers@.len() && i == pick(
                    peer_views(self.torrent.peers@),
                    self.torrent.seeders@,
                    piece as int,
                    self.torrent.max_requests as int,
                    0,
                ),
                None => pick(
                    peer_views(self.torrent.peers@),
                    self.torrent.seeders@,
                    piece as int,
                    self.torrent.max_requests as int,
                    0,
                ) == self.torrent.peers@.len(),
            },
    {
        let ghost views = peer_views(self.torrent.peers@);
        let mut s: usize = 0;
        while s < self.torrent.seeders.len()
            invariant
                s <= self.torrent.seeders@.len(),
                self.torrent.wf(),
                piece < self.torrent.no_of_pieces,
                views == peer_views(self.torrent.peers@),
                pick(views, self.torrent.seeders@, piece as int, self.torrent.max_requests as int, 0)
                    == pick(
                    views,
                    self.torrent.seeders@,
                    piece as int,
                    self.torrent.max_requests as int,
                    s as int,
                ),
            decreases self.torrent.seeders@.len() - s,
        {
            let addr = self.torrent.seeders[s];
            match self.find_peer(addr) {
                Some(i) => {
                    assert(self.torrent.fits(self.torrent.peers@[i as int]@));
                    assert(views[i as int] == self.torrent.peers@[i as int]@);
                    let peer = &self.torrent.peers[i];
                    if peer.is_piece_downloaded[piece] && peer.no_of_blocks_requested()
                        <= self.torrent.max_requests {
                        return Some(i);
                    }
                },
                None => {},
            }
            s += 1;
        }
        None
    }

    /// Schedules one block.
    pub fn request_block(&mut self, piece: usize, block: usize, out: &mut Vec<Message>)
        requires
            old(self).torrent.wf(),
            piece < old(self).torrent.no_of_pieces,
            block < block_count(
                old(self).torrent.total(),
                old(self).torrent.piece_size as int,
                piece as int,
            ),
        ensures
            final(self).torrent.wf(),
            only_peers_differ(old(self).torrent, final(self).torrent),
            ({
                let before = Plan { peers: peer_views(old(self).torrent.peers@), out: Seq::empty() };
                let after = plan_block(old(self).torrent, before, piece as int, block as int);
                &&& peer_views(final(self).torrent.peers@) == after.peers
                &&& message_views(final(out)@) == message_views(old(out)@) + after.out
            }),
            shapes_kept(
                peer_views(old(self).torrent.peers@),
                peer_views(final(self).torrent.peers@),
            ),
            requests_bounded(
                peer_views(old(self).torrent.peers@),
                peer_views(final(self).torrent.peers@),
                old(self).torrent.max_requests as int,
            ),
    {
        let ghost a = self.torrent;
        let ghost views = peer_views(a.peers@);
        proof {
            lemma_requested_views(a, piece as int, block as int);
            assert(message_views(out@) + Seq::<MessageView>::empty() =~= message_views(out@));
            assert(a.is_block_downloaded@[piece as int]@.len() == block_count(
                a.total(),
                a.piece_size as int,
                piece as int,
            ));
        }
        if self.torrent.is_block_downloaded[piece][block] {
            return;
        }
        if self.torrent.is_block_requested(piece, block) {
            return;
        }
        let size = self.torrent.get_block_size(piece, block);
        match self.pick_seeder(piece) {
            None => {},
            Some(i) => {
                proof {
                    lemma_block_range(a.total(), a.piece_size as int, piece as int, block as int);
                    assert(a.fits(a.peers@[i as int]@));
                    assert(views[i as int] == a.peers@[i as int]@);
                    lemma_asked(views[i as int], piece as int, block as int);
                    lemma_pick(views, a.seeders@, piece as int, a.max_requests as int, 0);
                }
                self.torrent.peers[i].send_request(piece, block * BLOCK_SIZE, size, out);
                proof {
                    let b = self.torrent;
                    let after = plan_block(
                        a,
                        Plan { peers: views, out: Seq::empty() },
                        piece as int,
                        block as int,
                    );
                    assert((block * BLOCK_SIZE) / (BLOCK_SIZE as int) == block);
                    assert(peer_views(b.peers@) =~= after.peers);
                    assert(message_views(out@) =~= message_views(old(out)@) + after.out);
                    assert forall|k: int| 0 <= k < a.peers@.len() implies (
                    #[trigger] b.peers@[k])@.addr == a.peers@[k]@.addr && b.fits(
                        b.peers@[k]@,
                    ) by {
                        assert(a.fits(a.peers@[k]@));
                        assert(peer_views(b.peers@)[k] == b.peers@[k]@);
                        assert(views[k] == a.peers@[k]@);
                    }
                    lemma_peers_kept(a, b);
                }
            },
        }
    }
}


/// Scheduling a block does not depend on what was sent before, nor on the
/// sessions that the torrent itself holds.
pub proof fn lemma_plan_block_frame(a: Torrent, t: Torrent, plan: Plan, piece: int, block: int)
    requires
        only_peers_differ(a, t),
    ensures
        plan_block(a, plan, piece, block).peers == plan_block(
            t,
            Plan { peers: plan.peers, out: Seq::empty() },
            piece,
            block,
        ).peers,
        plan_block(a, plan, piece, block).out == plan.out + plan_block(
            t,
            Plan { peers: plan.peers, out: Seq::empty() },
            piece,
            block,
        ).out,
{
    let fresh = plan_block(t, Plan { peers: plan.peers, out: Seq::empty() }, piece, block);
    assert(plan_block(a, plan, piece, block).out =~= plan.out + fresh.out);
}

proof fn lemma_bounds_chain(
    before: Seq<PeerView>,
    mid: Seq<PeerView>,
    after: Seq<PeerView>,
    max: int,
)
    requires
        requests_bounded(before, mid, max),
        requests_bounded(mid, after, max),
        shapes_kept(before, mid),
        shapes_kept(mid, after),
    ensures
        requests_bounded(before, after, max),
        shapes_kept(before, after),
{
    assert forall|k: int| 0 <= k < before.len() implies (#[trigger] after[k]).requested()
        <= before[k].requested() || after[k].requested() <= max + 1 by {
        assert(mid[k].requested() <= before[k].requested() || mid[k].requested() <= max + 1);
    }
    assert forall|k: int| 0 <= k < before.len() implies same_shape(
        before[k],
        #[trigger] after[k],
    ) by {
        assert(same_shape(before[k], mid[k]));
        assert(same_shape(mid[k], after[k]));
    }
}

impl Client {
    /// Schedules every block of a piece, in order.
    pub fn request_blocks(&mut self, piece: usize, out: &mut Vec<Message>)
        requires
            old(self).torrent.wf(),
            piece < old(self).torrent.no_of_pieces,
        ensures
            final(self).torrent.wf(),
            only_peers_differ(old(self).torrent, final(self).torrent),
            ({
                let before = Plan { peers: peer_views(old(self).torrent.peers@), out: Seq::empty() };
                let after = plan_blocks(
                    old(self).torrent,
                    before,
                    piece as int,
                    block_count(
                        old(self).torrent.total(),
                        old(self).torrent.piece_size as int,
                        piece as int,
                    ),
                );
                &&& peer_views(final(self).torrent.peers@) == after.peers
                &&& message_views(final(out)@) == message_views(old(out)@) + after.out
            }),
            shapes_kept(
                peer_views(old(self).torrent.peers@),
                peer_views(final(self).torrent.peers@),
            ),
            requests_bounded(
                peer_views(old(self).torrent.peers@),
                peer_views(final(self).torrent.peers@),
                old(self).torrent.max_requests as int,
            ),
    {
        let ghost a = self.torrent;
        let ghost views = peer_views(a.peers@);
        let ghost start = Plan { peers: views, out: Seq::empty() };
        let count = self.torrent.get_block_count(piece);
        let mut block: usize = 0;
        proof {
            assert(message_views(out@) + Seq::<MessageView>::empty() =~= message_views(out@));
        }
        while block < count
            invariant
                block <= count,
                a.wf(),
                piece < a.no_of_pieces,
                count == block_count(a.total(), a.piece_size as int, piece as int),
                views == peer_views(a.peers@),
                start == (Plan { peers: views, out: Seq::empty() }),
                self.torrent.wf(),
                only_peers_differ(a, self.torrent),
                peer_views(self.torrent.peers@) == plan_blocks(
                    a,
                    start,
                    piece as int,
                    block as int,
                ).peers,
                message_views(out@) == message_views(old(out)@) + plan_blocks(
                    a,
                    start,
                    piece as int,
                    block as int,
                ).out,
                shapes_kept(views, peer_views(self.torrent.peers@)),
                requests_bounded(views, peer_views(self.torrent.peers@), a.max_requests as int),
            decreases count - block,
        {
            let ghost cur = plan_blocks(a, start, piece as int, block as int);
            let ghost t = self.torrent;
            let ghost queued = message_views(out@);
            self.request_block(piece, block, out);
            proof {
                lemma_plan_block_frame(a, t, cur, piece as int, block as int);
                let next = plan_block(a, cur, piece as int, block as int);
                assert(message_views(out@) =~= message_views(old(out)@) + next.out);
                lemma_bounds_chain(
                    views,
                    peer_views(t.peers@),
                    peer_views(self.torrent.peers@),
                    a.max_requests as int,
                );
            }
            block += 1;
        }
    }

    /// Spreads block requests over the peers that accept them: every block
    /// that is neither downloaded nor requested, piece by piece and in order,
    /// goes to the first such peer that has the piece and no more requests
    /// outstanding than the limit. Nothing is sent once the torrent is
    /// complete.
    pub fn process_downloads(&mut self, out: &mut Vec<Message>)
        requires
            old(self).torrent.wf(),
        ensures
            final(self).torrent.wf(),
            only_peers_differ(old(self).torrent, final(self).torrent),
            peer_views(final(self).torrent.peers@) == schedule(old(self).torrent).peers,
            message_views(final(out)@) == message_views(old(out)@) + schedule(
                old(self).torrent,
            ).out,
            shapes_kept(
                peer_views(old(self).torrent.peers@),
                peer_views(final(self).torrent.peers@),
            ),
            requests_bounded(
                peer_views(old(self).torrent.peers@),
                peer_views(final(self).torrent.peers@),
                old(self).torrent.max_requests as int,
            ),
    {
        let ghost a = self.torrent;
        let ghost views = peer_views(a.peers@);
        let ghost start = Plan { peers: views, out: Seq::empty() };
        proof {
            assert(message_views(out@) + Seq::<MessageView>::empty() =~= message_views(out@));
            assert forall|k: int| 0 <= k < views.len() implies same_shape(
                views[k],
                #[trigger] views[k],
            ) by {}
        }
        if self.torrent.is_complete() {
            return;
        }
        let n: usize = self.torrent.no_of_pieces;
        let mut piece: usize = 0;
        while piece < n
            invariant
                piece <= n,
                n == a.no_of_pieces,
                a.wf(),
                views == peer_views(a.peers@),
                start == (Plan { peers: views, out: Seq::empty() }),
                self.torrent.wf(),
                only_peers_differ(a, self.torrent),
                peer_views(self.torrent.peers@) == plan_pieces(a, start, piece as int).peers,
                message_views(out@) == message_views(old(out)@) + plan_pieces(
                    a,
                    start,
                    piece as int,
                ).out,
                shapes_kept(views, peer_views(self.torrent.peers@)),
                requests_bounded(views, peer_views(self.torrent.peers@), a.max_requests as int),
            decreases n - piece,
        {
            if !self.torrent.is_piece_downloaded[piece] {
                let ghost cur = plan_pieces(a, start, piece as int);
                let ghost t = self.torrent;
                let ghost count = block_count(a.total(), a.piece_size as int, piece as int);
                self.request_blocks(piece, out);
                proof {
                    lemma_plan_blocks_frame(a, t, cur, piece as int, count);
                    let next = plan_blocks(a, cur, piece as int, count);
                    assert(message_views(out@) =~= message_views(old(out)@) + next.out);
                    lemma_bounds_chain(
                        views,
                        peer_views(t.peers@),
                        peer_views(self.torrent.peers@),
                        a.max_requests as int,
                    );
                }
            }
            piece += 1;
        }
    }
}

/// Scheduling the blocks of a piece does not depend on what was sent
/// before, nor on the sessions that the torrent itself holds.
pub proof fn lemma_plan_blocks_frame(a: Torrent, t: Torrent, plan: Plan, piece: int, n: int)
    requires
        only_peers_differ(a, t),
    ensures
        plan_blocks(a, plan, piece, n).peers == plan_blocks(
            t,
            Plan { peers: plan.peers, out: Seq::empty() },
            piece,
            n,
        ).peers,
        plan_blocks(a, plan, piece, n).out == plan.out + plan_blocks(
            t,
            Plan { peers: plan.peers, out: Seq::empty() },
            piece,
            n,
        ).out,
    decreases n,
{
    let fresh = Plan { peers: plan.peers, out: Seq::<MessageView>::empty() };
    if n <= 0 {
        assert(plan.out + fresh.out =~= plan.out);
    } else {
        lemma_plan_blocks_frame(a, t, plan, piece, n - 1);
        let left = plan_blocks(a, plan, piece, n - 1);
        let right = plan_blocks(t, fresh, piece, n - 1);
        lemma_plan_block_frame(a, t, left, piece, n - 1);
        lemma_plan_block_frame(t, t, right, piece, n - 1);
        let step = plan_block(
            t,
            Plan { peers: left.peers, out: Seq::empty() },
            piece,
            n - 1,
        );
        assert(plan.out + (right.out + step.out) =~= (plan.out + right.out) + step.out);
    }
}

} // verus!
