//! The state of a download: the immutable geometry read from the metainfo,
//! what has been downloaded, the sessions and the peers that requests go to.

use vstd::prelude::*;
use crate::geometry::{
    block_count, block_len, block_start, lemma_block_range, lemma_chunk_count_by_rest,
    lemma_chunk_range, lemma_chunks, piece_count, piece_len,
};
use crate::peer::{have_frame, message_views, Message, MessageView, Peer, PeerAddr, PeerView};
use crate::tracker::Tracker;
use crate::bencoding::{decode_spec, BEncoding};
use crate::error::Error;
use crate::metainfo::{
    bytes_at, dict_at, fails_with, file_items, file_views, hash_views, int_at, load_spec,
    piece_hashes, text_at, text_views, tracker_urls, MetainfoView,
};
use crate::utils::{all_flags, make_flags, sha1, sha1_digest, BLOCK_SIZE};

verus! {

/// How many peers requests go to unless the torrent says otherwise.
pub const MAX_SEEDERS: usize = 7;

/// How many requests may be outstanding at a peer before it is sent no more,
/// unless the torrent says otherwise.
pub const MAX_REQUESTS: usize = 5;

/// One file of the content. `offset` is where the file starts in the stream
/// that lays all files end to end in the order of the metainfo.
pub struct FileItem {
    pub length: usize,
    pub offset: usize,
    pub path: String,
}

/// A part of a block or a piece that lies in one file: `length` bytes at
/// `file_offset` in file number `file`, which stand at `data_offset` in the
/// block or piece.
#[derive(Clone, Copy, Debug, PartialEq, Eq, Structural)]
pub struct FileSlice {
    pub file: usize,
    pub file_offset: usize,
    pub data_offset: usize,
    pub length: usize,
}

/// The state of a download.
pub struct Torrent {
    pub name: String,
    pub info_hash: crate::utils::Hash,
    pub tracker: Tracker,
    pub piece_size: usize,
    pub pieces_hashes: Vec<crate::utils::Hash>,
    pub files: Vec<FileItem>,
    pub no_of_pieces: usize,
    pub is_piece_downloaded: Vec<bool>,
    pub is_block_downloaded: Vec<Vec<bool>>,
    /// The sessions, at most one for an address.
    pub peers: Vec<Peer>,
    /// The peers that requests go to, in the order in which they were admitted.
    pub seeders: Vec<PeerAddr>,
    /// How many peers requests may go to.
    pub max_seeders: usize,
    /// A peer with more than this many requests outstanding is sent no more.
    pub max_requests: usize,
}

/// Sum of the lengths of the files `0 .. n`.
pub open spec fn files_total(files: Seq<FileItem>, n: int) -> int
    decreases n,
{
    if n <= 0 || n > files.len() {
        0
    } else {
        files_total(files, n - 1) + files[n - 1].length
    }
}

/// The part of the range `start .. start + len` of the stream that lies in
/// the file, if any.
pub open spec fn slice_in(file: FileItem, index: int, start: int, len: int) -> Option<FileSlice> {
    let low = if start > file.offset {
        start
    } else {
        file.offset as int
    };
    let high = if start + len < file.offset + file.length {
        start + len
    } else {
        file.offset + file.length
    };
    if low < high {
        Some(
            FileSlice {
                file: index as usize,
                file_offset: (low - file.offset) as usize,
                data_offset: (low - start) as usize,
                length: (high - low) as usize,
            },
        )
    } else {
        None
    }
}

/// The parts of the range `start .. start + len` of the stream that lie in
/// the files `0 .. n`, in the order of the files.
pub open spec fn slices_spec(files: Seq<FileItem>, n: int, start: int, len: int) -> Seq<FileSlice>
    decreases n,
{
    if n <= 0 || n > files.len() {
        Seq::empty()
    } else {
        match slice_in(files[n - 1], n - 1, start, len) {
            Some(s) => slices_spec(files, n - 1, start, len).push(s),
            None => slices_spec(files, n - 1, start, len),
        }
    }
}

/// Sum of the lengths of the slices.
pub open spec fn slices_total(slices: Seq<FileSlice>) -> int
    decreases slices.len(),
{
    if slices.len() == 0 {
        0
    } else {
        slices_total(slices.drop_last()) + slices.last().length
    }
}

impl Torrent {
    /// Length of the content: the sum of the lengths of the files.
    pub open spec fn total(&self) -> int {
        files_total(self.files@, self.files@.len() as int)
    }

    /// The invariant of the geometry: a positive piece size, files laid end
    /// to end, one hash per piece, and sizes that fit the wire.
    pub open spec fn geometry_ok(&self) -> bool {
        &&& 0 < self.piece_size <= u32::MAX
        &&& self.no_of_pieces <= u32::MAX
        &&& self.pieces_hashes@.len() == self.no_of_pieces
        &&& forall|i: int|
            0 <= i < self.files@.len() ==> (#[trigger] self.files@[i]).offset == files_total(
                self.files@,
                i,
            )
        &&& self.total() <= usize::MAX
        &&& self.no_of_pieces == piece_count(self.total(), self.piece_size as int)
    }

    /// The invariant of what is downloaded: a flag per piece and per block,
    /// and every block of a downloaded piece is downloaded.
    pub open spec fn progress_ok(&self) -> bool {
        &&& self.is_piece_downloaded@.len() == self.no_of_pieces
        &&& self.is_block_downloaded@.len() == self.no_of_pieces
        &&& forall|p: int|
            0 <= p < self.no_of_pieces ==> (#[trigger] self.is_block_downloaded@[p])@.len()
                == block_count(self.total(), self.piece_size as int, p)
        &&& forall|p: int, b: int|
            0 <= p < self.no_of_pieces && self.is_piece_downloaded@[p] && 0 <= b
                < self.is_block_downloaded@[p]@.len() ==> #[trigger] self.is_block_downloaded@[p]@[b]
    }

    /// True when the session's tables have the torrent's geometry.
    pub open spec fn fits(&self, peer: PeerView) -> bool {
        &&& peer.wf()
        &&& peer.bitfield.len() == self.no_of_pieces
        &&& forall|p: int|
            0 <= p < self.no_of_pieces ==> (#[trigger] peer.is_block_requested[p]).len()
                == block_count(self.total(), self.piece_size as int, p)
    }

    /// True when some session has the address.
    pub open spec fn has_peer(&self, addr: PeerAddr) -> bool {
        exists|i: int| 0 <= i < self.peers@.len() && (#[trigger] self.peers@[i])@.addr == addr
    }

    /// The invariant of the sessions: each fits the torrent, no two share an
    /// address, and the peers that requests go to are sessions, each listed
    /// once, and no more than allowed.
    pub open spec fn peers_ok(&self) -> bool {
        &&& forall|i: int| 0 <= i < self.peers@.len() ==> self.fits((#[trigger] self.peers@[i])@)
        &&& forall|i: int, j: int|
            0 <= i < j < self.peers@.len() ==> (#[trigger] self.peers@[i])@.addr != (
            #[trigger] self.peers@[j])@.addr
        &&& self.seeders@.len() <= self.max_seeders
        &&& forall|i: int| 0 <= i < self.seeders@.len() ==> self.has_peer(#[trigger] self.seeders@[i])
        &&& forall|i: int, j: int|
            0 <= i < j < self.seeders@.len() ==> #[trigger] self.seeders@[i] != #[trigger] self.seeders@[j]
    }

    /// The invariant of a download.
    pub open spec fn wf(&self) -> bool {
        self.geometry_ok() && self.progress_ok() && self.peers_ok()
    }

    /// True when every piece is downloaded.
    pub open spec fn complete(&self) -> bool {
        forall|p: int| 0 <= p < self.is_piece_downloaded@.len() ==> self.is_piece_downloaded@[p]
    }

    /// True when some session has requested the block and not yet received it.
    pub open spec fn block_requested(&self, piece: int, block: int) -> bool {
        exists|i: int|
            0 <= i < self.peers@.len() && (#[trigger] self.peers@[i])@.is_block_requested[piece][block]
    }

    /// Where the bytes of a block lie, file by file.
    pub open spec fn block_slices(&self, piece: int, block: int) -> Seq<FileSlice> {
        slices_spec(
            self.files@,
            self.files@.len() as int,
            block_start(self.piece_size as int, piece, block),
            block_len(self.total(), self.piece_size as int, piece, block),
        )
    }

    /// True when the torrent has the block and `len` is its length.
    pub open spec fn is_block(&self, piece: int, block: int, len: int) -> bool {
        &&& 0 <= piece < self.no_of_pieces
        &&& 0 <= block < block_count(self.total(), self.piece_size as int, piece)
        &&& len == block_len(self.total(), self.piece_size as int, piece, block)
    }
}

proof fn lemma_files_total_nonneg(files: Seq<FileItem>, n: int)
    ensures
        0 <= files_total(files, n),
    decreases n,
{
    if 0 < n <= files.len() {
        lemma_files_total_nonneg(files, n - 1);
    }
}

proof fn lemma_files_total_grows(files: Seq<FileItem>, n: int, m: int)
    requires
        0 <= n <= m <= files.len(),
    ensures
        0 <= files_total(files, n) <= files_total(files, m),
    decreases m - n,
{
    lemma_files_total_nonneg(files, n);
    if n < m {
        lemma_files_total_grows(files, n, m - 1);
    }
}

impl Torrent {
    /// Length of the content.
    pub fn get_total_size(&self) -> (size: usize)
        requires
            self.geometry_ok(),
        ensures
            size == self.total(),
    {
        let mut size: usize = 0;
        let mut i: usize = 0;
        while i < self.files.len()
            invariant
                i <= self.files@.len(),
                size == files_total(self.files@, i as int),
                self.total() <= usize::MAX,
            decreases self.files@.len() - i,
        {
            proof {
                lemma_files_total_grows(self.files@, i + 1, self.files@.len() as int);
            }
            size += self.files[i].length;
            i += 1;
        }
        size
    }

    /// Length of a piece: what is left for the last one, else the piece size.
    pub fn get_piece_size(&self, piece: usize) -> (size: usize)
        requires
            self.geometry_ok(),
            piece < self.no_of_pieces,
        ensures
            size == piece_len(self.total(), self.piece_size as int, piece as int),
            0 < size <= self.piece_size,
    {
        proof {
            lemma_chunks(self.total(), self.piece_size as int);
            lemma_files_total_grows(self.files@, 0, self.files@.len() as int);
        }
        if piece == self.no_of_pieces - 1 {
            let size = self.get_total_size() % self.piece_size;
            if size != 0 {
                return size;
            }
        }
        self.piece_size
    }

    /// Number of blocks of a piece.
    pub fn get_block_count(&self, piece: usize) -> (count: usize)
        requires
            self.geometry_ok(),
            piece < self.no_of_pieces,
        ensures
            count == block_count(self.total(), self.piece_size as int, piece as int),
            0 < count,
    {
        let size = self.get_piece_size(piece);
        proof {
            lemma_chunk_count_by_rest(size as int, BLOCK_SIZE as int);
            lemma_chunks(size as int, BLOCK_SIZE as int);
        }
        size / BLOCK_SIZE + (if size % BLOCK_SIZE == 0 {
            0
        } else {
            1
        })
    }

    /// Length of a block: what is left for the last one of its piece, else
    /// the block size.
    pub fn get_block_size(&self, piece: usize, block: usize) -> (size: usize)
        requires
            self.geometry_ok(),
            piece < self.no_of_pieces,
            block < block_count(self.total(), self.piece_size as int, piece as int),
        ensures
            size == block_len(self.total(), self.piece_size as int, piece as int, block as int),
            0 < size <= BLOCK_SIZE,
    {
        if block == self.get_block_count(piece) - 1 {
            let size = self.get_piece_size(piece) % BLOCK_SIZE;
            if size != 0 {
                return size;
            }
        }
        BLOCK_SIZE
    }

    /// True when every piece is downloaded.
    pub fn is_complete(&self) -> (done: bool)
        ensures
            done == self.complete(),
    {
        let mut p: usize = 0;
        while p < self.is_piece_downloaded.len()
            invariant
                p <= self.is_piece_downloaded@.len(),
                forall|k: int| 0 <= k < p ==> self.is_piece_downloaded@[k],
            decreases self.is_piece_downloaded@.len() - p,
        {
            if !self.is_piece_downloaded[p] {
                return false;
            }
            p += 1;
        }
        true
    }

    /// True when some session has requested the block and not yet received it.
    pub fn is_block_requested(&self, piece: usize, block: usize) -> (requested: bool)
        requires
            self.wf(),
            piece < self.no_of_pieces,
            block < block_count(self.total(), self.piece_size as int, piece as int),
        ensures
            requested == self.block_requested(piece as int, block as int),
    {
        let mut i: usize = 0;
        while i < self.peers.len()
            invariant
                i <= self.peers@.len(),
                self.wf(),
                piece < self.no_of_pieces,
                block < block_count(self.total(), self.piece_size as int, piece as int),
                forall|k: int|
                    0 <= k < i ==> !(
                    #[trigger] self.peers@[k])@.is_block_requested[piece as int][block as int],
            decreases self.peers@.len() - i,
        {
            assert(self.fits(self.peers@[i as int]@));
            assert(self.peers@[i as int]@.is_block_requested[piece as int]
                == self.peers@[i as int].is_block_requested@[piece as int]@);
            if self.peers[i].is_block_requested[piece][block] {
                return true;
            }
            i += 1;
        }
        false
    }

    /// The parts of the range `start .. start + len` of the content, file by
    /// file: where to write a block, or where to read a piece from.
    pub fn write(&self, start: usize, len: usize) -> (plan: Vec<FileSlice>)
        requires
            self.geometry_ok(),
            start + len <= self.total(),
        ensures
            plan@ == slices_spec(self.files@, self.files@.len() as int, start as int, len as int),
    {
        let end: usize = start + len;
        let mut plan: Vec<FileSlice> = Vec::new();
        let mut i: usize = 0;
        while i < self.files.len()
            invariant
                i <= self.files@.len(),
                self.geometry_ok(),
                end == start + len,
                plan@ == slices_spec(self.files@, i as int, start as int, len as int),
            decreases self.files@.len() - i,
        {
            proof {
                lemma_files_total_grows(self.files@, i + 1, self.files@.len() as int);
            }
            let offset: usize = self.files[i].offset;
            let file_end: usize = offset + self.files[i].length;
            let low: usize = if start > offset {
                start
            } else {
                offset
            };
            let high: usize = if end < file_end {
                end
            } else {
                file_end
            };
            if low < high {
                plan.push(
                    FileSlice {
                        file: i,
                        file_offset: low - offset,
                        data_offset: low - start,
                        length: high - low,
                    },
                );
            }
            i += 1;
        }
        plan
    }

    /// Where the bytes of a block go, when the block is one of the torrent's
    /// and `len` is its length.
    pub fn block_plan(&self, piece: usize, block: usize, len: usize) -> (plan: Option<Vec<FileSlice>>)
        requires
            self.geometry_ok(),
        ensures
            plan is Some <==> self.is_block(piece as int, block as int, len as int),
            plan matches Some(p) ==> p@ == self.block_slices(piece as int, block as int),
    {
        if piece >= self.no_of_pieces {
            return None;
        }
        if block >= self.get_block_count(piece) {
            return None;
        }
        if len != self.get_block_size(piece, block) {
            return None;
        }
        proof {
            lemma_block_range(self.total(), self.piece_size as int, piece as int, block as int);
        }
        let start: usize = piece * self.piece_size + block * BLOCK_SIZE;
        Some(self.write(start, len))
    }

    /// Where the bytes of a piece are read from.
    pub fn read_piece(&self, piece: usize) -> (plan: Vec<FileSlice>)
        requires
            self.geometry_ok(),
            piece < self.no_of_pieces,
        ensures
            plan@ == slices_spec(
                self.files@,
                self.files@.len() as int,
                piece * self.piece_size,
                piece_len(self.total(), self.piece_size as int, piece as int),
            ),
    {
        proof {
            lemma_chunk_range(self.total(), self.piece_size as int, piece as int);
        }
        let size = self.get_piece_size(piece);
        self.write(piece * self.piece_size, size)
    }
}


/// `x` held to the range `0 ..= len`.
pub open spec fn held(x: int, len: int) -> int {
    if x < 0 {
        0
    } else if x > len {
        len
    } else {
        x
    }
}

/// True when the files lie end to end from offset 0.
pub open spec fn end_to_end(files: Seq<FileItem>) -> bool {
    forall|i: int| 0 <= i < files.len() ==> (#[trigger] files[i]).offset == files_total(files, i)
}

/// The slices of a range in the files `0 .. n` hold what of the range lies
/// before the end of file `n - 1`.
pub proof fn lemma_slices_total(files: Seq<FileItem>, n: int, start: int, len: int)
    requires
        end_to_end(files),
        files_total(files, files.len() as int) <= usize::MAX,
        0 <= n <= files.len(),
        0 <= start,
        0 <= len,
    ensures
        slices_total(slices_spec(files, n, start, len)) == held(files_total(files, n) - start, len),
    decreases n,
{
    lemma_files_total_grows(files, n, files.len() as int);
    if n > 0 {
        lemma_slices_total(files, n - 1, start, len);
        lemma_files_total_grows(files, n - 1, n);
        let before = slices_spec(files, n - 1, start, len);
        match slice_in(files[n - 1], n - 1, start, len) {
            Some(s) => {
                assert(before.push(s).drop_last() =~= before);
            },
            None => {},
        }
    }
}

/// The slices of a range that lies in the content hold the whole range.
pub proof fn lemma_slices_cover(files: Seq<FileItem>, start: int, len: int)
    requires
        end_to_end(files),
        files_total(files, files.len() as int) <= usize::MAX,
        0 <= start,
        0 <= len,
        start + len <= files_total(files, files.len() as int),
    ensures
        slices_total(slices_spec(files, files.len() as int, start, len)) == len,
{
    lemma_slices_total(files, files.len() as int, start, len);
}

/// Every slice of a range lies in its file and in the range, at the same
/// place of the content in both, and slices come in the order of the files.
pub proof fn lemma_slices_fit(files: Seq<FileItem>, n: int, start: int, len: int, k: int)
    requires
        end_to_end(files),
        files_total(files, files.len() as int) <= usize::MAX,
        0 <= n <= files.len() <= usize::MAX,
        0 <= start,
        0 <= len,
        start + len <= usize::MAX,
        0 <= k < slices_spec(files, n, start, len).len(),
    ensures
        ({
            let s = slices_spec(files, n, start, len)[k];
            &&& s.file < n
            &&& 0 < s.length
            &&& s.file_offset + s.length <= files[s.file as int].length
            &&& s.data_offset + s.length <= len
            &&& files[s.file as int].offset + s.file_offset == start + s.data_offset
        }),
    decreases n,
{
    lemma_files_total_grows(files, n, files.len() as int);
    if n > 0 {
        lemma_files_total_grows(files, n - 1, n);
        let before = slices_spec(files, n - 1, start, len);
        let file = files[n - 1];
        assert(file.offset == files_total(files, n - 1));
        assert(file.offset + file.length == files_total(files, n));
        if k < before.len() {
            lemma_slices_fit(files, n - 1, start, len, k);
        }
    }
}

/// The same as `b` but for what is downloaded and the state of the sessions.
pub open spec fn same_torrent(a: Torrent, b: Torrent) -> bool {
    &&& a.name == b.name
    &&& a.info_hash == b.info_hash
    &&& a.tracker == b.tracker
    &&& a.piece_size == b.piece_size
    &&& a.pieces_hashes == b.pieces_hashes
    &&& a.files == b.files
    &&& a.no_of_pieces == b.no_of_pieces
    &&& a.max_seeders == b.max_seeders
    &&& a.max_requests == b.max_requests
}

/// The sessions as the contracts see them.
pub open spec fn peer_views(peers: Seq<Peer>) -> Seq<PeerView> {
    Seq::new(peers.len(), |i: int| peers[i]@)
}

/// A have for `piece` to every session, in order.
pub open spec fn have_to_all(peers: Seq<PeerView>, piece: u32) -> Seq<MessageView> {
    Seq::new(peers.len(), |i: int| MessageView::Data(peers[i].addr, have_frame(piece)))
}

/// The invariant of the sessions does not depend on what is downloaded.
pub proof fn lemma_peers_ok_kept(a: Torrent, b: Torrent)
    requires
        a.peers_ok(),
        same_torrent(a, b),
        peer_views(a.peers@) == peer_views(b.peers@),
        a.seeders == b.seeders,
    ensures
        b.peers_ok(),
        a.geometry_ok() ==> b.geometry_ok(),
{
    let views = peer_views(a.peers@);
    assert(a.peers@.len() == b.peers@.len()) by {
        assert(peer_views(a.peers@).len() == peer_views(b.peers@).len());
    }
    assert forall|k: int| 0 <= k < b.peers@.len() implies b.fits((#[trigger] b.peers@[k])@) by {
        assert(b.peers@[k]@ == peer_views(b.peers@)[k]);
        assert(a.peers@[k]@ == views[k]);
        assert(a.fits(a.peers@[k]@));
    }
    assert forall|k: int, j: int| 0 <= k < j < b.peers@.len() implies (#[trigger] b.peers@[k])@.addr
        != (#[trigger] b.peers@[j])@.addr by {
        assert(b.peers@[k]@ == peer_views(b.peers@)[k] && b.peers@[j]@ == peer_views(b.peers@)[j]);
        assert(a.peers@[k]@ == views[k] && a.peers@[j]@ == views[j]);
    }
    assert forall|k: int| 0 <= k < b.seeders@.len() implies b.has_peer(#[trigger] b.seeders@[k]) by {
        assert(a.has_peer(a.seeders@[k]));
        let w = choose|w: int|
            0 <= w < a.peers@.len() && (#[trigger] a.peers@[w])@.addr == a.seeders@[k];
        assert(b.peers@[w]@ == peer_views(b.peers@)[w]);
        assert(a.peers@[w]@ == views[w]);
    }
}

fn all_set(row: &Vec<bool>) -> (all: bool)
    ensures
        all == (forall|b: int| 0 <= b < row@.len() ==> row@[b]),
{
    let mut b: usize = 0;
    while b < row.len()
        invariant
            b <= row@.len(),
            forall|k: int| 0 <= k < b ==> row@[k],
        decreases row@.len() - b,
    {
        if !row[b] {
            return false;
        }
        b += 1;
    }
    true
}

impl Torrent {
    /// Records that a block has been stored. Tells whether every block of
    /// its piece is now there, so that the piece is due for verification.
    pub fn write_block(&mut self, piece: usize, block: usize) -> (whole: bool)
        requires
            old(self).wf(),
            piece < old(self).no_of_pieces,
            block < block_count(old(self).total(), old(self).piece_size as int, piece as int),
        ensures
            final(self).wf(),
            same_torrent(*final(self), *old(self)),
            final(self).peers == old(self).peers,
            final(self).seeders == old(self).seeders,
            final(self).is_piece_downloaded == old(self).is_piece_downloaded,
            crate::peer::rows(final(self).is_block_downloaded@) == crate::peer::rows(
                old(self).is_block_downloaded@,
            ).update(
                piece as int,
                old(self).is_block_downloaded@[piece as int]@.update(block as int, true),
            ),
            whole == (forall|b: int|
                0 <= b < final(self).is_block_downloaded@[piece as int]@.len()
                    ==> final(self).is_block_downloaded@[piece as int]@[b]),
    {
        self.is_block_downloaded[piece][block] = true;
        assert(crate::peer::rows(self.is_block_downloaded@) =~= crate::peer::rows(
            old(self).is_block_downloaded@,
        ).update(
            piece as int,
            old(self).is_block_downloaded@[piece as int]@.update(block as int, true),
        ));
        assert(self.progress_ok()) by {
            assert forall|p: int| 0 <= p < self.no_of_pieces implies (
            #[trigger] self.is_block_downloaded@[p])@.len() == block_count(
                self.total(),
                self.piece_size as int,
                p,
            ) by {
                assert(old(self).is_block_downloaded@[p]@.len() == block_count(
                    self.total(),
                    self.piece_size as int,
                    p,
                ));
            }
            assert forall|p: int, b: int|
                0 <= p < self.no_of_pieces && self.is_piece_downloaded@[p] && 0 <= b
                    < self.is_block_downloaded@[p]@.len() implies #[trigger] self.is_block_downloaded@[p]@[b] by {
                assert(old(self).is_block_downloaded@[p]@[b]);
            }
        }
        proof {
            lemma_peers_ok_kept(*old(self), *self);
        }
        all_set(&self.is_block_downloaded[piece])
    }

    /// Compares the digest of a piece's bytes with the hash that the
    /// metainfo gives for it. On a match the piece and all its blocks are
    /// marked downloaded and every session gets a have; else the piece and
    /// all its blocks are marked missing.
    pub fn verify_piece(&mut self, piece: usize, data: &Vec<u8>, out: &mut Vec<Message>) -> (ok: bool)
        requires
            old(self).wf(),
            piece < old(self).no_of_pieces,
        ensures
            final(self).wf(),
            same_torrent(*final(self), *old(self)),
            final(self).seeders == old(self).seeders,
            peer_views(final(self).peers@) == peer_views(old(self).peers@),
            ok == (sha1_digest(data@) == old(self).pieces_hashes@[piece as int]@),
            final(self).is_piece_downloaded@ == old(self).is_piece_downloaded@.update(
                piece as int,
                ok,
            ),
            crate::peer::rows(final(self).is_block_downloaded@) == crate::peer::rows(
                old(self).is_block_downloaded@,
            ).update(
                piece as int,
                all_flags(
                    block_count(old(self).total(), old(self).piece_size as int, piece as int),
                    ok,
                ),
            ),
            message_views(final(out)@) == message_views(old(out)@) + (if ok {
                have_to_all(peer_views(old(self).peers@), piece as u32)
            } else {
                Seq::empty()
            }),
    {
        let digest = sha1(data);
        let hash = crate::utils::Hash::from_slice(digest.as_slice());
        let ok = hash.same_as(&self.pieces_hashes[piece]);
        let count = self.get_block_count(piece);
        self.is_piece_downloaded[piece] = ok;
        self.is_block_downloaded[piece] = make_flags(count, ok);
        assert(crate::peer::rows(self.is_block_downloaded@) =~= crate::peer::rows(
            old(self).is_block_downloaded@,
        ).update(piece as int, all_flags(count as int, ok)));
        assert(self.progress_ok()) by {
            assert forall|p: int| 0 <= p < self.no_of_pieces implies (
            #[trigger] self.is_block_downloaded@[p])@.len() == block_count(
                self.total(),
                self.piece_size as int,
                p,
            ) by {
                assert(old(self).is_block_downloaded@[p]@.len() == block_count(
                    self.total(),
                    self.piece_size as int,
                    p,
                ));
            }
            assert forall|p: int, b: int|
                0 <= p < self.no_of_pieces && self.is_piece_downloaded@[p] && 0 <= b
                    < self.is_block_downloaded@[p]@.len() implies #[trigger] self.is_block_downloaded@[p]@[b] by {
                if p != piece {
                    assert(old(self).is_block_downloaded@[p]@[b]);
                }
            }
        }
        if !ok {
            assert(message_views(out@) + Seq::<MessageView>::empty() =~= message_views(out@));
            return false;
        }
        let ghost views = peer_views(self.peers@);
        let mut i: usize = 0;
        while i < self.peers.len()
            invariant
                i <= self.peers@.len(),
                piece <= u32::MAX,
                piece < old(self).is_piece_downloaded@.len(),
                piece < old(self).is_block_downloaded@.len(),
                self.geometry_ok(),
                self.progress_ok(),
                views == peer_views(self.peers@),
                views == peer_views(old(self).peers@),
                same_torrent(*self, *old(self)),
                self.seeders == old(self).seeders,
                self.is_piece_downloaded@ == old(self).is_piece_downloaded@.update(piece as int, ok),
                crate::peer::rows(self.is_block_downloaded@) == crate::peer::rows(
                    old(self).is_block_downloaded@,
                ).update(piece as int, all_flags(count as int, ok)),
                message_views(out@) == message_views(old(out)@) + have_to_all(
                    views,
                    piece as u32,
                ).subrange(0, i as int),
            decreases self.peers@.len() - i,
        {
            let ghost queued = message_views(out@);
            self.peers[i].send_have(piece, out);
            assert(peer_views(self.peers@) =~= views);
            assert(message_views(out@) =~= message_views(old(out)@) + have_to_all(
                views,
                piece as u32,
            ).subrange(0, i + 1)) by {
                assert(have_to_all(views, piece as u32).subrange(0, i + 1) =~= have_to_all(
                    views,
                    piece as u32,
                ).subrange(0, i as int).push(
                    MessageView::Data(views[i as int].addr, have_frame(piece as u32)),
                ));
            }
            i += 1;
        }
        assert(have_to_all(views, piece as u32).subrange(0, i as int) =~= have_to_all(
            views,
            piece as u32,
        ));
        proof {
            lemma_peers_ok_kept(*old(self), *self);
        }
        true
    }
}


/// Parts of two different blocks that lie in the same file do not overlap.
pub proof fn lemma_block_writes_disjoint(
    t: Torrent,
    piece: int,
    block: int,
    piece2: int,
    block2: int,
    i: int,
    j: int,
)
    requires
        t.geometry_ok(),
        t.is_block(piece, block, block_len(t.total(), t.piece_size as int, piece, block)),
        t.is_block(piece2, block2, block_len(t.total(), t.piece_size as int, piece2, block2)),
        piece != piece2 || block != block2,
        0 <= i < t.block_slices(piece, block).len(),
        0 <= j < t.block_slices(piece2, block2).len(),
        t.block_slices(piece, block)[i].file == t.block_slices(piece2, block2)[j].file,
    ensures
        ({
            let a = t.block_slices(piece, block)[i];
            let b = t.block_slices(piece2, block2)[j];
            a.file_offset + a.length <= b.file_offset || b.file_offset + b.length <= a.file_offset
        }),
{
    let total = t.total();
    let size = t.piece_size as int;
    lemma_block_range(total, size, piece, block);
    lemma_block_range(total, size, piece2, block2);
    crate::geometry::lemma_blocks_disjoint(total, size, piece, block, piece2, block2);
    assert(t.files@.len() == t.files.len());
    lemma_slices_fit(
        t.files@,
        t.files@.len() as int,
        block_start(size, piece, block),
        block_len(total, size, piece, block),
        i,
    );
    lemma_slices_fit(
        t.files@,
        t.files@.len() as int,
        block_start(size, piece2, block2),
        block_len(total, size, piece2, block2),
        j,
    );
}


impl Torrent {
    /// True when the torrent is what the metainfo says.
    pub open spec fn describes(&self, m: MetainfoView) -> bool {
        &&& self.name@ == m.name
        &&& self.info_hash@ == m.info_hash
        &&& self.tracker.info_hash@ == m.info_hash
        &&& text_views(self.tracker.urls@) == m.urls
        &&& self.piece_size == m.piece_size
        &&& hash_views(self.pieces_hashes@) == m.hashes
        &&& file_views(self.files@) == m.files
        &&& self.no_of_pieces == m.hashes.len()
    }

    /// True when nothing is downloaded, there is no session, and the limits
    /// are the usual ones.
    pub open spec fn untouched(&self) -> bool {
        &&& self.is_piece_downloaded@ == all_flags(self.no_of_pieces as int, false)
        &&& crate::peer::rows(self.is_block_downloaded@) == Seq::new(
            self.no_of_pieces as nat,
            |p: int| all_flags(block_count(self.total(), self.piece_size as int, p), false),
        )
        &&& self.peers@.len() == 0
        &&& self.seeders@.len() == 0
        &&& self.max_seeders == MAX_SEEDERS
        &&& self.max_requests == MAX_REQUESTS
    }

    /// What the bytes of a metainfo file say of a torrent, or why they say
    /// nothing.
    pub open spec fn new_spec(data: Seq<u8>) -> Result<MetainfoView, crate::metainfo::Failure> {
        match decode_spec(data) {
            Err((reason, offset)) => Err(crate::metainfo::Failure::Decode(reason, offset)),
            Ok(v) => load_spec(v),
        }
    }

    /// Reads a torrent from the bytes of a metainfo file. Nothing is marked
    /// downloaded: what is on disk already is found by verifying each piece.
    pub fn new(data: Vec<u8>) -> (r: Result<Torrent, Error>)
        ensures
            match Torrent::new_spec(data@) {
                Ok(m) => r matches Ok(t) && t.wf() && t.describes(m) && t.untouched(),
                Err(f) => r matches Err(e) && fails_with(e, f),
            },
    {
        let root = match BEncoding::decode(data) {
            Err(e) => {
                return Err(Error::Decode(e));
            },
            Ok(root) => root,
        };
        let info = dict_at(&root, "info")?;
        let encoded = BEncoding::encode(info);
        let digest = sha1(&encoded);
        let info_hash = crate::utils::Hash::from_slice(digest.as_slice());
        let name = text_at(info, "name")?;
        let urls = tracker_urls(&root)?;
        let piece_length = int_at(info, "piece length")?;
        if piece_length <= 0 || piece_length > 0xffff_ffff {
            return Err(Error::InvalidLength);
        }
        let piece_size: usize = piece_length as usize;
        let pieces = bytes_at(info, "pieces")?;
        let hashes = piece_hashes(&pieces)?;
        let files = file_items(info, &name)?;
        let total: usize = if files.len() == 0 {
            0
        } else {
            files[files.len() - 1].offset + files[files.len() - 1].length
        };
        proof {
            lemma_chunk_count_by_rest(total as int, piece_size as int);
        }
        let count: usize = total / piece_size + (if total % piece_size == 0 {
            0
        } else {
            1
        });
        let no_of_pieces: usize = hashes.len();
        if no_of_pieces != count || no_of_pieces > 0xffff_ffff {
            return Err(Error::MalformedPieces);
        }
        let mut t = Torrent {
            name,
            info_hash,
            tracker: Tracker::new(urls, info_hash),
            piece_size,
            pieces_hashes: hashes,
            files,
            no_of_pieces,
            is_piece_downloaded: make_flags(no_of_pieces, false),
            is_block_downloaded: Vec::new(),
            peers: Vec::new(),
            seeders: Vec::new(),
            max_seeders: MAX_SEEDERS,
            max_requests: MAX_REQUESTS,
        };
        assert(hash_views(t.pieces_hashes@).len() == t.pieces_hashes@.len());
        assert(t.geometry_ok());
        let mut piece: usize = 0;
        while piece < no_of_pieces
            invariant
                piece <= no_of_pieces,
                t.geometry_ok(),
                t.no_of_pieces == no_of_pieces,
                t.describes(load_spec(root@)->Ok_0),
                t.is_piece_downloaded@ == all_flags(no_of_pieces as int, false),
                t.peers@.len() == 0,
                t.seeders@.len() == 0,
                t.max_seeders == MAX_SEEDERS,
                t.max_requests == MAX_REQUESTS,
                t.is_block_downloaded@.len() == piece,
                forall|p: int|
                    0 <= p < piece ==> (#[trigger] t.is_block_downloaded@[p])@ == all_flags(
                        block_count(t.total(), t.piece_size as int, p),
                        false,
                    ),
            decreases no_of_pieces - piece,
        {
            let count = t.get_block_count(piece);
            t.is_block_downloaded.push(make_flags(count, false));
            piece += 1;
        }
        assert(crate::peer::rows(t.is_block_downloaded@) =~= Seq::new(
            t.no_of_pieces as nat,
            |p: int| all_flags(block_count(t.total(), t.piece_size as int, p), false),
        ));
        Ok(t)
    }
}

} // verus!
