//! The peer wire protocol: the frames, the state kept for one remote peer,
//! the framer that cuts its inbound bytes into messages, and the handlers.

use vstd::prelude::*;
use vstd::std_specs::convert::FromSpecImpl;
use crate::geometry::{block_count, block_slots, lemma_block_slots_bound};
use crate::torrent::Torrent;
use crate::utils::{
    be_bytes32, be_value32, bits_of, byte_slice_to_u32, bytes_of_bits, from_bits, my_peer_id,
    all_flags, make_flags, my_peer_id_bytes, packed_len, u32_to_byte_slice, BLOCK_SIZE,
};

verus! {

/// The address of a peer: an IPv4 address, as the number its four bytes make
/// in network order, and a port.
#[derive(Clone, Copy, Debug, PartialEq, Eq, Hash, Structural)]
pub struct PeerAddr {
    pub ip: u32,
    pub port: u16,
}

/// The kinds of message of the peer protocol.
#[derive(Clone, Copy, Debug, PartialEq, Eq, Structural)]
pub enum MessageType {
    Unknown,
    Handshake,
    KeepAlive,
    Choke,
    UnChoke,
    Interested,
    NotInterested,
    Have,
    Bitfield,
    Request,
    Piece,
    Cancel,
    Port,
}

/// The kind that a message id stands for.
pub open spec fn message_type_of(id: u8) -> MessageType {
    if id == 0 {
        MessageType::Choke
    } else if id == 1 {
        MessageType::UnChoke
    } else if id == 2 {
        MessageType::Interested
    } else if id == 3 {
        MessageType::NotInterested
    } else if id == 4 {
        MessageType::Have
    } else if id == 5 {
        MessageType::Bitfield
    } else if id == 6 {
        MessageType::Request
    } else if id == 7 {
        MessageType::Piece
    } else if id == 8 {
        MessageType::Cancel
    } else if id == 9 {
        MessageType::Port
    } else {
        MessageType::Unknown
    }
}

impl MessageType {
    /// The kind that a message id stands for.
    pub fn from_u8(id: u8) -> (kind: MessageType)
        ensures
            kind == message_type_of(id),
    {
        match id {
            0 => MessageType::Choke,
            1 => MessageType::UnChoke,
            2 => MessageType::Interested,
            3 => MessageType::NotInterested,
            4 => MessageType::Have,
            5 => MessageType::Bitfield,
            6 => MessageType::Request,
            7 => MessageType::Piece,
            8 => MessageType::Cancel,
            9 => MessageType::Port,
            _ => MessageType::Unknown,
        }
    }
}

impl From<u8> for MessageType {
    fn from(id: u8) -> (kind: MessageType) {
        MessageType::from_u8(id)
    }
}

impl FromSpecImpl<u8> for MessageType {
    open spec fn obeys_from_spec() -> bool {
        true
    }

    open spec fn from_spec(id: u8) -> MessageType {
        message_type_of(id)
    }
}

/// What passes between the sessions and the transport: a peer to connect to,
/// bytes from or for a peer, or the end of a connection.
#[derive(Debug)]
pub enum Message {
    AddPeer(PeerAddr),
    Data(PeerAddr, Vec<u8>),
    Disconnect(PeerAddr),
}

/// The mathematical content of a `Message`.
pub ghost enum MessageView {
    AddPeer(PeerAddr),
    Data(PeerAddr, Seq<u8>),
    Disconnect(PeerAddr),
}

impl View for Message {
    type V = MessageView;

    open spec fn view(&self) -> MessageView {
        match self {
            Message::AddPeer(addr) => MessageView::AddPeer(*addr),
            Message::Data(addr, data) => MessageView::Data(*addr, data@),
            Message::Disconnect(addr) => MessageView::Disconnect(*addr),
        }
    }
}

/// The contents of a queue of messages.
pub open spec fn message_views(queue: Seq<Message>) -> Seq<MessageView> {
    Seq::new(queue.len(), |i: int| queue[i]@)
}

/// A block received from a peer, on its way to storage.
#[derive(Debug)]
pub struct Block {
    pub piece: usize,
    pub block: usize,
    pub data: Vec<u8>,
}

/// The mathematical content of a `Block`.
pub ghost struct BlockView {
    pub piece: usize,
    pub block: usize,
    pub data: Seq<u8>,
}

impl View for Block {
    type V = BlockView;

    open spec fn view(&self) -> BlockView {
        BlockView { piece: self.piece, block: self.block, data: self.data@ }
    }
}

/// The contents of a queue of blocks.
pub open spec fn block_views(queue: Seq<Block>) -> Seq<BlockView> {
    Seq::new(queue.len(), |i: int| queue[i]@)
}

/// The rows of a table of flags.
pub open spec fn rows(table: Seq<Vec<bool>>) -> Seq<Seq<bool>> {
    Seq::new(table.len(), |i: int| table[i]@)
}

/// Number of flags that are set.
pub open spec fn count_true(flags: Seq<bool>) -> nat
    decreases flags.len(),
{
    if flags.len() == 0 {
        0
    } else {
        count_true(flags.drop_last()) + if flags.last() {
            1nat
        } else {
            0nat
        }
    }
}

/// Number of flags that are set in the rows `0 .. n` of a table.
pub open spec fn count_rows(table: Seq<Seq<bool>>, n: int) -> nat
    decreases n,
{
    if n <= 0 || n > table.len() {
        0
    } else {
        count_rows(table, n - 1) + count_true(table[n - 1])
    }
}

/// Number of flags in the rows `0 .. n` of a table.
pub open spec fn slots(table: Seq<Seq<bool>>, n: int) -> nat
    decreases n,
{
    if n <= 0 || n > table.len() {
        0
    } else {
        slots(table, n - 1) + table[n - 1].len()
    }
}

/// The session with one remote peer.
pub struct Peer {
    /// The remote address, which names the session.
    pub addr: PeerAddr,
    /// The identity of the torrent that the session is about.
    pub info_hash: crate::utils::Hash,
    /// Inbound bytes not yet cut into messages.
    pub data: Vec<u8>,
    /// When the last inbound message was handled, in seconds.
    pub last_active: u64,
    /// When the last keep-alive was sent, in seconds.
    pub last_keepalive: u64,
    pub is_handshake_received: bool,
    pub is_handshake_sent: bool,
    pub is_interested_sent: bool,
    pub is_choke_received: bool,
    /// The pieces that the remote peer has announced.
    pub is_piece_downloaded: Vec<bool>,
    /// The blocks requested from the remote peer and not yet received.
    pub is_block_requested: Vec<Vec<bool>>,
    /// The pieces this client had when the session began.
    pub bitfield: Vec<bool>,
}

/// The mathematical content of a `Peer`.
pub ghost struct PeerView {
    pub addr: PeerAddr,
    pub info_hash: Seq<u8>,
    pub data: Seq<u8>,
    pub last_active: u64,
    pub last_keepalive: u64,
    pub is_handshake_received: bool,
    pub is_handshake_sent: bool,
    pub is_interested_sent: bool,
    pub is_choke_received: bool,
    pub is_piece_downloaded: Seq<bool>,
    pub is_block_requested: Seq<Seq<bool>>,
    pub bitfield: Seq<bool>,
}

impl View for Peer {
    type V = PeerView;

    open spec fn view(&self) -> PeerView {
        PeerView {
            addr: self.addr,
            info_hash: self.info_hash@,
            data: self.data@,
            last_active: self.last_active,
            last_keepalive: self.last_keepalive,
            is_handshake_received: self.is_handshake_received,
            is_handshake_sent: self.is_handshake_sent,
            is_interested_sent: self.is_interested_sent,
            is_choke_received: self.is_choke_received,
            is_piece_downloaded: self.is_piece_downloaded@,
            is_block_requested: rows(self.is_block_requested@),
            bitfield: self.bitfield@,
        }
    }
}

/// The name of the protocol as the handshake carries it.
pub open spec fn protocol_name() -> Seq<u8> {
    seq![
        0x42u8, 0x69u8, 0x74u8, 0x54u8, 0x6fu8, 0x72u8, 0x72u8, 0x65u8, 0x6eu8, 0x74u8, 0x20u8,
        0x70u8, 0x72u8, 0x6fu8, 0x74u8, 0x6fu8, 0x63u8, 0x6fu8, 0x6cu8,
    ]
}

/// The 68 bytes of a handshake: the length of the protocol name, the name,
/// eight reserved zero bytes, the torrent's identity and this client's id.
pub open spec fn handshake_frame(info_hash: Seq<u8>) -> Seq<u8> {
    seq![19u8] + protocol_name() + Seq::new(8, |i: int| 0u8) + info_hash + my_peer_id_bytes()
}

/// A keep-alive: a length prefix of zero.
pub open spec fn keepalive_frame() -> Seq<u8> {
    seq![0u8, 0u8, 0u8, 0u8]
}

/// The message that tells the peer that this client wants its pieces.
pub open spec fn interested_frame() -> Seq<u8> {
    seq![0u8, 0u8, 0u8, 1u8, 2u8]
}

/// The message that tells the peer that this client wants nothing more.
pub open spec fn not_interested_frame() -> Seq<u8> {
    seq![0u8, 0u8, 0u8, 1u8, 3u8]
}

/// The message that announces a verified piece.
pub open spec fn have_frame(piece: u32) -> Seq<u8> {
    seq![0u8, 0u8, 0u8, 5u8, 4u8] + be_bytes32(piece)
}

/// The message that asks for `length` bytes of piece `index` from `begin`.
pub open spec fn request_frame(index: u32, begin: u32, length: u32) -> Seq<u8> {
    seq![0u8, 0u8, 0u8, 13u8, 6u8] + be_bytes32(index) + be_bytes32(begin) + be_bytes32(length)
}

/// Flags as bits: 1 for a flag that is set, 0 for one that is not.
pub open spec fn flags_as_bits(flags: Seq<bool>) -> Seq<u8> {
    Seq::new(
        flags.len(),
        |i: int|
            if flags[i] {
                1u8
            } else {
                0u8
            },
    )
}

/// The message that announces the pieces a client has: one bit per piece,
/// the first piece in the most significant bit, padded with zero bits.
pub open spec fn bitfield_frame(flags: Seq<bool>) -> Seq<u8> {
    be_bytes32((packed_len(flags.len() as int) + 1) as u32) + seq![5u8] + bytes_of_bits(
        flags_as_bits(flags),
    )
}


/// What handling inbound bytes brings about: the session afterwards, the
/// messages posted to the transport and the blocks handed to storage.
pub ghost struct Effects {
    pub peer: PeerView,
    pub out: Seq<MessageView>,
    pub blocks: Seq<BlockView>,
}

/// Nothing posted and nothing delivered.
pub open spec fn quiet(p: PeerView) -> Effects {
    Effects { peer: p, out: Seq::empty(), blocks: Seq::empty() }
}

/// The answer to a message that breaks the protocol: the session stays as it
/// is and the transport is asked to drop the peer.
pub open spec fn refused(p: PeerView) -> Effects {
    Effects { peer: p, out: seq![MessageView::Disconnect(p.addr)], blocks: Seq::empty() }
}

/// A handshake is accepted when it has 68 bytes and names this torrent; the
/// bitfield is then sent.
pub open spec fn on_handshake(p: PeerView, frame: Seq<u8>) -> Effects {
    if frame.len() == 68 && frame.subrange(28, 48) == p.info_hash {
        Effects {
            peer: PeerView { is_handshake_received: true, ..p },
            out: seq![MessageView::Data(p.addr, bitfield_frame(p.bitfield))],
            blocks: Seq::empty(),
        }
    } else {
        refused(p)
    }
}

/// Choke and unchoke set whether the peer refuses requests.
pub open spec fn on_choke(p: PeerView, frame: Seq<u8>, choked: bool) -> Effects {
    if frame.len() == 5 {
        quiet(PeerView { is_choke_received: choked, ..p })
    } else {
        refused(p)
    }
}

/// Have marks one piece as held by the peer.
pub open spec fn on_have(p: PeerView, frame: Seq<u8>) -> Effects {
    if frame.len() == 9 && be_value32(frame.subrange(5, 9)) < p.is_piece_downloaded.len() {
        quiet(
            PeerView {
                is_piece_downloaded: p.is_piece_downloaded.update(
                    be_value32(frame.subrange(5, 9)),
                    true,
                ),
                ..p
            },
        )
    } else {
        refused(p)
    }
}

/// Bitfield sets, for every piece, whether the peer holds it.
pub open spec fn on_bitfield(p: PeerView, frame: Seq<u8>) -> Effects {
    let n = p.is_piece_downloaded.len();
    if frame.len() == packed_len(n as int) + 5 {
        quiet(
            PeerView {
                is_piece_downloaded: Seq::new(
                    n,
                    |i: int| bits_of(frame.subrange(5, frame.len() as int))[i] == 1,
                ),
                ..p
            },
        )
    } else {
        refused(p)
    }
}

/// Piece delivers a block and clears its request.
pub open spec fn on_piece(p: PeerView, frame: Seq<u8>) -> Effects {
    if frame.len() >= 13 {
        let index = be_value32(frame.subrange(5, 9));
        let block = be_value32(frame.subrange(9, 13)) / (BLOCK_SIZE as int);
        if index < p.is_block_requested.len() && block < p.is_block_requested[index].len() {
            Effects {
                peer: PeerView {
                    is_block_requested: p.is_block_requested.update(
                        index,
                        p.is_block_requested[index].update(block, false),
                    ),
                    ..p
                },
                out: Seq::empty(),
                blocks: seq![
                    BlockView {
                        piece: index as usize,
                        block: block as usize,
                        data: frame.subrange(13, frame.len() as int),
                    },
                ],
            }
        } else {
            refused(p)
        }
    } else {
        refused(p)
    }
}

/// What one inbound message brings about at time `now`.
pub open spec fn handle(p: PeerView, frame: Seq<u8>, now: u64) -> Effects {
    let p = PeerView { last_active: now, ..p };
    if !p.is_handshake_received {
        on_handshake(p, frame)
    } else if frame.len() == 4 {
        quiet(p)
    } else if frame.len() < 5 {
        refused(p)
    } else {
        match message_type_of(frame[4]) {
            MessageType::Choke => on_choke(p, frame, true),
            MessageType::UnChoke => on_choke(p, frame, false),
            MessageType::Have => on_have(p, frame),
            MessageType::Bitfield => on_bitfield(p, frame),
            MessageType::Piece => on_piece(p, frame),
            _ => quiet(p),
        }
    }
}

/// The length of the next message in the buffer: 68 before the handshake,
/// then four bytes of length prefix plus what the prefix says. Negative while
/// the prefix is not all there.
pub open spec fn next_frame_len(p: PeerView) -> int {
    if !p.is_handshake_received {
        68
    } else if p.data.len() < 4 {
        -1
    } else {
        4 + be_value32(p.data.subrange(0, 4))
    }
}

/// True when the buffer holds a whole message.
pub open spec fn can_step(p: PeerView) -> bool {
    0 <= next_frame_len(p) <= p.data.len()
}

/// Takes the next message off the buffer and handles it.
pub open spec fn step(p: PeerView, now: u64) -> Effects {
    let n = next_frame_len(p);
    handle(
        PeerView { data: p.data.subrange(n, p.data.len() as int), ..p },
        p.data.subrange(0, n),
        now,
    )
}

/// One effect after another.
pub open spec fn followed_by(first: Effects, second: Effects) -> Effects {
    Effects {
        peer: second.peer,
        out: first.out + second.out,
        blocks: first.blocks + second.blocks,
    }
}

/// Handles every whole message in the buffer, in order.
pub open spec fn process(p: PeerView, now: u64) -> Effects
    decreases p.data.len(),
    via process_terminates
{
    if can_step(p) {
        followed_by(step(p, now), process(step(p, now).peer, now))
    } else {
        quiet(p)
    }
}

#[via_fn]
proof fn process_terminates(p: PeerView, now: u64) {
    if can_step(p) {
        lemma_step_shortens(p, now);
    }
}

/// Handling a message leaves the buffer alone, and does not depend on it.
pub proof fn lemma_handle_data(p: PeerView, data: Seq<u8>, frame: Seq<u8>, now: u64)
    ensures
        handle(PeerView { data, ..p }, frame, now) == (Effects {
            peer: PeerView { data, ..handle(p, frame, now).peer },
            ..handle(p, frame, now)
        }),
        handle(p, frame, now).peer.data == p.data,
{
}

/// A step shortens the buffer by the length of the message taken.
pub proof fn lemma_step_shortens(p: PeerView, now: u64)
    requires
        can_step(p),
    ensures
        4 <= next_frame_len(p),
        step(p, now).peer.data == p.data.subrange(next_frame_len(p), p.data.len() as int),
        step(p, now).peer.data.len() < p.data.len(),
{
    let n = next_frame_len(p);
    lemma_handle_data(
        PeerView { data: p.data.subrange(n, p.data.len() as int), ..p },
        p.data.subrange(n, p.data.len() as int),
        p.data.subrange(0, n),
        now,
    );
}


/// The session with `extra` appended to its buffer.
pub open spec fn fed(p: PeerView, extra: Seq<u8>) -> PeerView {
    PeerView { data: p.data + extra, ..p }
}

/// A whole message at the front of the buffer is handled in the same way
/// whatever follows it.
pub proof fn lemma_step_fed(p: PeerView, extra: Seq<u8>, now: u64)
    requires
        can_step(p),
    ensures
        can_step(fed(p, extra)),
        step(fed(p, extra), now) == (Effects {
            peer: fed(step(p, now).peer, extra),
            ..step(p, now)
        }),
{
    let n = next_frame_len(p);
    let q = fed(p, extra);
    if p.is_handshake_received {
        assert(q.data.subrange(0, 4) =~= p.data.subrange(0, 4));
    }
    assert(next_frame_len(q) == n);
    assert(q.data.subrange(0, n) =~= p.data.subrange(0, n));
    let rest = p.data.subrange(n, p.data.len() as int);
    assert(q.data.subrange(n, q.data.len() as int) =~= rest + extra);
    let frame = p.data.subrange(0, n);
    lemma_handle_data(PeerView { data: rest, ..p }, rest + extra, frame, now);
    lemma_handle_data(PeerView { data: rest, ..p }, rest, frame, now);
    assert(PeerView { data: rest + extra, ..(PeerView { data: rest, ..p }) } == PeerView {
        data: rest + extra,
        ..q
    });
}

/// Inbound bytes may arrive in any fragments: handling what is there,
/// appending more and handling again brings about what handling all of it at
/// once does.
pub proof fn lemma_fragmentation(p: PeerView, extra: Seq<u8>, now: u64)
    ensures
        process(fed(p, extra), now) == followed_by(
            process(p, now),
            process(fed(process(p, now).peer, extra), now),
        ),
    decreases p.data.len(),
{
    let whole = process(fed(p, extra), now);
    let first = process(p, now);
    let second = process(fed(first.peer, extra), now);
    if can_step(p) {
        lemma_step_shortens(p, now);
        lemma_step_fed(p, extra, now);
        let s = step(p, now);
        lemma_fragmentation(s.peer, extra, now);
        let tail = process(s.peer, now);
        assert(first == followed_by(s, tail));
        assert(whole == followed_by(step(fed(p, extra), now), process(fed(s.peer, extra), now)));
        assert(whole.out =~= followed_by(first, second).out);
        assert(whole.blocks =~= followed_by(first, second).blocks);
    } else {
        assert(whole.out =~= followed_by(first, second).out);
        assert(whole.blocks =~= followed_by(first, second).blocks);
    }
}


/// Appends a message for `addr` that carries `data` to the queue.
pub open spec fn posted(before: Seq<Message>, after: Seq<Message>, m: MessageView) -> bool {
    message_views(after) == message_views(before).push(m)
}

proof fn lemma_count_true_bound(flags: Seq<bool>)
    ensures
        count_true(flags) <= flags.len(),
    decreases flags.len(),
{
    if flags.len() > 0 {
        lemma_count_true_bound(flags.drop_last());
    }
}

proof fn lemma_count_rows_bound(table: Seq<Seq<bool>>, n: int)
    ensures
        count_rows(table, n) <= slots(table, n),
    decreases n,
{
    if 0 < n <= table.len() {
        lemma_count_rows_bound(table, n - 1);
        lemma_count_true_bound(table[n - 1]);
    }
}

proof fn lemma_slots_grow(table: Seq<Seq<bool>>, n: int, m: int)
    requires
        0 <= n <= m <= table.len(),
    ensures
        slots(table, n) <= slots(table, m),
    decreases m - n,
{
    if n < m {
        lemma_slots_grow(table, n, m - 1);
    }
}

proof fn lemma_slots_update(table: Seq<Seq<bool>>, i: int, row: Seq<bool>, n: int)
    requires
        0 <= i < table.len(),
        row.len() == table[i].len(),
        0 <= n <= table.len(),
    ensures
        slots(table.update(i, row), n) == slots(table, n),
    decreases n,
{
    if n > 0 {
        lemma_slots_update(table, i, row, n - 1);
    }
}

impl PeerView {
    /// The invariant of a session: one flag per piece in each of its three
    /// tables, a piece count that fits the wire, and a number of block flags
    /// that can be counted.
    pub open spec fn wf(self) -> bool {
        &&& self.is_piece_downloaded.len() == self.bitfield.len()
        &&& self.is_block_requested.len() == self.bitfield.len()
        &&& self.bitfield.len() <= u32::MAX
        &&& slots(self.is_block_requested, self.is_block_requested.len() as int) <= usize::MAX
    }

    /// Number of blocks requested from the peer and not yet received.
    pub open spec fn requested(self) -> nat {
        count_rows(self.is_block_requested, self.is_block_requested.len() as int)
    }
}

impl Peer {
    /// The invariant of a session.
    pub open spec fn wf(&self) -> bool {
        self@.wf()
    }

    /// Appends inbound bytes to the buffer.
    pub fn read(&mut self, data: Vec<u8>)
        ensures
            final(self)@ == fed(old(self)@, data@),
    {
        self.data.extend_from_slice(data.as_slice());
        assert(self.data@ =~= old(self).data@ + data@);
    }

    /// Posts bytes for the peer to the transport.
    pub fn write(&self, data: Vec<u8>, out: &mut Vec<Message>)
        ensures
            posted(old(out)@, final(out)@, MessageView::Data(self.addr, data@)),
    {
        out.push(Message::Data(self.addr, data));
        assert(message_views(out@) =~= message_views(old(out)@).push(
            MessageView::Data(self.addr, data@),
        ));
    }

    /// Asks the transport to drop the peer.
    pub fn disconnect(&self, out: &mut Vec<Message>)
        ensures
            posted(old(out)@, final(out)@, MessageView::Disconnect(self.addr)),
    {
        out.push(Message::Disconnect(self.addr));
        assert(message_views(out@) =~= message_views(old(out)@).push(
            MessageView::Disconnect(self.addr),
        ));
    }

    /// The length of the next message in the buffer, or the largest number
    /// while its length prefix is not all there.
    pub fn get_message_length(&self) -> (n: u64)
        ensures
            n == (if next_frame_len(self@) < 0 {
                u64::MAX as int
            } else {
                next_frame_len(self@)
            }),
    {
        if !self.is_handshake_received {
            68
        } else if self.data.len() < 4 {
            u64::MAX
        } else {
            let prefix = vstd::slice::slice_subrange(self.data.as_slice(), 0, 4);
            byte_slice_to_u32(prefix) as u64 + 4
        }
    }

    /// Number of blocks requested from the peer and not yet received.
    pub fn no_of_blocks_requested(&self) -> (n: usize)
        requires
            self.wf(),
        ensures
            n == self@.requested(),
    {
        let ghost table = rows(self.is_block_requested@);
        let mut total: usize = 0;
        let mut i: usize = 0;
        while i < self.is_block_requested.len()
            invariant
                i <= self.is_block_requested@.len(),
                table == rows(self.is_block_requested@),
                total == count_rows(table, i as int),
                slots(table, table.len() as int) <= usize::MAX,
            decreases self.is_block_requested@.len() - i,
        {
            let row = &self.is_block_requested[i];
            let mut c: usize = 0;
            let mut j: usize = 0;
            while j < row.len()
                invariant
                    j <= row@.len(),
                    c == count_true(row@.subrange(0, j as int)),
                    c <= j,
                decreases row@.len() - j,
            {
                assert(row@.subrange(0, j + 1).drop_last() =~= row@.subrange(0, j as int));
                if row[j] {
                    c += 1;
                }
                j += 1;
            }
            proof {
                assert(row@.subrange(0, j as int) =~= row@);
                assert(table[i as int] == row@);
                lemma_count_rows_bound(table, i + 1);
                lemma_slots_grow(table, i + 1, table.len() as int);
            }
            total += c;
            i += 1;
        }
        total
    }

    /// True when the peer has been silent for more than 30 seconds at `now`.
    pub fn is_timed_out(&self, now: u64) -> (late: bool)
        ensures
            late == (now - self.last_active > 30),
    {
        now > self.last_active && now - self.last_active > 30
    }

    /// Sends the handshake and records that it was sent.
    pub fn send_handshake(&mut self, out: &mut Vec<Message>)
        ensures
            final(self)@ == (PeerView { is_handshake_sent: true, ..old(self)@ }),
            posted(
                old(out)@,
                final(out)@,
                MessageView::Data(old(self).addr, handshake_frame(old(self).info_hash@)),
            ),
    {
        let mut data: Vec<u8> = Vec::new();
        data.push(19);
        let name: [u8; 19] = [
            0x42u8, 0x69u8, 0x74u8, 0x54u8, 0x6fu8, 0x72u8, 0x72u8, 0x65u8, 0x6eu8, 0x74u8, 0x20u8,
            0x70u8, 0x72u8, 0x6fu8, 0x74u8, 0x6fu8, 0x63u8, 0x6fu8, 0x6cu8,
        ];
        assert(name@ =~= protocol_name());
        data.extend_from_slice(name.as_slice());
        let reserved: [u8; 8] = [0u8; 8];
        assert(reserved@ =~= Seq::new(8, |i: int| 0u8));
        data.extend_from_slice(reserved.as_slice());
        data.extend_from_slice(self.info_hash.0.as_slice());
        let id = my_peer_id();
        data.extend_from_slice(id.0.as_slice());
        assert(data@ =~= handshake_frame(self.info_hash@));
        self.write(data, out);
        self.is_handshake_sent = true;
    }

    /// Sends a keep-alive, unless one was sent less than 30 seconds before
    /// `now`.
    pub fn send_keepalive(&mut self, now: u64, out: &mut Vec<Message>)
        ensures
            now - old(self).last_keepalive < 30 ==> final(self)@ == old(self)@ && final(out)@
                == old(out)@,
            now - old(self).last_keepalive >= 30 ==> final(self)@ == (PeerView {
                last_keepalive: now,
                ..old(self)@
            }) && posted(
                old(out)@,
                final(out)@,
                MessageView::Data(old(self).addr, keepalive_frame()),
            ),
    {
        if now < self.last_keepalive || now - self.last_keepalive < 30 {
            return;
        }
        let mut data: Vec<u8> = Vec::new();
        data.push(0);
        data.push(0);
        data.push(0);
        data.push(0);
        assert(data@ =~= keepalive_frame());
        self.write(data, out);
        self.last_keepalive = now;
    }

    /// Tells the peer that this client wants its pieces, once.
    pub fn send_interested(&mut self, out: &mut Vec<Message>)
        ensures
            final(self)@ == (PeerView { is_interested_sent: true, ..old(self)@ }),
            old(self).is_interested_sent ==> final(out)@ == old(out)@,
            !old(self).is_interested_sent ==> posted(
                old(out)@,
                final(out)@,
                MessageView::Data(old(self).addr, interested_frame()),
            ),
    {
        if self.is_interested_sent {
            return;
        }
        let mut data: Vec<u8> = Vec::new();
        data.push(0);
        data.push(0);
        data.push(0);
        data.push(1);
        data.push(2);
        assert(data@ =~= interested_frame());
        self.write(data, out);
        self.is_interested_sent = true;
    }

    /// Tells the peer that this client wants nothing more, once.
    pub fn send_not_interested(&mut self, out: &mut Vec<Message>)
        ensures
            final(self)@ == (PeerView { is_interested_sent: false, ..old(self)@ }),
            !old(self).is_interested_sent ==> final(out)@ == old(out)@,
            old(self).is_interested_sent ==> posted(
                old(out)@,
                final(out)@,
                MessageView::Data(old(self).addr, not_interested_frame()),
            ),
    {
        if !self.is_interested_sent {
            return;
        }
        let mut data: Vec<u8> = Vec::new();
        data.push(0);
        data.push(0);
        data.push(0);
        data.push(1);
        data.push(3);
        assert(data@ =~= not_interested_frame());
        self.write(data, out);
        self.is_interested_sent = false;
    }

    /// Announces a verified piece to the peer.
    pub fn send_have(&mut self, piece: usize, out: &mut Vec<Message>)
        requires
            piece <= u32::MAX,
        ensures
            final(self)@ == old(self)@,
            posted(
                old(out)@,
                final(out)@,
                MessageView::Data(old(self).addr, have_frame(piece as u32)),
            ),
    {
        let mut data: Vec<u8> = Vec::new();
        data.push(0);
        data.push(0);
        data.push(0);
        data.push(5);
        data.push(4);
        let index = u32_to_byte_slice(piece as u32);
        data.extend_from_slice(index.as_slice());
        assert(data@ =~= have_frame(piece as u32));
        self.write(data, out);
    }

    /// Sends the pieces this client had when the session began.
    pub fn send_bitfield(&mut self, out: &mut Vec<Message>)
        requires
            old(self).bitfield@.len() <= u32::MAX,
        ensures
            final(self)@ == old(self)@,
            posted(
                old(out)@,
                final(out)@,
                MessageView::Data(old(self).addr, bitfield_frame(old(self).bitfield@)),
            ),
    {
        let mut bits: Vec<u8> = Vec::new();
        let mut i: usize = 0;
        while i < self.bitfield.len()
            invariant
                i <= self.bitfield@.len(),
                bits@.len() == i,
                forall|k: int| 0 <= k < i ==> bits@[k] == flags_as_bits(self.bitfield@)[k],
            decreases self.bitfield@.len() - i,
        {
            bits.push(if self.bitfield[i] {
                1
            } else {
                0
            });
            i += 1;
        }
        assert(bits@ =~= flags_as_bits(self.bitfield@));
        let packed = from_bits(bits.as_slice());
        let length: u32 = packed.len() as u32 + 1;
        let mut data: Vec<u8> = u32_to_byte_slice(length);
        data.push(5);
        data.extend_from_slice(packed.as_slice());
        assert(data@ =~= bitfield_frame(self.bitfield@));
        self.write(data, out);
    }

    /// Asks the peer for `length` bytes of piece `index` from offset `begin`
    /// and records the block as requested.
    pub fn send_request(&mut self, index: usize, begin: usize, length: usize, out: &mut Vec<Message>)
        requires
            old(self).wf(),
            index < old(self).is_block_requested@.len(),
            begin / BLOCK_SIZE < old(self).is_block_requested@[index as int]@.len(),
            index <= u32::MAX,
            begin <= u32::MAX,
            length <= u32::MAX,
        ensures
            final(self).wf(),
            final(self)@ == (PeerView {
                is_block_requested: old(self)@.is_block_requested.update(
                    index as int,
                    old(self)@.is_block_requested[index as int].update(
                        (begin / BLOCK_SIZE) as int,
                        true,
                    ),
                ),
                ..old(self)@
            }),
            posted(
                old(out)@,
                final(out)@,
                MessageView::Data(
                    old(self).addr,
                    request_frame(index as u32, begin as u32, length as u32),
                ),
            ),
    {
        let block: usize = begin / BLOCK_SIZE;
        let mut data: Vec<u8> = Vec::new();
        data.push(0);
        data.push(0);
        data.push(0);
        data.push(13);
        data.push(6);
        let a = u32_to_byte_slice(index as u32);
        let b = u32_to_byte_slice(begin as u32);
        let c = u32_to_byte_slice(length as u32);
        data.extend_from_slice(a.as_slice());
        data.extend_from_slice(b.as_slice());
        data.extend_from_slice(c.as_slice());
        assert(data@ =~= request_frame(index as u32, begin as u32, length as u32));
        self.write(data, out);
        let ghost before = rows(self.is_block_requested@);
        self.is_block_requested[index][block] = true;
        proof {
            let row = before[index as int].update(block as int, true);
            assert(rows(self.is_block_requested@) =~= before.update(index as int, row));
            lemma_slots_update(before, index as int, row, before.len() as int);
        }
    }
}


/// How a session and the two queues stand after `e` has come about.
pub open spec fn applied(
    peer: PeerView,
    out_before: Seq<Message>,
    out_after: Seq<Message>,
    blocks_before: Seq<Block>,
    blocks_after: Seq<Block>,
    e: Effects,
) -> bool {
    &&& peer == e.peer
    &&& message_views(out_after) == message_views(out_before) + e.out
    &&& block_views(blocks_after) == block_views(blocks_before) + e.blocks
}

proof fn lemma_posted_one(before: Seq<Message>, after: Seq<Message>, m: MessageView)
    requires
        posted(before, after, m),
    ensures
        message_views(after) == message_views(before) + seq![m],
{
    assert(message_views(before).push(m) =~= message_views(before) + seq![m]);
}

proof fn lemma_nothing_added<T>(s: Seq<T>)
    ensures
        s + Seq::<T>::empty() == s,
{
    assert(s + Seq::<T>::empty() =~= s);
}

fn bit_in(bytes: &[u8], i: usize) -> (set: bool)
    requires
        i / 8 < bytes@.len(),
    ensures
        set == (bits_of(bytes@)[i as int] == 1),
{
    let byte: u8 = bytes[i / 8];
    let j: usize = i % 8;
    let weight: u8 = if j == 0 {
        128
    } else if j == 1 {
        64
    } else if j == 2 {
        32
    } else if j == 3 {
        16
    } else if j == 4 {
        8
    } else if j == 5 {
        4
    } else if j == 6 {
        2
    } else {
        1
    };
    byte / weight % 2 == 1
}

impl Peer {
    /// The kind of an inbound message.
    pub fn get_message_type(&self, message: &Vec<u8>) -> (kind: MessageType)
        ensures
            kind == (if !self.is_handshake_received {
                MessageType::Handshake
            } else if message@.len() == 4 {
                MessageType::KeepAlive
            } else if message@.len() < 5 {
                MessageType::Unknown
            } else {
                message_type_of(message@[4])
            }),
    {
        if !self.is_handshake_received {
            MessageType::Handshake
        } else if message.len() == 4 {
            MessageType::KeepAlive
        } else if message.len() < 5 {
            MessageType::Unknown
        } else {
            MessageType::from_u8(message[4])
        }
    }

    /// Handles a handshake.
    pub fn recv_handshake(&mut self, message: &Vec<u8>, out: &mut Vec<Message>)
        requires
            old(self).wf(),
        ensures
            final(self).wf(),
            final(self)@ == on_handshake(old(self)@, message@).peer,
            message_views(final(out)@) == message_views(old(out)@) + on_handshake(
                old(self)@,
                message@,
            ).out,
    {
        if message.len() != 68 {
            self.disconnect(out);
            proof {
                lemma_posted_one(old(out)@, out@, MessageView::Disconnect(self.addr));
            }
            return;
        }
        let hash = crate::utils::Hash::from_slice(vstd::slice::slice_subrange(message.as_slice(), 28, 48));
        if !hash.same_as(&self.info_hash) {
            self.disconnect(out);
            proof {
                lemma_posted_one(old(out)@, out@, MessageView::Disconnect(self.addr));
            }
            return;
        }
        self.is_handshake_received = true;
        self.send_bitfield(out);
        proof {
            lemma_posted_one(
                old(out)@,
                out@,
                MessageView::Data(self.addr, bitfield_frame(self.bitfield@)),
            );
        }
    }

    /// Handles a keep-alive.
    pub fn recv_keepalive(&mut self, message: &Vec<u8>, out: &mut Vec<Message>)
        ensures
            final(self)@ == old(self)@,
            message@.len() == 4 ==> final(out)@ == old(out)@,
            message@.len() != 4 ==> posted(
                old(out)@,
                final(out)@,
                MessageView::Disconnect(old(self).addr),
            ),
    {
        if message.len() != 4 {
            self.disconnect(out);
        }
    }

    /// Handles a choke.
    pub fn recv_choke(&mut self, message: &Vec<u8>, out: &mut Vec<Message>)
        ensures
            final(self)@ == on_choke(old(self)@, message@, true).peer,
            message_views(final(out)@) == message_views(old(out)@) + on_choke(
                old(self)@,
                message@,
                true,
            ).out,
    {
        if message.len() != 5 {
            self.disconnect(out);
            proof {
                lemma_posted_one(old(out)@, out@, MessageView::Disconnect(self.addr));
            }
            return;
        }
        self.is_choke_received = true;
        proof {
            lemma_nothing_added(message_views(out@));
        }
    }

    /// Handles an unchoke.
    pub fn recv_unchoke(&mut self, message: &Vec<u8>, out: &mut Vec<Message>)
        ensures
            final(self)@ == on_choke(old(self)@, message@, false).peer,
            message_views(final(out)@) == message_views(old(out)@) + on_choke(
                old(self)@,
                message@,
                false,
            ).out,
    {
        if message.len() != 5 {
            self.disconnect(out);
            proof {
                lemma_posted_one(old(out)@, out@, MessageView::Disconnect(self.addr));
            }
            return;
        }
        self.is_choke_received = false;
        proof {
            lemma_nothing_added(message_views(out@));
        }
    }

    /// Handles a have.
    pub fn recv_have(&mut self, message: &Vec<u8>, out: &mut Vec<Message>)
        ensures
            final(self)@ == on_have(old(self)@, message@).peer,
            message_views(final(out)@) == message_views(old(out)@) + on_have(
                old(self)@,
                message@,
            ).out,
    {
        if message.len() == 9 {
            let piece = byte_slice_to_u32(vstd::slice::slice_subrange(message.as_slice(), 5, 9))
                as usize;
            if piece < self.is_piece_downloaded.len() {
                self.is_piece_downloaded[piece] = true;
                proof {
                    lemma_nothing_added(message_views(out@));
                }
                return;
            }
        }
        self.disconnect(out);
        proof {
            lemma_posted_one(old(out)@, out@, MessageView::Disconnect(self.addr));
        }
    }

    /// Handles a bitfield.
    pub fn recv_bitfield(&mut self, message: &Vec<u8>, out: &mut Vec<Message>)
        ensures
            final(self)@ == on_bitfield(old(self)@, message@).peer,
            message_views(final(out)@) == message_views(old(out)@) + on_bitfield(
                old(self)@,
                message@,
            ).out,
    {
        let no_of_pieces: usize = self.is_piece_downloaded.len();
        let expected: usize = no_of_pieces / 8 + (if no_of_pieces % 8 == 0 {
            0
        } else {
            1
        });
        assert(expected == packed_len(no_of_pieces as int));
        if message.len() < 5 || message.len() - 5 != expected {
            self.disconnect(out);
            proof {
                lemma_posted_one(old(out)@, out@, MessageView::Disconnect(self.addr));
            }
            return;
        }
        let payload = vstd::slice::slice_subrange(message.as_slice(), 5, message.len());
        let mut flags: Vec<bool> = Vec::new();
        let mut piece: usize = 0;
        while piece < no_of_pieces
            invariant
                piece <= no_of_pieces,
                payload@.len() == packed_len(no_of_pieces as int),
                flags@.len() == piece,
                forall|k: int| 0 <= k < piece ==> flags@[k] == (bits_of(payload@)[k] == 1),
            decreases no_of_pieces - piece,
        {
            flags.push(bit_in(payload, piece));
            piece += 1;
        }
        assert(flags@ =~= on_bitfield(old(self)@, message@).peer.is_piece_downloaded);
        self.is_piece_downloaded = flags;
        proof {
            lemma_nothing_added(message_views(out@));
        }
    }

    /// Handles a piece: hands the block to storage and clears its request.
    pub fn recv_piece(&mut self, message: &Vec<u8>, out: &mut Vec<Message>, blocks: &mut Vec<Block>)
        requires
            old(self).wf(),
        ensures
            final(self).wf(),
            applied(
                final(self)@,
                old(out)@,
                final(out)@,
                old(blocks)@,
                final(blocks)@,
                on_piece(old(self)@, message@),
            ),
    {
        if message.len() >= 13 {
            let index = byte_slice_to_u32(vstd::slice::slice_subrange(message.as_slice(), 5, 9))
                as usize;
            let begin = byte_slice_to_u32(vstd::slice::slice_subrange(message.as_slice(), 9, 13))
                as usize;
            let block: usize = begin / BLOCK_SIZE;
            if index < self.is_block_requested.len() && block < self.is_block_requested[index].len() {
                let data = vstd::slice::slice_to_vec(
                    vstd::slice::slice_subrange(message.as_slice(), 13, message.len()),
                );
                blocks.push(Block { piece: index, block, data });
                let ghost before = rows(self.is_block_requested@);
                self.is_block_requested[index][block] = false;
                proof {
                    let row = before[index as int].update(block as int, false);
                    assert(rows(self.is_block_requested@) =~= before.update(index as int, row));
                    lemma_slots_update(before, index as int, row, before.len() as int);
                    lemma_nothing_added(message_views(out@));
                    assert(block_views(blocks@) =~= block_views(old(blocks)@) + on_piece(
                        old(self)@,
                        message@,
                    ).blocks);
                }
                return;
            }
        }
        self.disconnect(out);
        proof {
            lemma_posted_one(old(out)@, out@, MessageView::Disconnect(self.addr));
            lemma_nothing_added(block_views(blocks@));
        }
    }

    /// Handles one inbound message at time `now`.
    pub fn handle_message(
        &mut self,
        message: &Vec<u8>,
        now: u64,
        out: &mut Vec<Message>,
        blocks: &mut Vec<Block>,
    )
        requires
            old(self).wf(),
        ensures
            final(self).wf(),
            applied(
                final(self)@,
                old(out)@,
                final(out)@,
                old(blocks)@,
                final(blocks)@,
                handle(old(self)@, message@, now),
            ),
    {
        self.last_active = now;
        proof {
            lemma_nothing_added(message_views(out@));
            lemma_nothing_added(block_views(blocks@));
        }
        if self.is_handshake_received && message.len() != 4 && message.len() < 5 {
            self.disconnect(out);
            proof {
                lemma_posted_one(old(out)@, out@, MessageView::Disconnect(self.addr));
            }
            return;
        }
        match self.get_message_type(message) {
            MessageType::Handshake => self.recv_handshake(message, out),
            MessageType::KeepAlive => self.recv_keepalive(message, out),
            MessageType::Choke => self.recv_choke(message, out),
            MessageType::UnChoke => self.recv_unchoke(message, out),
            MessageType::Have => self.recv_have(message, out),
            MessageType::Bitfield => self.recv_bitfield(message, out),
            MessageType::Piece => self.recv_piece(message, out, blocks),
            _ => {},
        }
    }

    /// Cuts the buffer into messages and handles each, in order, until what
    /// is left is no whole message.
    pub fn process_data(&mut self, now: u64, out: &mut Vec<Message>, blocks: &mut Vec<Block>)
        requires
            old(self).wf(),
        ensures
            final(self).wf(),
            applied(
                final(self)@,
                old(out)@,
                final(out)@,
                old(blocks)@,
                final(blocks)@,
                process(old(self)@, now),
            ),
    {
        let ghost mut sent: Seq<MessageView> = Seq::empty();
        let ghost mut given: Seq<BlockView> = Seq::empty();
        proof {
            lemma_nothing_added(message_views(out@));
            lemma_nothing_added(block_views(blocks@));
            assert(sent + process(self@, now).out =~= process(self@, now).out);
            assert(given + process(self@, now).blocks =~= process(self@, now).blocks);
        }
        loop
            invariant
                self.wf(),
                message_views(out@) == message_views(old(out)@) + sent,
                block_views(blocks@) == block_views(old(blocks)@) + given,
                process(old(self)@, now).peer == process(self@, now).peer,
                process(old(self)@, now).out == sent + process(self@, now).out,
                process(old(self)@, now).blocks == given + process(self@, now).blocks,
            decreases self.data@.len(),
        {
            let n: u64 = self.get_message_length();
            if (self.data.len() as u64) < n {
                proof {
                    lemma_nothing_added(sent);
                    lemma_nothing_added(given);
                }
                return;
            }
            let ghost before = self@;
            proof {
                lemma_step_shortens(before, now);
            }
            let mut message = self.data.split_off(n as usize);
            core::mem::swap(&mut message, &mut self.data);
            let ghost queued = out@;
            let ghost stored = blocks@;
            self.handle_message(&message, now, out, blocks);
            proof {
                let e = step(before, now);
                let rest = process(e.peer, now);
                assert(message_views(out@) =~= message_views(old(out)@) + (sent + e.out));
                assert(block_views(blocks@) =~= block_views(old(blocks)@) + (given + e.blocks));
                assert(sent + (e.out + rest.out) =~= (sent + e.out) + rest.out);
                assert(given + (e.blocks + rest.blocks) =~= (given + e.blocks) + rest.blocks);
                sent = sent + e.out;
                given = given + e.blocks;
            }
        }
    }
}


/// The session with a peer as it is opened at time `now`: nothing received,
/// the handshake sent, the peer taken to choke and to have no piece, nothing
/// requested, and the pieces this client has as they are now.
pub open spec fn opened(addr: PeerAddr, torrent: &Torrent, now: u64) -> PeerView {
    PeerView {
        addr,
        info_hash: torrent.info_hash@,
        data: Seq::empty(),
        last_active: now,
        last_keepalive: now,
        is_handshake_received: false,
        is_handshake_sent: true,
        is_interested_sent: false,
        is_choke_received: true,
        is_piece_downloaded: all_flags(torrent.no_of_pieces as int, false),
        is_block_requested: Seq::new(
            torrent.no_of_pieces as nat,
            |p: int| all_flags(block_count(torrent.total(), torrent.piece_size as int, p), false),
        ),
        bitfield: torrent.is_piece_downloaded@,
    }
}

proof fn lemma_slots_of_geometry(table: Seq<Seq<bool>>, total: int, piece_size: int, n: int)
    requires
        0 <= n <= table.len(),
        forall|p: int| 0 <= p < n ==> (#[trigger] table[p]).len() == block_count(total, piece_size, p),
    ensures
        slots(table, n) == block_slots(total, piece_size, n),
    decreases n,
{
    if n > 0 {
        lemma_slots_of_geometry(table, total, piece_size, n - 1);
    }
}

impl Peer {
    /// Opens the session with a peer and sends the handshake.
    pub fn new(addr: PeerAddr, torrent: &Torrent, now: u64, out: &mut Vec<Message>) -> (peer: Peer)
        requires
            torrent.geometry_ok(),
            torrent.is_piece_downloaded@.len() == torrent.no_of_pieces,
        ensures
            peer@ == opened(addr, torrent, now),
            torrent.fits(peer@),
            posted(
                old(out)@,
                final(out)@,
                MessageView::Data(addr, handshake_frame(torrent.info_hash@)),
            ),
    {
        let mut requested: Vec<Vec<bool>> = Vec::new();
        let mut piece: usize = 0;
        while piece < torrent.no_of_pieces
            invariant
                piece <= torrent.no_of_pieces,
                torrent.geometry_ok(),
                requested@.len() == piece,
                forall|p: int|
                    0 <= p < piece ==> (#[trigger] requested@[p])@ == all_flags(
                        block_count(torrent.total(), torrent.piece_size as int, p),
                        false,
                    ),
            decreases torrent.no_of_pieces - piece,
        {
            requested.push(make_flags(torrent.get_block_count(piece), false));
            piece += 1;
        }
        let mut bitfield: Vec<bool> = Vec::new();
        let mut i: usize = 0;
        while i < torrent.is_piece_downloaded.len()
            invariant
                i <= torrent.is_piece_downloaded@.len(),
                bitfield@ == torrent.is_piece_downloaded@.subrange(0, i as int),
            decreases torrent.is_piece_downloaded@.len() - i,
        {
            bitfield.push(torrent.is_piece_downloaded[i]);
            i += 1;
            assert(bitfield@ =~= torrent.is_piece_downloaded@.subrange(0, i as int));
        }
        assert(bitfield@ =~= torrent.is_piece_downloaded@);
        let mut p = Peer {
            addr,
            info_hash: torrent.info_hash,
            data: Vec::new(),
            last_active: now,
            last_keepalive: now,
            is_handshake_received: false,
            is_handshake_sent: false,
            is_interested_sent: false,
            is_choke_received: true,
            is_piece_downloaded: make_flags(torrent.no_of_pieces, false),
            is_block_requested: requested,
            bitfield,
        };
        proof {
            assert(p@.is_block_requested =~= opened(addr, torrent, now).is_block_requested);
            assert(p@.data =~= Seq::<u8>::empty());
            lemma_slots_of_geometry(
                p@.is_block_requested,
                torrent.total(),
                torrent.piece_size as int,
                torrent.no_of_pieces as int,
            );
            lemma_block_slots_bound(
                torrent.total(),
                torrent.piece_size as int,
                torrent.no_of_pieces as int,
            );
        }
        p.send_handshake(out);
        p
    }
}


/// True when two states of a session have the same address and tables of the
/// same sizes, and the same pieces to offer.
pub open spec fn same_shape(p: PeerView, q: PeerView) -> bool {
    &&& q.addr == p.addr
    &&& q.info_hash == p.info_hash
    &&& q.bitfield == p.bitfield
    &&& q.is_piece_downloaded.len() == p.is_piece_downloaded.len()
    &&& q.is_block_requested.len() == p.is_block_requested.len()
    &&& forall|r: int|
        0 <= r < p.is_block_requested.len() ==> (#[trigger] q.is_block_requested[r]).len()
            == p.is_block_requested[r].len()
}

/// Handling a message keeps the shape of the session.
pub proof fn lemma_handle_shape(p: PeerView, frame: Seq<u8>, now: u64)
    ensures
        same_shape(p, handle(p, frame, now).peer),
{
}

/// Handling the buffer keeps the shape of the session.
pub proof fn lemma_process_shape(p: PeerView, now: u64)
    ensures
        same_shape(p, process(p, now).peer),
    decreases p.data.len(),
{
    if can_step(p) {
        lemma_step_shortens(p, now);
        let n = next_frame_len(p);
        lemma_handle_shape(
            PeerView { data: p.data.subrange(n, p.data.len() as int), ..p },
            p.data.subrange(0, n),
            now,
        );
        lemma_process_shape(step(p, now).peer, now);
    }
}


proof fn lemma_slots_same(a: Seq<Seq<bool>>, b: Seq<Seq<bool>>, n: int)
    requires
        a.len() == b.len(),
        0 <= n <= a.len(),
        forall|r: int| 0 <= r < a.len() ==> (#[trigger] b[r]).len() == a[r].len(),
    ensures
        slots(a, n) == slots(b, n),
    decreases n,
{
    if n > 0 {
        lemma_slots_same(a, b, n - 1);
    }
}

/// A session that keeps its shape keeps its invariant.
pub proof fn lemma_shape_wf(p: PeerView, q: PeerView)
    requires
        p.wf(),
        same_shape(p, q),
    ensures
        q.wf(),
{
    lemma_slots_same(p.is_block_requested, q.is_block_requested, p.is_block_requested.len() as int);
}

} // verus!
