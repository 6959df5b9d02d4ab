use crate::bitfield::{bit_count, bit_of, BitField};
use crate::messages::{handshake_fields, Handshake, Message};
use crate::torrent::{
    fill_step, next_blocks, PieceIndexOffsetLength, Torrent, TorrentView,
};
use crate::util::bytes_equal;
use vstd::prelude::*;

verus! {

/// How many block requests one connection keeps outstanding at most.
pub const MAX_IN_PROGRESS_REQUESTS_PER_CONNECTION: usize = 5;

/// Why a connection could not be set up.
#[derive(Debug, PartialEq, Eq, Clone, Copy)]
pub enum SendError {
    HandshakeParse,
    Write,
    ReturnHandshakeRead,
    ReturnHandshakeReadTimeOut,
    Connect,
    UnexpectedInfoHashOrPeerId,
}

/// Why the handshake exchange failed on the wire: our frame could not be
/// written, or the reply could not be read in full (with what had arrived).
#[derive(Debug, PartialEq, Eq, Clone, Copy)]
pub enum HandshakeError {
    TcpWrite,
    TcpReturnHandshakeRead([u8; 68]),
}

impl HandshakeError {
    /// The connection-setup error that this failure amounts to.
    pub fn send_error(&self) -> (r: SendError)
        ensures
            *self == HandshakeError::TcpWrite ==> r == SendError::Write,
            *self is TcpReturnHandshakeRead ==> r == SendError::ReturnHandshakeRead,
    {
        match self {
            HandshakeError::TcpWrite => SendError::Write,
            HandshakeError::TcpReturnHandshakeRead(_) => SendError::ReturnHandshakeRead,
        }
    }
}

/// Why declaring interest failed: the frame could not be written.
#[derive(Debug, PartialEq, Eq, Clone, Copy)]
pub enum InterestedError {
    TcpWrite,
}

/// What handling one message found out about the peer.
#[derive(Debug, PartialEq, Eq, Clone, Copy)]
pub enum MessageResult {
    Accepted,
    BadPeerHave,
    BadPeerPiece,
    BadPeerRequest,
}

/// The local side of one peer connection.
#[derive(Debug)]
pub struct ConnectionState {
    /// We have told the peer that we are interested.
    pub is_local_interested: bool,
    /// The peer is not serving us.
    pub is_choked: bool,
    /// The pieces the peer has, once it has told us.
    pub bitfield: Option<BitField>,
    /// Requests sent and not yet answered.
    pub in_progress_requests: usize,
}

impl ConnectionState {
    /// The state right after the handshake: choked, not interested, no
    /// bitfield, nothing requested.
    pub fn new() -> (r: ConnectionState)
        ensures
            !r.is_local_interested,
            r.is_choked,
            r.bitfield is None,
            r.in_progress_requests == 0,
    {
        ConnectionState {
            is_local_interested: false,
            is_choked: true,
            bitfield: None,
            in_progress_requests: 0,
        }
    }
}

/// Checks the peer's handshake reply: it must parse, carry our info-hash,
/// and carry the peer id that the tracker gave for this peer, when it gave
/// one.
pub fn check_handshake_reply(reply: &[u8], info_hash: &[u8], expected_peer_id: Option<&[u8]>) -> (r:
    Result<(), SendError>)
    ensures
        match handshake_fields(reply@) {
            Err(_) => r == Err::<(), SendError>(SendError::HandshakeParse),
            Ok((hash, id)) => if hash == info_hash@ && (expected_peer_id matches Some(e) ==> id
                == e@) {
                r is Ok
            } else {
                r == Err::<(), SendError>(SendError::UnexpectedInfoHashOrPeerId)
            },
        },
{
    let reply = match Handshake::new(reply) {
        Ok(h) => h,
        Err(_) => {
            return Err(SendError::HandshakeParse);
        },
    };
    if !bytes_equal(reply.info_hash.as_slice(), info_hash) {
        return Err(SendError::UnexpectedInfoHashOrPeerId);
    }
    match expected_peer_id {
        Some(id) => {
            if !bytes_equal(reply.peer_id.as_slice(), id) {
                return Err(SendError::UnexpectedInfoHashOrPeerId);
            }
        },
        None => {},
    }
    Ok(())
}

/// Whether a request stays inside a piece of the torrent.
pub open spec fn valid_request(t: crate::torrent::TorrentView, m: Message) -> bool {
    m matches Message::Request { index, begin, length } && index < t.total_pieces && begin
        + length <= t.piece_size(index as int)
}

pub open spec fn request_message(b: PieceIndexOffsetLength) -> Message {
    Message::Request { index: b.0, begin: b.1, length: b.2 }
}

/// The requests that fill the pipeline of connection `c`, and the
/// scheduler's state after them: nothing while the peer chokes us, before
/// it has sent its bitfield, or with the pipeline full; otherwise one
/// hand-out per free slot, for as long as the scheduler has blocks the peer
/// advertises.
pub open spec fn pipeline(v: TorrentView, c: ConnectionState) -> (Seq<Message>, TorrentView) {
    if c.is_choked || c.bitfield is None || c.in_progress_requests
        >= MAX_IN_PROGRESS_REQUESTS_PER_CONNECTION {
        (Seq::empty(), v)
    } else {
        let (blocks, w) = next_blocks(
            v,
            c.bitfield->Some_0@,
            (MAX_IN_PROGRESS_REQUESTS_PER_CONNECTION - c.in_progress_requests) as nat,
        );
        (blocks.map_values(|b: PieceIndexOffsetLength| request_message(b)), w)
    }
}

/// Fills the request pipeline: while the peer serves us and fewer than
/// `MAX_IN_PROGRESS_REQUESTS_PER_CONNECTION` requests are outstanding, asks
/// the scheduler for a block the peer has and returns a request for it.
pub fn request_blocks(torrent: &mut Torrent, connection: &mut ConnectionState) -> (out: Vec<
    Message,
>)
    requires
        old(torrent).wf(),
    ensures
        final(torrent).wf(),
        (out@, final(torrent)@) == pipeline(old(torrent)@, *old(connection)),
        final(torrent)@.total_pieces == old(torrent)@.total_pieces,
        final(torrent)@.piece_length == old(torrent)@.piece_length,
        final(torrent)@.total_length == old(torrent)@.total_length,
        final(torrent)@.done == old(torrent)@.done,
        final(torrent)@.buffer == old(torrent)@.buffer,
        final(torrent)@.repeats == old(torrent)@.repeats,
        final(torrent)@.arrivals == old(torrent)@.arrivals,
        final(connection).is_choked == old(connection).is_choked,
        final(connection).is_local_interested == old(connection).is_local_interested,
        final(connection).bitfield == old(connection).bitfield,
        final(connection).in_progress_requests == old(connection).in_progress_requests
            + out@.len(),
        forall|i: int| 0 <= i < out@.len() ==> valid_request(final(torrent)@, #[trigger] out@[i]),
{
    let mut out: Vec<Message> = Vec::new();
    if connection.is_choked || connection.in_progress_requests
        >= MAX_IN_PROGRESS_REQUESTS_PER_CONNECTION {
        assert(out@ =~= Seq::<Message>::empty());
        return out;
    }
    let bitfield = match &connection.bitfield {
        Some(bf) => bf,
        None => {
            assert(out@ =~= Seq::<Message>::empty());
            return out;
        },
    };
    let ghost t0 = torrent@;
    let ghost bits = bitfield@;
    let ghost n0 = (MAX_IN_PROGRESS_REQUESTS_PER_CONNECTION
        - old(connection).in_progress_requests) as nat;
    let ghost handed: Seq<PieceIndexOffsetLength> = Seq::empty();
    let mut count = connection.in_progress_requests;
    let mut more = true;
    assert(handed + next_blocks(t0, bits, n0).0 =~= next_blocks(t0, bits, n0).0);
    while more && count < MAX_IN_PROGRESS_REQUESTS_PER_CONNECTION
        invariant
            !more ==> next_blocks(
                torrent@,
                bits,
                (MAX_IN_PROGRESS_REQUESTS_PER_CONNECTION - count) as nat,
            ).0 == Seq::<PieceIndexOffsetLength>::empty(),
            torrent.wf(),
            bits == bitfield@,
            torrent@.total_pieces == t0.total_pieces,
            torrent@.piece_length == t0.piece_length,
            torrent@.total_length == t0.total_length,
            torrent@.done == t0.done,
            torrent@.buffer == t0.buffer,
            torrent@.repeats == t0.repeats,
            torrent@.arrivals == t0.arrivals,
            old(connection).in_progress_requests <= count <= MAX_IN_PROGRESS_REQUESTS_PER_CONNECTION,
            count == old(connection).in_progress_requests + out@.len(),
            n0 == MAX_IN_PROGRESS_REQUESTS_PER_CONNECTION - old(connection).in_progress_requests,
            out@ == handed.map_values(|b: PieceIndexOffsetLength| request_message(b)),
            next_blocks(t0, bits, n0) == (
                handed + next_blocks(
                    torrent@,
                    bits,
                    (MAX_IN_PROGRESS_REQUESTS_PER_CONNECTION - count) as nat,
                ).0,
                next_blocks(torrent@, bits, (MAX_IN_PROGRESS_REQUESTS_PER_CONNECTION - count) as nat).1,
            ),
            forall|i: int| 0 <= i < out@.len() ==> valid_request(torrent@, #[trigger] out@[i]),
        decreases MAX_IN_PROGRESS_REQUESTS_PER_CONNECTION - count + if more {
            1int
        } else {
            0int
        },
    {
        let ghost before = torrent@;
        let ghost remaining = (MAX_IN_PROGRESS_REQUESTS_PER_CONNECTION - count) as nat;
        match torrent.get_next_block(bitfield) {
            Some(PieceIndexOffsetLength(index, begin, length)) => {
                let ghost b = PieceIndexOffsetLength(index, begin, length);
                proof {
                    let rest = next_blocks(torrent@, bits, (remaining - 1) as nat);
                    assert(next_blocks(before, bits, remaining) == (seq![b] + rest.0, rest.1));
                    assert(handed + (seq![b] + rest.0) =~= handed.push(b) + rest.0);
                    assert(handed.push(b).map_values(|b: PieceIndexOffsetLength| request_message(b))
                        =~= out@.push(request_message(b)));
                    handed = handed.push(b);
                }
                out.push(Message::Request { index, begin, length });
                count = count + 1;
            },
            None => {
                more = false;
            },
        }
    }
    proof {
        let remaining = (MAX_IN_PROGRESS_REQUESTS_PER_CONNECTION - count) as nat;
        if more {
            assert(next_blocks(torrent@, bits, remaining).0 =~= Seq::<PieceIndexOffsetLength>::empty());
        }
        assert(handed + Seq::<PieceIndexOffsetLength>::empty() =~= handed);
    }
    connection.in_progress_requests = count;
    out
}

/// The bitfield after a `have` for `index`: that bit set when it exists, the
/// other bits and the length as they were.
pub open spec fn have_applied(before: BitField, after: Option<BitField>, index: u32) -> bool {
    after matches Some(bf) && bf@.len() == before@.len() && forall|i: int|
        0 <= i < bit_count(before@) ==> #[trigger] bit_of(bf@, i) == (bit_of(before@, i) || (i
            == index && index < bit_count(before@)))
}

/// Declares interest unless already declared; the message to send, if any.
fn ensure_interested(connection: &mut ConnectionState, out: &mut Vec<Message>)
    ensures
        final(connection).is_local_interested,
        final(connection).is_choked == old(connection).is_choked,
        final(connection).bitfield == old(connection).bitfield,
        final(connection).in_progress_requests == old(connection).in_progress_requests,
        final(out)@ == if old(connection).is_local_interested {
            old(out)@
        } else {
            old(out)@.push(Message::Interested)
        },
{
    if !connection.is_local_interested {
        connection.is_local_interested = true;
        out.push(Message::Interested);
    }
}

/// Handles one message from the peer and returns the verdict and the
/// messages to send back.
///
/// keep-alive: echoed. choke / unchoke: the choked flag follows; unchoking
/// fills the request pipeline. have: the index must name a piece; its bit is
/// set and interest declared. bitfield: adopted as is, and interest
/// declared. request: the index must name a piece (nothing is served).
/// piece: the data must be non-empty and the index must name a piece; the
/// block goes to the scheduler (which absorbs or discards it), the
/// outstanding count drops and the pipeline is refilled.
pub fn process_message(torrent: &mut Torrent, connection: &mut ConnectionState, message: Message) -> (r: (
    MessageResult,
    Vec<Message>,
))
    requires
        old(torrent).wf(),
    ensures
        final(torrent).wf(),
        final(torrent)@.total_pieces == old(torrent)@.total_pieces,
        forall|i: int| 0 <= i < r.1@.len() ==> (#[trigger] r.1@[i] is Request ==> valid_request(
            final(torrent)@,
            r.1@[i],
        )),
        match message {
            Message::KeepAlive => r.0 == MessageResult::Accepted && r.1@ == seq![
                Message::KeepAlive,
            ] && *final(torrent) == *old(torrent) && *final(connection) == *old(connection),
            Message::Choke => {
                &&& r.0 == MessageResult::Accepted
                &&& r.1@.len() == 0
                &&& *final(torrent) == *old(torrent)
                &&& *final(connection) == ConnectionState { is_choked: true, ..*old(connection) }
            },
            Message::UnChoke => {
                &&& r.0 == MessageResult::Accepted
                &&& !final(connection).is_choked
                &&& final(connection).is_local_interested == old(connection).is_local_interested
                &&& final(connection).bitfield == old(connection).bitfield
                &&& (r.1@, final(torrent)@) == pipeline(
                    old(torrent)@,
                    ConnectionState { is_choked: false, ..*old(connection) },
                )
                &&& final(connection).in_progress_requests == old(connection).in_progress_requests
                    + r.1@.len()
            },
            Message::Interested | Message::NotInterested | Message::Cancel { .. } => r.0
                == MessageResult::Accepted && r.1@.len() == 0 && *final(torrent) == *old(torrent)
                && *final(connection) == *old(connection),
            Message::Have { index } => if index >= old(torrent)@.total_pieces {
                &&& r.0 == MessageResult::BadPeerHave
                &&& r.1@.len() == 0
                &&& *final(torrent) == *old(torrent)
                &&& *final(connection) == *old(connection)
            } else {
                &&& r.0 == MessageResult::Accepted
                &&& *final(torrent) == *old(torrent)
                &&& final(connection).is_local_interested
                &&& final(connection).is_choked == old(connection).is_choked
                &&& final(connection).in_progress_requests == old(connection).in_progress_requests
                &&& r.1@ == if old(connection).is_local_interested {
                    Seq::<Message>::empty()
                } else {
                    seq![Message::Interested]
                }
                &&& old(connection).bitfield is None ==> final(connection).bitfield is None
                &&& old(connection).bitfield is Some ==> have_applied(
                    old(connection).bitfield->Some_0,
                    final(connection).bitfield,
                    index,
                )
            },
            Message::BitField(bytes) => {
                &&& r.0 == MessageResult::Accepted
                &&& *final(torrent) == *old(torrent)
                &&& final(connection).bitfield matches Some(bf) && bf@ == bytes@
                &&& final(connection).is_local_interested
                &&& final(connection).is_choked == old(connection).is_choked
                &&& final(connection).in_progress_requests == old(connection).in_progress_requests
                &&& r.1@ == if old(connection).is_local_interested {
                    Seq::<Message>::empty()
                } else {
                    seq![Message::Interested]
                }
            },
            Message::Request { index, .. } => r.1@.len() == 0 && *final(torrent) == *old(torrent)
                && *final(connection) == *old(connection) && r.0 == if index >= old(
                torrent,
            )@.total_pieces {
                MessageResult::BadPeerRequest
            } else {
                MessageResult::Accepted
            },
            Message::Piece { index, offset, data } => if data@.len() == 0 || index
                >= old(torrent)@.total_pieces {
                &&& r.0 == MessageResult::BadPeerPiece
                &&& r.1@.len() == 0
                &&& *final(torrent) == *old(torrent)
                &&& *final(connection) == *old(connection)
            } else {
                let mid = fill_step(old(torrent)@, index, offset, data@).1;
                let c = ConnectionState {
                    in_progress_requests: if old(connection).in_progress_requests > 0 {
                        (old(connection).in_progress_requests - 1) as usize
                    } else {
                        0
                    },
                    ..*old(connection)
                };
                &&& r.0 == MessageResult::Accepted
                &&& (r.1@, final(torrent)@) == pipeline(mid, c)
                &&& final(connection).is_choked == old(connection).is_choked
                &&& final(connection).is_local_interested == old(connection).is_local_interested
                &&& final(connection).bitfield == old(connection).bitfield
                &&& final(connection).in_progress_requests == c.in_progress_requests + r.1@.len()
            },
        },
{
    let mut out: Vec<Message> = Vec::new();
    match message {
        Message::KeepAlive => {
            out.push(Message::KeepAlive);
            (MessageResult::Accepted, out)
        },
        Message::Choke => {
            connection.is_choked = true;
            (MessageResult::Accepted, out)
        },
        Message::UnChoke => {
            connection.is_choked = false;
            let requests = request_blocks(torrent, connection);
            (MessageResult::Accepted, requests)
        },
        Message::Interested => (MessageResult::Accepted, out),
        Message::NotInterested => (MessageResult::Accepted, out),
        Message::Cancel { .. } => (MessageResult::Accepted, out),
        Message::Have { index } => {
            if index >= torrent.total_pieces() {
                return (MessageResult::BadPeerHave, out);
            }
            match &mut connection.bitfield {
                Some(bf) => {
                    let _ = bf.set(index as usize);
                },
                None => {},
            }
            ensure_interested(connection, &mut out);
            (MessageResult::Accepted, out)
        },
        Message::BitField(bytes) => {
            connection.bitfield = Some(BitField::new(bytes));
            ensure_interested(connection, &mut out);
            (MessageResult::Accepted, out)
        },
        Message::Request { index, .. } => {
            if index >= torrent.total_pieces() {
                (MessageResult::BadPeerRequest, out)
            } else {
                (MessageResult::Accepted, out)
            }
        },
        Message::Piece { index, offset, data } => {
            if data.len() == 0 || index >= torrent.total_pieces() {
                return (MessageResult::BadPeerPiece, out);
            }
            let _ = torrent.fill_block((index, offset, data.as_slice()));
            if connection.in_progress_requests > 0 {
                connection.in_progress_requests = connection.in_progress_requests - 1;
            }
            let requests = request_blocks(torrent, connection);
            (MessageResult::Accepted, requests)
        },
    }
}

} // verus!
