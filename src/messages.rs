use crate::util::{be_bytes, be_u32_at, push_all, push_be_u32};
use vstd::prelude::*;
use vstd::slice::{slice_subrange, slice_to_vec};
use vstd::utf8::valid_utf8;

verus! {

pub const P_STR_LEN: u8 = 19;

/// Length of a handshake frame.
pub const HANDSHAKE_LEN: usize = 68;

/// The protocol name that opens a handshake, as bytes.
pub open spec fn protocol_name() -> Seq<u8> {
    seq![
        66u8, 105u8, 116u8, 84u8, 111u8, 114u8, 114u8, 101u8, 110u8, 116u8, 32u8, 112u8,
        114u8, 111u8, 116u8, 111u8, 99u8, 111u8, 108u8,
    ]
}

#[derive(Debug)]
pub struct Handshake {
    pub info_hash: Vec<u8>,
    pub peer_id: Vec<u8>,
}

#[derive(Debug, PartialEq, Eq)]
pub enum HandshakeParseError {
    PStrLen,
    PStr,
    ReservedBytes,
    InfoHash,
    PeerId,
}

#[derive(Debug, PartialEq, Eq)]
pub enum Message {
    KeepAlive,
    Choke,
    UnChoke,
    Interested,
    NotInterested,
    Have { index: u32 },
    BitField(Vec<u8>),
    Request { index: u32, begin: u32, length: u32 },
    Piece { index: u32, offset: u32, data: Vec<u8> },
    Cancel { index: u32, begin: u32, length: u32 },
}

/// Why a frame could not be read or understood. The first group classifies
/// an I/O failure while reading; the rest are protocol violations.
#[derive(Debug, PartialEq, Eq, Clone, Copy)]
pub enum MessageParseError {
    ConnectionRefused,
    ConnectionReset,
    ConnectionAborted,
    WouldBlock,
    TimedOut,
    WriteZero,
    Interrupted,
    UnexpectedEof,
    WildWildWest,
    MessageRead,
    PrefixLenConvert,
    Id(u8),
    IdMissing,
    Have,
    Request,
    Piece,
    Cancel,
}

impl MessageParseError {
    /// A timed-out or would-block read is retried; every other failure ends
    /// the connection.
    pub fn is_benign(&self) -> (r: bool)
        ensures
            r <==> (*self == MessageParseError::WouldBlock || *self
                == MessageParseError::TimedOut),
    {
        match self {
            MessageParseError::WouldBlock => true,
            MessageParseError::TimedOut => true,
            _ => false,
        }
    }
}

/// A frame: its big-endian length, its id, then its body.
pub open spec fn frame(id: u8, body: Seq<u8>) -> Seq<u8> {
    be_bytes((body.len() + 1) as u32) + seq![id] + body
}

/// Whether the frame's length fits its 4-byte prefix.
pub open spec fn fits_frame(m: Message) -> bool {
    match m {
        Message::BitField(bf) => bf@.len() + 1 <= u32::MAX,
        Message::Piece { data, .. } => data@.len() + 9 <= u32::MAX,
        _ => true,
    }
}

/// The bytes of a message on the wire.
pub open spec fn wire(m: Message) -> Seq<u8> {
    match m {
        Message::KeepAlive => be_bytes(0),
        Message::Choke => frame(0, Seq::empty()),
        Message::UnChoke => frame(1, Seq::empty()),
        Message::Interested => frame(2, Seq::empty()),
        Message::NotInterested => frame(3, Seq::empty()),
        Message::Have { index } => frame(4, be_bytes(index)),
        Message::BitField(bf) => frame(5, bf@),
        Message::Request { index, begin, length } => frame(
            6,
            be_bytes(index) + be_bytes(begin) + be_bytes(length),
        ),
        Message::Piece { index, offset, data } => frame(
            7,
            be_bytes(index) + be_bytes(offset) + data@,
        ),
        Message::Cancel { index, begin, length } => frame(
            8,
            be_bytes(index) + be_bytes(begin) + be_bytes(length),
        ),
    }
}

/// The bytes of a handshake frame.
pub open spec fn handshake_wire(info_hash: Seq<u8>, peer_id: Seq<u8>) -> Seq<u8> {
    seq![19u8] + protocol_name() + Seq::new(8, |i: int| 0u8) + info_hash + peer_id
}

fn push_frame_head(out: &mut Vec<u8>, body_len: usize, id: u8)
    requires
        body_len + 1 <= u32::MAX,
    ensures
        final(out)@ == old(out)@ + be_bytes((body_len + 1) as u32) + seq![id],
{
    push_be_u32(out, (body_len + 1) as u32);
    out.push(id);
    assert(final(out)@ =~= old(out)@ + be_bytes((body_len + 1) as u32) + seq![id]);
}

impl Message {
    pub fn serialize(&self) -> (r: Vec<u8>)
        requires
            fits_frame(*self),
        ensures
            r@ == wire(*self),
    {
        let mut out: Vec<u8> = Vec::new();
        match self {
            Message::KeepAlive => {
                push_be_u32(&mut out, 0);
            },
            Message::Choke => {
                push_frame_head(&mut out, 0, 0);
            },
            Message::UnChoke => {
                push_frame_head(&mut out, 0, 1);
            },
            Message::Interested => {
                push_frame_head(&mut out, 0, 2);
            },
            Message::NotInterested => {
                push_frame_head(&mut out, 0, 3);
            },
            Message::Have { index } => {
                push_frame_head(&mut out, 4, 4);
                push_be_u32(&mut out, *index);
            },
            Message::BitField(bf) => {
                push_frame_head(&mut out, bf.len(), 5);
                push_all(&mut out, bf.as_slice());
            },
            Message::Request { index, begin, length } => {
                push_frame_head(&mut out, 12, 6);
                push_be_u32(&mut out, *index);
                push_be_u32(&mut out, *begin);
                push_be_u32(&mut out, *length);
            },
            Message::Piece { index, offset, data } => {
                push_frame_head(&mut out, data.len() + 8, 7);
                push_be_u32(&mut out, *index);
                push_be_u32(&mut out, *offset);
                push_all(&mut out, data.as_slice());
            },
            Message::Cancel { index, begin, length } => {
                push_frame_head(&mut out, 12, 8);
                push_be_u32(&mut out, *index);
                push_be_u32(&mut out, *begin);
                push_be_u32(&mut out, *length);
            },
        }
        assert(out@ =~= wire(*self));
        out
    }

    /// Parses the `prefix_len` bytes that followed a length prefix.
    pub fn new(bytes: &[u8], prefix_len: u32) -> (r: Result<Message, MessageParseError>)
        requires
            bytes@.len() == prefix_len,
        ensures
            prefix_len == 0 ==> r == Ok::<Message, MessageParseError>(Message::KeepAlive),
            prefix_len > 0 ==> ({
                let s = bytes@;
                let id = s[0];
                &&& id == 0 ==> r == Ok::<Message, MessageParseError>(Message::Choke)
                &&& id == 1 ==> r == Ok::<Message, MessageParseError>(Message::UnChoke)
                &&& id == 2 ==> r == Ok::<Message, MessageParseError>(Message::Interested)
                &&& id == 3 ==> r == Ok::<Message, MessageParseError>(Message::NotInterested)
                &&& id == 4 ==> if s.len() < 5 {
                    r == Err::<Message, MessageParseError>(MessageParseError::Have)
                } else {
                    r == Ok::<Message, MessageParseError>(
                        Message::Have { index: be_u32_at(s, 1) as u32 },
                    )
                }
                &&& id == 5 ==> (r matches Ok(Message::BitField(bf)) && bf@ == s.subrange(
                    1,
                    s.len() as int,
                ))
                &&& id == 6 ==> if s.len() < 13 {
                    r == Err::<Message, MessageParseError>(MessageParseError::Request)
                } else {
                    r == Ok::<Message, MessageParseError>(
                        Message::Request {
                            index: be_u32_at(s, 1) as u32,
                            begin: be_u32_at(s, 5) as u32,
                            length: be_u32_at(s, 9) as u32,
                        },
                    )
                }
                &&& id == 7 ==> if s.len() < 9 {
                    r == Err::<Message, MessageParseError>(MessageParseError::Piece)
                } else {
                    (r matches Ok(Message::Piece { index, offset, data }) && index == be_u32_at(
                        s,
                        1,
                    ) && offset == be_u32_at(s, 5) && data@ == s.subrange(9, s.len() as int))
                }
                &&& id == 8 ==> if s.len() < 13 {
                    r == Err::<Message, MessageParseError>(MessageParseError::Cancel)
                } else {
                    r == Ok::<Message, MessageParseError>(
                        Message::Cancel {
                            index: be_u32_at(s, 1) as u32,
                            begin: be_u32_at(s, 5) as u32,
                            length: be_u32_at(s, 9) as u32,
                        },
                    )
                }
                &&& id > 8 ==> r == Err::<Message, MessageParseError>(MessageParseError::Id(id))
            }),
    {
        if prefix_len == 0 {
            return Ok(Message::KeepAlive);
        }
        let id = bytes[0];
        let len = bytes.len();
        if id == 0 {
            Ok(Message::Choke)
        } else if id == 1 {
            Ok(Message::UnChoke)
        } else if id == 2 {
            Ok(Message::Interested)
        } else if id == 3 {
            Ok(Message::NotInterested)
        } else if id == 4 {
            if len < 5 {
                Err(MessageParseError::Have)
            } else {
                Ok(Message::Have { index: read_u32_at(bytes, 1) })
            }
        } else if id == 5 {
            Ok(Message::BitField(slice_to_vec(slice_subrange(bytes, 1, len))))
        } else if id == 6 {
            if len < 13 {
                Err(MessageParseError::Request)
            } else {
                Ok(
                    Message::Request {
                        index: read_u32_at(bytes, 1),
                        begin: read_u32_at(bytes, 5),
                        length: read_u32_at(bytes, 9),
                    },
                )
            }
        } else if id == 7 {
            if len < 9 {
                Err(MessageParseError::Piece)
            } else {
                Ok(
                    Message::Piece {
                        index: read_u32_at(bytes, 1),
                        offset: read_u32_at(bytes, 5),
                        data: slice_to_vec(slice_subrange(bytes, 9, len)),
                    },
                )
            }
        } else if id == 8 {
            if len < 13 {
                Err(MessageParseError::Cancel)
            } else {
                Ok(
                    Message::Cancel {
                        index: read_u32_at(bytes, 1),
                        begin: read_u32_at(bytes, 5),
                        length: read_u32_at(bytes, 9),
                    },
                )
            }
        } else {
            Err(MessageParseError::Id(id))
        }
    }
}

/// The big-endian `u32` at `i`.
fn read_u32_at(bytes: &[u8], i: usize) -> (r: u32)
    requires
        i + 4 <= bytes@.len(),
    ensures
        r == be_u32_at(bytes@, i as int),
{
    bytes[i] as u32 * 16777216 + bytes[i + 1] as u32 * 65536 + bytes[i + 2] as u32 * 256
        + bytes[i + 3] as u32
}

/// The info-hash and peer id of a handshake frame, or why it is malformed.
pub open spec fn handshake_fields(s: Seq<u8>) -> Result<(Seq<u8>, Seq<u8>), HandshakeParseError> {
    let n = s[0] as int;
    if s.len() < 1 {
        Err(HandshakeParseError::PStrLen)
    } else if s.len() < 1 + n || !valid_utf8(s.subrange(1, 1 + n)) {
        Err(HandshakeParseError::PStr)
    } else if s.len() < 1 + n + 8 {
        Err(HandshakeParseError::ReservedBytes)
    } else if s.len() < 1 + n + 28 {
        Err(HandshakeParseError::InfoHash)
    } else if s.len() < 1 + n + 48 {
        Err(HandshakeParseError::PeerId)
    } else {
        Ok((s.subrange(1 + n + 8, 1 + n + 28), s.subrange(1 + n + 28, 1 + n + 48)))
    }
}

fn protocol_name_bytes() -> (r: Vec<u8>)
    ensures
        r@ == protocol_name(),
{
    let r: Vec<u8> = vec![
        66u8, 105u8, 116u8, 84u8, 111u8, 114u8, 114u8, 101u8, 110u8, 116u8, 32u8, 112u8,
        114u8, 111u8, 116u8, 111u8, 99u8, 111u8, 108u8,
    ];
    assert(r@ =~= protocol_name());
    r
}

impl Handshake {
    pub fn serialize(&self) -> (r: Vec<u8>)
        ensures
            r@ == handshake_wire(self.info_hash@, self.peer_id@),
    {
        let mut out: Vec<u8> = Vec::new();
        out.push(P_STR_LEN);
        let name = protocol_name_bytes();
        push_all(&mut out, name.as_slice());
        let ghost head = out@;
        let mut k: usize = 0;
        while k < 8
            invariant
                k <= 8,
                out@ == head + Seq::new(k as nat, |i: int| 0u8),
            decreases 8 - k,
        {
            out.push(0u8);
            k = k + 1;
            assert(out@ =~= head + Seq::new(k as nat, |i: int| 0u8));
        }
        push_all(&mut out, self.info_hash.as_slice());
        push_all(&mut out, self.peer_id.as_slice());
        assert(out@ =~= handshake_wire(self.info_hash@, self.peer_id@));
        out
    }

    /// Parses a handshake frame: a length byte, that many bytes of protocol
    /// name (valid UTF-8), eight reserved bytes, the info-hash and the peer
    /// id, twenty bytes each. Bytes after the peer id are ignored.
    pub fn new(bytes: &[u8]) -> (r: Result<Handshake, HandshakeParseError>)
        ensures
            match handshake_fields(bytes@) {
                Ok((info_hash, peer_id)) => r matches Ok(h) && h.info_hash@ == info_hash
                    && h.peer_id@ == peer_id,
                Err(e) => r == Err::<Handshake, HandshakeParseError>(e),
            },
    {
        if bytes.len() < 1 {
            return Err(HandshakeParseError::PStrLen);
        }
        let len: usize = 1 + bytes[0] as usize;
        if bytes.len() < len {
            return Err(HandshakeParseError::PStr);
        }
        if core::str::from_utf8(slice_subrange(bytes, 1, len)).is_err() {
            return Err(HandshakeParseError::PStr);
        }
        if bytes.len() < len + 8 {
            return Err(HandshakeParseError::ReservedBytes);
        }
        if bytes.len() < len + 28 {
            return Err(HandshakeParseError::InfoHash);
        }
        if bytes.len() < len + 48 {
            return Err(HandshakeParseError::PeerId);
        }
        Ok(
            Handshake {
                info_hash: slice_to_vec(slice_subrange(bytes, len + 8, len + 28)),
                peer_id: slice_to_vec(slice_subrange(bytes, len + 28, len + 48)),
            },
        )
    }
}

} // verus!
