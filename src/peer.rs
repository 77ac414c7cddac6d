//! The peer wire protocol: handshake, length-prefixed messages, block
//! requests and the decisions a session makes on what it receives.
use vstd::prelude::*;
use crate::bindings::{msb_bit, set_bit_indices};
use crate::tracker::PeerAddr;

verus! {

/// Bytes per block request.
pub const BLOCK_SIZE: u32 = 16384;

/// The message ids of the peer wire protocol; any other id is kept as
/// `Unknown` so that it can be skipped.
#[derive(Debug, Clone, Copy, PartialEq, Eq, Structural)]
pub enum MessageTag {
    Choke,
    Unchoke,
    Interested,
    NotInterested,
    Have,
    Bitfield,
    Request,
    Piece,
    Cancel,
    Extended,
    Unknown(u8),
}

pub open spec fn tag_of(b: u8) -> MessageTag {
    if b == 0 {
        MessageTag::Choke
    } else if b == 1 {
        MessageTag::Unchoke
    } else if b == 2 {
        MessageTag::Interested
    } else if b == 3 {
        MessageTag::NotInterested
    } else if b == 4 {
        MessageTag::Have
    } else if b == 5 {
        MessageTag::Bitfield
    } else if b == 6 {
        MessageTag::Request
    } else if b == 7 {
        MessageTag::Piece
    } else if b == 8 {
        MessageTag::Cancel
    } else if b == 20 {
        MessageTag::Extended
    } else {
        MessageTag::Unknown(b)
    }
}

pub open spec fn byte_of(t: MessageTag) -> u8 {
    match t {
        MessageTag::Choke => 0,
        MessageTag::Unchoke => 1,
        MessageTag::Interested => 2,
        MessageTag::NotInterested => 3,
        MessageTag::Have => 4,
        MessageTag::Bitfield => 5,
        MessageTag::Request => 6,
        MessageTag::Piece => 7,
        MessageTag::Cancel => 8,
        MessageTag::Extended => 20,
        MessageTag::Unknown(b) => b,
    }
}

impl MessageTag {
    /// The tag for a received id byte.
    pub fn from_byte(b: u8) -> (r: MessageTag)
        ensures
            r == tag_of(b),
            byte_of(r) == b,
    {
        match b {
            0 => MessageTag::Choke,
            1 => MessageTag::Unchoke,
            2 => MessageTag::Interested,
            3 => MessageTag::NotInterested,
            4 => MessageTag::Have,
            5 => MessageTag::Bitfield,
            6 => MessageTag::Request,
            7 => MessageTag::Piece,
            8 => MessageTag::Cancel,
            20 => MessageTag::Extended,
            _ => MessageTag::Unknown(b),
        }
    }

    /// The id byte sent for this tag.
    pub fn to_byte(&self) -> (r: u8)
        ensures
            r == byte_of(*self),
    {
        match self {
            MessageTag::Choke => 0,
            MessageTag::Unchoke => 1,
            MessageTag::Interested => 2,
            MessageTag::NotInterested => 3,
            MessageTag::Have => 4,
            MessageTag::Bitfield => 5,
            MessageTag::Request => 6,
            MessageTag::Piece => 7,
            MessageTag::Cancel => 8,
            MessageTag::Extended => 20,
            MessageTag::Unknown(b) => *b,
        }
    }
}

/// The four big-endian bytes of `n`.
pub open spec fn be32(n: u32) -> Seq<u8> {
    seq![(n / 0x100_0000) as u8, ((n / 0x1_0000) % 256) as u8, ((n / 256) % 256) as u8, (n % 256) as u8]
}

/// The number that four big-endian bytes spell.
pub open spec fn be32_value(b: Seq<u8>) -> int {
    ((b[0] as int * 256 + b[1] as int) * 256 + b[2] as int) * 256 + b[3] as int
}

/// Appends the big-endian bytes of `n`.
pub fn push_be32(n: u32, out: &mut Vec<u8>)
    ensures
        final(out)@ == old(out)@ + be32(n),
{
    out.push((n / 0x100_0000) as u8);
    out.push(((n / 0x1_0000) % 256) as u8);
    out.push(((n / 256) % 256) as u8);
    out.push((n % 256) as u8);
    assert(final(out)@ =~= old(out)@ + be32(n));
}

/// Reads four big-endian bytes at `at`.
pub fn read_be32(b: &[u8], at: usize) -> (r: u32)
    requires
        at + 4 <= b@.len(),
    ensures
        r == be32_value(b@.subrange(at as int, at + 4)),
{
    let r = ((b[at] as u32 * 256 + b[at + 1] as u32) * 256 + b[at + 2] as u32) * 256 + b[at + 3] as u32;
    assert(b@.subrange(at as int, at + 4)[0] == b@[at as int]);
    assert(b@.subrange(at as int, at + 4)[1] == b@[at + 1]);
    assert(b@.subrange(at as int, at + 4)[2] == b@[at + 2]);
    assert(b@.subrange(at as int, at + 4)[3] == b@[at + 3]);
    r
}

/// The length that a four-byte message prefix announces.
pub fn frame_length(prefix: &[u8; 4]) -> (r: u32)
    ensures
        r == be32_value(prefix@),
{
    let r = read_be32(prefix.as_slice(), 0);
    assert(prefix@.subrange(0, 4) =~= prefix@);
    r
}

/// A message after the handshake: id and payload; `length` counts both.
pub struct Message {
    pub length: u32,
    pub id: MessageTag,
    pub payload: Vec<u8>,
}

impl Message {
    pub fn new(id: MessageTag, payload: Vec<u8>) -> (r: Message)
        requires
            payload@.len() < u32::MAX,
        ensures
            r.length == payload@.len() + 1,
            r.id == id,
            r.payload@ == payload@,
    {
        let length = (payload.len() + 1) as u32;
        Message { length, id, payload }
    }

    /// The bytes on the wire: length prefix, id byte, payload.
    pub fn as_bytes(&self) -> (r: Vec<u8>)
        ensures
            r@ == be32(self.length) + seq![byte_of(self.id)] + self.payload@,
    {
        let mut bytes: Vec<u8> = Vec::new();
        push_be32(self.length, &mut bytes);
        bytes.push(self.id.to_byte());
        crate::bencode::push_all(self.payload.as_slice(), &mut bytes);
        assert(bytes@ =~= be32(self.length) + seq![byte_of(self.id)] + self.payload@);
        bytes
    }

    /// The message whose bytes after the length prefix are `body`; `None`
    /// for an empty body, which is a keep-alive.
    pub fn from_body(body: &[u8]) -> (r: Option<Message>)
        requires
            body@.len() <= u32::MAX,
        ensures
            r is None <==> body@.len() == 0,
            r matches Some(m) ==> m.length == body@.len() && m.id == tag_of(body@[0])
                && m.payload@ == body@.subrange(1, body@.len() as int),
    {
        if body.len() == 0 {
            return None;
        }
        let id = MessageTag::from_byte(body[0]);
        let mut payload: Vec<u8> = Vec::new();
        crate::bencode::push_all(&body[1..body.len()], &mut payload);
        Some(Message { length: body.len() as u32, id, payload })
    }
}

/// The 19-byte protocol name `BitTorrent protocol`.
pub open spec fn protocol_name() -> Seq<u8> {
    seq![66u8, 105, 116, 84, 111, 114, 114, 101, 110, 116, 32, 112, 114, 111, 116, 111, 99, 111, 108]
}

/// The fixed 68-byte opening of a connection.
pub struct Handshake {
    pub length: u8,
    pub protocol: [u8; 19],
    pub reserved: [u8; 8],
    pub info_hash: [u8; 20],
    pub peer_id: [u8; 20],
}

/// The handshake this client sends: extension bit set.
pub open spec fn handshake_wire(info_hash: Seq<u8>, peer_id: Seq<u8>) -> Seq<u8> {
    seq![19u8] + protocol_name() + seq![0u8, 0, 0, 0, 0, 0x10, 0, 0] + info_hash + peer_id
}

/// A peer whose reply is accepted echoes, at the same place, the info hash
/// that was sent.
pub proof fn lemma_handshake_echo(info_hash: Seq<u8>, peer_id: Seq<u8>, reply: Seq<u8>)
    requires
        info_hash.len() == 20,
        peer_id.len() == 20,
        handshake_accepted(reply, info_hash),
    ensures
        reply.subrange(28, 48) == handshake_wire(info_hash, peer_id).subrange(28, 48),
        reply.subrange(0, 20) == handshake_wire(info_hash, peer_id).subrange(0, 20),
{
    let w = handshake_wire(info_hash, peer_id);
    assert(w.subrange(28, 48) =~= info_hash);
    assert(reply.subrange(0, 20) =~= seq![reply[0]] + reply.subrange(1, 20));
    assert(w.subrange(0, 20) =~= seq![19u8] + protocol_name());
}

impl Handshake {
    /// A handshake that announces support for the extension protocol.
    pub fn new(info_hash: [u8; 20], peer_id: [u8; 20]) -> (r: Handshake)
        ensures
            r.length == 19,
            r.protocol@ == protocol_name(),
            r.reserved@ == seq![0u8, 0, 0, 0, 0, 0x10, 0, 0],
            r.info_hash == info_hash,
            r.peer_id == peer_id,
            r.wire() == handshake_wire(info_hash@, peer_id@),
    {
        let protocol: [u8; 19] = [66, 105, 116, 84, 111, 114, 114, 101, 110, 116, 32, 112, 114, 111, 116, 111, 99, 111, 108];
        let reserved: [u8; 8] = [0, 0, 0, 0, 0, 0x10, 0, 0];
        let h = Handshake { length: 19, protocol, reserved, info_hash, peer_id };
        assert(h.wire() =~= handshake_wire(info_hash@, peer_id@));
        h
    }

    pub open spec fn wire(&self) -> Seq<u8> {
        seq![self.length] + self.protocol@ + self.reserved@ + self.info_hash@ + self.peer_id@
    }

    /// The 68 bytes on the wire.
    pub fn to_bytes(&self) -> (r: Vec<u8>)
        ensures
            r@ == self.wire(),
            r@.len() == 68,
    {
        let mut out: Vec<u8> = Vec::new();
        out.push(self.length);
        crate::bencode::push_all(self.protocol.as_slice(), &mut out);
        crate::bencode::push_all(self.reserved.as_slice(), &mut out);
        crate::bencode::push_all(self.info_hash.as_slice(), &mut out);
        crate::bencode::push_all(self.peer_id.as_slice(), &mut out);
        assert(out@ =~= self.wire());
        out
    }

    /// Splits 68 bytes into the handshake's fields.
    pub fn from_bytes(b: &[u8]) -> (r: Option<Handshake>)
        ensures
            r is Some <==> b@.len() == 68,
            r matches Some(h) ==> h.wire() == b@,
    {
        if b.len() != 68 {
            return None;
        }
        let mut protocol: [u8; 19] = [0; 19];
        let mut reserved: [u8; 8] = [0; 8];
        let mut info_hash: [u8; 20] = [0; 20];
        let mut peer_id: [u8; 20] = [0; 20];
        copy_into(b, 1, &mut protocol);
        copy_into(b, 20, &mut reserved);
        copy_into(b, 28, &mut info_hash);
        copy_into(b, 48, &mut peer_id);
        let h = Handshake { length: b[0], protocol, reserved, info_hash, peer_id };
        assert(h.wire() =~= b@);
        Some(h)
    }

    /// The remote side supports the extension protocol: bit 20 from the
    /// right of the reserved bytes.
    pub fn supports_extension(&self) -> (r: bool)
        ensures
            r == ((self.reserved@[5] / 16) % 2 == 1),
    {
        (self.reserved[5] / 16) % 2 == 1
    }
}

/// Copies `b[at .. at + N]` into `dst`.
fn copy_into<const N: usize>(b: &[u8], at: usize, dst: &mut [u8; N])
    requires
        at + N <= b@.len(),
    ensures
        final(dst)@ == b@.subrange(at as int, at + N),
{
    let blen = b.len();
    let mut i: usize = 0;
    while i < N
        invariant
            i <= N,
            blen == b@.len(),
            at + N <= b@.len(),
            dst@.len() == N,
            forall|k: int| 0 <= k < i ==> dst@[k] == b@[at + k],
        decreases N - i,
    {
        dst[i] = b[at + i];
        i = i + 1;
    }
    assert(dst@ =~= b@.subrange(at as int, at + N));
}


/// Why a peer session cannot go on.
#[derive(Debug, Clone, Copy, PartialEq, Eq, Structural)]
pub enum PeerError {
    /// The reply to the handshake is not 68 bytes naming the protocol.
    BadHandshake,
    /// The peer answered for another torrent.
    WrongInfoHash,
    /// A message of another kind than the exchange calls for.
    UnexpectedMessage,
    /// A payload whose size or contents do not match the request.
    BadPayload,
}

/// What the session knows about one remote peer.
pub struct Peer {
    pub address: PeerAddr,
    pub id: [u8; 20],
    pub supports_extension: bool,
    /// The pieces the peer claims, in ascending order.
    pub bitfield: Vec<usize>,
    /// The id the peer assigned to `ut_metadata`, once learned.
    pub metadata_extension_id: Option<u8>,
    pub choked: bool,
    pub interested: bool,
}

/// The handshake reply names the protocol and echoes `info_hash`.
pub open spec fn handshake_accepted(reply: Seq<u8>, info_hash: Seq<u8>) -> bool {
    &&& reply.len() == 68
    &&& reply[0] == 19
    &&& reply.subrange(1, 20) == protocol_name()
    &&& reply.subrange(28, 48) == info_hash
}

impl Peer {
    /// Checks the peer's handshake reply against the handshake sent for
    /// `info_hash`, and starts the session state.
    pub fn handshake(address: PeerAddr, info_hash: [u8; 20], reply: &[u8]) -> (r: Result<Peer, PeerError>)
        ensures
            r is Ok <==> handshake_accepted(reply@, info_hash@),
            r matches Ok(p) ==> {
                &&& p.address == address
                &&& p.id@ == reply@.subrange(48, 68)
                &&& p.supports_extension == ((reply@[25] / 16) % 2 == 1)
                &&& p.bitfield@.len() == 0
                &&& p.metadata_extension_id is None
                &&& p.choked
                &&& !p.interested
            },
            r == Err::<Peer, PeerError>(PeerError::WrongInfoHash) <==> (reply@.len() == 68 && reply@[0] == 19
                && reply@.subrange(1, 20) == protocol_name() && reply@.subrange(28, 48) != info_hash@),
            r == Err::<Peer, PeerError>(PeerError::BadHandshake) <==> !(reply@.len() == 68 && reply@[0] == 19
                && reply@.subrange(1, 20) == protocol_name()),
    {
        let h = match Handshake::from_bytes(reply) {
            Some(h) => h,
            None => {
                return Err(PeerError::BadHandshake);
            },
        };
        proof {
            assert(reply@.subrange(1, 20) =~= h.protocol@);
            assert(reply@.subrange(20, 28) =~= h.reserved@);
            assert(reply@.subrange(28, 48) =~= h.info_hash@);
            assert(reply@.subrange(48, 68) =~= h.peer_id@);
            assert(reply@[0] == h.length);
            assert(reply@[25] == h.reserved@[5]);
        }
        let name: [u8; 19] = [66, 105, 116, 84, 111, 114, 114, 101, 110, 116, 32, 112, 114, 111, 116, 111, 99, 111, 108];
        if h.length != 19 || !crate::bencode::bytes_eq(h.protocol.as_slice(), name.as_slice()) {
            return Err(PeerError::BadHandshake);
        }
        if !crate::bencode::bytes_eq(h.info_hash.as_slice(), info_hash.as_slice()) {
            return Err(PeerError::WrongInfoHash);
        }
        let supports_extension = h.supports_extension();
        Ok(Peer {
            address,
            id: h.peer_id,
            supports_extension,
            bitfield: Vec::new(),
            metadata_extension_id: None,
            choked: true,
            interested: false,
        })
    }

    /// Takes the first message after the handshake, which must be the
    /// peer's bitfield, and records the pieces it claims.
    pub fn get_pieces(&mut self, msg: &Message) -> (r: Result<Vec<usize>, PeerError>)
        ensures
            r is Ok <==> (msg.id == MessageTag::Bitfield && msg.payload@.len() < 0x400_0000),
            r matches Ok(pieces) ==> {
                &&& final(self).bitfield@ == pieces@
                &&& forall|k: int, l: int| 0 <= k < l < pieces@.len() ==> pieces@[k] < pieces@[l]
                &&& forall|k: int| 0 <= k < pieces@.len() ==> pieces@[k] < 8 * msg.payload@.len()
                &&& forall|i: int|
                    0 <= i < 8 * msg.payload@.len() ==> (pieces@.contains(i as usize) <==> msg_bit(msg, i))
            },
            r is Ok ==> {
                &&& final(self).address == old(self).address
                &&& final(self).id == old(self).id
                &&& final(self).supports_extension == old(self).supports_extension
                &&& final(self).metadata_extension_id == old(self).metadata_extension_id
                &&& final(self).choked == old(self).choked
                &&& final(self).interested == old(self).interested
            },
            r is Err ==> *final(self) == *old(self),
    {
        if msg.id != MessageTag::Bitfield {
            return Err(PeerError::UnexpectedMessage);
        }
        if msg.payload.len() >= 0x400_0000 {
            return Err(PeerError::BadPayload);
        }
        let pieces = set_bit_indices(msg.payload.as_slice());
        proof {
            assert forall|i: int| 0 <= i < 8 * msg.payload@.len() implies (pieces@.contains(i as usize) <==> msg_bit(msg, i)) by {
                if pieces@.contains(i as usize) {
                    let k = choose|k: int| 0 <= k < pieces@.len() && pieces@[k] == i as usize;
                }
            }
        }
        self.bitfield = pieces.clone();
        Ok(pieces)
    }

    /// Whether the peer claims piece `index`.
    pub fn has_piece(&self, index: usize) -> (r: bool)
        ensures
            r == self.bitfield@.contains(index),
    {
        let mut i: usize = 0;
        while i < self.bitfield.len()
            invariant
                i <= self.bitfield@.len(),
                forall|k: int| 0 <= k < i ==> self.bitfield@[k] != index,
            decreases self.bitfield@.len() - i,
        {
            if self.bitfield[i] == index {
                return true;
            }
            i = i + 1;
        }
        false
    }

    /// The `INTERESTED` message that opens a download; the session is then
    /// interested.
    pub fn interested(&mut self) -> (r: Message)
        ensures
            r.id == MessageTag::Interested,
            r.payload@.len() == 0,
            r.length == 1,
            final(self).interested,
            final(self).choked == old(self).choked,
            final(self).bitfield == old(self).bitfield,
            final(self).id == old(self).id,
            final(self).metadata_extension_id == old(self).metadata_extension_id,
            final(self).supports_extension == old(self).supports_extension,
    {
        self.interested = true;
        Message::new(MessageTag::Interested, Vec::new())
    }

    /// Takes a message while waiting for `UNCHOKE`; every other message is
    /// skipped. Returns whether the peer has unchoked.
    pub fn await_unchoke(&mut self, msg: &Message) -> (r: bool)
        ensures
            r == (msg.id == MessageTag::Unchoke),
            final(self).choked == (old(self).choked && !r),
            final(self).interested == old(self).interested,
            final(self).bitfield == old(self).bitfield,
            final(self).id == old(self).id,
            final(self).metadata_extension_id == old(self).metadata_extension_id,
            final(self).supports_extension == old(self).supports_extension,
    {
        if msg.id == MessageTag::Unchoke {
            self.choked = false;
            true
        } else {
            false
        }
    }
}

/// Bit `i` of a message's payload, most significant bit first.
pub open spec fn msg_bit(msg: &Message, i: int) -> bool {
    msb_bit(msg.payload@, i)
}

/// The offset and length of block `k` of a piece of `size` bytes.
pub open spec fn block_at(size: nat, k: int) -> (u32, u32) {
    let off = k * BLOCK_SIZE;
    (off as u32, (if size - off < BLOCK_SIZE { size - off } else { BLOCK_SIZE as int }) as u32)
}

/// Splits a piece into blocks: offsets `0, B, 2B, ...` with `B` the block
/// size, each block `B` long but the last, which ends the piece.
pub fn block_layout(size: u32) -> (r: Vec<(u32, u32)>)
    ensures
        r@.len() == crate::torrent::ceil_div(size as nat, BLOCK_SIZE as nat),
        forall|k: int| 0 <= k < r@.len() ==> #[trigger] r@[k] == block_at(size as nat, k),
{
    let mut out: Vec<(u32, u32)> = Vec::new();
    let mut off: u32 = 0;
    let mut k: usize = 0;
    while off < size
        invariant
            off as int == k * BLOCK_SIZE,
            k > 0 ==> off < size,
            k * BLOCK_SIZE < size + BLOCK_SIZE,
            out@.len() == k,
            forall|j: int| 0 <= j < k ==> #[trigger] out@[j] == block_at(size as nat, j),
        decreases size - off,
    {
        let len: u32 = if size - off < BLOCK_SIZE { size - off } else { BLOCK_SIZE };
        out.push((off, len));
        k = k + 1;
        if size - off <= BLOCK_SIZE {
            off = size;
            proof {
                assert(out@.len() == k);
                assert(crate::torrent::ceil_div(size as nat, BLOCK_SIZE as nat) == k) by (nonlinear_arith)
                    requires
                        (k - 1) * 16384 < size,
                        size <= k * 16384,
                ;
            }
            assert(forall|j: int| 0 <= j < k ==> #[trigger] out@[j] == block_at(size as nat, j));
            return out;
        }
        off = off + BLOCK_SIZE;
    }
    assert(size == 0);
    out
}

/// How many times a block is requested before the piece is given up on this
/// peer.
pub const BLOCK_ATTEMPTS: u32 = 3;

/// Seconds to wait before asking for a block again.
pub const RETRY_DELAY_SECS: u64 = 1;

/// After attempt number `attempt` (counting from 1) at a block failed:
/// whether to try again.
pub fn retry_block(attempt: u32) -> (r: bool)
    ensures
        r == (attempt < BLOCK_ATTEMPTS),
{
    attempt < BLOCK_ATTEMPTS
}

/// The `REQUEST` for `length` bytes at `begin` of piece `index`.
pub fn request_message(index: u32, begin: u32, length: u32) -> (r: Message)
    ensures
        r.id == MessageTag::Request,
        r.payload@ == be32(index) + be32(begin) + be32(length),
        r.length == 13,
{
    let mut payload: Vec<u8> = Vec::new();
    push_be32(index, &mut payload);
    push_be32(begin, &mut payload);
    push_be32(length, &mut payload);
    assert(payload@ =~= be32(index) + be32(begin) + be32(length));
    Message::new(MessageTag::Request, payload)
}

/// The `PIECE` message answers the request for `length` bytes at `begin` of
/// piece `index`.
pub open spec fn answers_request(msg: &Message, index: u32, begin: u32, length: u32) -> bool {
    &&& msg.id == MessageTag::Piece
    &&& msg.payload@.len() == 8 + length
    &&& be32_value(msg.payload@.subrange(0, 4)) == index
    &&& be32_value(msg.payload@.subrange(4, 8)) == begin
}

/// The block data that a `PIECE` message carries for a request.
pub fn block_from_piece(msg: &Message, index: u32, begin: u32, length: u32) -> (r: Result<Vec<u8>, PeerError>)
    ensures
        r is Ok <==> answers_request(msg, index, begin, length),
        r matches Ok(data) ==> data@ == msg.payload@.subrange(8, 8 + length),
        r == Err::<Vec<u8>, PeerError>(PeerError::UnexpectedMessage) <==> msg.id != MessageTag::Piece,
{
    if msg.id != MessageTag::Piece {
        return Err(PeerError::UnexpectedMessage);
    }
    let p = &msg.payload;
    if p.len() < 8 || p.len() - 8 != length as usize {
        return Err(PeerError::BadPayload);
    }
    if read_be32(p.as_slice(), 0) != index || read_be32(p.as_slice(), 4) != begin {
        return Err(PeerError::BadPayload);
    }
    let mut data: Vec<u8> = Vec::new();
    crate::bencode::push_all(&p.as_slice()[8..p.len()], &mut data);
    Ok(data)
}

/// Writes a block into a piece buffer at its offset.
pub fn place_block(piece: &mut Vec<u8>, offset: u32, data: &[u8])
    requires
        offset + data@.len() <= old(piece)@.len(),
    ensures
        final(piece)@ == old(piece)@.subrange(0, offset as int) + data@ + old(piece)@.subrange(
            offset + data@.len(),
            old(piece)@.len() as int,
        ),
{
    let mut i: usize = 0;
    let start = offset as usize;
    let plen = piece.len();
    while i < data.len()
        invariant
            i <= data@.len(),
            start == offset,
            plen == piece@.len(),
            piece@.len() == old(piece)@.len(),
            start + data@.len() <= piece@.len(),
            forall|k: int| 0 <= k < piece@.len() ==> #[trigger] piece@[k] == if start <= k < start + i {
                data@[k - start]
            } else {
                old(piece)@[k]
            },
        decreases data@.len() - i,
    {
        piece.set(start + i, data[i]);
        i = i + 1;
    }
    assert(piece@ =~= old(piece)@.subrange(0, offset as int) + data@ + old(piece)@.subrange(
        offset + data@.len(),
        old(piece)@.len() as int,
    ));
}

} // verus!
