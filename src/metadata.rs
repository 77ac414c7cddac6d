//! The extension protocol handshake and metadata exchange, through which a
//! magnet link's `info` dictionary is fetched from peers.
use vstd::prelude::*;
use crate::bencode::{
    BValue, Value, decode, decode_prefix, dict_get, encode, encode_value, encodes_at, is_bencoded,
    lookup, parse,
};
use crate::bindings::{sha1_digest, sha1_of};
use crate::peer::{Message, MessageTag, Peer, PeerError};
use crate::torrent::{Info, MetainfoError};

verus! {

/// The id this client assigns to `ut_metadata` in its extension handshake.
pub const UT_METADATA_ID: u8 = 1;

/// Bytes per metadata piece.
pub const METADATA_PIECE_SIZE: usize = 16384;

pub open spec fn key_m() -> Seq<u8> {
    seq![109u8]
}

pub open spec fn key_ut_metadata() -> Seq<u8> {
    seq![117u8, 116, 95, 109, 101, 116, 97, 100, 97, 116, 97]
}

pub open spec fn key_metadata_size() -> Seq<u8> {
    seq![109u8, 101, 116, 97, 100, 97, 116, 97, 95, 115, 105, 122, 101]
}

pub open spec fn key_msg_type() -> Seq<u8> {
    seq![109u8, 115, 103, 95, 116, 121, 112, 101]
}

pub open spec fn key_piece() -> Seq<u8> {
    seq![112u8, 105, 101, 99, 101]
}

pub open spec fn key_total_size() -> Seq<u8> {
    seq![116u8, 111, 116, 97, 108, 95, 115, 105, 122, 101]
}

/// `{"m": {"ut_metadata": 1}}`
pub open spec fn handshake_dict() -> BValue {
    BValue::Dict(seq![(key_m(), BValue::Dict(seq![(key_ut_metadata(), BValue::Int(UT_METADATA_ID as int))]))])
}

/// The extension handshake: extended message 0 with this client's
/// `ut_metadata` id.
pub fn extension_handshake_message() -> (r: Message)
    ensures
        r.id == MessageTag::Extended,
        r.payload@ == seq![0u8] + encode(handshake_dict()),
        r.length == r.payload@.len() + 1,
{
    let inner: Vec<(Vec<u8>, Value)> = vec![(vec![117u8, 116, 95, 109, 101, 116, 97, 100, 97, 116, 97], Value::Int(1))];
    let outer: Vec<(Vec<u8>, Value)> = vec![(vec![109u8], Value::Dict(inner))];
    let v = Value::Dict(outer);
    proof {
        crate::bencode::lemma_view_entries(inner@);
        crate::bencode::lemma_view_entries(outer@);
        assert(crate::bencode::view_entries(inner@) =~= seq![(key_ut_metadata(), BValue::Int(1))]);
        assert(outer@[0].0@ == key_m());
        assert(outer@[0].1@ == BValue::Dict(crate::bencode::view_entries(inner@)));
        assert(crate::bencode::view_entries(outer@) =~= seq![(key_m(), BValue::Dict(seq![(key_ut_metadata(), BValue::Int(1))]))]);
        let inner_v = BValue::Dict(seq![(key_ut_metadata(), BValue::Int(1))]);
        crate::bencode::lemma_dict1_len(key_ut_metadata(), BValue::Int(1));
        crate::bencode::lemma_dict1_len(key_m(), inner_v);
        reveal_with_fuel(crate::bencode::pow10, 3);
        crate::bencode::lemma_decimal_len(11, 2);
        crate::bencode::lemma_decimal_len(1, 1);
        assert(encode(BValue::Int(1)) =~= seq![105u8] + crate::bencode::decimal(1) + seq![101u8]);
    }
    let body = encode_value(&v);
    let mut payload: Vec<u8> = vec![0u8];
    crate::bencode::push_all(body.as_slice(), &mut payload);
    assert(payload@ =~= seq![0u8] + encode(handshake_dict()));
    Message::new(MessageTag::Extended, payload)
}

/// The dictionary of an extended message with sub-id `sub`, if its payload
/// is that byte followed by exactly one bencoded value.
pub open spec fn extended_body(msg: &Message, sub: u8) -> Option<BValue> {
    if msg.id == MessageTag::Extended && msg.payload@.len() >= 1 && msg.payload@[0] == sub
        && is_bencoded(msg.payload@.subrange(1, msg.payload@.len() as int)) {
        Some(parse(msg.payload@.subrange(1, msg.payload@.len() as int)))
    } else {
        None
    }
}

/// The `ut_metadata` id that a peer's extension handshake assigns.
pub open spec fn assigned_metadata_id(msg: &Message) -> Option<u8> {
    if let Some(BValue::Dict(es)) = extended_body(msg, 0) {
        if let Some(BValue::Dict(ms)) = lookup(es, key_m()) {
            if let Some(BValue::Int(n)) = lookup(ms, key_ut_metadata()) {
                if 0 <= n <= 255 {
                    Some(n as u8)
                } else {
                    None
                }
            } else {
                None
            }
        } else {
            None
        }
    } else {
        None
    }
}

/// The `metadata_size` that a peer's extension handshake announces.
pub open spec fn announced_metadata_size(msg: &Message) -> Option<i64> {
    if let Some(BValue::Dict(es)) = extended_body(msg, 0) {
        if let Some(BValue::Int(n)) = lookup(es, key_metadata_size()) {
            Some(n as i64)
        } else {
            None
        }
    } else {
        None
    }
}

impl Peer {
    /// Takes the peer's extension handshake and records the id it assigned
    /// to `ut_metadata`; returns the `metadata_size` it announced, if any.
    pub fn on_extension_handshake(&mut self, msg: &Message) -> (r: Result<Option<i64>, PeerError>)
        ensures
            r is Ok <==> assigned_metadata_id(msg) is Some,
            r is Ok ==> final(self).metadata_extension_id == assigned_metadata_id(msg),
            r matches Ok(size) ==> size == announced_metadata_size(msg),
            r is Err ==> final(self).metadata_extension_id == old(self).metadata_extension_id,
            final(self).id == old(self).id,
            final(self).bitfield == old(self).bitfield,
            final(self).supports_extension == old(self).supports_extension,
    {
        if msg.id != MessageTag::Extended || msg.payload.len() < 1 || msg.payload[0] != 0 {
            return Err(PeerError::UnexpectedMessage);
        }
        let body = &msg.payload.as_slice()[1..msg.payload.len()];
        assert(body@ == msg.payload@.subrange(1, msg.payload@.len() as int));
        let v = match decode(body) {
            Ok(v) => v,
            Err(_) => {
                return Err(PeerError::BadPayload);
            },
        };
        let es = match &v {
            Value::Dict(es) => es,
            _ => {
                return Err(PeerError::BadPayload);
            },
        };
        assert(extended_body(msg, 0) == Some(BValue::Dict(crate::bencode::view_entries(es@))));
        let k_m: Vec<u8> = vec![109u8];
        let k_ut: Vec<u8> = vec![117u8, 116, 95, 109, 101, 116, 97, 100, 97, 116, 97];
        let k_size: Vec<u8> = vec![109u8, 101, 116, 97, 100, 97, 116, 97, 95, 115, 105, 122, 101];
        assert(k_m@ == key_m());
        assert(k_ut@ == key_ut_metadata());
        assert(k_size@ == key_metadata_size());
        let mv = match dict_get(es, k_m.as_slice()) {
            Some(x) => x,
            None => {
                return Err(PeerError::BadPayload);
            },
        };
        let ms = match mv {
            Value::Dict(ms) => ms,
            _ => {
                return Err(PeerError::BadPayload);
            },
        };
        let uv = match dict_get(ms, k_ut.as_slice()) {
            Some(x) => x,
            None => {
                return Err(PeerError::BadPayload);
            },
        };
        let id = match uv {
            Value::Int(n) => {
                if 0 <= *n && *n <= 255 {
                    *n as u8
                } else {
                    return Err(PeerError::BadPayload);
                }
            },
            _ => {
                return Err(PeerError::BadPayload);
            },
        };
        let size = match dict_get(es, k_size.as_slice()) {
            Some(Value::Int(n)) => Some(*n),
            _ => None,
        };
        self.metadata_extension_id = Some(id);
        Ok(size)
    }
}

/// `{"msg_type": 0, "piece": index}`
pub open spec fn request_dict(index: u32) -> BValue {
    BValue::Dict(seq![(key_msg_type(), BValue::Int(0)), (key_piece(), BValue::Int(index as int))])
}

/// The request for metadata piece `index`, sent under the id the peer
/// assigned to `ut_metadata`.
pub fn metadata_request_message(ext_id: u8, index: u32) -> (r: Message)
    ensures
        r.id == MessageTag::Extended,
        r.payload@ == seq![ext_id] + encode(request_dict(index)),
        r.length == r.payload@.len() + 1,
{
    let entries: Vec<(Vec<u8>, Value)> = vec![
        (vec![109u8, 115, 103, 95, 116, 121, 112, 101], Value::Int(0)),
        (vec![112u8, 105, 101, 99, 101], Value::Int(index as i64)),
    ];
    let v = Value::Dict(entries);
    proof {
        crate::bencode::lemma_view_entries(entries@);
        assert(crate::bencode::view_entries(entries@) =~= seq![(key_msg_type(), BValue::Int(0)), (key_piece(), BValue::Int(index as int))]);
        crate::bencode::lemma_dict2_len(key_msg_type(), BValue::Int(0), key_piece(), BValue::Int(index as int));
        reveal_with_fuel(crate::bencode::pow10, 11);
        crate::bencode::lemma_decimal_len(8, 1);
        crate::bencode::lemma_decimal_len(5, 1);
        crate::bencode::lemma_decimal_len(0, 1);
        crate::bencode::lemma_decimal_len(index as nat, 10);
        assert(encode(BValue::Int(0)) =~= seq![105u8] + crate::bencode::decimal(0) + seq![101u8]);
        assert(encode(BValue::Int(index as int)) =~= seq![105u8] + crate::bencode::decimal(index as nat) + seq![101u8]);
    }
    let body = encode_value(&v);
    let mut payload: Vec<u8> = vec![ext_id];
    crate::bencode::push_all(body.as_slice(), &mut payload);
    assert(payload@ =~= seq![ext_id] + encode(request_dict(index)));
    Message::new(MessageTag::Extended, payload)
}

/// A metadata reply header: `msg_type` 1 (data) for piece `index`, and the
/// `total_size` of the metadata.
pub open spec fn data_header(w: BValue, index: u32, total: int) -> bool {
    &&& w matches BValue::Dict(es)
    &&& lookup(w->Dict_0, key_msg_type()) == Some(BValue::Int(1))
    &&& lookup(w->Dict_0, key_piece()) == Some(BValue::Int(index as int))
    &&& lookup(w->Dict_0, key_total_size()) == Some(BValue::Int(total))
}

/// A reply payload: after the sub-id byte, a data header for piece `index`,
/// then `data`.
pub open spec fn data_reply(payload: Seq<u8>, index: u32, total: int, data: Seq<u8>) -> bool {
    exists|w: BValue|
        encodes_at(payload, 1, w) && data_header(w, index, total) && data == payload.subrange(
            1 + encode(w).len() as int,
            payload.len() as int,
        )
}

/// Reads a reply carrying metadata piece `index`: the bencoded header right
/// after the sub-id byte, then the raw piece bytes.
pub fn metadata_piece(msg: &Message, index: u32) -> (r: Result<(u64, Vec<u8>), PeerError>)
    ensures
        r is Ok ==> msg.id == MessageTag::Extended && msg.payload@.len() >= 1 && msg.payload@[0]
            == UT_METADATA_ID,
        r matches Ok((total, data)) ==> data_reply(msg.payload@, index, total as int, data@),
        (msg.id == MessageTag::Extended && msg.payload@.len() >= 1 && msg.payload@[0]
            == UT_METADATA_ID && exists|w: BValue, t: u64|
            encodes_at(msg.payload@, 1, w) && data_header(w, index, t as int)) ==> r is Ok,
{
    if msg.id != MessageTag::Extended || msg.payload.len() < 1 || msg.payload[0] != UT_METADATA_ID {
        return Err(PeerError::UnexpectedMessage);
    }
    let p = msg.payload.as_slice();
    let (v, end) = match decode_prefix(p, 1) {
        Ok(x) => x,
        Err(_) => {
            return Err(PeerError::BadPayload);
        },
    };
    let es = match &v {
        Value::Dict(es) => es,
        _ => {
            return Err(PeerError::BadPayload);
        },
    };
    let k_type: Vec<u8> = vec![109u8, 115, 103, 95, 116, 121, 112, 101];
    let k_piece: Vec<u8> = vec![112u8, 105, 101, 99, 101];
    let k_total: Vec<u8> = vec![116u8, 111, 116, 97, 108, 95, 115, 105, 122, 101];
    match dict_get(es, k_type.as_slice()) {
        Some(Value::Int(t)) => {
            if *t != 1 {
                return Err(PeerError::BadPayload);
            }
        },
        _ => {
            return Err(PeerError::BadPayload);
        },
    }
    match dict_get(es, k_piece.as_slice()) {
        Some(Value::Int(i)) => {
            if *i != index as i64 {
                return Err(PeerError::BadPayload);
            }
        },
        _ => {
            return Err(PeerError::BadPayload);
        },
    }
    let total = match dict_get(es, k_total.as_slice()) {
        Some(Value::Int(t)) => {
            if *t < 0 {
                return Err(PeerError::BadPayload);
            }
            *t as u64
        },
        _ => {
            return Err(PeerError::BadPayload);
        },
    };
    let mut data: Vec<u8> = Vec::new();
    crate::bencode::push_all(&p[end..p.len()], &mut data);
    proof {
        assert(data_header(v@, index, total as int));
        assert(encodes_at(msg.payload@, 1, v@));
        assert(data@ == msg.payload@.subrange(1 + encode(v@).len() as int, msg.payload@.len() as int));
        assert(data_reply(msg.payload@, index, total as int, data@));
    }
    Ok((total, data))
}

/// How many metadata pieces hold `total` bytes.
pub fn metadata_piece_count(total: usize) -> (r: usize)
    ensures
        r == crate::torrent::ceil_div(total as nat, METADATA_PIECE_SIZE as nat),
{
    total / METADATA_PIECE_SIZE + if total % METADATA_PIECE_SIZE == 0 { 0 } else { 1 }
}

/// Which metadata piece to ask for after `received` pieces have come. The
/// first is always asked for, since its reply announces the total size; after
/// that, pieces up to the announced `total`.
pub fn next_metadata_piece(received: usize, total: Option<usize>) -> (r: Option<usize>)
    ensures
        r == (if received == 0 || (total is Some && received < crate::torrent::ceil_div(
            total->0 as nat,
            METADATA_PIECE_SIZE as nat,
        )) {
            Some(received)
        } else {
            None::<usize>
        }),
{
    if received == 0 {
        return Some(0);
    }
    match total {
        Some(t) => {
            if received < metadata_piece_count(t) {
                Some(received)
            } else {
                None
            }
        },
        None => None,
    }
}

/// Why fetched metadata was refused.
#[derive(Debug, Clone, Copy, PartialEq, Eq, Structural)]
pub enum MetadataError {
    /// The pieces do not add up to the announced size.
    SizeMismatch,
    /// The metadata's SHA-1 digest is not the info hash.
    HashMismatch,
    /// The metadata is not a valid `info` dictionary.
    Invalid(MetainfoError),
}

pub open spec fn concat_all(pieces: Seq<Vec<u8>>) -> Seq<u8>
    decreases pieces.len(),
{
    if pieces.len() == 0 {
        Seq::empty()
    } else {
        concat_all(pieces.subrange(0, pieces.len() - 1)) + pieces[pieces.len() - 1]@
    }
}

/// Joins the metadata pieces, checks them against the info hash and reads
/// the `info` dictionary they hold.
pub fn metadata_from_pieces(pieces: &Vec<Vec<u8>>, total: usize, info_hash: &[u8; 20]) -> (r: Result<Info, MetadataError>)
    ensures
        (r == Err::<Info, MetadataError>(MetadataError::SizeMismatch)) <==> concat_all(pieces@).len() != total,
        (r == Err::<Info, MetadataError>(MetadataError::HashMismatch)) <==> (concat_all(pieces@).len() == total
            && sha1_of(concat_all(pieces@)) != info_hash@),
        r matches Ok(info) ==> sha1_of(info.raw@) == info_hash@ && info.raw@ == concat_all(pieces@)
            && info.describes(parse(info.raw@)) && info.wf(),
        r matches Err(MetadataError::Invalid(_)) ==> !is_bencoded(concat_all(pieces@)) || forall|info: Info|
            !(#[trigger] info.describes(parse(concat_all(pieces@))) && info.wf()),
{
    let mut all: Vec<u8> = Vec::new();
    let mut i: usize = 0;
    while i < pieces.len()
        invariant
            i <= pieces@.len(),
            all@ == concat_all(pieces@.subrange(0, i as int)),
        decreases pieces@.len() - i,
    {
        crate::bencode::push_all(pieces[i].as_slice(), &mut all);
        i = i + 1;
        assert(pieces@.subrange(0, i as int).subrange(0, i - 1) =~= pieces@.subrange(0, i - 1));
    }
    assert(pieces@.subrange(0, i as int) =~= pieces@);
    if all.len() != total {
        return Err(MetadataError::SizeMismatch);
    }
    let digest = sha1_digest(all.as_slice());
    if !crate::bencode::bytes_eq(digest.as_slice(), info_hash.as_slice()) {
        return Err(MetadataError::HashMismatch);
    }
    match Info::from_bytes(all.as_slice()) {
        Ok(info) => Ok(info),
        Err(e) => Err(MetadataError::Invalid(e)),
    }
}

} // verus!
