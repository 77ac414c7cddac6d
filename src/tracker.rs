//! Tracker announce requests and compact peer lists.
use vstd::prelude::*;
use vstd::string::*;
use crate::bencode::{
    BValue, Value, decode, decimal, dict_get, is_bencoded, lookup, parse, DecodeError,
};
use crate::bindings::{push_char, random_below};

verus! {

/// A peer endpoint: an IPv4 address and a port.
#[derive(Debug, Clone, Copy)]
pub struct PeerAddr {
    pub ip: [u8; 4],
    pub port: u16,
}

/// The query parameters of an announce.
pub struct TrackerRequest {
    pub peer_id: String,
    pub port: u16,
    pub uploaded: u64,
    pub downloaded: u64,
    pub left: u32,
    pub compact: u8,
}

pub open spec fn is_digit_char(c: char) -> bool {
    '0' <= c <= '9'
}

/// The decimal digits of `n` as characters.
pub open spec fn decimal_text(n: nat) -> Seq<char> {
    decimal(n).map_values(|b: u8| b as char)
}

fn push_decimal_text(n: u64, s: &mut String)
    ensures
        final(s)@ == old(s)@ + decimal_text(n as nat),
    decreases n,
{
    if n < 10 {
        push_char(s, ((48 + n) as u8) as char);
    } else {
        push_decimal_text(n / 10, s);
        push_char(s, ((48 + n % 10) as u8) as char);
    }
    assert(final(s)@ =~= old(s)@ + decimal_text(n as nat));
}

/// An ASCII letter or digit.
pub open spec fn is_alphanumeric(b: u8) -> bool {
    (48 <= b <= 57) || (65 <= b <= 90) || (97 <= b <= 122)
}

/// An upper-case hexadecimal digit.
pub open spec fn hex_digit_upper(d: int) -> char {
    if d < 10 {
        (48 + d) as char
    } else {
        (55 + d) as char
    }
}

/// One byte in a URL: a letter or digit stands for itself, any other byte is
/// `%` and two upper-case hex digits.
pub open spec fn percent_encode_byte(b: u8) -> Seq<char> {
    if is_alphanumeric(b) {
        seq![b as char]
    } else {
        seq!['%', hex_digit_upper(b as int / 16), hex_digit_upper(b as int % 16)]
    }
}

pub open spec fn percent_encoded(b: Seq<u8>) -> Seq<char>
    decreases b.len(),
{
    if b.len() == 0 {
        Seq::empty()
    } else {
        percent_encoded(b.subrange(0, b.len() - 1)) + percent_encode_byte(b[b.len() - 1])
    }
}

fn hex_char(d: u8) -> (c: char)
    requires
        d < 16,
    ensures
        c == hex_digit_upper(d as int),
{
    if d < 10 {
        (48 + d) as char
    } else {
        (55 + d) as char
    }
}

/// Appends `b` percent-encoded.
fn push_percent_encoded(b: &[u8], s: &mut String)
    ensures
        final(s)@ == old(s)@ + percent_encoded(b@),
{
    let mut i: usize = 0;
    while i < b.len()
        invariant
            i <= b@.len(),
            s@ == old(s)@ + percent_encoded(b@.subrange(0, i as int)),
        decreases b@.len() - i,
    {
        let x = b[i];
        if (48 <= x && x <= 57) || (65 <= x && x <= 90) || (97 <= x && x <= 122) {
            push_char(s, x as char);
        } else {
            push_char(s, '%');
            push_char(s, hex_char(x / 16));
            push_char(s, hex_char(x % 16));
        }
        let ghost pre = b@.subrange(0, i + 1);
        assert(pre.subrange(0, pre.len() - 1) =~= b@.subrange(0, i as int));
        i = i + 1;
        assert(s@ =~= old(s)@ + percent_encoded(b@.subrange(0, i as int)));
    }
    assert(b@.subrange(0, i as int) =~= b@);
}

impl TrackerRequest {
    /// A request for a download with `left` bytes to go, under a fresh peer id
    /// of 20 random decimal digits.
    pub fn new(left: u32) -> (r: TrackerRequest)
        ensures
            r.peer_id@.len() == 20,
            forall|i: int| 0 <= i < 20 ==> is_digit_char(#[trigger] r.peer_id@[i]),
            r.port == 6881,
            r.uploaded == 0,
            r.downloaded == 0,
            r.left == left,
            r.compact == 1,
    {
        let mut peer_id = String::new();
        let mut i: usize = 0;
        while i < 20
            invariant
                i <= 20,
                peer_id@.len() == i,
                forall|k: int| 0 <= k < i ==> is_digit_char(#[trigger] peer_id@[k]),
            decreases 20 - i,
        {
            let d = random_below(10);
            push_char(&mut peer_id, ((48 + d) as u8) as char);
            i = i + 1;
        }
        TrackerRequest { peer_id, port: 6881, uploaded: 0, downloaded: 0, left, compact: 1 }
    }

    /// The query string, without the info hash.
    pub open spec fn query(&self) -> Seq<char> {
        "peer_id="@ + self.peer_id@ + "&port="@ + decimal_text(self.port as nat) + "&uploaded="@
            + decimal_text(self.uploaded as nat) + "&downloaded="@ + decimal_text(
            self.downloaded as nat,
        ) + "&left="@ + decimal_text(self.left as nat) + "&compact="@ + decimal_text(
            self.compact as nat,
        )
    }

    /// The announce URL: the tracker URL, the query, then the
    /// percent-encoded info hash.
    pub fn url(&self, announce: &str, info_hash: &[u8; 20]) -> (r: String)
        ensures
            r@ == announce@ + "?"@ + self.query() + "&info_hash="@ + percent_encoded(info_hash@),
    {
        let mut s = String::from_str(announce);
        s.append("?");
        s.append("peer_id=");
        s.append(self.peer_id.as_str());
        s.append("&port=");
        push_decimal_text(self.port as u64, &mut s);
        s.append("&uploaded=");
        push_decimal_text(self.uploaded, &mut s);
        s.append("&downloaded=");
        push_decimal_text(self.downloaded, &mut s);
        s.append("&left=");
        push_decimal_text(self.left as u64, &mut s);
        s.append("&compact=");
        push_decimal_text(self.compact as u64, &mut s);
        s.append("&info_hash=");
        push_percent_encoded(info_hash.as_slice(), &mut s);
        assert(s@ =~= announce@ + "?"@ + self.query() + "&info_hash="@ + percent_encoded(info_hash@));
        s
    }
}

/// A tracker's answer to an announce.
pub struct TrackerResponse {
    pub interval: Option<u32>,
    /// Compact peer list: six bytes per peer.
    pub peers: Vec<u8>,
}

/// The tracker's answer could not be read.
#[derive(Debug, Clone, Copy, PartialEq, Eq, Structural)]
pub enum TrackerError {
    Decode(DecodeError),
    /// Not a dictionary with a `peers` byte string (and, if present, an
    /// unsigned 32-bit `interval`).
    Invalid,
}

/// The announce URL of an HTTP(S) tracker; other schemes are refused.
pub fn announce_url(announce: &str, request: &TrackerRequest, info_hash: &[u8; 20]) -> (r: Option<String>)
    ensures
        r is Some <==> crate::magnet::has_prefix(announce@, "http"@),
        r matches Some(u) ==> u@ == announce@ + "?"@ + request.query() + "&info_hash="@
            + percent_encoded(info_hash@),
{
    if crate::magnet::starts_with(announce, "http") {
        Some(request.url(announce, info_hash))
    } else {
        None
    }
}

pub open spec fn key_peers() -> Seq<u8> {
    seq![112u8, 101, 101, 114, 115]
}

pub open spec fn key_interval() -> Seq<u8> {
    seq![105u8, 110, 116, 101, 114, 118, 97, 108]
}

/// The bytes of a compact peer list, big-endian port.
pub open spec fn peer_at(b: Seq<u8>, i: int) -> PeerAddr {
    PeerAddr {
        ip: [b[6 * i], b[6 * i + 1], b[6 * i + 2], b[6 * i + 3]],
        port: (b[6 * i + 4] as int * 256 + b[6 * i + 5] as int) as u16,
    }
}

impl TrackerResponse {
    pub open spec fn describes(&self, v: BValue) -> bool {
        &&& v matches BValue::Dict(es)
        &&& lookup(v->Dict_0, key_peers()) == Some(BValue::Bytes(self.peers@))
        &&& match self.interval {
            Some(n) => lookup(v->Dict_0, key_interval()) == Some(BValue::Int(n as int)),
            None => lookup(v->Dict_0, key_interval()) is None,
        }
    }

    /// Reads a tracker response body.
    pub fn from_bytes(body: &[u8]) -> (r: Result<TrackerResponse, TrackerError>)
        ensures
            r matches Ok(t) ==> is_bencoded(body@) && t.describes(parse(body@)),
            r matches Err(TrackerError::Decode(_)) <==> !is_bencoded(body@),
            r is Err ==> !is_bencoded(body@) || forall|t: TrackerResponse|
                !#[trigger] t.describes(parse(body@)),
    {
        let v = match decode(body) {
            Ok(v) => v,
            Err(e) => {
                return Err(TrackerError::Decode(e));
            },
        };
        let es = match &v {
            Value::Dict(es) => es,
            _ => {
                return Err(TrackerError::Invalid);
            },
        };
        let k_peers: Vec<u8> = vec![112u8, 101, 101, 114, 115];
        let k_interval: Vec<u8> = vec![105u8, 110, 116, 101, 114, 118, 97, 108];
        let peers = match dict_get(es, k_peers.as_slice()) {
            Some(Value::Bytes(b)) => b.clone(),
            _ => {
                return Err(TrackerError::Invalid);
            },
        };
        let interval = match dict_get(es, k_interval.as_slice()) {
            None => None,
            Some(Value::Int(i)) => {
                if 0 <= *i && *i <= 0xffff_ffff {
                    Some(*i as u32)
                } else {
                    return Err(TrackerError::Invalid);
                }
            },
            Some(_) => {
                return Err(TrackerError::Invalid);
            },
        };
        Ok(TrackerResponse { interval, peers })
    }

    /// The peers of the compact list, one per six bytes; a trailing partial
    /// group is ignored.
    pub fn peers(&self) -> (r: Vec<PeerAddr>)
        ensures
            r@.len() == self.peers@.len() / 6,
            forall|i: int| 0 <= i < r@.len() ==> #[trigger] r@[i] == peer_at(self.peers@, i),
    {
        let b = &self.peers;
        let blen = b.len();
        let n = blen / 6;
        let mut out: Vec<PeerAddr> = Vec::new();
        let mut i: usize = 0;
        while i < n
            invariant
                i <= n,
                n == blen / 6,
                blen == b@.len(),
                out@.len() == i,
                forall|k: int| 0 <= k < i ==> #[trigger] out@[k] == peer_at(b@, k),
            decreases n - i,
        {
            assert(6 * i + 6 <= b@.len()) by (nonlinear_arith)
                requires
                    i < n,
                    n == blen / 6,
                    blen == b@.len(),
            ;
            let o = 6 * i;
            let port: u16 = (b[o + 4] as u16) * 256 + b[o + 5] as u16;
            let a = PeerAddr { ip: [b[o], b[o + 1], b[o + 2], b[o + 3]], port };
            assert(a == peer_at(b@, i as int));
            out.push(a);
            i = i + 1;
        }
        out
    }
}

} // verus!
