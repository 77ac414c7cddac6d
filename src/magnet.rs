//! Magnet links: an info hash, and optionally a display name and a tracker.
use vstd::prelude::*;
use vstd::string::*;
use crate::bindings::{hex_bytes, hex_decode, is_hex_char, parse_url, parsed_url, url_parts_view, UrlParts};

verus! {

/// What a magnet link names.
pub struct Magnet {
    /// The raw 20 bytes of the info hash.
    pub info_hash: [u8; 20],
    /// The display name (`dn`).
    pub file_name: Option<String>,
    /// The tracker URL (`tr`), as the URL parser writes it out.
    pub tracker_url: Option<String>,
}

/// Why a magnet link was refused.
#[derive(Debug, Clone, Copy, PartialEq, Eq, Structural)]
pub enum MagnetError {
    /// The text is not a URL.
    InvalidUrl,
    /// The scheme is not `magnet`.
    NotMagnet,
    /// There is no `xt` parameter.
    MissingXt,
    /// The `xt` parameter does not start with `urn:btih:`.
    InvalidXt,
    /// The info hash is not 40 hex digits.
    InvalidInfoHash,
    /// The `tr` parameter is not a URL.
    InvalidTracker,
}

/// The value of the last query pair named `key`, as a map built from the
/// pairs in order would hold it.
pub open spec fn last_value(pairs: Seq<(Seq<char>, Seq<char>)>, key: Seq<char>) -> Option<Seq<char>>
    decreases pairs.len(),
{
    if pairs.len() == 0 {
        None
    } else if pairs[pairs.len() - 1].0 == key {
        Some(pairs[pairs.len() - 1].1)
    } else {
        last_value(pairs.subrange(0, pairs.len() - 1), key)
    }
}

pub open spec fn has_prefix(s: Seq<char>, prefix: Seq<char>) -> bool {
    prefix.len() <= s.len() && s.subrange(0, prefix.len() as int) == prefix
}

/// The hex digits after `urn:btih:` spell 20 bytes.
pub open spec fn hash_text_ok(h: Seq<char>) -> bool {
    h.len() == 40 && forall|i: int| 0 <= i < h.len() ==> is_hex_char(#[trigger] h[i])
}

pub fn starts_with(s: &str, prefix: &str) -> (r: bool)
    ensures
        r == has_prefix(s@, prefix@),
{
    let n = s.unicode_len();
    let m = prefix.unicode_len();
    if m > n {
        return false;
    }
    let mut i: usize = 0;
    while i < m
        invariant
            i <= m,
            m <= n,
            n == s@.len(),
            m == prefix@.len(),
            s@.subrange(0, i as int) =~= prefix@.subrange(0, i as int),
        decreases m - i,
    {
        if s.get_char(i) != prefix.get_char(i) {
            assert(s@.subrange(0, m as int)[i as int] == s@[i as int]);
            return false;
        }
        i = i + 1;
    }
    assert(prefix@.subrange(0, m as int) =~= prefix@);
    true
}

/// The value of the last pair named `key`.
fn last_value_of<'a>(pairs: &'a Vec<(String, String)>, key: &str) -> (r: Option<&'a String>)
    ensures
        r matches Some(v) ==> last_value(pairs@.map_values(|p: (String, String)| (p.0@, p.1@)), key@)
            == Some(v@),
        r is None ==> last_value(pairs@.map_values(|p: (String, String)| (p.0@, p.1@)), key@) is None,
{
    let ghost all = pairs@.map_values(|p: (String, String)| (p.0@, p.1@));
    let k = String::from_str(key);
    let mut i: usize = pairs.len();
    assert(all.subrange(0, i as int) =~= all);
    while i > 0
        invariant
            i <= pairs@.len(),
            all == pairs@.map_values(|p: (String, String)| (p.0@, p.1@)),
            k@ == key@,
            last_value(all, key@) == last_value(all.subrange(0, i as int), key@),
        decreases i,
    {
        let ghost cur = all.subrange(0, i as int);
        if pairs[i - 1].0 == k {
            return Some(&pairs[i - 1].1);
        }
        i = i - 1;
        assert(cur.subrange(0, cur.len() - 1) =~= all.subrange(0, i as int));
    }
    None
}

pub open spec fn url_scheme(p: (Seq<char>, Seq<(Seq<char>, Seq<char>)>, Seq<char>)) -> Seq<char> {
    p.0
}

pub open spec fn url_text(p: (Seq<char>, Seq<(Seq<char>, Seq<char>)>, Seq<char>)) -> Seq<char> {
    p.2
}

pub open spec fn url_query(p: (Seq<char>, Seq<(Seq<char>, Seq<char>)>, Seq<char>)) -> Seq<(Seq<char>, Seq<char>)> {
    p.1
}

/// The `xt` value of a parsed URL.
pub open spec fn xt_of(p: (Seq<char>, Seq<(Seq<char>, Seq<char>)>, Seq<char>)) -> Seq<char> {
    last_value(url_query(p), "xt"@)->0
}

/// The hex digits after `urn:btih:`.
pub open spec fn hash_text(xt: Seq<char>) -> Seq<char> {
    xt.subrange(9, xt.len() as int)
}

/// What reading a magnet link out of the parsed URL `p` gives: the first
/// failing check's error, or a magnet holding the link's parameters.
pub open spec fn magnet_outcome(
    p: (Seq<char>, Seq<(Seq<char>, Seq<char>)>, Seq<char>),
    r: Result<Magnet, MagnetError>,
) -> bool {
    let q = url_query(p);
    if url_scheme(p) != "magnet"@ {
        r == Err::<Magnet, MagnetError>(MagnetError::NotMagnet)
    } else if last_value(q, "xt"@) is None {
        r == Err::<Magnet, MagnetError>(MagnetError::MissingXt)
    } else if !has_prefix(xt_of(p), "urn:btih:"@) {
        r == Err::<Magnet, MagnetError>(MagnetError::InvalidXt)
    } else if !hash_text_ok(hash_text(xt_of(p))) {
        r == Err::<Magnet, MagnetError>(MagnetError::InvalidInfoHash)
    } else if last_value(q, "tr"@) is Some && parsed_url(last_value(q, "tr"@)->0) is None {
        r == Err::<Magnet, MagnetError>(MagnetError::InvalidTracker)
    } else {
        &&& r is Ok
        &&& r->Ok_0.info_hash@ == hex_bytes(hash_text(xt_of(p)))
        &&& (r->Ok_0.file_name is None <==> last_value(q, "dn"@) is None)
        &&& (r->Ok_0.file_name is Some ==> last_value(q, "dn"@) == Some(r->Ok_0.file_name->0@))
        &&& (r->Ok_0.tracker_url is None <==> last_value(q, "tr"@) is None)
        &&& (r->Ok_0.tracker_url is Some ==> url_text(parsed_url(last_value(q, "tr"@)->0)->0)
            == r->Ok_0.tracker_url->0@)
    }
}

impl Magnet {
    /// Reads a magnet link out of a parsed URL: `xt=urn:btih:<40 hex
    /// digits>` is required, `dn` and `tr` are optional, other parameters are
    /// ignored. Where a parameter repeats, the last one counts.
    pub fn from_url(url: &UrlParts) -> (r: Result<Magnet, MagnetError>)
        ensures
            magnet_outcome(url_parts_view(*url), r),
    {
        let magnet = String::from_str("magnet");
        proof {
            reveal_strlit("magnet");
            reveal_strlit("urn:btih:");
        }
        if url.scheme != magnet {
            return Err(MagnetError::NotMagnet);
        }
        let xt = match last_value_of(&url.query, "xt") {
            Some(x) => x,
            None => {
                return Err(MagnetError::MissingXt);
            },
        };
        if !starts_with(xt.as_str(), "urn:btih:") {
            return Err(MagnetError::InvalidXt);
        }
        let n = xt.as_str().unicode_len();
        let hex_text = xt.as_str().substring_char(9, n);
        if hex_text.unicode_len() != 40 {
            return Err(MagnetError::InvalidInfoHash);
        }
        let bytes = match hex_decode(hex_text) {
            Some(b) => b,
            None => {
                return Err(MagnetError::InvalidInfoHash);
            },
        };
        let mut info_hash: [u8; 20] = [0; 20];
        let mut i: usize = 0;
        while i < 20
            invariant
                i <= 20,
                bytes@.len() == 20,
                forall|k: int| 0 <= k < i ==> info_hash@[k] == bytes@[k],
            decreases 20 - i,
        {
            info_hash[i] = bytes[i];
            i = i + 1;
        }
        assert(info_hash@ =~= bytes@);
        let file_name = match last_value_of(&url.query, "dn") {
            Some(d) => Some(d.clone()),
            None => None,
        };
        let tracker_url = match last_value_of(&url.query, "tr") {
            Some(t) => match parse_url(t.as_str()) {
                Some(p) => Some(p.text),
                None => {
                    return Err(MagnetError::InvalidTracker);
                },
            },
            None => None,
        };
        Ok(Magnet { info_hash, file_name, tracker_url })
    }

    /// Parses a magnet link.
    pub fn new(uri: &str) -> (r: Result<Magnet, MagnetError>)
        ensures
            parsed_url(uri@) is None ==> r == Err::<Magnet, MagnetError>(MagnetError::InvalidUrl),
            parsed_url(uri@) is Some ==> magnet_outcome(parsed_url(uri@)->0, r),
    {
        match parse_url(uri) {
            Some(parts) => Magnet::from_url(&parts),
            None => Err(MagnetError::InvalidUrl),
        }
    }
}

} // verus!
