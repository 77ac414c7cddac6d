//! The metainfo (`.torrent`) model: tracker URL, piece layout and file layout.
use vstd::prelude::*;
use vstd::utf8::{decode_utf8, valid_utf8};
use crate::bencode::{
    BValue, Value, decode, dict_get, encode, encode_value, is_bencoded, lemma_view_list, lookup,
    parse, DecodeError, view_list,
};
use crate::bindings::{sha1_digest, sha1_of, utf8_string};
use crate::magnet::Magnet;

verus! {

pub open spec fn key_announce() -> Seq<u8> {
    seq![97u8, 110, 110, 111, 117, 110, 99, 101]
}

pub open spec fn key_info() -> Seq<u8> {
    seq![105u8, 110, 102, 111]
}

pub open spec fn key_piece_length() -> Seq<u8> {
    seq![112u8, 105, 101, 99, 101, 32, 108, 101, 110, 103, 116, 104]
}

pub open spec fn key_pieces() -> Seq<u8> {
    seq![112u8, 105, 101, 99, 101, 115]
}

pub open spec fn key_name() -> Seq<u8> {
    seq![110u8, 97, 109, 101]
}

pub open spec fn key_length() -> Seq<u8> {
    seq![108u8, 101, 110, 103, 116, 104]
}

pub open spec fn key_files() -> Seq<u8> {
    seq![102u8, 105, 108, 101, 115]
}

pub open spec fn key_path() -> Seq<u8> {
    seq![112u8, 97, 116, 104]
}

/// `v` is a byte string holding the UTF-8 encoding of `s`.
pub open spec fn is_text(v: BValue, s: Seq<char>) -> bool {
    v matches BValue::Bytes(b) && valid_utf8(b) && decode_utf8(b) == s
}

/// One file of a multi-file torrent.
pub struct File {
    pub length: u32,
    pub path: Vec<String>,
}

/// Whether the torrent holds one file or several.
pub enum Layout {
    SingleFile { length: u32 },
    MultiFile { files: Vec<File> },
}

/// The `info` dictionary of a torrent.
pub struct Info {
    pub piece_length: u32,
    /// The concatenated 20-byte SHA-1 digests of the pieces.
    pub pieces: Vec<u8>,
    pub name: String,
    pub layout: Layout,
    /// The exact bencoded bytes of the dictionary, which the info hash covers.
    pub raw: Vec<u8>,
}

/// A torrent's metainfo.
pub struct Torrent {
    pub announce: String,
    pub info: Info,
}

/// The metainfo could not be read.
#[derive(Debug, Clone, Copy, PartialEq, Eq, Structural)]
pub enum MetainfoError {
    /// The bytes are not one canonically bencoded value.
    Decode(DecodeError),
    /// A required field is missing or has the wrong type, or the piece
    /// digests do not cover the length.
    Invalid,
}

pub open spec fn describes_file(f: File, w: BValue) -> bool {
    &&& w matches BValue::Dict(es)
    &&& lookup(w->Dict_0, key_length()) == Some(BValue::Int(f.length as int))
    &&& lookup(w->Dict_0, key_path()) matches Some(BValue::List(ps))
    &&& ps.len() == f.path@.len()
    &&& forall|j: int| 0 <= j < ps.len() ==> is_text(#[trigger] ps[j], f.path@[j]@)
}

pub open spec fn files_total(files: Seq<File>) -> nat
    decreases files.len(),
{
    if files.len() == 0 {
        0
    } else {
        files_total(files.subrange(0, files.len() - 1)) + files[files.len() - 1].length as nat
    }
}

pub open spec fn layout_describes(l: Layout, es: Seq<(Seq<u8>, BValue)>) -> bool {
    match l {
        Layout::SingleFile { length } => lookup(es, key_length()) == Some(BValue::Int(length as int)),
        Layout::MultiFile { files } => {
            &&& lookup(es, key_length()) is None
            &&& lookup(es, key_files()) matches Some(BValue::List(ws))
            &&& ws.len() == files@.len()
            &&& forall|i: int| 0 <= i < ws.len() ==> describes_file(files@[i], #[trigger] ws[i])
        },
    }
}

pub open spec fn ceil_div(a: nat, b: nat) -> nat {
    ((a + b - 1) / (b as int)) as nat
}

impl Info {
    /// The sum of the file lengths.
    pub open spec fn total_length(&self) -> nat {
        match self.layout {
            Layout::SingleFile { length } => length as nat,
            Layout::MultiFile { files } => files_total(files@),
        }
    }

    pub open spec fn piece_count(&self) -> nat {
        self.pieces@.len() / 20
    }

    /// The digest that piece `i` must have.
    pub open spec fn piece_hash(&self, i: int) -> Seq<u8> {
        self.pieces@.subrange(20 * i, 20 * i + 20)
    }

    /// The size of piece `i`: the piece length, but the last piece may be
    /// short.
    pub open spec fn size_of_piece(&self, i: int) -> int {
        if self.piece_length < self.total_length() - i * self.piece_length {
            self.piece_length as int
        } else {
            self.total_length() - i * self.piece_length
        }
    }

    /// The pieces exactly cover the content.
    pub open spec fn wf(&self) -> bool {
        &&& self.piece_length > 0
        &&& self.pieces@.len() % 20 == 0
        &&& self.total_length() <= u32::MAX
        &&& self.piece_count() == ceil_div(self.total_length(), self.piece_length as nat)
    }

    pub open spec fn describes(&self, v: BValue) -> bool {
        &&& v matches BValue::Dict(es)
        &&& lookup(v->Dict_0, key_piece_length()) == Some(BValue::Int(self.piece_length as int))
        &&& lookup(v->Dict_0, key_pieces()) == Some(BValue::Bytes(self.pieces@))
        &&& lookup(v->Dict_0, key_name()) matches Some(nv)
        &&& is_text(nv, self.name@)
        &&& layout_describes(self.layout, v->Dict_0)
        &&& self.raw@ == encode(v)
    }

    /// The bencoded bytes of this dictionary.
    pub fn info_bytes(&self) -> (r: &Vec<u8>)
        ensures
            r@ == self.raw@,
    {
        &self.raw
    }
}

impl Torrent {
    pub open spec fn describes(&self, v: BValue) -> bool {
        &&& v matches BValue::Dict(es)
        &&& lookup(v->Dict_0, key_announce()) matches Some(a)
        &&& is_text(a, self.announce@)
        &&& lookup(v->Dict_0, key_info()) matches Some(iv)
        &&& self.info.describes(iv)
    }
}


/// The text a byte-string value holds.
fn text_of_value(v: &Value) -> (r: Option<String>)
    ensures
        r matches Some(s) ==> is_text(v@, s@),
        r is None ==> forall|s: Seq<char>| !is_text(v@, s),
{
    match v {
        Value::Bytes(b) => utf8_string(b.as_slice()),
        _ => None,
    }
}

/// The value of an integer that fits in 32 unsigned bits.
fn u32_of_value(v: &Value) -> (r: Option<u32>)
    ensures
        r matches Some(n) ==> v@ == BValue::Int(n as int),
        r is None ==> forall|n: u32| v@ != BValue::Int(n as int),
{
    match v {
        Value::Int(i) => {
            if 0 <= *i && *i <= 0xffff_ffff {
                Some(*i as u32)
            } else {
                None
            }
        },
        _ => None,
    }
}

/// A total length, held at 2^32 once it passes the 32-bit range.
pub open spec fn capped(n: nat) -> nat {
    if n > 0x1_0000_0000 {
        0x1_0000_0000
    } else {
        n
    }
}

fn parse_file(v: &Value) -> (r: Option<File>)
    ensures
        r matches Some(f) ==> describes_file(f, v@),
        r is None ==> forall|f: File| !describes_file(f, v@),
{
    let es = match v {
        Value::Dict(es) => es,
        _ => {
            return None;
        },
    };
    let k_length: Vec<u8> = vec![108u8, 101, 110, 103, 116, 104];
    let k_path: Vec<u8> = vec![112u8, 97, 116, 104];
    let length = match dict_get(es, k_length.as_slice()) {
        Some(lv) => match u32_of_value(lv) {
            Some(n) => n,
            None => {
                return None;
            },
        },
        None => {
            return None;
        },
    };
    let parts = match dict_get(es, k_path.as_slice()) {
        Some(Value::List(parts)) => parts,
        _ => {
            return None;
        },
    };
    let mut path: Vec<String> = Vec::new();
    let mut j: usize = 0;
    proof {
        lemma_view_list(parts@);
    }
    while j < parts.len()
        invariant
            j <= parts@.len(),
            v@ == BValue::Dict(crate::bencode::view_entries(es@)),
            lookup(crate::bencode::view_entries(es@), key_path()) == Some(BValue::List(view_list(parts@))),
            path@.len() == j,
            view_list(parts@).len() == parts@.len(),
            forall|k: int| 0 <= k < parts@.len() ==> #[trigger] view_list(parts@)[k] == parts@[k]@,
            forall|k: int| 0 <= k < j ==> is_text(#[trigger] view_list(parts@)[k], path@[k]@),
        decreases parts@.len() - j,
    {
        match text_of_value(&parts[j]) {
            Some(t) => {
                path.push(t);
            },
            None => {
                proof {
                    assert forall|f: File| !describes_file(f, v@) by {
                        if describes_file(f, v@) {
                            assert(is_text(view_list(parts@)[j as int], f.path@[j as int]@));
                        }
                    }
                }
                return None;
            },
        }
        j = j + 1;
    }
    Some(File { length, path })
}

proof fn lemma_files_total_eq(a: Seq<File>, b: Seq<File>)
    requires
        a.len() == b.len(),
        forall|i: int| 0 <= i < a.len() ==> #[trigger] a[i].length == b[i].length,
    ensures
        files_total(a) == files_total(b),
    decreases a.len(),
{
    if a.len() > 0 {
        lemma_files_total_eq(a.subrange(0, a.len() - 1), b.subrange(0, b.len() - 1));
    }
}

proof fn lemma_files_total_prefix(a: Seq<File>, k: int)
    requires
        0 <= k <= a.len(),
    ensures
        files_total(a.subrange(0, k)) <= files_total(a),
    decreases a.len(),
{
    if k < a.len() {
        let p = a.subrange(0, a.len() - 1);
        lemma_files_total_prefix(p, k);
        assert(p.subrange(0, k) =~= a.subrange(0, k));
    } else {
        assert(a.subrange(0, k) =~= a);
    }
}

/// Reads the piece and file layout out of an `info` dictionary.
fn parse_layout(es: &Vec<(Vec<u8>, Value)>) -> (r: Option<(Layout, u64)>)
    ensures
        r matches Some((l, total)) ==> layout_describes(l, crate::bencode::view_entries(es@))
            && total == capped(match l {
            Layout::SingleFile { length } => length as nat,
            Layout::MultiFile { files } => files_total(files@),
        }),
        r is None ==> forall|l: Layout| !layout_describes(l, crate::bencode::view_entries(es@)),
{
    let k_length: Vec<u8> = vec![108u8, 101, 110, 103, 116, 104];
    let k_files: Vec<u8> = vec![102u8, 105, 108, 101, 115];
    match dict_get(es, k_length.as_slice()) {
        Some(lv) => {
            return match u32_of_value(lv) {
                Some(n) => Some((Layout::SingleFile { length: n }, n as u64)),
                None => None,
            };
        },
        None => {},
    }
    let ws = match dict_get(es, k_files.as_slice()) {
        Some(Value::List(ws)) => ws,
        _ => {
            return None;
        },
    };
    proof {
        lemma_view_list(ws@);
    }
    let mut files: Vec<File> = Vec::new();
    let mut total: u64 = 0;
    let mut i: usize = 0;
    while i < ws.len()
        invariant
            i <= ws@.len(),
            files@.len() == i,
            view_list(ws@).len() == ws@.len(),
            forall|k: int| 0 <= k < ws@.len() ==> #[trigger] view_list(ws@)[k] == ws@[k]@,
            forall|k: int| 0 <= k < i ==> describes_file(files@[k], #[trigger] view_list(ws@)[k]),
            total == capped(files_total(files@)),
            lookup(crate::bencode::view_entries(es@), key_files()) == Some(BValue::List(view_list(ws@))),
            lookup(crate::bencode::view_entries(es@), key_length()) is None,
        decreases ws@.len() - i,
    {
        match parse_file(&ws[i]) {
            Some(f) => {
                let ghost before = files@;
                if total < 0x1_0000_0000 {
                    total = total + f.length as u64;
                    if total > 0x1_0000_0000 {
                        total = 0x1_0000_0000;
                    }
                }
                files.push(f);
                assert(files@.subrange(0, files@.len() - 1) =~= before);
            },
            None => {
                proof {
                    assert forall|l: Layout| !layout_describes(l, crate::bencode::view_entries(es@)) by {
                        if layout_describes(l, crate::bencode::view_entries(es@)) {
                            if let Layout::MultiFile { files: fs } = l {
                                assert(describes_file(fs@[i as int], view_list(ws@)[i as int]));
                            }
                        }
                    }
                }
                return None;
            },
        }
        i = i + 1;
    }
    Some((Layout::MultiFile { files }, total))
}

impl Info {
    /// Reads an `info` dictionary.
    pub fn from_value(v: &Value) -> (r: Result<Info, MetainfoError>)
        ensures
            r matches Ok(info) ==> info.describes(v@) && info.wf(),
            r is Err ==> r == Err::<Info, MetainfoError>(MetainfoError::Invalid),
            r is Err ==> forall|info: Info| !(#[trigger] info.describes(v@) && info.wf()),
    {
        let es = match v {
            Value::Dict(es) => es,
            _ => {
                return Err(MetainfoError::Invalid);
            },
        };
        let ghost ev = crate::bencode::view_entries(es@);
        let k_piece_length: Vec<u8> = vec![112u8, 105, 101, 99, 101, 32, 108, 101, 110, 103, 116, 104];
        let k_pieces: Vec<u8> = vec![112u8, 105, 101, 99, 101, 115];
        let k_name: Vec<u8> = vec![110u8, 97, 109, 101];
        let piece_length = match dict_get(es, k_piece_length.as_slice()) {
            Some(x) => match u32_of_value(x) {
                Some(n) => n,
                None => {
                    return Err(MetainfoError::Invalid);
                },
            },
            None => {
                return Err(MetainfoError::Invalid);
            },
        };
        let pieces = match dict_get(es, k_pieces.as_slice()) {
            Some(Value::Bytes(b)) => b.clone(),
            _ => {
                return Err(MetainfoError::Invalid);
            },
        };
        let name = match dict_get(es, k_name.as_slice()) {
            Some(x) => match text_of_value(x) {
                Some(t) => t,
                None => {
                    return Err(MetainfoError::Invalid);
                },
            },
            None => {
                return Err(MetainfoError::Invalid);
            },
        };
        let (layout, total) = match parse_layout(es) {
            Some(x) => x,
            None => {
                return Err(MetainfoError::Invalid);
            },
        };
        let raw = encode_value(v);
        let info = Info { piece_length, pieces, name, layout, raw };
        assert(info.describes(v@));
        proof {
            assert forall|other: Info| #[trigger] other.describes(v@) implies capped(other.total_length()) == total
                && other.piece_length == piece_length && other.pieces@ == info.pieces@ by {
                match (other.layout, info.layout) {
                    (Layout::MultiFile { files: a }, Layout::MultiFile { files: b }) => {
                        let ws = lookup(ev, key_files())->0->List_0;
                        assert forall|i: int| 0 <= i < a@.len() implies #[trigger] a@[i].length == b@[i].length by {
                            assert(describes_file(a@[i], ws[i]));
                            assert(describes_file(b@[i], ws[i]));
                        }
                        lemma_files_total_eq(a@, b@);
                    },
                    _ => {},
                }
            }
        }
        if piece_length == 0 || info.pieces.len() % 20 != 0 || total > 0xffff_ffff {
            return Err(MetainfoError::Invalid);
        }
        let count = (info.pieces.len() / 20) as u64;
        let pl = piece_length as u64;
        let want = (total + pl - 1) / pl;
        if count != want {
            return Err(MetainfoError::Invalid);
        }
        Ok(info)
    }

    /// Reads an `info` dictionary from its bencoded bytes.
    pub fn from_bytes(raw: &[u8]) -> (r: Result<Info, MetainfoError>)
        ensures
            r matches Ok(info) ==> is_bencoded(raw@) && info.describes(parse(raw@)) && info.wf()
                && info.raw@ == raw@,
            r matches Err(MetainfoError::Decode(_)) <==> !is_bencoded(raw@),
            r is Err ==> !is_bencoded(raw@) || forall|info: Info|
                !(#[trigger] info.describes(parse(raw@)) && info.wf()),
    {
        match decode(raw) {
            Ok(v) => Info::from_value(&v),
            Err(e) => Err(MetainfoError::Decode(e)),
        }
    }
}


impl Info {
    /// The SHA-1 digest of the bencoded dictionary: the torrent's identity.
    pub fn info_hash(&self) -> (r: [u8; 20])
        ensures
            r@ == sha1_of(self.raw@),
    {
        sha1_digest(self.raw.as_slice())
    }

    /// The total length of the content.
    pub fn len(&self) -> (r: u32)
        requires
            self.wf(),
        ensures
            r == self.total_length(),
    {
        match &self.layout {
            Layout::SingleFile { length } => *length,
            Layout::MultiFile { files } => {
                let mut total: u32 = 0;
                let mut i: usize = 0;
                while i < files.len()
                    invariant
                        i <= files@.len(),
                        files_total(files@) <= u32::MAX,
                        total == files_total(files@.subrange(0, i as int)),
                    decreases files@.len() - i,
                {
                    proof {
                        lemma_files_total_prefix(files@, i + 1);
                        assert(files@.subrange(0, i + 1).subrange(0, i as int) =~= files@.subrange(0, i as int));
                    }
                    total = total + files[i].length;
                    i = i + 1;
                }
                assert(files@.subrange(0, i as int) =~= files@);
                total
            },
        }
    }

    /// The size of piece `index`; only the last piece may be shorter than the
    /// piece length.
    pub fn piece_size(&self, index: usize) -> (r: u32)
        requires
            self.wf(),
            index < self.piece_count(),
        ensures
            r == self.size_of_piece(index as int),
            0 < r <= self.piece_length,
    {
        let total = self.len() as u64;
        let pl = self.piece_length as u64;
        proof {
            lemma_piece_offset_in_range(self.total_length(), self.piece_length as nat, self.piece_count(), index as nat);
        }
        let rest = total - index as u64 * pl;
        if pl < rest {
            self.piece_length
        } else {
            rest as u32
        }
    }
}

impl Info {
    /// Whether `data` is piece `index`: its size and SHA-1 digest match.
    pub fn verify_piece(&self, index: usize, data: &[u8]) -> (r: bool)
        requires
            self.wf(),
            index < self.piece_count(),
        ensures
            r == (data@.len() == self.size_of_piece(index as int) && sha1_of(data@) == self.piece_hash(
                index as int,
            )),
    {
        let size = self.piece_size(index);
        if data.len() != size as usize {
            return false;
        }
        let digest = sha1_digest(data);
        let plen = self.pieces.len();
        proof {
            assert(20 * index + 20 <= plen) by (nonlinear_arith)
                requires
                    index < plen / 20,
            ;
        }
        crate::bencode::bytes_eq(digest.as_slice(), &self.pieces.as_slice()[20 * index..20 * index + 20])
    }
}

/// A piece before the last starts and ends inside the content; the last
/// starts inside it.
pub proof fn lemma_piece_offset_in_range(total: nat, pl: nat, count: nat, i: nat)
    requires
        pl > 0,
        count == ceil_div(total, pl),
        i < count,
    ensures
        i * pl < total,
        i + 1 < count ==> (i + 1) * pl < total,
        i + 1 == count ==> total <= (i + 1) * pl,
{
    let c = count as int;
    assert(c == (total + pl - 1) / (pl as int));
    assert((c - 1) * pl < total && total <= c * pl) by (nonlinear_arith)
        requires
            c == (total + pl - 1) / (pl as int),
            pl > 0,
            c > 0,
    ;
    assert(i * pl <= (c - 1) * pl) by (nonlinear_arith)
        requires
            i <= c - 1,
            pl > 0,
    ;
    if i + 1 < count {
        assert((i + 1) * pl <= (c - 1) * pl) by (nonlinear_arith)
            requires
                i + 1 <= c - 1,
                pl > 0,
        ;
    }
}

/// The sizes of the first `n` pieces added up.
pub open spec fn sizes_sum(info: Info, n: nat) -> int
    decreases n,
{
    if n == 0 {
        0
    } else {
        sizes_sum(info, (n - 1) as nat) + info.size_of_piece(n - 1)
    }
}

/// Every piece is at most the piece length, and the piece sizes add up to the
/// total length.
pub proof fn lemma_piece_sizes(info: Info)
    requires
        info.wf(),
    ensures
        forall|i: int| 0 <= i < info.piece_count() ==> 0 < #[trigger] info.size_of_piece(i) <= info.piece_length,
        sizes_sum(info, info.piece_count()) == info.total_length(),
{
    let pl = info.piece_length as nat;
    let total = info.total_length();
    let count = info.piece_count();
    assert forall|i: int| 0 <= i < count implies 0 < #[trigger] info.size_of_piece(i) <= info.piece_length by {
        lemma_piece_offset_in_range(total, pl, count, i as nat);
    }
    if count > 0 {
        lemma_sizes_sum_full(info, (count - 1) as nat);
        lemma_piece_offset_in_range(total, pl, count, (count - 1) as nat);
        let c = count as int;
        assert(c * pl == (c - 1) * pl + pl) by (nonlinear_arith);
        assert(info.size_of_piece(c - 1) == total - (c - 1) * pl);
        assert(sizes_sum(info, count) == sizes_sum(info, (count - 1) as nat) + info.size_of_piece(c - 1));
    } else {
        assert(total == 0) by {
            if total > 0 {
                assert((total + pl - 1) / (pl as int) >= 1) by (nonlinear_arith)
                    requires
                        total >= 1,
                        pl > 0,
                ;
            }
        }
    }
}

proof fn lemma_sizes_sum_full(info: Info, n: nat)
    requires
        info.wf(),
        n < info.piece_count(),
    ensures
        sizes_sum(info, n) == n * info.piece_length,
    decreases n,
{
    if n > 0 {
        lemma_sizes_sum_full(info, (n - 1) as nat);
        let pl = info.piece_length as int;
        lemma_piece_offset_in_range(info.total_length(), info.piece_length as nat, info.piece_count(), (n - 1) as nat);
        assert(n * pl == (n - 1) * pl + pl) by (nonlinear_arith);
        assert(info.size_of_piece(n - 1) == pl);
        assert(sizes_sum(info, n) == sizes_sum(info, (n - 1) as nat) + info.size_of_piece(n - 1));
        assert(sizes_sum(info, (n - 1) as nat) == (n - 1) * pl);
        assert(sizes_sum(info, n) == n * pl);
    } else {
        assert(sizes_sum(info, 0) == 0);
        assert(0 * info.piece_length == 0) by (nonlinear_arith);
    }
}

impl Torrent {
    /// Reads a torrent from the contents of a metainfo file.
    pub fn new(content: &[u8]) -> (r: Result<Torrent, MetainfoError>)
        ensures
            r matches Ok(t) ==> is_bencoded(content@) && t.describes(parse(content@)) && t.info.wf(),
            r matches Err(MetainfoError::Decode(_)) <==> !is_bencoded(content@),
            r is Err ==> !is_bencoded(content@) || forall|t: Torrent|
                !(#[trigger] t.describes(parse(content@)) && t.info.wf()),
    {
        let v = match decode(content) {
            Ok(v) => v,
            Err(e) => {
                return Err(MetainfoError::Decode(e));
            },
        };
        let es = match &v {
            Value::Dict(es) => es,
            _ => {
                return Err(MetainfoError::Invalid);
            },
        };
        let k_announce: Vec<u8> = vec![97u8, 110, 110, 111, 117, 110, 99, 101];
        let k_info: Vec<u8> = vec![105u8, 110, 102, 111];
        let announce = match dict_get(es, k_announce.as_slice()) {
            Some(x) => match text_of_value(x) {
                Some(t) => t,
                None => {
                    return Err(MetainfoError::Invalid);
                },
            },
            None => {
                return Err(MetainfoError::Invalid);
            },
        };
        let info = match dict_get(es, k_info.as_slice()) {
            Some(x) => match Info::from_value(x) {
                Ok(i) => i,
                Err(e) => {
                    return Err(e);
                },
            },
            None => {
                return Err(MetainfoError::Invalid);
            },
        };
        Ok(Torrent { announce, info })
    }

    /// Builds a torrent from a magnet link's tracker and the `info`
    /// dictionary fetched from peers; a link without a tracker gives none.
    pub fn from_magnet_and_metadata(magnet: Magnet, metadata: Info) -> (r: Option<Torrent>)
        ensures
            r is Some <==> magnet.tracker_url is Some,
            r matches Some(t) ==> t.announce@ == magnet.tracker_url->0@ && t.info == metadata,
    {
        match magnet.tracker_url {
            Some(announce) => Some(Torrent { announce, info: metadata }),
            None => None,
        }
    }

    /// The SHA-1 digest of the bencoded `info` dictionary.
    pub fn info_hash(&self) -> (r: [u8; 20])
        ensures
            r@ == sha1_of(self.info.raw@),
    {
        self.info.info_hash()
    }

    /// The total length of the content.
    pub fn len(&self) -> (r: u32)
        requires
            self.info.wf(),
        ensures
            r == self.info.total_length(),
    {
        self.info.len()
    }

    /// The 20-byte digest of each piece, in order.
    pub fn pieces(&self) -> (r: Vec<Vec<u8>>)
        ensures
            r@.len() == self.info.piece_count(),
            forall|i: int| 0 <= i < r@.len() ==> #[trigger] r@[i]@ == self.info.piece_hash(i),
    {
        let plen = self.info.pieces.len();
        let count = plen / 20;
        let mut out: Vec<Vec<u8>> = Vec::new();
        let mut i: usize = 0;
        while i < count
            invariant
                i <= count,
                count == self.info.piece_count(),
                count == plen / 20,
                plen == self.info.pieces@.len(),
                out@.len() == i,
                forall|k: int| 0 <= k < i ==> #[trigger] out@[k]@ == self.info.piece_hash(k),
            decreases count - i,
        {
            assert(20 * i + 20 <= self.info.pieces@.len()) by (nonlinear_arith)
                requires
                    i < count,
                    count == plen / 20,
                    plen == self.info.pieces@.len(),
            ;
            let mut h: Vec<u8> = Vec::new();
            crate::bencode::push_all(&self.info.pieces.as_slice()[20 * i..20 * i + 20], &mut h);
            out.push(h);
            i = i + 1;
        }
        out
    }
}

/// The bytes that the info hash covers are the `info` dictionary exactly as it
/// stands in the metainfo file: hashing the re-encoded dictionary and hashing
/// the span it occupies in the file give the same digest.
pub proof fn lemma_info_bytes_in_source(content: Seq<u8>, t: Torrent)
    requires
        is_bencoded(content),
        t.describes(parse(content)),
    ensures
        exists|a: int| crate::bencode::occurs_at(content, a, t.info.raw@),
        sha1_of(t.info.raw@) == sha1_of(encode(lookup(parse(content)->Dict_0, key_info())->0)),
{
    crate::bencode::lemma_round_trip(content);
    crate::bencode::lemma_lookup_occurs(parse(content)->Dict_0, key_info());
}

} // verus!
