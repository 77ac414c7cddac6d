//! Download bookkeeping: which peers hold which piece, which pieces are still
//! pending, and the output buffer, written only with verified pieces.
use std::collections::HashMap;
use vstd::prelude::*;
use crate::bindings::{choose_one, sha1_digest, sha1_of};
use crate::torrent::{ceil_div, Info};

verus! {

/// Why a download cannot start.
#[derive(Debug, Clone, Copy, PartialEq, Eq, Structural)]
pub enum AvailabilityError {
    /// No peer session could be opened.
    NoPeers,
    /// Some piece is held by none of the peers.
    NoAvailability,
}

/// The state of one download.
pub struct Download {
    pub piece_length: u32,
    pub total_length: u32,
    /// The concatenated 20-byte digests of the pieces.
    pub hashes: Vec<u8>,
    /// For each piece, the indices of the peers that hold it.
    pub holders: HashMap<usize, Vec<usize>>,
    /// For each piece, whether it has been verified and written.
    pub done: Vec<bool>,
    /// The content, of the torrent's total length.
    pub file_bytes: Vec<u8>,
}

/// The indices of the peers whose piece lists contain `piece`, in order.
pub open spec fn holders_of(peer_pieces: Seq<Vec<usize>>, piece: usize) -> Seq<usize>
    decreases peer_pieces.len(),
{
    if peer_pieces.len() == 0 {
        Seq::empty()
    } else {
        let n = peer_pieces.len() - 1;
        let rest = holders_of(peer_pieces.subrange(0, n), piece);
        if peer_pieces[n]@.contains(piece) {
            rest.push(n as usize)
        } else {
            rest
        }
    }
}

impl Download {
    pub open spec fn piece_count(&self) -> nat {
        self.hashes@.len() / 20
    }

    pub open spec fn piece_hash(&self, i: int) -> Seq<u8> {
        self.hashes@.subrange(20 * i, 20 * i + 20)
    }

    pub open spec fn size_of_piece(&self, i: int) -> int {
        if self.piece_length < self.total_length - i * self.piece_length {
            self.piece_length as int
        } else {
            self.total_length - i * self.piece_length
        }
    }

    /// Where piece `i` stands in the output.
    pub open spec fn piece_bytes(&self, i: int) -> Seq<u8> {
        self.file_bytes@.subrange(i * self.piece_length, i * self.piece_length + self.size_of_piece(i))
    }

    pub open spec fn wf(&self) -> bool {
        &&& self.piece_length > 0
        &&& self.hashes@.len() % 20 == 0
        &&& self.piece_count() == ceil_div(self.total_length as nat, self.piece_length as nat)
        &&& self.file_bytes@.len() == self.total_length
        &&& self.done@.len() == self.piece_count()
        &&& forall|i: usize| i < self.piece_count() ==> #[trigger] self.holders@.contains_key(i)
            && self.holders@[i]@.len() > 0
        &&& forall|i: int|
            0 <= i < self.piece_count() && #[trigger] self.done@[i] ==> sha1_of(self.piece_bytes(i))
                == self.piece_hash(i)
    }

    /// Plans the download of `info` from peers whose claimed pieces are
    /// `peer_pieces`, one list per peer.
    pub fn new(info: &Info, peer_pieces: &Vec<Vec<usize>>) -> (r: Result<Download, AvailabilityError>)
        requires
            info.wf(),
        ensures
            r == Err::<Download, AvailabilityError>(AvailabilityError::NoPeers) <==> peer_pieces@.len() == 0,
            r == Err::<Download, AvailabilityError>(AvailabilityError::NoAvailability) <==> (peer_pieces@.len() > 0
                && exists|p: usize| p < info.piece_count() && #[trigger] holders_of(peer_pieces@, p).len() == 0),
            r matches Ok(d) ==> {
                &&& d.wf()
                &&& d.piece_length == info.piece_length
                &&& d.total_length == info.total_length()
                &&& d.hashes@ == info.pieces@
                &&& forall|p: usize| p < d.piece_count() ==> #[trigger] d.holders@.contains_key(p)
                    && d.holders@[p]@ == holders_of(peer_pieces@, p)
                &&& forall|p: int| 0 <= p < d.piece_count() ==> !#[trigger] d.done@[p]
            },
    {
        if peer_pieces.len() == 0 {
            return Err(AvailabilityError::NoPeers);
        }
        let total = info.len();
        let count = info.pieces.len() / 20;
        let mut holders: HashMap<usize, Vec<usize>> = HashMap::new();
        let mut p: usize = 0;
        while p < count
            invariant
                p <= count,
                peer_pieces@.len() > 0,
                count == info.piece_count(),
                forall|q: usize| q < p ==> #[trigger] holders@.contains_key(q) && holders@[q]@ == holders_of(peer_pieces@, q)
                    && holders@[q]@.len() > 0,
            decreases count - p,
        {
            let hs = holders_for(peer_pieces, p);
            if hs.len() == 0 {
                return Err(AvailabilityError::NoAvailability);
            }
            holders.insert(p, hs);
            p = p + 1;
        }
        let mut done: Vec<bool> = Vec::new();
        let mut k: usize = 0;
        while k < count
            invariant
                k <= count,
                done@.len() == k,
                forall|q: int| 0 <= q < k ==> !#[trigger] done@[q],
            decreases count - k,
        {
            done.push(false);
            k = k + 1;
        }
        let file_bytes: Vec<u8> = vec![0u8; total as usize];
        let d = Download {
            piece_length: info.piece_length,
            total_length: total,
            hashes: info.pieces.clone(),
            holders,
            done,
            file_bytes,
        };
        proof {
            assert(d.hashes@ == info.pieces@);
            assert forall|q: usize| q < info.piece_count() implies #[trigger] holders_of(peer_pieces@, q).len() > 0 by {
                assert(d.holders@.contains_key(q));
            }
        }
        Ok(d)
    }

    /// A peer to fetch `piece` from, drawn uniformly from its holders.
    pub fn choose_peer(&self, piece: usize) -> (r: usize)
        requires
            self.wf(),
            piece < self.piece_count(),
        ensures
            self.holders@[piece]@.contains(r),
    {
        match self.holders.get(&piece) {
            Some(hs) => match choose_one(hs.as_slice()) {
                Some(peer) => peer,
                None => {
                    proof {
                        assert(self.holders@[piece]@.len() > 0);
                    }
                    0
                },
            },
            None => {
                proof {
                    assert(self.holders@.contains_key(piece));
                }
                0
            },
        }
    }

    /// The pieces not yet verified, in ascending order.
    pub fn pending(&self) -> (r: Vec<usize>)
        requires
            self.wf(),
        ensures
            forall|k: int, l: int| 0 <= k < l < r@.len() ==> r@[k] < r@[l],
            forall|i: int|
                0 <= i < self.piece_count() ==> (r@.contains(i as usize) <==> !#[trigger] self.done@[i]),
            forall|k: int| 0 <= k < r@.len() ==> r@[k] < self.piece_count(),
    {
        let mut out: Vec<usize> = Vec::new();
        let mut i: usize = 0;
        while i < self.done.len()
            invariant
                i <= self.done@.len(),
                self.wf(),
                forall|k: int, l: int| 0 <= k < l < out@.len() ==> out@[k] < out@[l],
                forall|k: int| 0 <= k < out@.len() ==> out@[k] < i,
                forall|j: int| 0 <= j < i ==> (out@.contains(j as usize) <==> !#[trigger] self.done@[j]),
            decreases self.done@.len() - i,
        {
            let ghost old_out = out@;
            if !self.done[i] {
                out.push(i);
            }
            proof {
                assert forall|j: int| 0 <= j < i + 1 implies (out@.contains(j as usize) <==> !#[trigger] self.done@[j]) by {
                    if j < i {
                        if out@.contains(j as usize) {
                            let k = choose|k: int| 0 <= k < out@.len() && out@[k] == j as usize;
                            if k < old_out.len() {
                                assert(old_out[k] == j as usize);
                            }
                        }
                        if old_out.contains(j as usize) {
                            let k = choose|k: int| 0 <= k < old_out.len() && old_out[k] == j as usize;
                            assert(out@[k] == j as usize);
                        }
                    } else if !self.done@[j] {
                        assert(out@[out@.len() - 1] == j as usize);
                    } else if out@.contains(j as usize) {
                        let k = choose|k: int| 0 <= k < out@.len() && out@[k] == j as usize;
                        assert(old_out[k] < i);
                    }
                }
            }
            i = i + 1;
        }
        out
    }

    /// Takes the bytes fetched for `piece`. They are accepted only if their
    /// size and SHA-1 digest are the piece's; then they are written at the
    /// piece's offset and the piece is done. Otherwise nothing changes, and the
    /// piece stays pending.
    pub fn complete_piece(&mut self, piece: usize, data: &[u8]) -> (r: bool)
        requires
            old(self).wf(),
            piece < old(self).piece_count(),
        ensures
            final(self).wf(),
            r == (data@.len() == old(self).size_of_piece(piece as int) && sha1_of(data@) == old(self).piece_hash(piece as int)),
            r ==> final(self).done@ == old(self).done@.update(piece as int, true) && final(self).piece_bytes(piece as int) == data@,
            r ==> final(self).file_bytes@ == old(self).file_bytes@.subrange(0, piece * old(self).piece_length)
                + data@ + old(self).file_bytes@.subrange(piece * old(self).piece_length + data@.len(), old(self).file_bytes@.len() as int),
            !r ==> *final(self) == *old(self),
            final(self).piece_length == old(self).piece_length,
            final(self).total_length == old(self).total_length,
            final(self).hashes == old(self).hashes,
            final(self).holders == old(self).holders,
    {
        let pl = self.piece_length as u64;
        let total = self.total_length as u64;
        proof {
            crate::torrent::lemma_piece_offset_in_range(total as nat, pl as nat, self.piece_count(), piece as nat);
        }
        let offset = piece as u64 * pl;
        let rest = total - offset;
        let size: u64 = if pl < rest { pl } else { rest };
        if data.len() as u64 != size {
            return false;
        }
        let digest = sha1_digest(data);
        let hashes = self.hashes.as_slice();
        let hlen = hashes.len();
        proof {
            assert(20 * piece + 20 <= hlen) by (nonlinear_arith)
                requires
                    piece < hlen / 20,
            ;
        }
        let mut want: Vec<u8> = Vec::new();
        crate::bencode::push_all(&hashes[20 * piece..20 * piece + 20], &mut want);
        if !crate::bencode::bytes_eq(digest.as_slice(), want.as_slice()) {
            return false;
        }
        let ghost before = *self;
        crate::peer::place_block(&mut self.file_bytes, offset as u32, data);
        self.done.set(piece, true);
        proof {
            let p = piece as int;
            let plen = pl as int;
            assert(self.piece_bytes(p) =~= data@);
            assert forall|j: int| 0 <= j < self.piece_count() && #[trigger] self.done@[j] implies sha1_of(self.piece_bytes(j))
                == self.piece_hash(j) by {
                if j != p {
                    assert(before.done@[j]);
                    crate::torrent::lemma_piece_offset_in_range(total as nat, pl as nat, self.piece_count(), j as nat);
                    if j < p {
                        assert(j * plen + plen <= p * plen) by (nonlinear_arith)
                            requires
                                j < p,
                                plen > 0,
                        ;
                    } else {
                        assert(p * plen + plen <= j * plen) by (nonlinear_arith)
                            requires
                                p < j,
                                plen > 0,
                        ;
                    }
                    assert(self.piece_bytes(j) =~= before.piece_bytes(j));
                }
            }
        }
        true
    }

    /// The content, once every piece has been verified; each piece of it then
    /// has its digest from the metainfo.
    pub fn finish(self) -> (r: Option<Vec<u8>>)
        requires
            self.wf(),
        ensures
            r is Some <==> forall|i: int| 0 <= i < self.piece_count() ==> #[trigger] self.done@[i],
            r matches Some(bytes) ==> bytes@ == self.file_bytes@ && bytes@.len() == self.total_length
                && forall|i: int| 0 <= i < self.piece_count() ==> sha1_of(
                #[trigger] self.piece_bytes(i),
            ) == self.piece_hash(i),
    {
        if self.is_complete() {
            proof {
                assert forall|i: int| 0 <= i < self.piece_count() implies sha1_of(#[trigger] self.piece_bytes(i))
                    == self.piece_hash(i) by {
                    assert(self.done@[i]);
                }
            }
            Some(self.file_bytes)
        } else {
            None
        }
    }

    /// Whether every piece has been verified and written.
    pub fn is_complete(&self) -> (r: bool)
        ensures
            r == forall|i: int| 0 <= i < self.done@.len() ==> #[trigger] self.done@[i],
    {
        let mut i: usize = 0;
        while i < self.done.len()
            invariant
                i <= self.done@.len(),
                forall|j: int| 0 <= j < i ==> #[trigger] self.done@[j],
            decreases self.done@.len() - i,
        {
            if !self.done[i] {
                return false;
            }
            i = i + 1;
        }
        true
    }
}

/// Every piece marked done holds bytes whose SHA-1 digest is that piece's
/// digest from the metainfo.
pub proof fn lemma_done_pieces_verified(d: Download, i: int)
    requires
        d.wf(),
        0 <= i < d.piece_count(),
        d.done@[i],
    ensures
        sha1_of(d.piece_bytes(i)) == d.piece_hash(i),
{
}

/// The indices of the peers whose piece lists contain `piece`.
fn holders_for(peer_pieces: &Vec<Vec<usize>>, piece: usize) -> (r: Vec<usize>)
    ensures
        r@ == holders_of(peer_pieces@, piece),
{
    let mut out: Vec<usize> = Vec::new();
    let mut k: usize = 0;
    while k < peer_pieces.len()
        invariant
            k <= peer_pieces@.len(),
            out@ == holders_of(peer_pieces@.subrange(0, k as int), piece),
        decreases peer_pieces@.len() - k,
    {
        let ghost pre = peer_pieces@.subrange(0, k + 1);
        assert(pre.subrange(0, k as int) =~= peer_pieces@.subrange(0, k as int));
        if contains(&peer_pieces[k], piece) {
            out.push(k);
        }
        k = k + 1;
    }
    assert(peer_pieces@.subrange(0, k as int) =~= peer_pieces@);
    out
}

fn contains(v: &Vec<usize>, x: usize) -> (r: bool)
    ensures
        r == v@.contains(x),
{
    let mut i: usize = 0;
    while i < v.len()
        invariant
            i <= v@.len(),
            forall|k: int| 0 <= k < i ==> v@[k] != x,
        decreases v@.len() - i,
    {
        if v[i] == x {
            return true;
        }
        i = i + 1;
    }
    false
}

} // verus!
