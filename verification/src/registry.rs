//! The connection registry: the set of live peer connections, each with
//! the images it has advertised, and the queries the block fetch engine
//! makes against it (candidate selection and stall detection).

use vstd::prelude::*;
use crate::types::{Hash256, PeerAddr, VPath};
use crate::progress::PeerFailures;

verus! {

/// One live peer connection: a monotonically assigned identifier, the
/// peer's address, and the set of image identifiers the peer has
/// advertised through publish-index notifications.
pub struct Connection {
    pub id: u64,
    pub addr: PeerAddr,
    pub images: Vec<Hash256>,
}

impl Connection {
    /// A fresh connection record with no advertised images yet.
    pub fn new(id: u64, addr: PeerAddr) -> (r: Connection)
        ensures
            r.id == id,
            r.addr == addr,
            r.images@.len() == 0,
    {
        Connection { id, addr, images: Vec::new() }
    }

    /// Build the get-index request this connection should be asked for
    /// `img`'s index blob.
    pub fn fetch_index(&self, request_id: u64, img: &Hash256) -> (r: crate::proto::Message)
        ensures
            (match r {
                crate::proto::Message::RequestGetIndex { request_id: rq, image } => rq
                    == request_id && image@ == img@,
                _ => false,
            }),
    {
        crate::proto::Message::RequestGetIndex { request_id, image: img.clone_hash() }
    }

    /// The peer has advertised the image with identifier `img`.
    pub open spec fn advertises(&self, img: Seq<u8>) -> bool {
        exists|k: int| 0 <= k < self.images@.len() && self.images@[k]@ == img
    }

    /// Does this peer advertise the image?
    pub fn has_image(&self, id: &Hash256) -> (r: bool)
        ensures
            r == self.advertises(id@),
    {
        let mut k: usize = 0;
        while k < self.images.len()
            invariant
                k <= self.images@.len(),
                forall|j: int| 0 <= j < k ==> self.images@[j]@ != id@,
            decreases self.images@.len() - k,
        {
            if self.images[k].same(id) {
                return true;
            }
            k = k + 1;
        }
        false
    }
}

/// The registry of live connections.
pub struct Registry {
    pub conns: Vec<Connection>,
    pub next_id: u64,
}

impl Registry {
    /// Connection identifiers are distinct and below the next free one.
    pub open spec fn wf(&self) -> bool {
        &&& forall|i: int, j: int|
            0 <= i < j < self.conns@.len() ==> self.conns@[i].id != self.conns@[j].id
        &&& forall|i: int| 0 <= i < self.conns@.len() ==> (#[trigger] self.conns@[i].id)
            < self.next_id
    }

    /// Some live connection with identifier `id` advertises `img`.
    pub open spec fn plausible_source(&self, id: u64, img: Seq<u8>) -> bool {
        exists|i: int|
            0 <= i < self.conns@.len() && (#[trigger] self.conns@[i]).id == id
                && self.conns@[i].advertises(img)
    }

    /// Some live connection advertises `img`.
    pub open spec fn some_source(&self, img: Seq<u8>) -> bool {
        exists|i: int| 0 <= i < self.conns@.len() && (#[trigger] self.conns@[i]).advertises(img)
    }

    pub fn new() -> (r: Registry)
        ensures
            r.wf(),
            r.conns@.len() == 0,
    {
        Registry { conns: Vec::new(), next_id: 0 }
    }

    /// Accept a new peer connection; its identifier is fresh and one more
    /// than every identifier handed out before.
    pub fn register(&mut self, addr: PeerAddr) -> (id: u64)
        requires
            old(self).wf(),
            old(self).next_id < u64::MAX,
        ensures
            final(self).wf(),
            id == old(self).next_id,
            final(self).next_id == old(self).next_id + 1,
            final(self).conns@.len() == old(self).conns@.len() + 1,
            final(self).conns@.subrange(0, old(self).conns@.len() as int) == old(self).conns@,
            final(self).conns@.last().id == id,
            final(self).conns@.last().addr == addr,
            final(self).conns@.last().images@.len() == 0,
    {
        let id = self.next_id;
        self.next_id = self.next_id + 1;
        self.conns.push(Connection { id, addr, images: Vec::new() });
        proof {
            assert(self.conns@.subrange(0, old(self).conns@.len() as int) =~= old(self).conns@);
        }
        id
    }

    /// Record an unsolicited publish-index notification: the peer on
    /// connection `conn_id` now advertises `img`.  Returns false when the
    /// connection is gone.
    pub fn publish_image(&mut self, conn_id: u64, img: Hash256) -> (r: bool)
        requires
            old(self).wf(),
        ensures
            final(self).wf(),
            final(self).next_id == old(self).next_id,
            r == exists|i: int|
                0 <= i < old(self).conns@.len() && (#[trigger] old(self).conns@[i]).id == conn_id,
            r ==> final(self).plausible_source(conn_id, img@),
            // exactly the sender's advertisement list grows, by this image
            final(self).conns@.len() == old(self).conns@.len(),
            !r ==> final(self).conns@ == old(self).conns@,
            r ==> exists|i: int|
                {
                    &&& 0 <= i < old(self).conns@.len()
                    &&& (#[trigger] old(self).conns@[i]).id == conn_id
                    &&& final(self).conns@[i].id == conn_id
                    &&& final(self).conns@[i].addr == old(self).conns@[i].addr
                    &&& final(self).conns@[i].images@ == old(self).conns@[i].images@.push(img)
                    &&& (forall|j: int|
                        0 <= j < old(self).conns@.len() && j != i ==> final(self).conns@[j] == old(
                            self,
                        ).conns@[j])
                },
            forall|i: int, img2: Seq<u8>|
                0 <= i < old(self).conns@.len() && (#[trigger] old(self).conns@[i].advertises(
                    img2,
                )) ==> final(self).conns@[i].advertises(img2),
    {
        let mut i: usize = 0;
        while i < self.conns.len()
            invariant
                i <= self.conns@.len(),
                old(self).wf(),
                self.conns@ == old(self).conns@,
                self.next_id == old(self).next_id,
                forall|j: int| 0 <= j < i ==> (#[trigger] self.conns@[j].id) != conn_id,
            decreases self.conns@.len() - i,
        {
            if self.conns[i].id == conn_id {
                let ghost before = self.conns@;
                let mut c = self.conns.remove(i);
                c.images.push(img);
                let ghost c_snap = c;
                self.conns.insert(i, c);
                proof {
                    let ci = i as int;
                    assert(self.conns@ =~= before.update(ci, self.conns@[ci]));
                    assert(self.conns@[ci] == c_snap);
                    assert(c_snap.id == before[ci].id);
                    assert(c_snap.addr == before[ci].addr);
                    assert(c_snap.images@ == before[ci].images@.push(img));
                    assert forall|a: int, b: int|
                        0 <= a < b < self.conns@.len() implies self.conns@[a].id
                        != self.conns@[b].id by {
                        assert(self.conns@[a].id == before[a].id);
                        assert(self.conns@[b].id == before[b].id);
                    }
                    assert forall|a: int| 0 <= a < self.conns@.len() implies (
                    #[trigger] self.conns@[a].id) < self.next_id by {
                        assert(self.conns@[a].id == before[a].id);
                    }
                    assert(self.wf());
                    assert(self.conns@[ci].id == conn_id);
                    assert(self.conns@[ci].images@.last()@ == img@);
                    assert(self.conns@[ci].advertises(img@));
                    assert(self.plausible_source(conn_id, img@));
                    assert forall|j: int, img2: Seq<u8>|
                        0 <= j < before.len() && (#[trigger] before[j].advertises(img2)) implies
                        self.conns@[j].advertises(img2) by {
                        if j == ci {
                            let k = choose|k: int|
                                0 <= k < before[j].images@.len() && before[j].images@[k]@ == img2;
                            assert(self.conns@[j].images@[k]@ == img2);
                        }
                    }
                }
                return true;
            }
            i = i + 1;
        }
        proof {
            assert forall|j: int, img2: Seq<u8>|
                0 <= j < old(self).conns@.len() && (#[trigger] old(self).conns@[j].advertises(
                    img2,
                )) implies self.conns@[j].advertises(img2) by {}
        }
        false
    }

    /// Drop the connection with identifier `conn_id`, if it is present.
    pub fn close(&mut self, conn_id: u64)
        requires
            old(self).wf(),
        ensures
            final(self).wf(),
            final(self).next_id == old(self).next_id,
            final(self).conns@ == old(self).conns@.filter(|c: Connection| c.id != conn_id),
            forall|i: int|
                0 <= i < final(self).conns@.len() ==> (#[trigger] final(self).conns@[i]).id
                    != conn_id,
    {
        let ghost orig = self.conns@;
        let mut kept: Vec<Connection> = Vec::new();
        let ghost mut k: int = 0;
        proof {
            assert(orig.take(0).filter(|c: Connection| c.id != conn_id) =~= Seq::<
                Connection,
            >::empty()) by {
                reveal(Seq::filter);
                assert(orig.take(0) =~= Seq::<Connection>::empty());
            }
            assert(orig.skip(0) =~= orig);
        }
        while self.conns.len() > 0
            invariant
                0 <= k <= orig.len(),
                self.conns@ == orig.skip(k),
                orig == old(self).conns@,
                self.next_id == old(self).next_id,
                old(self).wf(),
                kept@ == orig.take(k).filter(|c: Connection| c.id != conn_id),
            decreases self.conns@.len(),
        {
            let ghost pre = orig.take(k);
            let ghost pred = |c: Connection| c.id != conn_id;
            let c = self.conns.remove(0);
            proof {
                assert(orig.skip(k)[0] == orig[k]);
                assert(c == orig[k]);
                assert(orig.skip(k).remove(0) =~= orig.skip(k + 1));
                Seq::filter_distributes_over_add(pre, seq![orig[k]], pred);
                assert(orig.take(k + 1) =~= pre + seq![orig[k]]);
                assert(seq![orig[k]].filter(pred) =~= (if pred(orig[k]) {
                    seq![orig[k]]
                } else {
                    Seq::<Connection>::empty()
                })) by {
                    reveal(Seq::filter);
                    assert(seq![orig[k]].drop_last() =~= Seq::<Connection>::empty());
                    assert(Seq::<Connection>::empty().filter(pred) =~= Seq::<
                        Connection,
                    >::empty());
                }
            }
            if c.id != conn_id {
                kept.push(c);
                proof {
                    assert(kept@ =~= pre.filter(pred) + seq![orig[k]].filter(pred));
                    assert(kept@ == orig.take(k + 1).filter(pred));
                }
            } else {
                proof {
                    assert(kept@ =~= pre.filter(pred) + seq![orig[k]].filter(pred));
                    assert(kept@ == orig.take(k + 1).filter(pred));
                }
            }
            proof {
                k = k + 1;
            }
        }
        proof {
            assert(orig.take(orig.len() as int) =~= orig);
        }
        self.conns = kept;
        proof {
            let pred = |c: Connection| c.id != conn_id;
            let fs = orig.filter(pred);
            orig.filter_lemma(pred);
            assert forall|i: int, j: int| 0 <= i < j < fs.len() implies fs[i].id != fs[j].id by {
                crate::progress::lemma_filter_positions(orig, pred, i, j);
            }
            assert forall|i: int| 0 <= i < fs.len() implies (#[trigger] fs[i].id)
                < self.next_id by {
                crate::progress::lemma_filter_contains_position(orig, pred, i);
                let j = choose|j: int| 0 <= j < orig.len() && orig[j] == fs[i];
                assert(orig[j].id < self.next_id);
            }
        }
    }

    /// Is any live peer advertising `img`?
    pub fn has_image_source(&self, img: &Hash256) -> (r: bool)
        ensures
            r == self.some_source(img@),
    {
        let mut i: usize = 0;
        while i < self.conns.len()
            invariant
                i <= self.conns@.len(),
                forall|j: int| 0 <= j < i ==> !(#[trigger] self.conns@[j]).advertises(img@),
            decreases self.conns@.len() - i,
        {
            if self.conns[i].has_image(img) {
                return true;
            }
            i = i + 1;
        }
        false
    }

    /// Pick a peer for one block of a slice: any live connection that
    /// advertises the image and whose address is not in the slice's
    /// recent-failure set.  `path` and `slice_bit` are part of the query
    /// interface for finer policies; the present policy filters by the
    /// advertised image alone.  Returns the connection id and address, or
    /// nothing when no candidate qualifies.
    pub fn get_connection_by_mask(
        &self,
        path: &VPath,
        img: &Hash256,
        slice_bit: u8,
        failures: &PeerFailures,
    ) -> (r: Option<(u64, PeerAddr)>)
        ensures
            r matches Some(c) ==> exists|i: int|
                0 <= i < self.conns@.len() && (#[trigger] self.conns@[i]).id == c.0
                    && self.conns@[i].addr == c.1 && self.conns@[i].advertises(img@)
                    && !failures@.contains(c.1),
            r is None ==> forall|i: int|
                0 <= i < self.conns@.len() && (#[trigger] self.conns@[i]).advertises(img@)
                    ==> failures@.contains(self.conns@[i].addr),
    {
        let _ = path;
        let _ = slice_bit;
        let mut i: usize = 0;
        while i < self.conns.len()
            invariant
                i <= self.conns@.len(),
                forall|j: int|
                    0 <= j < i && (#[trigger] self.conns@[j]).advertises(img@)
                        ==> failures@.contains(self.conns@[j].addr),
            decreases self.conns@.len() - i,
        {
            let c = &self.conns[i];
            if c.has_image(img) {
                if !failures.contains(c.addr) {
                    proof {
                        assert(self.conns@[i as int].id == c.id);
                    }
                    return Some((c.id, c.addr));
                }
            }
            i = i + 1;
        }
        None
    }

    /// The cluster has stalled for `img`: every connection that was ever
    /// picked as a source (by id) is now gone or no longer advertises the
    /// image, and no live connection — under any identifier — advertises
    /// it either (a peer that reappears with the image is a plausible
    /// source again).
    pub fn check_stalled(&self, img: &Hash256, ever: &Vec<u64>) -> (r: bool)
        ensures
            r == ((forall|k: int|
                0 <= k < ever@.len() ==> !self.plausible_source(#[trigger] ever@[k], img@))
                && !self.some_source(img@)),
    {
        if self.has_image_source(img) {
            return false;
        }
        let mut k: usize = 0;
        while k < ever.len()
            invariant
                k <= ever@.len(),
                forall|j: int| 0 <= j < k ==> !self.plausible_source(#[trigger] ever@[j], img@),
            decreases ever@.len() - k,
        {
            let id = ever[k];
            let mut i: usize = 0;
            while i < self.conns.len()
                invariant
                    i <= self.conns@.len(),
                    k < ever@.len(),
                    id == ever@[k as int],
                    forall|j: int|
                        0 <= j < i ==> !((#[trigger] self.conns@[j]).id == id
                            && self.conns@[j].advertises(img@)),
                decreases self.conns@.len() - i,
            {
                let c = &self.conns[i];
                if c.id == id {
                    if c.has_image(img) {
                        proof {
                            assert((#[trigger] self.conns@[i as int]).id == ever@[k as int]
                                && self.conns@[i as int].advertises(img@));
                            assert(self.plausible_source(ever@[k as int], img@));
                        }
                        return false;
                    }
                }
                i = i + 1;
            }
            k = k + 1;
        }
        true
    }
}

} // verus!
