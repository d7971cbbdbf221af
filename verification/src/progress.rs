//! Per-image download state: the blocks still to fetch, grouped into
//! slices, with per-slice in-flight counts and recent peer failures, and
//! the completion mask that is advertised to peers.

use vstd::prelude::*;
use vstd::seq_lib::*;
use crate::types::{Hash256, PeerAddr, VPath};
use crate::mask::{Mask, SLICE_COUNT};

verus! {

/// One unit of transfer: a block of one file, identified by its declared
/// content hash, the file's relative path and the byte offset at which
/// the block starts.
pub struct Block {
    pub hash: Hash256,
    pub path: Vec<u8>,
    pub offset: u64,
}

impl Block {
    pub fn clone_block(&self) -> (r: Block)
        ensures
            r.hash@ == self.hash@,
            r.path@ == self.path@,
            r.offset == self.offset,
    {
        let mut path: Vec<u8> = Vec::new();
        let mut i: usize = 0;
        while i < self.path.len()
            invariant
                i <= self.path@.len(),
                path@ == self.path@.subrange(0, i as int),
            decreases self.path@.len() - i,
        {
            path.push(self.path[i]);
            i = i + 1;
        }
        proof {
            assert(path@ =~= self.path@);
        }
        Block { hash: self.hash.clone_hash(), path, offset: self.offset }
    }
}

/// The set of peers that recently failed a block of one slice.  A peer in
/// this set is not picked again for the slice until the set is cleared by
/// a successful delivery from that peer.
pub struct PeerFailures {
    pub peers: Vec<PeerAddr>,
}

impl View for PeerFailures {
    type V = Set<PeerAddr>;

    open spec fn view(&self) -> Set<PeerAddr> {
        self.peers@.to_set()
    }
}

pub proof fn lemma_to_set_push(s: Seq<PeerAddr>, x: PeerAddr)
    ensures
        s.push(x).to_set() == s.to_set().insert(x),
{
    assert forall|y: PeerAddr| #[trigger]
        s.push(x).contains(y) <==> (s.contains(y) || y == x) by {
        if s.push(x).contains(y) && y != x {
            let j = choose|j: int| 0 <= j < s.push(x).len() && s.push(x)[j] == y;
            assert(s[j] == y);
        }
        if s.contains(y) {
            let j = choose|j: int| 0 <= j < s.len() && s[j] == y;
            assert(s.push(x)[j] == y);
        }
        if y == x {
            assert(s.push(x)[s.len() as int] == y);
        }
    }
    assert(s.push(x).to_set() =~= s.to_set().insert(x));
}

impl PeerFailures {
    pub fn empty() -> (r: PeerFailures)
        ensures
            r@ == Set::<PeerAddr>::empty(),
    {
        let r = PeerFailures { peers: Vec::new() };
        proof {
            assert(r@ =~= Set::<PeerAddr>::empty());
        }
        r
    }

    pub fn contains(&self, addr: PeerAddr) -> (r: bool)
        ensures
            r == self@.contains(addr),
    {
        let mut i: usize = 0;
        while i < self.peers.len()
            invariant
                i <= self.peers@.len(),
                forall|j: int| 0 <= j < i ==> self.peers@[j] != addr,
            decreases self.peers@.len() - i,
        {
            if self.peers[i].ip == addr.ip && self.peers[i].port == addr.port {
                proof {
                    assert(self.peers@[i as int] == addr);
                    assert(self.peers@.contains(addr));
                }
                return true;
            }
            i = i + 1;
        }
        proof {
            if self@.contains(addr) {
                let j = choose|j: int| 0 <= j < self.peers@.len() && self.peers@[j] == addr;
                assert(false);
            }
        }
        false
    }

    /// Record a recent failure of `addr`; the set only grows.
    pub fn add_failure(&mut self, addr: PeerAddr)
        ensures
            final(self)@ == old(self)@.insert(addr),
    {
        let present = self.contains(addr);
        if !present {
            self.peers.push(addr);
            proof {
                lemma_to_set_push(old(self).peers@, addr);
            }
        } else {
            proof {
                assert(final(self)@ =~= old(self)@.insert(addr));
            }
        }
    }

    /// Forget all failures of `addr`; used when the peer delivers a block
    /// successfully for any slice.
    pub fn clear_peer(&mut self, addr: PeerAddr)
        ensures
            final(self)@ == old(self)@.remove(addr),
    {
        let mut kept: Vec<PeerAddr> = Vec::new();
        let mut i: usize = 0;
        proof {
            assert(self.peers@.subrange(0, 0).to_set() =~= Set::<PeerAddr>::empty());
            assert(kept@.to_set() =~= Set::<PeerAddr>::empty().remove(addr));
        }
        while i < self.peers.len()
            invariant
                i <= self.peers@.len(),
                self.peers@ == old(self).peers@,
                kept@.to_set() == self.peers@.subrange(0, i as int).to_set().remove(addr),
            decreases self.peers@.len() - i,
        {
            let ghost pre = self.peers@.subrange(0, i as int);
            let p = self.peers[i];
            proof {
                assert(self.peers@.subrange(0, i as int + 1) =~= pre.push(p));
                lemma_to_set_push(pre, p);
            }
            if !(p.ip == addr.ip && p.port == addr.port) {
                let ghost old_kept = kept@;
                kept.push(p);
                proof {
                    lemma_to_set_push(old_kept, p);
                    assert(p != addr);
                    assert(kept@.to_set() =~= pre.push(p).to_set().remove(addr));
                }
            } else {
                proof {
                    assert(p == addr);
                    assert(kept@.to_set() =~= pre.push(p).to_set().remove(addr));
                }
            }
            i = i + 1;
        }
        proof {
            assert(self.peers@.subrange(0, self.peers@.len() as int) =~= self.peers@);
        }
        self.peers = kept;
    }
}

/// Whether a slice still has work: blocks waiting, or blocks in flight
/// (being fetched or still being written to disk).
pub open spec fn slice_live(s: SliceState) -> bool {
    s.in_progress > 0 || s.blocks@.len() > 0
}

/// One slice of an image's blocks: the deque of blocks not yet started
/// (FIFO), the number of blocks in flight — fetched or awaiting their
/// disk write — and the peers that recently failed a block of this
/// slice.  A block is thus in exactly one place: the deque, the
/// in-flight count, or durably on disk.
pub struct SliceState {
    pub index: u8,
    pub blocks: std::collections::VecDeque<Block>,
    pub in_progress: u32,
    pub failures: PeerFailures,
}

/// Slice indices are pairwise distinct.
pub open spec fn distinct_indices(ss: Seq<SliceState>) -> bool {
    forall|i: int, j: int| 0 <= i < j < ss.len() ==> ss[i].index != ss[j].index
}

/// Some slice of `ss` has index `slice_idx`.
pub open spec fn has_slice(ss: Seq<SliceState>, slice_idx: u8) -> bool {
    exists|i: int| 0 <= i < ss.len() && (#[trigger] ss[i]).index == slice_idx
}

/// The sum of all slices' in-flight counters.
pub open spec fn sum_in_progress(ss: Seq<SliceState>) -> int
    decreases ss.len(),
{
    if ss.len() == 0 {
        0
    } else {
        sum_in_progress(ss.drop_last()) + ss.last().in_progress
    }
}

pub proof fn lemma_sum_ip_update(ss: Seq<SliceState>, i: int, s: SliceState)
    requires
        0 <= i < ss.len(),
    ensures
        sum_in_progress(ss.update(i, s)) == sum_in_progress(ss) - ss[i].in_progress
            + s.in_progress,
    decreases ss.len(),
{
    if i == ss.len() - 1 {
        assert(ss.update(i, s).drop_last() =~= ss.drop_last());
    } else {
        assert(ss.update(i, s).drop_last() =~= ss.drop_last().update(i, s));
        lemma_sum_ip_update(ss.drop_last(), i, s);
    }
}

pub proof fn lemma_sum_ip_push(ss: Seq<SliceState>, s: SliceState)
    ensures
        sum_in_progress(ss.push(s)) == sum_in_progress(ss) + s.in_progress,
{
    assert(ss.push(s).drop_last() =~= ss);
}

/// Removing slices with a zero counter does not change the sum.
pub proof fn lemma_sum_ip_filter_live(ss: Seq<SliceState>)
    ensures
        sum_in_progress(ss.filter(|s: SliceState| slice_live(s))) <= sum_in_progress(ss),
        (forall|i: int| 0 <= i < ss.len() ==> ss[i].in_progress >= 0) ==> sum_in_progress(
            ss.filter(|s: SliceState| slice_live(s)),
        ) == sum_in_progress(ss) || exists|i: int|
            0 <= i < ss.len() && !slice_live(ss[i]) && ss[i].in_progress > 0,
    decreases ss.len(),
{
    reveal(Seq::filter);
    if ss.len() > 0 {
        lemma_sum_ip_filter_live(ss.drop_last());
        if slice_live(ss.last()) {
            lemma_sum_ip_push(ss.drop_last().filter(|s: SliceState| slice_live(s)), ss.last());
        }
    }
}

/// The download state of one image: its identity, the advertised mask,
/// and the slices still to complete.
pub struct Downloading {
    pub image_id: Hash256,
    pub virtual_path: VPath,
    pub replacing: bool,
    pub mask: Mask,
    pub slices: Vec<SliceState>,
    /// Set when the scheduler found nothing to do; cleared by a verified
    /// block delivery.
    pub stalled: bool,
    /// Connection ids of every peer that was ever picked as a source for
    /// this image; consulted when deciding that the cluster has stalled.
    pub ever_sources: Vec<u64>,
}

impl Downloading {
    pub open spec fn wf(&self) -> bool {
        &&& self.mask.wf()
        &&& distinct_indices(self.slices@)
    }

    pub fn new(image_id: Hash256, virtual_path: VPath, replacing: bool) -> (r: Downloading)
        ensures
            r.wf(),
            r.image_id@ == image_id@,
            r.virtual_path@ == virtual_path@,
            r.replacing == replacing,
            r.slices@.len() == 0,
            forall|j: int| 0 <= j < SLICE_COUNT ==> !r.mask@[j],
            !r.stalled,
    {
        Downloading {
            image_id,
            virtual_path,
            replacing,
            mask: Mask::empty(),
            slices: Vec::new(),
            stalled: false,
            ever_sources: Vec::new(),
        }
    }

    /// Record that the scheduler could not place any request.
    pub fn notify_stalled(&mut self)
        ensures
            *final(self) == (Downloading { stalled: true, ..*old(self) }),
    {
        self.stalled = true;
    }

    /// Remember a connection that was picked as a source for this image.
    pub fn add_ever_source(&mut self, conn_id: u64)
        ensures
            final(self).ever_sources@ == old(self).ever_sources@.push(conn_id),
            final(self).slices@ == old(self).slices@,
            final(self).mask@ == old(self).mask@,
            final(self).mask.wf() == old(self).mask.wf(),
            final(self).image_id@ == old(self).image_id@,
            final(self).virtual_path@ == old(self).virtual_path@,
            final(self).replacing == old(self).replacing,
            final(self).stalled == old(self).stalled,
            final(self).wf() == old(self).wf(),
    {
        self.ever_sources.push(conn_id);
    }

    /// Partition an image's blocks into slices: block number `p` goes to
    /// slice `p % 256`, keeping its order within the slice.  One slice is
    /// created per nonempty residue class, in ascending index order, with
    /// nothing in flight and no recorded failures.
    pub fn fill_blocks(&mut self, blocks: &Vec<Block>)
        requires
            old(self).wf(),
            old(self).slices@.len() == 0,
        ensures
            final(self).wf(),
            final(self).mask@ == old(self).mask@,
            final(self).image_id@ == old(self).image_id@,
            final(self).virtual_path@ == old(self).virtual_path@,
            final(self).replacing == old(self).replacing,
            final(self).stalled == old(self).stalled,
            final(self).ever_sources@ == old(self).ever_sources@,
            final(self).slices@.len() == (if blocks@.len() < 256 {
                blocks@.len() as int
            } else {
                256int
            }),
            forall|j: int|
                0 <= j < final(self).slices@.len() ==> {
                    let s = #[trigger] final(self).slices@[j];
                    &&& s.index as int == j
                    &&& s.in_progress == 0
                    &&& s.failures@ == Set::<PeerAddr>::empty()
                    &&& s.blocks@.len() > 0
                    &&& j + 256 * (s.blocks@.len() - 1) < blocks@.len()
                    &&& j + 256 * s.blocks@.len() >= blocks@.len()
                    &&& (forall|m: int|
                        0 <= m < s.blocks@.len() ==> crate::index::blk_eq(
                            #[trigger] s.blocks@[m],
                            blocks@[j + 256 * m].hash@,
                            blocks@[j + 256 * m].path@,
                            blocks@[j + 256 * m].offset as int,
                        ))
                },
    {
        let n = blocks.len();
        let mut slices: Vec<SliceState> = Vec::new();
        let mut idx: usize = 0;
        while idx < 256 && idx < n
            invariant
                n == blocks@.len(),
                idx <= 256,
                idx <= n,
                slices@.len() == idx,
                idx == 256 || idx == n || idx == slices@.len(),
                forall|j: int|
                    0 <= j < slices@.len() ==> {
                        let s = #[trigger] slices@[j];
                        &&& s.index as int == j
                        &&& s.in_progress == 0
                        &&& s.failures@ == Set::<PeerAddr>::empty()
                        &&& s.blocks@.len() > 0
                        &&& j + 256 * (s.blocks@.len() - 1) < n
                        &&& j + 256 * s.blocks@.len() >= n
                        &&& (forall|m: int|
                            0 <= m < s.blocks@.len() ==> crate::index::blk_eq(
                                #[trigger] s.blocks@[m],
                                blocks@[j + 256 * m].hash@,
                                blocks@[j + 256 * m].path@,
                                blocks@[j + 256 * m].offset as int,
                            ))
                    },
            decreases 256 - idx,
        {
            let cnt = (n - idx - 1) / 256 + 1;
            proof {
                assert(256 * ((n - idx - 1) / 256) <= n - idx - 1);
            }
            let mut dq: std::collections::VecDeque<Block> = std::collections::VecDeque::new();
            let mut m: usize = 0;
            while m < cnt
                invariant
                    n == blocks@.len(),
                    idx < n,
                    m <= cnt,
                    cnt == (n - idx - 1) / 256 + 1,
                    256 * ((n - idx - 1) / 256) <= n - idx - 1,
                    dq@.len() == m,
                    forall|mm: int|
                        0 <= mm < m ==> crate::index::blk_eq(
                            #[trigger] dq@[mm],
                            blocks@[idx + 256 * mm].hash@,
                            blocks@[idx + 256 * mm].path@,
                            blocks@[idx + 256 * mm].offset as int,
                        ),
                decreases cnt - m,
            {
                proof {
                    assert(256 * m <= 256 * ((n - idx - 1) / 256));
                }
                let pos = idx + 256 * m;
                dq.push_back(blocks[pos].clone_block());
                m = m + 1;
            }
            proof {
                assert(idx + 256 * (cnt - 1) < n);
                assert(idx + 256 * cnt >= n) by {
                    assert(256 * ((n - idx - 1) / 256 + 1) >= n - idx) by {
                        assert(256 * ((n - idx - 1) / 256) + 256 * ((n - idx - 1) % 256 >= 0) as int
                            >= 0);
                        assert((n - idx - 1) / 256 * 256 + (n - idx - 1) % 256 == n - idx - 1);
                    }
                }
            }
            slices.push(
                SliceState {
                    index: idx as u8,
                    blocks: dq,
                    in_progress: 0,
                    failures: PeerFailures::empty(),
                },
            );
            idx = idx + 1;
        }
        self.slices = slices;
    }

    /// Position of the slice with index `slice_idx`.
    pub fn find_slice(&self, slice_idx: u8) -> (r: usize)
        requires
            self.wf(),
            has_slice(self.slices@, slice_idx),
        ensures
            r < self.slices@.len(),
            self.slices@[r as int].index == slice_idx,
    {
        let mut i: usize = 0;
        while i < self.slices.len()
            invariant
                i <= self.slices@.len(),
                forall|j: int| 0 <= j < i ==> (#[trigger] self.slices@[j]).index != slice_idx,
            decreases self.slices@.len() - i,
        {
            if self.slices[i].index == slice_idx {
                return i;
            }
            i = i + 1;
        }
        proof {
            let w = choose|w: int|
                0 <= w < self.slices@.len() && (#[trigger] self.slices@[w]).index == slice_idx;
            assert(false);
        }
        0
    }

    /// A fetch for slice `slice_idx` failed (transport error or checksum
    /// mismatch): put `block` back at the tail of the slice's deque,
    /// record `peer` as recently failed for this slice, and decrement the
    /// slice's in-flight counter.  Returns the slice's position.
    pub fn record_failure(&mut self, slice_idx: u8, peer: PeerAddr, block: Block) -> (i: usize)
        requires
            old(self).wf(),
            has_slice(old(self).slices@, slice_idx),
            forall|j: int|
                0 <= j < old(self).slices@.len() && (#[trigger] old(self).slices@[j]).index
                    == slice_idx ==> old(self).slices@[j].in_progress >= 1,
        ensures
            final(self).wf(),
            i < old(self).slices@.len(),
            old(self).slices@[i as int].index == slice_idx,
            final(self).slices@.len() == old(self).slices@.len(),
            forall|j: int|
                0 <= j < old(self).slices@.len() && j != i ==> final(self).slices@[j] == old(
                    self,
                ).slices@[j],
            final(self).slices@[i as int].index == slice_idx,
            final(self).slices@[i as int].in_progress == old(self).slices@[i as int].in_progress
                - 1,
            final(self).slices@[i as int].blocks@ == old(self).slices@[i as int].blocks@.push(
                block,
            ),
            final(self).slices@[i as int].failures@ == old(
                self,
            ).slices@[i as int].failures@.insert(peer),
            final(self).mask@ == old(self).mask@,
            final(self).mask.wf(),
            final(self).image_id@ == old(self).image_id@,
            final(self).virtual_path@ == old(self).virtual_path@,
            final(self).replacing == old(self).replacing,
            final(self).stalled == old(self).stalled,
            final(self).ever_sources@ == old(self).ever_sources@,
    {
        let i = self.find_slice(slice_idx);
        let ghost before = self.slices@;
        let mut s = self.slices.remove(i);
        s.in_progress = s.in_progress - 1;
        s.blocks.push_back(block);
        s.failures.add_failure(peer);
        let ghost s_snap = s;
        self.slices.insert(i, s);
        proof {
            assert(self.slices@ =~= before.update(i as int, s_snap));
            assert forall|a: int, b: int|
                0 <= a < b < self.slices@.len() implies self.slices@[a].index
                != self.slices@[b].index by {
                assert(self.slices@[a].index == before[a].index);
                assert(self.slices@[b].index == before[b].index);
            }
        }
        i
    }

    /// A block arrived from `peer` and its digest matched: clear the
    /// peer's recent failures everywhere (it is evidently healthy) and
    /// leave the stalled flag cleared.  The in-flight counters do not
    /// move: the block is still in flight until its disk write is done.
    pub fn record_success(&mut self, peer: PeerAddr)
        requires
            old(self).wf(),
        ensures
            final(self).wf(),
            final(self).slices@.len() == old(self).slices@.len(),
            forall|j: int|
                0 <= j < old(self).slices@.len() ==> (#[trigger] final(self).slices@[j]).index
                    == old(self).slices@[j].index && final(self).slices@[j].blocks@ == old(
                    self,
                ).slices@[j].blocks@ && final(self).slices@[j].failures@ == old(
                    self,
                ).slices@[j].failures@.remove(peer) && final(self).slices@[j].in_progress == old(
                    self,
                ).slices@[j].in_progress,
            final(self).mask@ == old(self).mask@,
            final(self).mask.wf(),
            final(self).image_id@ == old(self).image_id@,
            final(self).virtual_path@ == old(self).virtual_path@,
            final(self).replacing == old(self).replacing,
            !final(self).stalled,
            final(self).ever_sources@ == old(self).ever_sources@,
    {
        let ghost orig = self.slices@;
        let mut j: usize = 0;
        while j < self.slices.len()
            invariant
                j <= self.slices@.len(),
                old(self).wf(),
                orig == old(self).slices@,
                self.slices@.len() == orig.len(),
                self.mask@ == old(self).mask@,
                self.mask.wf(),
                self.image_id@ == old(self).image_id@,
                self.virtual_path@ == old(self).virtual_path@,
                self.replacing == old(self).replacing,
                self.stalled == old(self).stalled,
                self.ever_sources@ == old(self).ever_sources@,
                forall|jj: int|
                    0 <= jj < j ==> (#[trigger] self.slices@[jj]).index == orig[jj].index
                        && self.slices@[jj].blocks@ == orig[jj].blocks@
                        && self.slices@[jj].failures@ == orig[jj].failures@.remove(peer)
                        && self.slices@[jj].in_progress == orig[jj].in_progress,
                forall|jj: int| j <= jj < orig.len() ==> self.slices@[jj] == orig[jj],
            decreases self.slices@.len() - j,
        {
            let ghost before = self.slices@;
            let mut sl = self.slices.remove(j);
            proof {
                assert(sl == orig[j as int]);
            }
            sl.failures.clear_peer(peer);
            let ghost s_snap = sl;
            self.slices.insert(j, sl);
            proof {
                assert(self.slices@ =~= before.update(j as int, s_snap));
            }
            j = j + 1;
        }
        self.stalled = false;
        proof {
            assert forall|a: int, b: int|
                0 <= a < b < self.slices@.len() implies self.slices@[a].index
                != self.slices@[b].index by {
                assert(self.slices@[a].index == orig[a].index);
                assert(self.slices@[b].index == orig[b].index);
            }
        }
    }

    /// The disk write of a block of slice `slice_idx` completed: the
    /// block is durable, so the slice's in-flight counter drops by one.
    /// Returns the slice's position.
    pub fn record_write_done(&mut self, slice_idx: u8) -> (i: usize)
        requires
            old(self).wf(),
            has_slice(old(self).slices@, slice_idx),
            forall|j: int|
                0 <= j < old(self).slices@.len() && (#[trigger] old(self).slices@[j]).index
                    == slice_idx ==> old(self).slices@[j].in_progress >= 1,
        ensures
            final(self).wf(),
            i < old(self).slices@.len(),
            old(self).slices@[i as int].index == slice_idx,
            final(self).slices@.len() == old(self).slices@.len(),
            forall|j: int|
                0 <= j < old(self).slices@.len() && j != i ==> final(self).slices@[j] == old(
                    self,
                ).slices@[j],
            final(self).slices@[i as int].index == slice_idx,
            final(self).slices@[i as int].in_progress == old(self).slices@[i as int].in_progress
                - 1,
            final(self).slices@[i as int].blocks@ == old(self).slices@[i as int].blocks@,
            final(self).slices@[i as int].failures@ == old(self).slices@[i as int].failures@,
            final(self).mask@ == old(self).mask@,
            final(self).mask.wf(),
            final(self).image_id@ == old(self).image_id@,
            final(self).virtual_path@ == old(self).virtual_path@,
            final(self).replacing == old(self).replacing,
            final(self).stalled == old(self).stalled,
            final(self).ever_sources@ == old(self).ever_sources@,
    {
        let i = self.find_slice(slice_idx);
        let ghost before = self.slices@;
        let mut sl = self.slices.remove(i);
        sl.in_progress = sl.in_progress - 1;
        let ghost s_snap = sl;
        self.slices.insert(i, sl);
        proof {
            assert(self.slices@ =~= before.update(i as int, s_snap));
            assert forall|a: int, b: int|
                0 <= a < b < self.slices@.len() implies self.slices@[a].index
                != self.slices@[b].index by {
                assert(self.slices@[a].index == before[a].index);
                assert(self.slices@[b].index == before[b].index);
            }
        }
        i
    }

    /// Remove every completed slice (no blocks waiting, none being
    /// fetched or written), setting its mask bit — so a bit is set only
    /// once every block of the slice is durably on disk.  Mask bits only
    /// ever flip from clear to set.  Returns the indices of the slices
    /// completed by this call.
    pub fn prune_slices(&mut self) -> (completed: Vec<u8>)
        requires
            old(self).wf(),
        ensures
            final(self).wf(),
            final(self).slices@ == old(self).slices@.filter(|s: SliceState| slice_live(s)),
            final(self).image_id@ == old(self).image_id@,
            final(self).virtual_path@ == old(self).virtual_path@,
            final(self).replacing == old(self).replacing,
            final(self).stalled == old(self).stalled,
            final(self).ever_sources@ == old(self).ever_sources@,
            // monotone: bits already set stay set
            forall|j: int| 0 <= j < SLICE_COUNT && old(self).mask@[j] ==> final(self).mask@[j],
            // every pruned slice's bit is now set
            forall|i: int|
                0 <= i < old(self).slices@.len() && !slice_live(#[trigger] old(self).slices@[i])
                    ==> final(self).mask@[old(self).slices@[i].index as int],
            // no other bit is newly set
            forall|j: int|
                0 <= j < SLICE_COUNT && final(self).mask@[j] && !old(self).mask@[j] ==> exists|
                    i: int,
                |
                    0 <= i < old(self).slices@.len() && !slice_live(
                        #[trigger] old(self).slices@[i],
                    ) && old(self).slices@[i].index == j,
            // the completed list names exactly the pruned slices, in order
            completed@ == old(self).slices@.filter(|s: SliceState| !slice_live(s)).map_values(
                |s: SliceState| s.index,
            ),
    {
        let ghost orig = self.slices@;
        let mut kept: Vec<SliceState> = Vec::new();
        let mut completed: Vec<u8> = Vec::new();
        let ghost mut k: int = 0;
        proof {
            assert(orig.take(0).filter(|s: SliceState| slice_live(s)) =~= Seq::<
                SliceState,
            >::empty()) by {
                reveal(Seq::filter);
                assert(orig.take(0) =~= Seq::<SliceState>::empty());
            }
            assert(orig.skip(0) =~= orig);
            assert(orig.take(0).filter(|s: SliceState| !slice_live(s)).map_values(
                |s: SliceState| s.index,
            ) =~= Seq::<u8>::empty()) by {
                reveal(Seq::filter);
                assert(orig.take(0) =~= Seq::<SliceState>::empty());
            }
        }
        while self.slices.len() > 0
            invariant
                0 <= k <= orig.len(),
                self.slices@ == orig.skip(k),
                old(self).wf(),
                self.mask.wf(),
                self.image_id@ == old(self).image_id@,
                self.virtual_path@ == old(self).virtual_path@,
                self.replacing == old(self).replacing,
                self.stalled == old(self).stalled,
                self.ever_sources@ == old(self).ever_sources@,
                orig == old(self).slices@,
                kept@ == orig.take(k).filter(|s: SliceState| slice_live(s)),
                forall|j: int| 0 <= j < SLICE_COUNT && old(self).mask@[j] ==> self.mask@[j],
                forall|i: int|
                    0 <= i < k && !slice_live(#[trigger] orig[i]) ==> self.mask@[orig[i].index
                        as int],
                forall|j: int|
                    0 <= j < SLICE_COUNT && self.mask@[j] && !old(self).mask@[j] ==> exists|i: int|
                        0 <= i < k && !slice_live(#[trigger] orig[i]) && orig[i].index == j,
                completed@ == orig.take(k).filter(|s: SliceState| !slice_live(s)).map_values(
                    |s: SliceState| s.index,
                ),
            decreases self.slices@.len(),
        {
            let ghost pre = orig.take(k);
            let ghost pred = |s: SliceState| slice_live(s);
            let ghost dead = |s: SliceState| !slice_live(s);
            let s = self.slices.remove(0);
            proof {
                assert(orig.skip(k)[0] == orig[k]);
                assert(s == orig[k]);
                assert(orig.skip(k).remove(0) =~= orig.skip(k + 1));
                Seq::filter_distributes_over_add(pre, seq![orig[k]], pred);
                Seq::filter_distributes_over_add(pre, seq![orig[k]], dead);
                assert(orig.take(k + 1) =~= pre + seq![orig[k]]);
                assert(seq![orig[k]].filter(pred) =~= (if pred(orig[k]) {
                    seq![orig[k]]
                } else {
                    Seq::<SliceState>::empty()
                })) by {
                    reveal(Seq::filter);
                    assert(seq![orig[k]].drop_last() =~= Seq::<SliceState>::empty());
                    assert(Seq::<SliceState>::empty().filter(pred) =~= Seq::<SliceState>::empty());
                }
                assert(seq![orig[k]].filter(dead) =~= (if dead(orig[k]) {
                    seq![orig[k]]
                } else {
                    Seq::<SliceState>::empty()
                })) by {
                    reveal(Seq::filter);
                    assert(seq![orig[k]].drop_last() =~= Seq::<SliceState>::empty());
                    assert(Seq::<SliceState>::empty().filter(dead) =~= Seq::<SliceState>::empty());
                }
            }
            let live = s.in_progress > 0 || s.blocks.len() > 0;
            if live {
                kept.push(s);
                proof {
                    assert(kept@ =~= pre.filter(pred) + seq![orig[k]].filter(pred));
                    assert(kept@ == orig.take(k + 1).filter(pred));
                    assert(completed@ =~= orig.take(k + 1).filter(dead).map_values(
                        |s: SliceState| s.index,
                    ));
                }
            } else {
                let idx = s.index;
                let ghost old_completed = completed@;
                self.mask.set(idx as usize);
                completed.push(idx);
                proof {
                    assert(kept@ =~= pre.filter(pred) + seq![orig[k]].filter(pred));
                    assert(kept@ == orig.take(k + 1).filter(pred));
                    assert(completed@ == old_completed.push(idx));
                    assert(completed@ =~= orig.take(k + 1).filter(dead).map_values(
                        |s: SliceState| s.index,
                    ));
                }
            }
            proof {
                k = k + 1;
            }
        }
        proof {
            assert(k == orig.len());
            assert(orig.take(orig.len() as int) =~= orig);
        }
        self.slices = kept;
        proof {
            assert(distinct_indices(final(self).slices@)) by {
                let fs = orig.filter(|s: SliceState| slice_live(s));
                assert forall|a: int, b: int| 0 <= a < b < fs.len() implies fs[a].index
                    != fs[b].index by {
                    lemma_filter_positions(orig, |s: SliceState| slice_live(s), a, b);
                }
            }
        }
        completed
    }
}

/// For a filtered sequence, two positions come from two distinct
/// positions of the unfiltered sequence, in order.
pub proof fn lemma_filter_positions<A>(s: Seq<A>, pred: spec_fn(A) -> bool, a: int, b: int)
    requires
        0 <= a < b < s.filter(pred).len(),
    ensures
        exists|i: int, j: int|
            0 <= i < j < s.len() && s[i] == s.filter(pred)[a] && s[j] == s.filter(pred)[b],
    decreases s.len(),
{
    reveal(Seq::filter);
    let fs = s.filter(pred);
    if s.len() > 0 {
        let sub = s.drop_last().filter(pred);
        if pred(s.last()) {
            if b == fs.len() - 1 {
                if a < sub.len() {
                    lemma_filter_contains_position(s.drop_last(), pred, a);
                    let i = choose|i: int|
                        0 <= i < s.drop_last().len() && s.drop_last()[i] == sub[a];
                    assert(s[i] == fs[a]);
                    assert(s[s.len() - 1] == fs[b]);
                }
            } else {
                lemma_filter_positions(s.drop_last(), pred, a, b);
                let (i, j) = choose|i: int, j: int|
                    0 <= i < j < s.drop_last().len() && s.drop_last()[i] == sub[a]
                        && s.drop_last()[j] == sub[b];
                assert(s[i] == fs[a] && s[j] == fs[b]);
            }
        } else {
            lemma_filter_positions(s.drop_last(), pred, a, b);
            let (i, j) = choose|i: int, j: int|
                0 <= i < j < s.drop_last().len() && s.drop_last()[i] == sub[a] && s.drop_last()[j]
                    == sub[b];
            assert(s[i] == fs[a] && s[j] == fs[b]);
        }
    }
}

/// Each element of a filtered sequence stands at some position of the
/// unfiltered sequence.
pub proof fn lemma_filter_contains_position<A>(s: Seq<A>, pred: spec_fn(A) -> bool, a: int)
    requires
        0 <= a < s.filter(pred).len(),
    ensures
        exists|i: int| 0 <= i < s.len() && s[i] == s.filter(pred)[a],
    decreases s.len(),
{
    reveal(Seq::filter);
    let fs = s.filter(pred);
    if s.len() > 0 {
        let sub = s.drop_last().filter(pred);
        if pred(s.last()) && a == fs.len() - 1 {
            assert(s[s.len() - 1] == fs[a]);
        } else {
            lemma_filter_contains_position(s.drop_last(), pred, a);
            let i = choose|i: int| 0 <= i < s.drop_last().len() && s.drop_last()[i] == sub[a];
            assert(s[i] == fs[a]);
        }
    }
}

} // verus!
