//! The block fetch engine: a bounded set of in-flight work items, each
//! either awaiting a peer's block response or awaiting a disk write, and
//! the scheduler that keeps the set filled from the slices of a
//! [`Downloading`].  The surrounding program performs the actual network
//! and disk operations and reports their outcomes through the event
//! methods here; every decision is made in this module.

use vstd::prelude::*;
use crate::types::{Hash256, PeerAddr};
use crate::progress::{
    Block, Downloading, SliceState, distinct_indices, has_slice, sum_in_progress,
    lemma_sum_ip_update,
};
use crate::digest::{digest_of, compute_digest};

verus! {

/// The whole fetch fails this many milliseconds after it starts.
pub const FETCH_DEADLINE_MS: u64 = 3600000;

/// A stalled cluster aborts the fetch only after this many milliseconds
/// without a verified block.
pub const RETRY_CLUSTER_FAILURE_MS: u64 = 120000;

/// How long the retry timer sleeps when there is nothing to schedule.
pub const RETRY_INTERVAL_MS: u64 = 2000;

/// Upper bound on concurrent fetches; the scheduler admits one item over
/// this bound before yielding.
pub const CONCURRENCY: usize = 10;

/// One in-flight work item: a block being fetched from a peer, or a
/// verified block being written to disk.
pub enum FetchBlock {
    Fetching { block: Block, slice: u8, peer: PeerAddr, request: u64 },
    Writing { write: u64, slice: u8 },
}

/// The slice an in-flight item belongs to: a block keeps its slice from
/// the fetch through the disk write.
pub open spec fn item_slice(f: FetchBlock) -> u8 {
    match f {
        FetchBlock::Fetching { slice, .. } => slice,
        FetchBlock::Writing { slice, .. } => slice,
    }
}

/// 1 when the item belongs to slice `idx`, else 0.
pub open spec fn fb_one(f: FetchBlock, idx: u8) -> int {
    if item_slice(f) == idx {
        1int
    } else {
        0int
    }
}

/// Number of in-flight items (fetches and writes) for slice `idx`.
pub open spec fn fb_count(items: Seq<FetchBlock>, idx: u8) -> int
    decreases items.len(),
{
    if items.len() == 0 {
        0
    } else {
        fb_count(items.drop_last(), idx) + fb_one(items.last(), idx)
    }
}

pub proof fn lemma_fb_count_first(items: Seq<FetchBlock>, idx: u8)
    requires
        items.len() > 0,
    ensures
        fb_count(items, idx) == fb_one(items[0], idx) + fb_count(items.skip(1), idx),
    decreases items.len(),
{
    reveal_with_fuel(fb_count, 3);
    if items.len() == 1 {
        assert(items.drop_last().len() == 0);
        assert(items.skip(1) =~= Seq::<FetchBlock>::empty());
        assert(items.last() == items[0]);
    } else {
        lemma_fb_count_first(items.drop_last(), idx);
        assert(items.skip(1).drop_last() =~= items.drop_last().skip(1));
        assert(items.drop_last()[0] == items[0]);
        assert(items.skip(1).last() == items.last());
    }
}

pub proof fn lemma_fb_push(items: Seq<FetchBlock>, x: FetchBlock, idx: u8)
    ensures
        fb_count(items.push(x), idx) == fb_count(items, idx) + fb_one(x, idx),
{
    assert(items.push(x).drop_last() =~= items);
    assert(items.push(x).last() == x);
}

/// Counts are bounded by the number of items.
pub proof fn lemma_fb_bounds(items: Seq<FetchBlock>, idx: u8)
    ensures
        0 <= fb_count(items, idx),
        fb_count(items, idx) <= items.len(),
    decreases items.len(),
{
    if items.len() > 0 {
        lemma_fb_bounds(items.drop_last(), idx);
    }
}

/// An in-flight item for slice `σ` is matched by a slice with index `σ`.
pub open spec fn item_has_slice(ss: Seq<SliceState>, f: FetchBlock) -> bool {
    has_slice(ss, item_slice(f))
}

/// The engine's accounting invariant against the download state it
/// drives: each slice's in-flight counter equals the number of in-flight
/// items (fetches and pending writes) for its index, every item points at
/// an existing slice, the counters total the in-flight set, and the set
/// respects the concurrency bound (one over at most).
pub open spec fn inv_core(items: Seq<FetchBlock>, ss: Seq<SliceState>) -> bool {
    &&& forall|j: int|
        0 <= j < ss.len() ==> (#[trigger] ss[j]).in_progress as int == fb_count(items, ss[j].index)
    &&& forall|k: int| 0 <= k < items.len() ==> item_has_slice(ss, #[trigger] items[k])
    &&& sum_in_progress(ss) == items.len()
}

/// The accounting core and index-distinctness read only each slice's
/// index and in-flight counter.
pub proof fn lemma_inv_core_pointwise(items: Seq<FetchBlock>, a: Seq<SliceState>, b: Seq<
    SliceState,
>)
    requires
        a.len() == b.len(),
        forall|j: int|
            0 <= j < a.len() ==> (#[trigger] a[j]).index == b[j].index && a[j].in_progress
                == b[j].in_progress,
        inv_core(items, a),
        distinct_indices(a),
    ensures
        inv_core(items, b),
        distinct_indices(b),
{
    lemma_sum_ip_pointwise(a, b);
    assert forall|j: int| 0 <= j < b.len() implies (#[trigger] b[j]).in_progress as int
        == fb_count(items, b[j].index) by {
        assert(a[j].in_progress as int == fb_count(items, a[j].index));
    }
    assert forall|x: int, y: int| 0 <= x < y < b.len() implies b[x].index != b[y].index by {
        assert(a[x].index != a[y].index);
    }
    assert forall|k: int| 0 <= k < items.len() implies item_has_slice(
        b,
        #[trigger] items[k],
    ) by {
        let sl = item_slice(items[k]);
        assert(item_has_slice(a, items[k]));
        let m = choose|m: int| 0 <= m < a.len() && (#[trigger] a[m]).index == sl;
        assert(b[m].index == sl);
        assert(has_slice(b, sl));
    }
}

pub open spec fn engine_inv(eng: FetchBlocks, dw: Downloading) -> bool {
    &&& dw.wf()
    &&& eng.futures@.len() <= CONCURRENCY + 1
    &&& inv_core(eng.futures@, dw.slices@)
}

/// The block fetch engine's own state: the in-flight work items in FIFO
/// order, the retry timer flag, the time of the last verified fetch, the
/// overall deadline, and the next fresh request identifier.
pub struct FetchBlocks {
    pub futures: std::collections::VecDeque<FetchBlock>,
    pub retry_armed: bool,
    pub last_okay: u64,
    pub deadline: u64,
    pub next_request: u64,
}

impl FetchBlocks {
    /// A fresh engine: nothing in flight, the deadline one
    /// `FETCH_DEADLINE_MS` from now, the last verified fetch counted from
    /// now.
    pub fn new(now_ms: u64) -> (r: FetchBlocks)
        requires
            now_ms <= u64::MAX - FETCH_DEADLINE_MS,
        ensures
            r.futures@.len() == 0,
            !r.retry_armed,
            r.last_okay == now_ms,
            r.deadline == now_ms + FETCH_DEADLINE_MS,
            r.next_request == 0,
    {
        FetchBlocks {
            futures: std::collections::VecDeque::new(),
            retry_armed: false,
            last_okay: now_ms,
            deadline: now_ms + FETCH_DEADLINE_MS,
            next_request: 0,
        }
    }

    /// A fresh engine satisfies the accounting invariant against a
    /// download whose slices have nothing in flight.
    pub proof fn lemma_inv_fresh(self, dw: Downloading)
        requires
            self.futures@.len() == 0,
            dw.wf(),
            forall|i: int| 0 <= i < dw.slices@.len() ==> (#[trigger] dw.slices@[i]).in_progress
                == 0,
        ensures
            engine_inv(self, dw),
        decreases dw.slices@.len(),
    {
        lemma_sum_ip_zero(dw.slices@);
    }
}

pub proof fn lemma_sum_ip_zero(ss: Seq<SliceState>)
    requires
        forall|i: int| 0 <= i < ss.len() ==> (#[trigger] ss[i]).in_progress == 0,
    ensures
        sum_in_progress(ss) == 0,
    decreases ss.len(),
{
    if ss.len() > 0 {
        lemma_sum_ip_zero(ss.drop_last());
    }
}

/// What the surrounding program must poll next: the front work item.
pub enum FrontTask {
    FetchPending { request: u64 },
    WritePending { write: u64 },
}

impl FetchBlocks {
    /// Identify the front work item, so that its future can be polled.
    pub fn front_task(&self) -> (r: Option<FrontTask>)
        ensures
            r is None <==> self.futures@.len() == 0,
            self.futures@.len() > 0 ==> (match (r, self.futures@[0]) {
                (
                    Some(FrontTask::FetchPending { request }),
                    FetchBlock::Fetching { request: rq, .. },
                ) => request == rq,
                (Some(FrontTask::WritePending { write }), FetchBlock::Writing { write: w, .. }) => write
                    == w,
                _ => false,
            }),
    {
        if self.futures.len() == 0 {
            return None;
        }
        match &self.futures[0] {
            FetchBlock::Fetching { request, .. } => Some(FrontTask::FetchPending {
                request: *request,
            }),
            FetchBlock::Writing { write, .. } => Some(FrontTask::WritePending { write: *write }),
        }
    }

    /// The front item's future was polled and is not ready: move it to
    /// the back so the other items get their turn.
    pub fn requeue_front(&mut self, dw: &Downloading)
        requires
            old(self).futures@.len() > 0,
            engine_inv(*old(self), *dw),
        ensures
            engine_inv(*final(self), *dw),
            final(self).futures@ == old(self).futures@.skip(1).push(old(self).futures@[0]),
            final(self).futures@.len() == old(self).futures@.len(),
            final(self).retry_armed == old(self).retry_armed,
            final(self).last_okay == old(self).last_okay,
            final(self).deadline == old(self).deadline,
            final(self).next_request == old(self).next_request,
    {
        let ghost orig = self.futures@;
        let f = self.futures.pop_front();
        match f {
            Some(x) => {
                self.futures.push_back(x);
                proof {
                    assert(self.futures@ == orig.skip(1).push(orig[0]));
                    assert forall|idx: u8| true implies fb_count(self.futures@, idx) == fb_count(
                        orig,
                        idx,
                    ) by {
                        lemma_fb_count_first(orig, idx);
                        lemma_fb_push(orig.skip(1), orig[0], idx);
                    }
                    assert forall|k: int| 0 <= k < self.futures@.len() implies item_has_slice(
                        dw.slices@,
                        #[trigger] self.futures@[k],
                    ) by {
                        if k < orig.len() - 1 {
                            assert(self.futures@[k] == orig[k + 1]);
                        } else {
                            assert(self.futures@[k] == orig[0]);
                        }
                    }
                }
            },
            None => {
                proof {
                    assert(false);
                }
            },
        }
    }
}

/// Why a fetch gave up.
pub enum FailReason {
    DeadlineReached,
    ClusterStalled,
}

/// What one scheduler pass decided.
pub enum PassResult {
    /// Every slice completed and nothing is in flight.
    Done,
    /// The fetch is abandoned.
    Failed(FailReason),
    /// New fetches were issued; poll them and call again.
    Scheduled,
    /// Nothing to do right now; wait for an event or the retry timer.
    NotReady,
}

/// A block request the surrounding program must issue to a peer.
pub struct FetchCmd {
    pub request: u64,
    pub conn: u64,
    pub peer: PeerAddr,
    pub slice: u8,
    pub hash: Hash256,
    pub path: Vec<u8>,
    pub offset: u64,
}

/// Everything one scheduler pass hands back: the requests to issue, the
/// slices newly completed (their mask bits are set), and the verdict.
pub struct PassOutput {
    pub fetches: Vec<FetchCmd>,
    pub completed: Vec<u8>,
    pub result: PassResult,
}

/// A fetch command is sound: its slice exists and does not hold the peer
/// in its recent-failure set, and the peer's connection advertises the
/// image being fetched.
pub open spec fn cmd_ok(
    reg: crate::registry::Registry,
    img: Seq<u8>,
    ss: Seq<SliceState>,
    cmd: FetchCmd,
) -> bool {
    &&& exists|i: int|
        0 <= i < ss.len() && (#[trigger] ss[i]).index == cmd.slice && !ss[i].failures@.contains(
            cmd.peer,
        )
    &&& exists|i: int|
        0 <= i < reg.conns@.len() && (#[trigger] reg.conns@[i]).id == cmd.conn
            && reg.conns@[i].addr == cmd.peer && reg.conns@[i].advertises(img)
}

/// Number of commands for slice `idx` in a command list.
pub open spec fn cmd_count(cmds: Seq<FetchCmd>, idx: u8) -> int
    decreases cmds.len(),
{
    if cmds.len() == 0 {
        0
    } else {
        cmd_count(cmds.drop_last(), idx) + (if cmds.last().slice == idx {
            1int
        } else {
            0int
        })
    }
}

pub proof fn lemma_cmd_count_push(cmds: Seq<FetchCmd>, c: FetchCmd, idx: u8)
    ensures
        cmd_count(cmds.push(c), idx) == cmd_count(cmds, idx) + (if c.slice == idx {
            1int
        } else {
            0int
        }),
{
    assert(cmds.push(c).drop_last() =~= cmds);
    assert(cmds.push(c).last() == c);
}

/// A slice can be served right now: it has a pending block, and some
/// live connection advertises the image and is not in the slice's
/// recent-failure set.
pub open spec fn slice_schedulable(
    reg: crate::registry::Registry,
    img: Seq<u8>,
    s: SliceState,
) -> bool {
    s.blocks@.len() > 0 && exists|c: int|
        0 <= c < reg.conns@.len() && (#[trigger] reg.conns@[c]).advertises(img)
            && !s.failures@.contains(reg.conns@[c].addr)
}

/// Some slice can be served right now.
pub open spec fn schedulable(
    reg: crate::registry::Registry,
    img: Seq<u8>,
    ss: Seq<SliceState>,
) -> bool {
    exists|i: int| 0 <= i < ss.len() && slice_schedulable(reg, img, #[trigger] ss[i])
}

/// The in-flight item created for a command carries the command's block
/// and addressing.
pub open spec fn item_matches_cmd(f: FetchBlock, c: FetchCmd) -> bool {
    match f {
        FetchBlock::Fetching { block, slice, peer, request } => {
            &&& slice == c.slice
            &&& peer == c.peer
            &&& request == c.request
            &&& block.hash@ == c.hash@
            &&& block.path@ == c.path@
            &&& block.offset == c.offset
        },
        FetchBlock::Writing { .. } => false,
    }
}

/// Command `k` asks for the next pending block of its slice, in FIFO
/// order: the `m`-th command for a slice carries that slice's `m`-th
/// initially pending block.
pub open spec fn cmd_takes_block(base: Seq<SliceState>, cmds: Seq<FetchCmd>, k: int) -> bool {
    exists|i: int|
        0 <= i < base.len() && (#[trigger] base[i]).index == cmds[k].slice && {
            let m = cmd_count(cmds.take(k), cmds[k].slice);
            &&& 0 <= m < base[i].blocks@.len()
            &&& cmds[k].hash@ == base[i].blocks@[m].hash@
            &&& cmds[k].path@ == base[i].blocks@[m].path@
            &&& cmds[k].offset == base[i].blocks@[m].offset
        }
}

/// An in-flight fetch for slice `σ` is at least one fetch for `σ`.
pub proof fn lemma_fb_count_item(items: Seq<FetchBlock>, k: int, idx: u8)
    requires
        0 <= k < items.len(),
        fb_one(items[k], idx) == 1,
    ensures
        fb_count(items, idx) >= 1,
    decreases items.len(),
{
    lemma_fb_bounds(items.drop_last(), idx);
    if k < items.len() - 1 {
        lemma_fb_count_item(items.drop_last(), k, idx);
    }
}

/// The sum of the in-flight counters reads the counters alone.
pub proof fn lemma_sum_ip_pointwise(a: Seq<SliceState>, b: Seq<SliceState>)
    requires
        a.len() == b.len(),
        forall|j: int| 0 <= j < a.len() ==> (#[trigger] a[j]).in_progress == b[j].in_progress,
    ensures
        sum_in_progress(a) == sum_in_progress(b),
    decreases a.len(),
{
    if a.len() > 0 {
        lemma_sum_ip_pointwise(a.drop_last(), b.drop_last());
    }
}

/// A command to write a verified block to disk: issued by the engine only
/// for bytes whose digest equals the block's declared hash.
pub struct WriteCmd {
    pub write: u64,
    pub path: Vec<u8>,
    pub offset: u64,
    pub data: Vec<u8>,
}

/// How a fetch failure for slice `sl` transforms the download state: the
/// block returns to the tail of its slice's deque, the peer joins the
/// slice's recent failures, the in-flight counter drops by one, and
/// nothing else changes.
pub open spec fn failure_step(
    dwo: Downloading,
    dwn: Downloading,
    sl: u8,
    p: PeerAddr,
    b: Block,
) -> bool {
    &&& exists|i: int|
        0 <= i < dwo.slices@.len() && (#[trigger] dwo.slices@[i]).index == sl && {
            &&& dwn.slices@.len() == dwo.slices@.len()
            &&& (forall|j: int|
                0 <= j < dwo.slices@.len() && j != i ==> dwn.slices@[j] == dwo.slices@[j])
            &&& dwn.slices@[i].index == sl
            &&& dwn.slices@[i].in_progress == dwo.slices@[i].in_progress - 1
            &&& dwn.slices@[i].blocks@ == dwo.slices@[i].blocks@.push(b)
            &&& dwn.slices@[i].failures@ == dwo.slices@[i].failures@.insert(p)
        }
    &&& dwn.mask@ == dwo.mask@
    &&& dwn.image_id@ == dwo.image_id@
    &&& dwn.virtual_path@ == dwo.virtual_path@
    &&& dwn.stalled == dwo.stalled
}

/// How a verified delivery from peer `p` transforms the download state:
/// the peer's recent failures are cleared in every slice and the stalled
/// flag clears.  The in-flight counters do not move — the block stays in
/// flight until its disk write completes.
pub open spec fn success_step(dwo: Downloading, dwn: Downloading, p: PeerAddr) -> bool {
    &&& dwn.slices@.len() == dwo.slices@.len()
    &&& (forall|j: int|
        0 <= j < dwo.slices@.len() ==> (#[trigger] dwn.slices@[j]).index == dwo.slices@[j].index
            && dwn.slices@[j].blocks@ == dwo.slices@[j].blocks@ && dwn.slices@[j].failures@
            == dwo.slices@[j].failures@.remove(p) && dwn.slices@[j].in_progress
            == dwo.slices@[j].in_progress)
    &&& dwn.mask@ == dwo.mask@
    &&& dwn.image_id@ == dwo.image_id@
    &&& dwn.virtual_path@ == dwo.virtual_path@
    &&& !dwn.stalled
}

/// How a completed disk write for slice `sl` transforms the download
/// state: the slice's in-flight counter drops by one; nothing else moves.
pub open spec fn write_done_step(dwo: Downloading, dwn: Downloading, sl: u8) -> bool {
    &&& exists|i: int|
        0 <= i < dwo.slices@.len() && (#[trigger] dwo.slices@[i]).index == sl && {
            &&& dwn.slices@.len() == dwo.slices@.len()
            &&& (forall|j: int|
                0 <= j < dwo.slices@.len() && j != i ==> dwn.slices@[j] == dwo.slices@[j])
            &&& dwn.slices@[i].index == sl
            &&& dwn.slices@[i].in_progress == dwo.slices@[i].in_progress - 1
            &&& dwn.slices@[i].blocks@ == dwo.slices@[i].blocks@
            &&& dwn.slices@[i].failures@ == dwo.slices@[i].failures@
        }
    &&& dwn.mask@ == dwo.mask@
    &&& dwn.image_id@ == dwo.image_id@
    &&& dwn.virtual_path@ == dwo.virtual_path@
    &&& dwn.stalled == dwo.stalled
}

impl FetchBlocks {
    /// The front fetch completed with `data` from its peer.  The digest
    /// decides: when it equals the block's declared hash, the item turns
    /// into a disk write and a write command is returned — so bytes reach
    /// the disk only when their digest matches; otherwise the block is
    /// re-enqueued and the peer is penalized for the slice.  A verified
    /// block stays in flight (its slice's counter does not drop) until
    /// the write completes.
    pub fn on_fetch_ready(&mut self, dw: &mut Downloading, data: Vec<u8>, now_ms: u64) -> (r:
        Option<WriteCmd>)
        requires
            engine_inv(*old(self), *old(dw)),
            old(self).futures@.len() > 0,
            old(self).futures@[0] is Fetching,
            old(self).next_request < u64::MAX,
        ensures
            engine_inv(*final(self), *final(dw)),
            final(dw).mask@ == old(dw).mask@,
            final(dw).ever_sources@ == old(dw).ever_sources@,
            final(self).deadline == old(self).deadline,
            final(self).retry_armed == old(self).retry_armed,
            (match old(self).futures@[0] {
                FetchBlock::Fetching { block, slice, peer, request } => {
                    &&& (r is Some <==> digest_of(data@) == block.hash@)
                    &&& (match r {
                        Some(cmd) => {
                            &&& cmd.data@ == data@
                            &&& digest_of(cmd.data@) == block.hash@
                            &&& cmd.path@ == block.path@
                            &&& cmd.offset == block.offset
                            &&& cmd.write == old(self).next_request
                            &&& final(self).next_request == old(self).next_request + 1
                            &&& final(self).futures@ == old(self).futures@.skip(1).push(
                                FetchBlock::Writing { write: cmd.write, slice },
                            )
                            &&& final(self).last_okay == now_ms
                            &&& success_step(*old(dw), *final(dw), peer)
                        },
                        None => {
                            &&& final(self).next_request == old(self).next_request
                            &&& final(self).futures@ == old(self).futures@.skip(1)
                            &&& final(self).last_okay == old(self).last_okay
                            &&& failure_step(*old(dw), *final(dw), slice, peer, block)
                        },
                    })
                },
                FetchBlock::Writing { .. } => false,
            }),
    {
        let ghost orig = self.futures@;
        let f = self.futures.pop_front();
        match f {
            Some(FetchBlock::Fetching { block, slice, peer, request }) => {
                proof {
                    assert(FetchBlock::Fetching { block, slice, peer, request } == orig[0]);
                    lemma_fb_count_first(orig, slice);
                    lemma_fb_bounds(orig.skip(1), slice);
                    assert(fb_count(orig, slice) >= 1);
                    assert(item_has_slice(old(dw).slices@, orig[0]));
                    assert forall|j: int|
                        0 <= j < old(dw).slices@.len() && (#[trigger] old(dw).slices@[j]).index
                            == slice implies old(dw).slices@[j].in_progress >= 1 by {
                        assert(old(dw).slices@[j].in_progress as int == fb_count(orig, slice));
                    }
                }
                let computed = compute_digest(&data);
                if computed.same(&block.hash) {
                    let ghost dwo = *dw;
                    dw.record_success(peer);
                    self.last_okay = now_ms;
                    let write_id = self.next_request;
                    self.next_request = self.next_request + 1;
                    self.futures.push_back(FetchBlock::Writing { write: write_id, slice });
                    proof {
                        let dwn = *dw;
                        assert(success_step(dwo, dwn, peer));
                        lemma_inv_after_convert(
                            orig,
                            FetchBlock::Writing { write: write_id, slice },
                            dwo.slices@,
                        );
                        lemma_inv_core_pointwise(self.futures@, dwo.slices@, dwn.slices@);
                    }
                    Some(WriteCmd { write: write_id, path: block.path, offset: block.offset, data })
                } else {
                    let ghost dwo = *dw;
                    let ghost b_snap = block;
                    let i = dw.record_failure(slice, peer, block);
                    proof {
                        let dwn = *dw;
                        assert(failure_step(dwo, dwn, slice, peer, b_snap)) by {
                            assert(0 <= i < dwo.slices@.len() && dwo.slices@[i as int].index
                                == slice);
                        }
                        lemma_inv_after_drop(orig, dwo, dwn, slice, i as int);
                    }
                    None
                }
            },
            _ => {
                proof {
                    assert(false);
                }
                None
            },
        }
    }

    /// The front fetch failed (transport error, timeout, or the peer's
    /// connection closed): the block returns to its slice and the peer is
    /// penalized, exactly as for a checksum mismatch.
    pub fn on_fetch_failed(&mut self, dw: &mut Downloading)
        requires
            engine_inv(*old(self), *old(dw)),
            old(self).futures@.len() > 0,
            old(self).futures@[0] is Fetching,
        ensures
            engine_inv(*final(self), *final(dw)),
            final(dw).mask@ == old(dw).mask@,
            final(dw).ever_sources@ == old(dw).ever_sources@,
            final(self).futures@ == old(self).futures@.skip(1),
            final(self).last_okay == old(self).last_okay,
            final(self).deadline == old(self).deadline,
            final(self).retry_armed == old(self).retry_armed,
            final(self).next_request == old(self).next_request,
            (match old(self).futures@[0] {
                FetchBlock::Fetching { block, slice, peer, .. } => failure_step(
                    *old(dw),
                    *final(dw),
                    slice,
                    peer,
                    block,
                ),
                FetchBlock::Writing { .. } => false,
            }),
    {
        let ghost orig = self.futures@;
        let f = self.futures.pop_front();
        match f {
            Some(FetchBlock::Fetching { block, slice, peer, request }) => {
                proof {
                    assert(FetchBlock::Fetching { block, slice, peer, request } == orig[0]);
                    lemma_fb_count_first(orig, slice);
                    lemma_fb_bounds(orig.skip(1), slice);
                    assert(item_has_slice(old(dw).slices@, orig[0]));
                    assert forall|j: int|
                        0 <= j < old(dw).slices@.len() && (#[trigger] old(dw).slices@[j]).index
                            == slice implies old(dw).slices@[j].in_progress >= 1 by {
                        assert(old(dw).slices@[j].in_progress as int == fb_count(orig, slice));
                    }
                }
                let ghost dwo = *dw;
                let ghost b_snap = block;
                let i = dw.record_failure(slice, peer, block);
                proof {
                    let dwn = *dw;
                    assert(failure_step(dwo, dwn, slice, peer, b_snap)) by {
                        assert(0 <= i < dwo.slices@.len() && dwo.slices@[i as int].index == slice);
                    }
                    lemma_inv_after_drop(orig, dwo, dwn, slice, i as int);
                }
            },
            _ => {
                proof {
                    assert(false);
                }
            },
        }
    }

    /// The front write completed: the block is durable, the item is done,
    /// and its slice's in-flight counter drops — only now can the slice
    /// complete and its mask bit be set.  A failed write has no event
    /// here: it means the local volume can no longer honour durability
    /// for any download, and the process ends.
    pub fn on_write_done(&mut self, dw: &mut Downloading)
        requires
            engine_inv(*old(self), *old(dw)),
            old(self).futures@.len() > 0,
            old(self).futures@[0] is Writing,
        ensures
            engine_inv(*final(self), *final(dw)),
            final(dw).mask@ == old(dw).mask@,
            final(dw).ever_sources@ == old(dw).ever_sources@,
            final(self).futures@ == old(self).futures@.skip(1),
            final(self).last_okay == old(self).last_okay,
            final(self).deadline == old(self).deadline,
            final(self).retry_armed == old(self).retry_armed,
            final(self).next_request == old(self).next_request,
            (match old(self).futures@[0] {
                FetchBlock::Writing { slice, .. } => write_done_step(
                    *old(dw),
                    *final(dw),
                    slice,
                ),
                FetchBlock::Fetching { .. } => false,
            }),
    {
        let ghost orig = self.futures@;
        let f = self.futures.pop_front();
        match f {
            Some(FetchBlock::Writing { write, slice }) => {
                proof {
                    assert(FetchBlock::Writing { write, slice } == orig[0]);
                    lemma_fb_count_first(orig, slice);
                    lemma_fb_bounds(orig.skip(1), slice);
                    assert(item_has_slice(old(dw).slices@, orig[0]));
                    assert forall|j: int|
                        0 <= j < old(dw).slices@.len() && (#[trigger] old(dw).slices@[j]).index
                            == slice implies old(dw).slices@[j].in_progress >= 1 by {
                        assert(old(dw).slices@[j].in_progress as int == fb_count(orig, slice));
                    }
                }
                let ghost dwo = *dw;
                let i = dw.record_write_done(slice);
                proof {
                    let dwn = *dw;
                    assert(write_done_step(dwo, dwn, slice)) by {
                        assert(0 <= i < dwo.slices@.len() && dwo.slices@[i as int].index == slice);
                    }
                    lemma_inv_after_drop(orig, dwo, dwn, slice, i as int);
                }
            },
            _ => {
                proof {
                    assert(false);
                }
            },
        }
    }
}

impl FetchBlocks {
    /// One scheduler pass.  In order: honour the retry timer; prune the
    /// completed slices (setting their mask bits); report *done* when
    /// nothing is left; fail when the overall deadline has passed; hold
    /// back when the in-flight set is full; otherwise walk the slices in
    /// order, popping blocks from the front of each deque and issuing a
    /// fetch for every block a qualifying peer exists for — a peer in the
    /// slice's recent-failure set is never picked.  When nothing could be
    /// scheduled and nothing is in flight, fail if the cluster has been
    /// stalled past `RETRY_CLUSTER_FAILURE_MS`, else arm the retry timer.
    pub fn scheduler_pass(
        &mut self,
        dw: &mut Downloading,
        reg: &crate::registry::Registry,
        now_ms: u64,
        retry_fired: bool,
    ) -> (out: PassOutput)
        requires
            engine_inv(*old(self), *old(dw)),
            old(self).next_request <= u64::MAX - (CONCURRENCY as u64 + 2),
        ensures
            engine_inv(*final(self), *final(dw)),
            // an armed, unfired retry timer gates the whole pass
            (old(self).retry_armed && !retry_fired) ==> (out.result is NotReady && *final(self)
                == *old(self) && *final(dw) == *old(dw) && out.fetches@.len() == 0
                && out.completed@.len() == 0),
            // mask bits only flip from clear to set
            forall|j: int|
                0 <= j < crate::mask::SLICE_COUNT && old(dw).mask@[j] ==> final(dw).mask@[j],
            // the pass reports done exactly when no slice and no in-flight
            // item remains
            out.result is Done <==> (!(old(self).retry_armed && !retry_fired)
                && final(self).futures@.len() == 0 && final(dw).slices@.len() == 0),
            out.result is Done ==> out.fetches@.len() == 0,
            // the deadline fails the fetch exactly when it has passed and
            // there was still work left
            out.result == PassResult::Failed(FailReason::DeadlineReached) <==> (!(old(self).retry_armed
                && !retry_fired) && !(final(self).futures@.len() == 0
                && final(dw).slices@.len() == 0) && now_ms >= old(self).deadline),
            // every issued fetch names a qualifying peer for its slice
            forall|k: int|
                0 <= k < out.fetches@.len() ==> cmd_ok(
                    *reg,
                    old(dw).image_id@,
                    final(dw).slices@,
                    #[trigger] out.fetches@[k],
                ),
            // each command asks for the next pending block of its slice,
            // in FIFO order over the slices that survived pruning
            !(old(self).retry_armed && !retry_fired) ==> (forall|k: int|
                #![trigger out.fetches@[k]]
                0 <= k < out.fetches@.len() ==> cmd_takes_block(
                    old(dw).slices@.filter(|s: SliceState| crate::progress::slice_live(s)),
                    out.fetches@,
                    k,
                )),
            // the slices after the pass are the pruned slices, same index
            // and failure set; each deque lost exactly its commands'
            // blocks from the front, and each counter rose by as many
            !(old(self).retry_armed && !retry_fired) ==> final(dw).slices@.len() == old(
                dw,
            ).slices@.filter(|s: SliceState| crate::progress::slice_live(s)).len(),
            !(old(self).retry_armed && !retry_fired) ==> (forall|j: int|
                0 <= j < final(dw).slices@.len() ==> {
                    let s0 = old(dw).slices@.filter(
                        |s: SliceState| crate::progress::slice_live(s),
                    )[j];
                    let k = cmd_count(out.fetches@, s0.index);
                    &&& (#[trigger] final(dw).slices@[j]).index == s0.index
                    &&& final(dw).slices@[j].failures@ == s0.failures@
                    &&& 0 <= k <= s0.blocks@.len()
                    &&& final(dw).slices@[j].blocks@ == s0.blocks@.skip(k)
                    &&& final(dw).slices@[j].in_progress as int == s0.in_progress + k
                }),
            // the in-flight set is the old one plus one fetch per command
            final(self).futures@.len() == old(self).futures@.len() + out.fetches@.len(),
            forall|k: int|
                0 <= k < old(self).futures@.len() ==> final(self).futures@[k] == old(
                    self,
                ).futures@[k],
            forall|k: int|
                0 <= k < out.fetches@.len() ==> item_matches_cmd(
                    final(self).futures@[old(self).futures@.len() + k],
                    #[trigger] out.fetches@[k],
                ),
            // the ever-picked sources grow by the commands' connections
            final(dw).ever_sources@.len() == old(dw).ever_sources@.len() + out.fetches@.len(),
            forall|k: int|
                0 <= k < old(dw).ever_sources@.len() ==> final(dw).ever_sources@[k] == old(
                    dw,
                ).ever_sources@[k],
            forall|k: int|
                0 <= k < out.fetches@.len() ==> final(dw).ever_sources@[old(
                    dw,
                ).ever_sources@.len() + k] == (#[trigger] out.fetches@[k]).conn,
            // progress: when there is room and a serveable slice, the
            // pass schedules work
            (!(old(self).retry_armed && !retry_fired) && now_ms < old(self).deadline && old(
                self,
            ).futures@.len() < CONCURRENCY && schedulable(
                *reg,
                old(dw).image_id@,
                old(dw).slices@.filter(|s: SliceState| crate::progress::slice_live(s)),
            )) ==> out.fetches@.len() > 0,
            // backpressure: a full in-flight set schedules nothing
            (!(old(self).retry_armed && !retry_fired) && now_ms < old(self).deadline && old(
                self,
            ).futures@.len() >= CONCURRENCY) ==> (out.result is NotReady && out.fetches@.len()
                == 0),
            // a stalled cluster past the grace period forces the abort
            (!(old(self).retry_armed && !retry_fired) && now_ms < old(self).deadline && old(
                self,
            ).futures@.len() == 0 && old(dw).slices@.filter(
                |s: SliceState| crate::progress::slice_live(s),
            ).len() > 0 && !schedulable(
                *reg,
                old(dw).image_id@,
                old(dw).slices@.filter(|s: SliceState| crate::progress::slice_live(s)),
            ) && now_ms >= old(self).last_okay + RETRY_CLUSTER_FAILURE_MS && (forall|k: int|
                0 <= k < old(dw).ever_sources@.len() ==> !reg.plausible_source(
                    #[trigger] old(dw).ever_sources@[k],
                    old(dw).image_id@,
                )) && !reg.some_source(old(dw).image_id@)) ==> out.result == PassResult::Failed(
                FailReason::ClusterStalled,
            ),
            // a cluster-stall abort comes only after the grace period with
            // no plausible source left
            out.result == PassResult::Failed(FailReason::ClusterStalled) ==> (final(self).futures@.len()
                == 0 && now_ms >= old(self).last_okay + RETRY_CLUSTER_FAILURE_MS
                && (forall|k: int|
                0 <= k < final(dw).ever_sources@.len() ==> !reg.plausible_source(
                    #[trigger] final(dw).ever_sources@[k],
                    old(dw).image_id@,
                )) && !reg.some_source(old(dw).image_id@)),
            // the stalled flag records exactly an idle, unserveable pass
            !(old(self).retry_armed && !retry_fired) ==> final(dw).stalled == (old(dw).stalled
                || (out.fetches@.len() == 0 && final(self).futures@.len() == 0 && now_ms < old(
                self,
            ).deadline && !(out.result is Done))),
            // the retry timer is armed exactly when the pass found nothing
            // to do and nothing in flight
            !(old(self).retry_armed && !retry_fired) ==> (final(self).retry_armed <==> (out.result
                is NotReady && final(self).futures@.len() == 0)),
            !(old(self).retry_armed && !retry_fired) ==> (out.result is Scheduled
                <==> out.fetches@.len() > 0),
            !(old(self).retry_armed && !retry_fired) ==> out.completed@
                == old(dw).slices@.filter(|s: SliceState| !crate::progress::slice_live(s)).map_values(
                |s: SliceState| s.index,
            ),
            final(self).deadline == old(self).deadline,
            final(self).last_okay == old(self).last_okay,
            final(dw).image_id@ == old(dw).image_id@,
            final(dw).virtual_path@ == old(dw).virtual_path@,
            final(dw).replacing == old(dw).replacing,
    {
        // step 1: the retry timer
        if self.retry_armed {
            if !retry_fired {
                return PassOutput {
                    fetches: Vec::new(),
                    completed: Vec::new(),
                    result: PassResult::NotReady,
                };
            }
            self.retry_armed = false;
        }
        // step 3: prune completed slices, setting their mask bits
        let ghost pre_prune = dw.slices@;
        let ghost futs0 = self.futures@;
        let ghost ever0 = dw.ever_sources@;
        let completed = dw.prune_slices();
        proof {
            let live = |s: SliceState| crate::progress::slice_live(s);
            pre_prune.filter_lemma(live);
            assert forall|j: int| 0 <= j < dw.slices@.len() implies (
            #[trigger] dw.slices@[j]).in_progress as int == fb_count(
                self.futures@,
                dw.slices@[j].index,
            ) by {
                crate::progress::lemma_filter_contains_position(pre_prune, live, j);
                let m = choose|m: int|
                    0 <= m < pre_prune.len() && pre_prune[m] == pre_prune.filter(live)[j];
                assert(pre_prune[m].in_progress as int == fb_count(
                    self.futures@,
                    pre_prune[m].index,
                ));
            }
            assert forall|k: int| 0 <= k < self.futures@.len() implies item_has_slice(
                dw.slices@,
                #[trigger] self.futures@[k],
            ) by {
                let sl = item_slice(self.futures@[k]);
                lemma_fb_count_item(self.futures@, k, sl);
                let m = choose|m: int|
                    0 <= m < pre_prune.len() && (#[trigger] pre_prune[m]).index == sl;
                assert(pre_prune[m].in_progress as int == fb_count(self.futures@, sl));
                assert(crate::progress::slice_live(pre_prune[m]));
                assert(pre_prune.filter(live).contains(pre_prune[m]));
                let j = choose|j: int| 0 <= j < dw.slices@.len() && dw.slices@[j] == pre_prune[m];
                assert(dw.slices@[j].index == sl);
                assert(has_slice(dw.slices@, sl));
            }
            crate::progress::lemma_sum_ip_filter_live(pre_prune);
            assert(sum_in_progress(dw.slices@) == self.futures@.len());
            assert(engine_inv(*self, *dw));
        }
        let ghost base = dw.slices@;
        proof {
            lemma_noop_frame(base);
        }
        // step 4: done?
        if self.futures.len() == 0 && dw.slices.len() == 0 {
            return PassOutput { fetches: Vec::new(), completed, result: PassResult::Done };
        }
        // step 5: the overall deadline
        if now_ms >= self.deadline {
            return PassOutput {
                fetches: Vec::new(),
                completed,
                result: PassResult::Failed(FailReason::DeadlineReached),
            };
        }
        // step 6: backpressure
        if self.futures.len() >= CONCURRENCY {
            return PassOutput { fetches: Vec::new(), completed, result: PassResult::NotReady };
        }
        // step 7: walk the slices, scheduling blocks
        let ghost mask1 = dw.mask@;
        let ghost fut0_len = self.futures@.len() as int;
        let ghost nr0 = self.next_request;
        let mut fetches: Vec<FetchCmd> = Vec::new();
        let mut si: usize = 0;
        let mut overflow: bool = false;
        while si < dw.slices.len() && !overflow
            invariant
                engine_inv(*self, *dw),
                si <= dw.slices@.len(),
                0 <= fut0_len,
                dw.slices@.len() == base.len(),
                base.len() > 0 || fut0_len > 0,
                fut0_len < CONCURRENCY,
                fut0_len == futs0.len(),
                now_ms < self.deadline,
                forall|j: int|
                    0 <= j < base.len() ==> (#[trigger] dw.slices@[j]).index == base[j].index
                        && dw.slices@[j].failures@ == base[j].failures@,
                // frame: each deque lost its commands' blocks from the front
                forall|j: int|
                    0 <= j < base.len() ==> {
                        let k = cmd_count(fetches@, (#[trigger] base[j]).index);
                        &&& 0 <= k <= base[j].blocks@.len()
                        &&& dw.slices@[j].blocks@ == base[j].blocks@.skip(k)
                        &&& dw.slices@[j].in_progress as int == base[j].in_progress + k
                    },
                // unprocessed slices have no commands yet
                forall|j: int|
                    si <= j < base.len() ==> cmd_count(fetches@, (#[trigger] base[j]).index) == 0,
                // commands take blocks in FIFO order
                forall|k: int|
                    0 <= k < fetches@.len() ==> #[trigger] cmd_takes_block(base, fetches@, k),
                forall|k: int|
                    0 <= k < fetches@.len() ==> cmd_ok(
                        *reg,
                        dw.image_id@,
                        base,
                        #[trigger] fetches@[k],
                    ),
                // in-flight items: the old ones plus one per command
                self.futures@.len() == futs0.len() + fetches@.len(),
                forall|k: int| 0 <= k < futs0.len() ==> self.futures@[k] == futs0[k],
                forall|k: int|
                    0 <= k < fetches@.len() ==> item_matches_cmd(
                        self.futures@[futs0.len() + k],
                        #[trigger] fetches@[k],
                    ),
                // ever sources: the old ones plus one per command
                dw.ever_sources@.len() == ever0.len() + fetches@.len(),
                forall|k: int| 0 <= k < ever0.len() ==> dw.ever_sources@[k] == ever0[k],
                forall|k: int|
                    0 <= k < fetches@.len() ==> dw.ever_sources@[ever0.len() + k] == (
                    #[trigger] fetches@[k]).conn,
                // with no command, every processed slice was unserveable
                fetches@.len() == 0 ==> (forall|j: int|
                    0 <= j < si ==> !slice_schedulable(*reg, dw.image_id@, #[trigger] base[j])),
                !overflow ==> self.futures@.len() <= CONCURRENCY,
                overflow ==> fetches@.len() > 0,
                self.next_request as int == nr0 + fetches@.len(),
                nr0 <= u64::MAX - (CONCURRENCY as u64 + 2),
                fetches@.len() <= CONCURRENCY + 1 - fut0_len,
                self.retry_armed == false,
                self.deadline == old(self).deadline,
                self.last_okay == old(self).last_okay,
                dw.mask@ == mask1,
                dw.mask.wf(),
                dw.image_id@ == old(dw).image_id@,
                dw.virtual_path@ == old(dw).virtual_path@,
                dw.replacing == old(dw).replacing,
                dw.stalled == old(dw).stalled,
                completed@ == pre_prune.filter(|s: SliceState| !crate::progress::slice_live(
                    s,
                )).map_values(|s: SliceState| s.index),
                pre_prune == old(dw).slices@,
                base == pre_prune.filter(|s: SliceState| crate::progress::slice_live(s)),
                forall|j: int|
                    0 <= j < crate::mask::SLICE_COUNT && old(dw).mask@[j] ==> mask1[j],
            decreases dw.slices@.len() - si,
        {
            let ghost cur0 = dw.slices@;
            let ghost f0 = fetches@;
            let mut s = dw.slices.remove(si);
            let ghost s0 = s;
            let ghost rest = cur0.remove(si as int);
            proof {
                assert(s0 == cur0[si as int]);
                assert(dw.slices@ == rest);
                assert(rest.insert(si as int, s0) =~= cur0);
                assert(cmd_count(f0, base[si as int].index) == 0);
                assert(s0.blocks@ == base[si as int].blocks@.skip(0));
                assert(base[si as int].blocks@.skip(0) =~= base[si as int].blocks@);
            }
            loop
                invariant
                    si < base.len(),
                    0 <= fut0_len,
                    fut0_len == futs0.len(),
                    base.len() == cur0.len(),
                    rest == cur0.remove(si as int),
                    dw.slices@ == rest,
                    s.index == base[si as int].index,
                    s.failures@ == base[si as int].failures@,
                    forall|j: int|
                        0 <= j < base.len() ==> (#[trigger] cur0[j]).index == base[j].index
                            && cur0[j].failures@ == base[j].failures@,
                    // the slice-start frame of the untouched slices
                    forall|j: int|
                        0 <= j < base.len() ==> {
                            let k = cmd_count(f0, (#[trigger] base[j]).index);
                            &&& 0 <= k <= base[j].blocks@.len()
                            &&& cur0[j].blocks@ == base[j].blocks@.skip(k)
                            &&& cur0[j].in_progress as int == base[j].in_progress + k
                        },
                    forall|j: int|
                        si <= j < base.len() ==> cmd_count(f0, (#[trigger] base[j]).index) == 0,
                    // commands: the old ones plus this slice's, in order
                    fetches@.len() >= f0.len(),
                    forall|k: int| 0 <= k < f0.len() ==> fetches@[k] == f0[k],
                    forall|k: int|
                        f0.len() <= k < fetches@.len() ==> (#[trigger] fetches@[k]).slice
                            == base[si as int].index,
                    cmd_count(fetches@, base[si as int].index) == fetches@.len() - f0.len(),
                    forall|j: int|
                        0 <= j < base.len() && j != si ==> cmd_count(
                            fetches@,
                            (#[trigger] base[j]).index,
                        ) == cmd_count(f0, base[j].index),
                    // this slice's own frame
                    fetches@.len() - f0.len() <= base[si as int].blocks@.len(),
                    s.blocks@ == base[si as int].blocks@.skip(fetches@.len() - f0.len()),
                    s.in_progress as int == base[si as int].in_progress + (fetches@.len()
                        - f0.len()),
                    inv_core(self.futures@, rest.insert(si as int, s)),
                    distinct_indices(rest.insert(si as int, s)),
                    forall|k: int|
                        0 <= k < fetches@.len() ==> #[trigger] cmd_takes_block(base, fetches@, k),
                    forall|k: int|
                        0 <= k < fetches@.len() ==> cmd_ok(
                            *reg,
                            dw.image_id@,
                            base,
                            #[trigger] fetches@[k],
                        ),
                    self.futures@.len() == futs0.len() + fetches@.len(),
                    forall|k: int| 0 <= k < futs0.len() ==> self.futures@[k] == futs0[k],
                    forall|k: int|
                        0 <= k < fetches@.len() ==> item_matches_cmd(
                            self.futures@[futs0.len() + k],
                            #[trigger] fetches@[k],
                        ),
                    dw.ever_sources@.len() == ever0.len() + fetches@.len(),
                    forall|k: int| 0 <= k < ever0.len() ==> dw.ever_sources@[k] == ever0[k],
                    forall|k: int|
                        0 <= k < fetches@.len() ==> dw.ever_sources@[ever0.len() + k] == (
                        #[trigger] fetches@[k]).conn,
                    !overflow ==> self.futures@.len() <= CONCURRENCY,
                    overflow ==> fetches@.len() > 0,
                    overflow ==> self.futures@.len() <= CONCURRENCY + 1,
                    self.next_request as int == nr0 + fetches@.len(),
                    nr0 <= u64::MAX - (CONCURRENCY as u64 + 2),
                    fetches@.len() <= CONCURRENCY + 1 - fut0_len,
                    self.retry_armed == false,
                    self.deadline == old(self).deadline,
                    self.last_okay == old(self).last_okay,
                    dw.mask@ == mask1,
                    dw.mask.wf(),
                    dw.image_id@ == old(dw).image_id@,
                    dw.virtual_path@ == old(dw).virtual_path@,
                    dw.replacing == old(dw).replacing,
                    dw.stalled == old(dw).stalled,
                ensures
                    rest == cur0.remove(si as int),
                    dw.slices@ == rest,
                    s.index == base[si as int].index,
                    s.failures@ == base[si as int].failures@,
                    fetches@.len() >= f0.len(),
                    forall|k: int| 0 <= k < f0.len() ==> fetches@[k] == f0[k],
                    forall|k: int|
                        f0.len() <= k < fetches@.len() ==> (#[trigger] fetches@[k]).slice
                            == base[si as int].index,
                    cmd_count(fetches@, base[si as int].index) == fetches@.len() - f0.len(),
                    forall|j: int|
                        0 <= j < base.len() && j != si ==> cmd_count(
                            fetches@,
                            (#[trigger] base[j]).index,
                        ) == cmd_count(f0, base[j].index),
                    fetches@.len() - f0.len() <= base[si as int].blocks@.len(),
                    s.blocks@ == base[si as int].blocks@.skip(fetches@.len() - f0.len()),
                    s.in_progress as int == base[si as int].in_progress + (fetches@.len()
                        - f0.len()),
                    inv_core(self.futures@, rest.insert(si as int, s)),
                    distinct_indices(rest.insert(si as int, s)),
                    forall|k: int|
                        0 <= k < fetches@.len() ==> #[trigger] cmd_takes_block(base, fetches@, k),
                    forall|k: int|
                        0 <= k < fetches@.len() ==> cmd_ok(
                            *reg,
                            dw.image_id@,
                            base,
                            #[trigger] fetches@[k],
                        ),
                    self.futures@.len() == futs0.len() + fetches@.len(),
                    forall|k: int| 0 <= k < futs0.len() ==> self.futures@[k] == futs0[k],
                    forall|k: int|
                        0 <= k < fetches@.len() ==> item_matches_cmd(
                            self.futures@[futs0.len() + k],
                            #[trigger] fetches@[k],
                        ),
                    dw.ever_sources@.len() == ever0.len() + fetches@.len(),
                    forall|k: int| 0 <= k < ever0.len() ==> dw.ever_sources@[k] == ever0[k],
                    forall|k: int|
                        0 <= k < fetches@.len() ==> dw.ever_sources@[ever0.len() + k] == (
                        #[trigger] fetches@[k]).conn,
                    !overflow ==> self.futures@.len() <= CONCURRENCY,
                    overflow ==> fetches@.len() > 0,
                    overflow ==> self.futures@.len() <= CONCURRENCY + 1,
                    self.next_request as int == nr0 + fetches@.len(),
                    fetches@.len() <= CONCURRENCY + 1 - fut0_len,
                    // an unserved slice is unserveable
                    (fetches@.len() == f0.len() && !overflow) ==> (s.blocks@.len() == 0 || (forall|c: int|
                        0 <= c < reg.conns@.len() && (#[trigger] reg.conns@[c]).advertises(
                            dw.image_id@,
                        ) ==> s.failures@.contains(reg.conns@[c].addr))),
                    self.retry_armed == false,
                    self.deadline == old(self).deadline,
                    self.last_okay == old(self).last_okay,
                    dw.mask@ == mask1,
                    dw.mask.wf(),
                    dw.image_id@ == old(dw).image_id@,
                    dw.virtual_path@ == old(dw).virtual_path@,
                    dw.replacing == old(dw).replacing,
                    dw.stalled == old(dw).stalled,
                decreases s.blocks@.len(),
            {
                if s.blocks.len() == 0 {
                    break ;
                }
                if overflow {
                    break ;
                }
                let ghost s_before = s;
                let ghost m_cur = fetches@.len() - f0.len();
                let blk_opt = s.blocks.pop_front();
                match blk_opt {
                    Some(blk) => {
                        proof {
                            assert(s_before.blocks@[0] == base[si as int].blocks@[m_cur]) by {
                                assert(s_before.blocks@ == base[si as int].blocks@.skip(m_cur));
                            }
                            assert(blk == s_before.blocks@[0]);
                        }
                        let conn = reg.get_connection_by_mask(
                            &dw.virtual_path,
                            &dw.image_id,
                            s.index,
                            &s.failures,
                        );
                        match conn {
                            None => {
                                s.blocks.push_front(blk);
                                proof {
                                    assert(s.blocks@ =~= s_before.blocks@);
                                    let sii = si as int;
                                    lemma_inv_core_pointwise(
                                        self.futures@,
                                        rest.insert(sii, s_before),
                                        rest.insert(sii, s),
                                    );
                                }
                                break ;
                            },
                            Some((cid, addr)) => {
                                let req = self.next_request;
                                self.next_request = self.next_request + 1;
                                let bc = blk.clone_block();
                                let cmd = FetchCmd {
                                    request: req,
                                    conn: cid,
                                    peer: addr,
                                    slice: s.index,
                                    hash: bc.hash,
                                    path: bc.path,
                                    offset: blk.offset,
                                };
                                let ghost cmd_snap = cmd;
                                let ghost full_before = rest.insert(si as int, s_before);
                                let ghost futs_before = self.futures@;
                                let ghost fetches_before = fetches@;
                                proof {
                                    lemma_fb_bounds(futs_before, s_before.index);
                                    assert(full_before[si as int] == s_before);
                                    assert(s_before.in_progress as int == fb_count(
                                        futs_before,
                                        s_before.index,
                                    ));
                                }
                                fetches.push(cmd);
                                dw.add_ever_source(cid);
                                self.futures.push_back(
                                    FetchBlock::Fetching {
                                        block: blk,
                                        slice: s.index,
                                        peer: addr,
                                        request: req,
                                    },
                                );
                                s.in_progress = s.in_progress + 1;
                                let ghost s_after = s;
                                proof {
                                    let sii = si as int;
                                    let full_after = rest.insert(sii, s_after);
                                    assert(full_after =~= full_before.update(sii, s_after));
                                    let newitem = FetchBlock::Fetching {
                                        block: blk,
                                        slice: s_before.index,
                                        peer: addr,
                                        request: req,
                                    };
                                    assert(self.futures@ == futs_before.push(newitem));
                                    assert(fetches@ == fetches_before.push(cmd_snap));
                                    assert forall|idx: u8| true implies fb_count(
                                        self.futures@,
                                        idx,
                                    ) == fb_count(futs_before, idx) + fb_one(newitem, idx) by {
                                        lemma_fb_push(futs_before, newitem, idx);
                                    }
                                    // command counts: +1 for this slice, unchanged elsewhere
                                    lemma_cmd_count_push(
                                        fetches_before,
                                        cmd_snap,
                                        base[sii].index,
                                    );
                                    assert forall|j: int|
                                        0 <= j < base.len() && j != sii implies cmd_count(
                                        fetches@,
                                        (#[trigger] base[j]).index,
                                    ) == cmd_count(f0, base[j].index) by {
                                        lemma_cmd_count_push(
                                            fetches_before,
                                            cmd_snap,
                                            base[j].index,
                                        );
                                        assert(full_before[j].index == base[j].index) by {
                                            if j < sii {
                                                assert(full_before[j] == rest[j]);
                                                assert(rest[j] == cur0[j]);
                                            } else {
                                                assert(full_before[j] == rest[j - 1]);
                                                assert(rest[j - 1] == cur0[j]);
                                            }
                                        }
                                        assert(full_before[sii].index == base[sii].index);
                                        assert(distinct_indices(full_before));
                                        assert(base[j].index != base[sii].index);
                                    }
                                    // FIFO correspondence of all commands
                                    assert forall|k: int|
                                        0 <= k < fetches@.len() implies cmd_takes_block(
                                        base,
                                        fetches@,
                                        k,
                                    ) by {
                                        if k < fetches_before.len() {
                                            assert(fetches@[k] == fetches_before[k]);
                                            assert(fetches@.take(k) =~= fetches_before.take(k));
                                            assert(cmd_takes_block(base, fetches_before, k));
                                            let i = choose|i: int|
                                                0 <= i < base.len() && (#[trigger] base[i]).index
                                                    == fetches_before[k].slice && {
                                                    let m = cmd_count(
                                                        fetches_before.take(k),
                                                        fetches_before[k].slice,
                                                    );
                                                    &&& 0 <= m < base[i].blocks@.len()
                                                    &&& fetches_before[k].hash@
                                                        == base[i].blocks@[m].hash@
                                                    &&& fetches_before[k].path@
                                                        == base[i].blocks@[m].path@
                                                    &&& fetches_before[k].offset
                                                        == base[i].blocks@[m].offset
                                                };
                                            assert(base[i].index == fetches@[k].slice && {
                                                let m = cmd_count(
                                                    fetches@.take(k),
                                                    fetches@[k].slice,
                                                );
                                                &&& 0 <= m < base[i].blocks@.len()
                                                &&& fetches@[k].hash@ == base[i].blocks@[m].hash@
                                                &&& fetches@[k].path@ == base[i].blocks@[m].path@
                                                &&& fetches@[k].offset == base[i].blocks@[m].offset
                                            });
                                        } else {
                                            assert(fetches@[k] == cmd_snap);
                                            assert(fetches@.take(k) =~= fetches_before);
                                            assert(cmd_count(fetches@.take(k), cmd_snap.slice)
                                                == m_cur);
                                            assert(base[sii].index == cmd_snap.slice && {
                                                let m = cmd_count(
                                                    fetches@.take(k),
                                                    fetches@[k].slice,
                                                );
                                                &&& 0 <= m < base[sii].blocks@.len()
                                                &&& fetches@[k].hash@
                                                    == base[sii].blocks@[m].hash@
                                                &&& fetches@[k].path@
                                                    == base[sii].blocks@[m].path@
                                                &&& fetches@[k].offset
                                                    == base[sii].blocks@[m].offset
                                            });
                                        }
                                    }
                                    assert forall|j: int|
                                        0 <= j < full_after.len() implies (
                                    #[trigger] full_after[j]).in_progress as int == fb_count(
                                        self.futures@,
                                        full_after[j].index,
                                    ) by {
                                        if j == sii {
                                            assert(full_before[sii] == s_before);
                                            assert(fb_one(newitem, s_after.index) == 1);
                                        } else {
                                            assert(full_after[j] == full_before[j]);
                                            assert(full_after[j].index != s_before.index) by {
                                                assert(full_before[sii].index == s_before.index);
                                                assert(distinct_indices(full_before));
                                            }
                                            assert(fb_one(newitem, full_after[j].index) == 0);
                                        }
                                    }
                                    assert forall|k: int|
                                        0 <= k < self.futures@.len() implies item_has_slice(
                                        full_after,
                                        #[trigger] self.futures@[k],
                                    ) by {
                                        if k < futs_before.len() {
                                            assert(self.futures@[k] == futs_before[k]);
                                            assert(item_has_slice(full_before, futs_before[k]));
                                            let sl = item_slice(futs_before[k]);
                                            let m = choose|m: int|
                                                0 <= m < full_before.len() && (
                                                #[trigger] full_before[m]).index == sl;
                                            assert(full_after[m].index == sl);
                                            assert(has_slice(full_after, sl));
                                        } else {
                                            assert(self.futures@[k] == newitem);
                                            assert(full_after[sii].index == s_after.index);
                                            assert(has_slice(full_after, s_after.index));
                                        }
                                    }
                                    lemma_sum_ip_update(full_before, sii, s_after);
                                    lemma_sum_ip_pointwise(
                                        full_before.update(sii, s_after),
                                        full_after,
                                    );
                                    assert(distinct_indices(full_after)) by {
                                        assert forall|a: int, b: int|
                                            0 <= a < b < full_after.len() implies full_after[a].index
                                            != full_after[b].index by {
                                            assert(full_after[a].index == full_before[a].index);
                                            assert(full_after[b].index == full_before[b].index);
                                        }
                                    }
                                    assert(cmd_ok(*reg, dw.image_id@, base, cmd_snap)) by {
                                        assert(base[sii].index == cmd_snap.slice
                                            && !base[sii].failures@.contains(cmd_snap.peer));
                                    }
                                    assert forall|k: int|
                                        0 <= k < fetches@.len() implies cmd_ok(
                                        *reg,
                                        dw.image_id@,
                                        base,
                                        #[trigger] fetches@[k],
                                    ) by {
                                        if k < fetches@.len() - 1 {
                                        } else {
                                            assert(fetches@[k] == cmd_snap);
                                        }
                                    }
                                    // the new deque is the next suffix
                                    assert(s.blocks@ == base[sii].blocks@.skip(m_cur + 1)) by {
                                        assert(s.blocks@ =~= base[sii].blocks@.skip(m_cur).skip(
                                            1,
                                        ));
                                        assert(base[sii].blocks@.skip(m_cur).skip(1)
                                            =~= base[sii].blocks@.skip(m_cur + 1));
                                    }
                                }
                                if self.futures.len() > CONCURRENCY {
                                    overflow = true;
                                    break ;
                                }
                            },
                        }
                    },
                    None => {
                        proof {
                            assert(false);
                        }
                    },
                }
            }
            let ghost s_final = s;
            let ghost fetches_at_exit = fetches@;
            dw.slices.insert(si, s);
            proof {
                assert(dw.slices@ == rest.insert(si as int, s_final));
                assert forall|j: int|
                    0 <= j < base.len() implies (#[trigger] dw.slices@[j]).index == base[j].index
                        && dw.slices@[j].failures@ == base[j].failures@ by {
                    if j == si as int {
                        assert(dw.slices@[j] == s_final);
                    } else if j < si as int {
                        assert(dw.slices@[j] == rest[j]);
                        assert(rest[j] == cur0[j]);
                    } else {
                        assert(dw.slices@[j] == rest[j - 1]);
                        assert(rest[j - 1] == cur0[j]);
                    }
                }
                assert forall|j: int| 0 <= j < base.len() implies {
                    let k = cmd_count(fetches@, (#[trigger] base[j]).index);
                    &&& 0 <= k <= base[j].blocks@.len()
                    &&& dw.slices@[j].blocks@ == base[j].blocks@.skip(k)
                    &&& dw.slices@[j].in_progress as int == base[j].in_progress + k
                } by {
                    if j == si as int {
                        assert(dw.slices@[j] == s_final);
                    } else {
                        assert(dw.slices@[j] == cur0[j]);
                        assert(cmd_count(fetches@, base[j].index) == cmd_count(
                            f0,
                            base[j].index,
                        ));
                    }
                }
                assert forall|j: int|
                    si as int + 1 <= j < base.len() implies cmd_count(
                    fetches@,
                    (#[trigger] base[j]).index,
                ) == 0 by {
                    assert(cmd_count(fetches@, base[j].index) == cmd_count(f0, base[j].index));
                }
                if fetches@.len() == 0 {
                    assert(f0.len() == 0);
                    assert forall|j: int|
                        0 <= j < si as int + 1 implies !slice_schedulable(
                        *reg,
                        dw.image_id@,
                        #[trigger] base[j],
                    ) by {
                        if j == si as int {
                            assert(s_final.blocks@.len() == 0 || (forall|c: int|
                                0 <= c < reg.conns@.len() && (
                                #[trigger] reg.conns@[c]).advertises(dw.image_id@)
                                    ==> s_final.failures@.contains(reg.conns@[c].addr)));
                            assert(s_final.blocks@ == base[j].blocks@.skip(0));
                            assert(base[j].blocks@.skip(0) =~= base[j].blocks@);
                        }
                    }
                }
                assert(engine_inv(*self, *dw));
            }
            si = si + 1;
        }
        proof {
            assert forall|k: int| 0 <= k < fetches@.len() implies cmd_ok(
                *reg,
                old(dw).image_id@,
                dw.slices@,
                #[trigger] fetches@[k],
            ) by {
                let c = fetches@[k];
                let i = choose|i: int|
                    0 <= i < base.len() && (#[trigger] base[i]).index == c.slice
                        && !base[i].failures@.contains(c.peer);
                assert(dw.slices@[i].index == c.slice && !dw.slices@[i].failures@.contains(
                    c.peer,
                ));
            }
            if fetches@.len() > 0 {
                // a scheduled command witnesses a serveable slice
                assert(cmd_takes_block(base, fetches@, 0));
                assert(cmd_ok(*reg, dw.image_id@, base, fetches@[0]));
                let i = choose|i: int|
                    0 <= i < base.len() && (#[trigger] base[i]).index == fetches@[0].slice && {
                        let m = cmd_count(fetches@.take(0), fetches@[0].slice);
                        &&& 0 <= m < base[i].blocks@.len()
                        &&& fetches@[0].hash@ == base[i].blocks@[m].hash@
                        &&& fetches@[0].path@ == base[i].blocks@[m].path@
                        &&& fetches@[0].offset == base[i].blocks@[m].offset
                    };
                let i2 = choose|i2: int|
                    0 <= i2 < base.len() && (#[trigger] base[i2]).index == fetches@[0].slice
                        && !base[i2].failures@.contains(fetches@[0].peer);
                assert(i == i2) by {
                    if i != i2 {
                        assert(distinct_indices(base));
                    }
                }
                let cq = choose|cq: int|
                    0 <= cq < reg.conns@.len() && (#[trigger] reg.conns@[cq]).id == fetches@[0].conn
                        && reg.conns@[cq].addr == fetches@[0].peer && reg.conns@[cq].advertises(
                        dw.image_id@,
                    );
                assert(slice_schedulable(*reg, dw.image_id@, base[i]));
                assert(schedulable(*reg, dw.image_id@, base));
            } else {
                assert(!overflow);
                if schedulable(*reg, dw.image_id@, base) {
                    let i = choose|i: int|
                        0 <= i < base.len() && slice_schedulable(
                            *reg,
                            dw.image_id@,
                            #[trigger] base[i],
                        );
                    assert(!slice_schedulable(*reg, dw.image_id@, base[i]));
                    assert(false);
                }
            }
        }
        if fetches.len() > 0 {
            return PassOutput { fetches, completed, result: PassResult::Scheduled };
        }
        // step 8: nothing could be scheduled
        if self.futures.len() == 0 {
            dw.notify_stalled();
            if now_ms >= RETRY_CLUSTER_FAILURE_MS && self.last_okay <= now_ms
                - RETRY_CLUSTER_FAILURE_MS {
                let stalled = reg.check_stalled(&dw.image_id, &dw.ever_sources);
                if stalled {
                    return PassOutput {
                        fetches,
                        completed,
                        result: PassResult::Failed(FailReason::ClusterStalled),
                    };
                }
            }
            self.retry_armed = true;
            return PassOutput { fetches, completed, result: PassResult::NotReady };
        }
        PassOutput { fetches, completed, result: PassResult::NotReady }
    }
}

/// With no commands, the frame of a pass is trivial: every deque keeps
/// all its blocks.
pub proof fn lemma_noop_frame(base: Seq<SliceState>)
    ensures
        forall|j: int|
            0 <= j < base.len() ==> (cmd_count(
                Seq::<FetchCmd>::empty(),
                (#[trigger] base[j]).index,
            ) == 0 && base[j].blocks@.skip(0) == base[j].blocks@),
{
    assert forall|j: int| 0 <= j < base.len() implies (cmd_count(
        Seq::<FetchCmd>::empty(),
        (#[trigger] base[j]).index,
    ) == 0 && base[j].blocks@.skip(0) == base[j].blocks@) by {
        assert(base[j].blocks@.skip(0) =~= base[j].blocks@);
    }
}


/// Peer-failure isolation: a sound fetch command never names a peer in
/// its slice's recent-failure set — so a peer that failed a slice is not
/// picked again for it until a success clears the record.
pub proof fn lemma_peer_failure_isolation(
    dw: Downloading,
    reg: crate::registry::Registry,
    img: Seq<u8>,
    cmd: FetchCmd,
    i: int,
)
    requires
        dw.wf(),
        0 <= i < dw.slices@.len(),
        cmd_ok(reg, img, dw.slices@, cmd),
        dw.slices@[i].index == cmd.slice,
    ensures
        !dw.slices@[i].failures@.contains(cmd.peer),
{
    let j = choose|j: int|
        0 <= j < dw.slices@.len() && (#[trigger] dw.slices@[j]).index == cmd.slice
            && !dw.slices@[j].failures@.contains(cmd.peer);
    assert(j == i) by {
        if j != i {
            assert(distinct_indices(dw.slices@));
        }
    }
}

/// No over-provisioning: under the engine's accounting invariant, the
/// total of the slices' in-flight counters never exceeds `CONCURRENCY`
/// plus the scheduler's one-over allowance, and neither does the number
/// of in-flight work items.
pub proof fn lemma_no_over_provisioning(eng: FetchBlocks, dw: Downloading)
    requires
        engine_inv(eng, dw),
    ensures
        sum_in_progress(dw.slices@) <= CONCURRENCY + 1,
        eng.futures@.len() <= CONCURRENCY + 1,
{
    lemma_fb_bounds(eng.futures@, 0);
}

/// The front item turns into another item of the same slice (a verified
/// fetch becoming a pending write): the accounting is untouched.
pub proof fn lemma_inv_after_convert(orig: Seq<FetchBlock>, w: FetchBlock, ss: Seq<SliceState>)
    requires
        orig.len() > 0,
        item_slice(w) == item_slice(orig[0]),
        inv_core(orig, ss),
    ensures
        inv_core(orig.skip(1).push(w), ss),
        orig.skip(1).push(w).len() == orig.len(),
{
    let newf = orig.skip(1).push(w);
    assert forall|idx: u8| true implies fb_count(newf, idx) == fb_count(orig, idx) by {
        lemma_fb_count_first(orig, idx);
        lemma_fb_push(orig.skip(1), w, idx);
        assert(fb_one(w, idx) == fb_one(orig[0], idx));
    }
    assert forall|k: int| 0 <= k < newf.len() implies item_has_slice(ss, #[trigger] newf[k]) by {
        if k < orig.len() - 1 {
            assert(newf[k] == orig[k + 1]);
        } else {
            assert(newf[k] == w);
            assert(item_has_slice(ss, orig[0]));
        }
    }
}

/// Restores the accounting invariant after the front item (for slice
/// `sl`) leaves the in-flight set and the matching slice's counter drops
/// by one: a failed fetch or a completed write.
pub proof fn lemma_inv_after_drop(
    orig: Seq<FetchBlock>,
    dwo: Downloading,
    dwn: Downloading,
    sl: u8,
    i: int,
)
    requires
        orig.len() > 0,
        item_slice(orig[0]) == sl,
        dwo.wf(),
        inv_core(orig, dwo.slices@),
        dwn.wf(),
        0 <= i < dwo.slices@.len(),
        dwo.slices@[i].index == sl,
        dwn.slices@.len() == dwo.slices@.len(),
        forall|j: int|
            0 <= j < dwo.slices@.len() ==> (#[trigger] dwn.slices@[j]).index
                == dwo.slices@[j].index,
        forall|j: int|
            0 <= j < dwo.slices@.len() ==> (#[trigger] dwn.slices@[j]).in_progress as int == (if j
                == i {
                dwo.slices@[j].in_progress - 1
            } else {
                dwo.slices@[j].in_progress as int
            }),
    ensures
        inv_core(orig.skip(1), dwn.slices@),
        orig.skip(1).len() == orig.len() - 1,
{
    let newf = orig.skip(1);
    assert forall|idx: u8| true implies fb_count(newf, idx) == fb_count(orig, idx) - fb_one(
        orig[0],
        idx,
    ) by {
        lemma_fb_count_first(orig, idx);
    }
    assert forall|j: int| 0 <= j < dwn.slices@.len() implies (
    #[trigger] dwn.slices@[j]).in_progress as int == fb_count(newf, dwn.slices@[j].index) by {
        let idx = dwn.slices@[j].index;
        if j == i {
            assert(idx == sl);
            assert(fb_one(orig[0], idx) == 1);
        } else {
            assert(dwo.slices@[j].index == idx);
            assert(idx != sl) by {
                assert(dwo.slices@[i].index == sl);
            }
            assert(fb_one(orig[0], idx) == 0);
        }
    }
    assert forall|k: int| 0 <= k < newf.len() implies item_has_slice(
        dwn.slices@,
        #[trigger] newf[k],
    ) by {
        assert(newf[k] == orig[k + 1]);
        assert(item_has_slice(dwo.slices@, orig[k + 1]));
        let sk = item_slice(orig[k + 1]);
        let m = choose|m: int| 0 <= m < dwo.slices@.len() && (#[trigger] dwo.slices@[m]).index == sk;
        assert(dwn.slices@[m].index == sk);
        assert(has_slice(dwn.slices@, sk));
    }
    let ghost mid = dwo.slices@.update(i, dwn.slices@[i]);
    lemma_sum_ip_update(dwo.slices@, i, dwn.slices@[i]);
    lemma_sum_ip_pointwise(mid, dwn.slices@);
}

} // verus!
