//! Peer protocol data: the base-directory query and advertisement
//! records, the placement semantics behind append and replace requests,
//! and the dispatch decision for an incoming frame.

use vstd::prelude::*;
use crate::types::{Hash256, VPath, MachineId};
use crate::registry::Registry;

verus! {

/// The recorded state of one committed directory: which image it holds
/// and the placement timestamp (milliseconds).
pub struct DirState {
    pub image: Hash256,
    pub timestamp_ms: u64,
}

/// Request for the contents of a base directory.
pub struct GetBaseDir {
    pub path: VPath,
}

impl GetBaseDir {
    pub fn wire_name(&self) -> (r: &'static str)
        ensures
            r@ == "GetBaseDir"@,
    {
        "GetBaseDir"
    }
}

/// Answer to [`GetBaseDir`]: the hashes of the directory's configuration
/// and keep list, and the named sub-directories with their states, in
/// order.
pub struct GetBaseDirResponse {
    pub config_hash: Hash256,
    pub keep_list_hash: Hash256,
    pub dirs: Vec<(Vec<u8>, DirState)>,
}

impl GetBaseDirResponse {
    pub fn wire_name(&self) -> (r: &'static str)
        ensures
            r@ == "GetBaseDir"@,
    {
        "GetBaseDir"
    }
}

/// Periodic unsolicited advertisement of a base directory's contents.
pub struct BaseDirState {
    pub path: VPath,
    pub config_hash: Hash256,
    pub keep_list_hash: Hash256,
    pub dirs: Vec<(Vec<u8>, DirState)>,
}

/// The named versions under one base directory.
pub struct BaseDir {
    pub dirs: Vec<(Vec<u8>, DirState)>,
}

/// The name is present.
pub open spec fn has_name(dirs: Seq<(Seq<u8>, DirState)>, name: Seq<u8>) -> bool {
    exists|i: int| 0 <= i < dirs.len() && (#[trigger] dirs[i]).0 == name
}

impl BaseDir {
    pub open spec fn names(&self) -> Seq<(Seq<u8>, DirState)> {
        self.dirs@.map_values(|p: (Vec<u8>, DirState)| (p.0@, p.1))
    }

    /// Version names are pairwise distinct.
    pub open spec fn wf(&self) -> bool {
        forall|i: int, j: int|
            0 <= i < j < self.dirs@.len() ==> self.dirs@[i].0@ != self.dirs@[j].0@
    }

    pub fn new() -> (r: BaseDir)
        ensures
            r.dirs@.len() == 0,
    {
        BaseDir { dirs: Vec::new() }
    }

    fn find_name(&self, name: &Vec<u8>) -> (r: Option<usize>)
        ensures
            (match r {
                Some(i) => i < self.dirs@.len() && self.dirs@[i as int].0@ == name@,
                None => !has_name(self.names(), name@),
            }),
    {
        let mut i: usize = 0;
        while i < self.dirs.len()
            invariant
                i <= self.dirs@.len(),
                forall|j: int| 0 <= j < i ==> (#[trigger] self.dirs@[j]).0@ != name@,
            decreases self.dirs@.len() - i,
        {
            if crate::types::bytes_eq(&self.dirs[i].0, name) {
                return Some(i);
            }
            i = i + 1;
        }
        proof {
            if has_name(self.names(), name@) {
                let j = choose|j: int|
                    0 <= j < self.names().len() && (#[trigger] self.names()[j]).0 == name@;
                assert(self.dirs@[j].0@ == name@);
                assert(false);
            }
        }
        None
    }

    /// An append placement: the dated name is added beside the existing
    /// versions.  A name already present is accepted only when it holds
    /// the same image; it is never overwritten.
    pub fn append_dir(&mut self, name: Vec<u8>, st: DirState) -> (accepted: bool)
        requires
            old(self).wf(),
        ensures
            final(self).wf(),
            accepted ==> has_name(final(self).names(), name@),
            // existing versions never change
            forall|j: int|
                0 <= j < old(self).dirs@.len() ==> final(self).dirs@[j] == old(self).dirs@[j],
            // a fresh name is always accepted, by insertion at the end
            !has_name(old(self).names(), name@) ==> (accepted && final(self).dirs@.len() == old(self).dirs@.len() + 1 && final(self).dirs@.last().0@ == name@ && final(self).dirs@.last().1.image@ == st.image@ && final(self).dirs@.last().1.timestamp_ms == st.timestamp_ms),
            // a present name is accepted exactly when it holds the same image
            (has_name(old(self).names(), name@) ==> (*final(self) == *old(self) && (accepted
                <==> exists|j: int|
                0 <= j < old(self).dirs@.len() && (#[trigger] old(self).dirs@[j]).0@ == name@
                    && old(self).dirs@[j].1.image@ == st.image@))),
    {
        let pos = self.find_name(&name);
        match pos {
            Some(i) => {
                let same = self.dirs[i].1.image.same(&st.image);
                proof {
                    assert(has_name(self.names(), name@)) by {
                        assert(self.names()[i as int].0 == name@);
                    }
                    if same {
                        assert((#[trigger] self.dirs@[i as int]).0@ == name@
                            && self.dirs@[i as int].1.image@ == st.image@);
                    } else {
                        assert forall|j: int|
                            0 <= j < self.dirs@.len() && (#[trigger] self.dirs@[j]).0@ == name@
                                implies self.dirs@[j].1.image@ != st.image@ by {
                            assert(j == i as int);
                        }
                    }
                }
                same
            },
            None => {
                let ghost nm = name@;
                let ghost before = self.dirs@;
                self.dirs.push((name, st));
                proof {
                    let n = final(self).names().len() - 1;
                    assert(final(self).names()[n].0 == final(self).dirs@.last().0@);
                    assert(has_name(final(self).names(), final(self).dirs@.last().0@));
                    assert forall|a: int, b: int|
                        0 <= a < b < self.dirs@.len() implies self.dirs@[a].0@
                        != self.dirs@[b].0@ by {
                        if b == self.dirs@.len() - 1 {
                            assert(self.dirs@[a] == before[a]);
                            assert(old(self).names()[a].0 == before[a].0@);
                            assert(before[a].0@ != nm);
                        } else {
                            assert(self.dirs@[a] == before[a]);
                            assert(self.dirs@[b] == before[b]);
                        }
                    }
                }
                true
            },
        }
    }

    /// A replace placement: the current version under the name is
    /// swapped for the incoming one exactly when the incoming timestamp
    /// is strictly newer; an older or equal timestamp is rejected.  A
    /// fresh name is accepted outright.
    pub fn replace_dir(&mut self, name: Vec<u8>, st: DirState) -> (accepted: bool)
        requires
            old(self).wf(),
        ensures
            final(self).wf(),
            final(self).dirs@.len() >= old(self).dirs@.len(),
            !has_name(old(self).names(), name@) ==> (accepted && final(self).dirs@.len() == old(self).dirs@.len() + 1 && final(self).dirs@.last().0@ == name@ && final(self).dirs@.last().1.image@ == st.image@ && final(self).dirs@.last().1.timestamp_ms == st.timestamp_ms),
            has_name(old(self).names(), name@) ==> (exists|i: int|
                {
                    &&& 0 <= i < old(self).dirs@.len()
                    &&& (#[trigger] old(self).dirs@[i]).0@ == name@
                    &&& (accepted <==> st.timestamp_ms > old(self).dirs@[i].1.timestamp_ms)
                    &&& (accepted ==> final(self).dirs@.len() == old(self).dirs@.len() && final(self).dirs@[i].0@ == name@ && final(self).dirs@[i].1.image@ == st.image@ && final(self).dirs@[i].1.timestamp_ms == st.timestamp_ms && (forall|j: int|
                        0 <= j < old(self).dirs@.len() && j != i ==> final(self).dirs@[j] == old(self).dirs@[j]))
                    &&& (!accepted ==> *final(self) == *old(self))
                }),
    {
        let pos = self.find_name(&name);
        match pos {
            Some(i) => {
                proof {
                    assert((#[trigger] self.dirs@[i as int]).0@ == name@);
                    assert(has_name(self.names(), name@)) by {
                        assert(self.names()[i as int].0 == name@);
                    }
                }
                if st.timestamp_ms > self.dirs[i].1.timestamp_ms {
                    let ghost before = self.dirs@;
                    let old_entry = self.dirs.remove(i);
                    self.dirs.insert(i, (old_entry.0, st));
                    proof {
                        assert(self.dirs@ =~= before.update(
                            i as int,
                            (before[i as int].0, st),
                        ));
                        assert forall|a: int, b: int|
                            0 <= a < b < self.dirs@.len() implies self.dirs@[a].0@
                            != self.dirs@[b].0@ by {
                            assert(self.dirs@[a].0@ == before[a].0@);
                            assert(self.dirs@[b].0@ == before[b].0@);
                        }
                    }
                    true
                } else {
                    false
                }
            },
            None => {
                let ghost nm = name@;
                let ghost before = self.dirs@;
                self.dirs.push((name, st));
                proof {
                    assert forall|a: int, b: int|
                        0 <= a < b < self.dirs@.len() implies self.dirs@[a].0@
                        != self.dirs@[b].0@ by {
                        if b == self.dirs@.len() - 1 {
                            assert(self.dirs@[a] == before[a]);
                            assert(old(self).names()[a].0 == before[a].0@);
                            assert(before[a].0@ != nm);
                        } else {
                            assert(self.dirs@[a] == before[a]);
                            assert(self.dirs@[b] == before[b]);
                        }
                    }
                }
                true
            },
        }
    }
}

/// A decoded incoming frame, reduced to the values the dispatch decision
/// needs.
pub enum Message {
    RequestAppendDir { request_id: u64, image: Hash256, timestamp_ms: u64, path: VPath },
    RequestReplaceDir {
        request_id: u64,
        image: Hash256,
        old_image: Option<Hash256>,
        timestamp_ms: u64,
        path: VPath,
    },
    RequestGetIndex { request_id: u64, image: Hash256 },
    RequestGetBlock { request_id: u64, hash: Hash256 },
    NotifyPublishIndex { image: Hash256 },
}

/// What the surrounding program must do with a dispatched frame.
#[derive(Clone, Copy, PartialEq, Eq, Debug, Structural)]
pub enum FrameAction {
    /// Run the placement against the metadata store and answer the
    /// request.
    ProcessPlacement { request_id: u64 },
    /// Serve the index blob for the requested image.
    ServeGetIndex { request_id: u64 },
    /// Serve the requested block.
    ServeGetBlock { request_id: u64 },
    /// Nothing to send back.
    NoReply,
}

/// Dispatch one decoded frame: a publish-index notification records the
/// advertisement on the sender's connection; requests are handed back as
/// actions for the surrounding program to serve.
pub fn dispatch_frame(reg: &mut Registry, conn_id: u64, msg: Message) -> (r: FrameAction)
    requires
        old(reg).wf(),
    ensures
        final(reg).wf(),
        (match msg {
            Message::NotifyPublishIndex { image } => {
                &&& r == FrameAction::NoReply
                &&& ((exists|i: int|
                    0 <= i < old(reg).conns@.len() && (#[trigger] old(reg).conns@[i]).id
                        == conn_id) ==> final(reg).plausible_source(conn_id, image@))
            },
            Message::RequestAppendDir { request_id, .. } => r == (FrameAction::ProcessPlacement {
                request_id,
            }) && *final(reg) == *old(reg),
            Message::RequestReplaceDir { request_id, .. } => r == (FrameAction::ProcessPlacement {
                request_id,
            }) && *final(reg) == *old(reg),
            Message::RequestGetIndex { request_id, .. } => r == (FrameAction::ServeGetIndex {
                request_id,
            }) && *final(reg) == *old(reg),
            Message::RequestGetBlock { request_id, .. } => r == (FrameAction::ServeGetBlock {
                request_id,
            }) && *final(reg) == *old(reg),
        }),
{
    match msg {
        Message::NotifyPublishIndex { image } => {
            let _ = reg.publish_image(conn_id, image);
            FrameAction::NoReply
        },
        Message::RequestAppendDir { request_id, .. } => FrameAction::ProcessPlacement {
            request_id,
        },
        Message::RequestReplaceDir { request_id, .. } => FrameAction::ProcessPlacement {
            request_id,
        },
        Message::RequestGetIndex { request_id, .. } => FrameAction::ServeGetIndex { request_id },
        Message::RequestGetBlock { request_id, .. } => FrameAction::ServeGetBlock { request_id },
    }
}

/// The machine identifier and hostname pairs a placement answer carries.
pub struct PlacementAnswer {
    pub accepted: bool,
    pub hosts: Vec<(MachineId, Vec<u8>)>,
}

} // verus!
