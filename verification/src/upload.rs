//! The client-side upload tracker: per cluster entry-point it keeps the
//! addresses still expected to confirm, the machines that confirmed, the
//! extra recipients the servers announced, and the addresses that
//! failed; it aggregates everything into a one-shot completion signal
//! and an overall exit code.

use vstd::prelude::*;
use crate::types::{MachineId, PeerAddr};

verus! {

/// Progress of one upload against one cluster entry-point.
pub struct Progress {
    /// When the upload started (milliseconds).
    pub started_ms: u64,
    /// Machines that confirmed durable receipt, with their hostnames.
    pub hosts_done: Vec<(MachineId, Vec<u8>)>,
    /// Addresses whose confirmation is still required.
    pub ips_needed: Vec<PeerAddr>,
    /// Additional recipients the contacted servers announced.
    pub ids_needed: Vec<(MachineId, Vec<u8>)>,
    /// Addresses that failed or closed before confirming.
    pub hosts_errored: Vec<PeerAddr>,
    /// Whether the one-shot completion signal has fired.
    pub done_fired: bool,
}

/// A peer-address list is empty exactly when its set of elements is.
pub proof fn lemma_addrs_empty(s: Seq<PeerAddr>)
    ensures
        (s.to_set() == Set::<PeerAddr>::empty()) == (s.len() == 0),
{
    if s.len() == 0 {
        assert(s.to_set() =~= Set::<PeerAddr>::empty());
    } else {
        assert(s.contains(s[0])) by {
            assert(s[0] == s[0]);
        }
        assert(s.to_set().contains(s[0]));
    }
}

/// The machine identifiers of an association list, as a set.
pub open spec fn id_keys(v: Seq<(MachineId, Vec<u8>)>) -> Set<MachineId> {
    v.map_values(|p: (MachineId, Vec<u8>)| p.0).to_set()
}

/// Appending an entry adds its key.
pub proof fn lemma_id_keys_push(v: Seq<(MachineId, Vec<u8>)>, p: (MachineId, Vec<u8>))
    ensures
        id_keys(v.push(p)) == id_keys(v).insert(p.0),
{
    let ks = v.map_values(|q: (MachineId, Vec<u8>)| q.0);
    assert(v.push(p).map_values(|q: (MachineId, Vec<u8>)| q.0) =~= ks.push(p.0));
    assert forall|y: MachineId| #[trigger]
        ks.push(p.0).contains(y) <==> (ks.contains(y) || y == p.0) by {
        if ks.push(p.0).contains(y) && y != p.0 {
            let j = choose|j: int| 0 <= j < ks.push(p.0).len() && ks.push(p.0)[j] == y;
            assert(ks[j] == y);
        }
        if ks.contains(y) {
            let j = choose|j: int| 0 <= j < ks.len() && ks[j] == y;
            assert(ks.push(p.0)[j] == y);
        }
        if y == p.0 {
            assert(ks.push(p.0)[ks.len() as int] == y);
        }
    }
    assert(id_keys(v.push(p)) =~= id_keys(v).insert(p.0));
}

/// The announced machines that get recorded: those neither already
/// confirmed (`done`) nor already listed (`have`), first occurrence
/// only, in order.
pub open spec fn added_ids(
    done: Set<MachineId>,
    have: Set<MachineId>,
    hosts: Seq<(MachineId, Vec<u8>)>,
) -> Seq<(MachineId, Vec<u8>)>
    decreases hosts.len(),
{
    if hosts.len() == 0 {
        Seq::<(MachineId, Vec<u8>)>::empty()
    } else if !done.contains(hosts.first().0) && !have.contains(hosts.first().0) {
        seq![hosts.first()] + added_ids(done, have.insert(hosts.first().0), hosts.drop_first())
    } else {
        added_ids(done, have, hosts.drop_first())
    }
}

/// Keys of an association list are pairwise distinct.
pub open spec fn distinct_keys(v: Seq<(MachineId, Vec<u8>)>) -> bool {
    forall|a: int, b: int| 0 <= a < b < v.len() ==> v[a].0 != v[b].0
}

impl Progress {
    /// Both association lists are keyed: machine identifiers are unique.
    pub open spec fn wf(&self) -> bool {
        &&& distinct_keys(self.hosts_done@)
        &&& distinct_keys(self.ids_needed@)
    }

    pub open spec fn done_keys(&self) -> Set<MachineId> {
        id_keys(self.hosts_done@)
    }

    pub open spec fn needed_ips(&self) -> Set<PeerAddr> {
        self.ips_needed@.to_set()
    }

    pub fn new(started_ms: u64) -> (r: Progress)
        ensures
            r.wf(),
            r.started_ms == started_ms,
            r.hosts_done@.len() == 0,
            r.ips_needed@.len() == 0,
            r.ids_needed@.len() == 0,
            r.hosts_errored@.len() == 0,
            !r.done_fired,
    {
        Progress {
            started_ms,
            hosts_done: Vec::new(),
            ips_needed: Vec::new(),
            ids_needed: Vec::new(),
            hosts_errored: Vec::new(),
            done_fired: false,
        }
    }

    /// An upload request is about to be issued to `addr`: its
    /// confirmation is now required.
    pub fn register_target(&mut self, addr: PeerAddr)
        ensures
            final(self).ips_needed@ == old(self).ips_needed@.push(addr),
            final(self).hosts_done@ == old(self).hosts_done@,
            final(self).hosts_errored@ == old(self).hosts_errored@,
            final(self).ids_needed@ == old(self).ids_needed@,
            final(self).done_fired == old(self).done_fired,
            final(self).started_ms == old(self).started_ms,
    {
        self.ips_needed.push(addr);
    }

    /// A peer confirmed durable receipt.  The machine joins `hosts_done`;
    /// unless the confirmation was forwarded from elsewhere, the
    /// delivering address is no longer required.  Returns whether this
    /// call fired the one-shot completion signal — it fires at most once,
    /// exactly when the set of required addresses becomes empty.
    pub fn received_image(
        &mut self,
        addr: PeerAddr,
        machine: MachineId,
        hostname: Vec<u8>,
        forwarded: bool,
    ) -> (fired: bool)
        requires
            old(self).wf(),
        ensures
            final(self).wf(),
            // the one-shot fires at most once, exactly when the set of
            // required addresses becomes empty
            fired ==> !old(self).done_fired,
            fired == (!old(self).done_fired && final(self).needed_ips() == Set::<
                PeerAddr,
            >::empty()),
            final(self).done_fired == (old(self).done_fired || final(self).needed_ips()
                == Set::<PeerAddr>::empty()),
            // the machine is recorded, once
            final(self).hosts_done@ == (if old(self).done_keys().contains(machine) {
                old(self).hosts_done@
            } else {
                old(self).hosts_done@.push((machine, hostname))
            }),
            final(self).done_keys().contains(machine),
            // the delivering address is released unless the confirmation
            // was forwarded from elsewhere
            !forwarded ==> final(self).needed_ips() == old(self).needed_ips().remove(addr),
            forwarded ==> final(self).needed_ips() == old(self).needed_ips(),
            final(self).hosts_errored@ == old(self).hosts_errored@,
            final(self).ids_needed@ == old(self).ids_needed@,
            final(self).started_ms == old(self).started_ms,
    {
        let known = self.machine_done(machine);
        if !known {
            let ghost before = self.hosts_done@;
            self.hosts_done.push((machine, hostname));
            proof {
                lemma_id_keys_push(before, (machine, hostname));
                assert forall|a: int, b: int|
                    0 <= a < b < self.hosts_done@.len() implies self.hosts_done@[a].0
                    != self.hosts_done@[b].0 by {
                    if b == self.hosts_done@.len() - 1 {
                        assert(self.hosts_done@[a] == before[a]);
                        if before[a].0 == machine {
                            let ks = before.map_values(|p: (MachineId, Vec<u8>)| p.0);
                            assert(ks[a] == machine);
                            assert(id_keys(before).contains(machine));
                        }
                    } else {
                        assert(self.hosts_done@[a] == before[a]);
                        assert(self.hosts_done@[b] == before[b]);
                    }
                }
            }
        }
        if !forwarded {
            self.remove_ip(addr);
        }
        proof {
            lemma_addrs_empty(self.ips_needed@);
        }
        let fired = !self.done_fired && self.ips_needed.len() == 0;
        if self.ips_needed.len() == 0 {
            self.done_fired = true;
        }
        fired
    }

    /// Remove every occurrence of `addr` from the required addresses.
    fn remove_ip(&mut self, addr: PeerAddr)
        ensures
            final(self).ips_needed@.to_set() == old(self).ips_needed@.to_set().remove(addr),
            final(self).ips_needed@.len() <= old(self).ips_needed@.len(),
            final(self).hosts_done@ == old(self).hosts_done@,
            final(self).hosts_errored@ == old(self).hosts_errored@,
            final(self).ids_needed@ == old(self).ids_needed@,
            final(self).done_fired == old(self).done_fired,
            final(self).started_ms == old(self).started_ms,
    {
        let mut kept: Vec<PeerAddr> = Vec::new();
        let mut i: usize = 0;
        proof {
            assert(self.ips_needed@.subrange(0, 0).to_set() =~= Set::<PeerAddr>::empty());
            assert(kept@.to_set() =~= Set::<PeerAddr>::empty().remove(addr));
        }
        while i < self.ips_needed.len()
            invariant
                i <= self.ips_needed@.len(),
                self.ips_needed@ == old(self).ips_needed@,
                kept@.len() <= i,
                kept@.to_set() == self.ips_needed@.subrange(0, i as int).to_set().remove(addr),
            decreases self.ips_needed@.len() - i,
        {
            let ghost pre = self.ips_needed@.subrange(0, i as int);
            let p = self.ips_needed[i];
            proof {
                assert(self.ips_needed@.subrange(0, i as int + 1) =~= pre.push(p));
                crate::progress::lemma_to_set_push(pre, p);
            }
            if !(p.ip == addr.ip && p.port == addr.port) {
                let ghost old_kept = kept@;
                kept.push(p);
                proof {
                    crate::progress::lemma_to_set_push(old_kept, p);
                    assert(kept@.to_set() =~= pre.push(p).to_set().remove(addr));
                }
            } else {
                proof {
                    assert(kept@.to_set() =~= pre.push(p).to_set().remove(addr));
                }
            }
            i = i + 1;
        }
        proof {
            assert(self.ips_needed@.subrange(0, self.ips_needed@.len() as int)
                =~= self.ips_needed@);
        }
        self.ips_needed = kept;
    }

    /// A connection closed before completion: its address is no longer
    /// awaited and counts as errored.  Fires the completion signal when
    /// it empties the required set; after the signal has fired, closes
    /// are ignored.
    pub fn connection_closed(&mut self, addr: PeerAddr) -> (fired: bool)
        ensures
            fired ==> !old(self).done_fired,
            old(self).done_fired ==> *final(self) == *old(self),
            !old(self).done_fired ==> {
                &&& fired == (final(self).needed_ips() == Set::<PeerAddr>::empty())
                &&& final(self).done_fired == (final(self).needed_ips() == Set::<
                    PeerAddr,
                >::empty())
                &&& final(self).ips_needed@.to_set() == old(self).ips_needed@.to_set().remove(
                    addr,
                )
                &&& final(self).hosts_errored@ == old(self).hosts_errored@.push(addr)
            },
    {
        if self.done_fired {
            return false;
        }
        self.remove_ip(addr);
        self.hosts_errored.push(addr);
        proof {
            lemma_addrs_empty(self.ips_needed@);
        }
        let fired = self.ips_needed.len() == 0;
        if fired {
            self.done_fired = true;
        }
        fired
    }

    /// A server rejected the upload: its address is no longer awaited.
    pub fn rejected(&mut self, addr: PeerAddr)
        ensures
            final(self).ips_needed@.to_set() == old(self).ips_needed@.to_set().remove(addr),
            final(self).hosts_done@ == old(self).hosts_done@,
            final(self).ids_needed@ == old(self).ids_needed@,
            final(self).hosts_errored@ == old(self).hosts_errored@,
            final(self).done_fired == old(self).done_fired,
    {
        self.remove_ip(addr);
    }

    /// Record the extra recipients a server announced: exactly the
    /// announced machines that have neither confirmed nor been listed
    /// already, first occurrence each, in order.
    pub fn add_ids(&mut self, hosts: Vec<(MachineId, Vec<u8>)>)
        requires
            old(self).wf(),
        ensures
            final(self).wf(),
            final(self).ids_needed@ == old(self).ids_needed@ + added_ids(
                old(self).done_keys(),
                id_keys(old(self).ids_needed@),
                hosts@,
            ),
            final(self).hosts_done@ == old(self).hosts_done@,
            final(self).ips_needed@ == old(self).ips_needed@,
            final(self).hosts_errored@ == old(self).hosts_errored@,
            final(self).done_fired == old(self).done_fired,
            final(self).started_ms == old(self).started_ms,
    {
        let ghost done0 = self.done_keys();
        let mut hosts = hosts;
        let ghost hosts0 = hosts@;
        proof {
            assert(old(self).ids_needed@ + added_ids(
                done0,
                id_keys(old(self).ids_needed@),
                hosts0,
            ) =~= self.ids_needed@ + added_ids(done0, id_keys(self.ids_needed@), hosts@));
        }
        while hosts.len() > 0
            invariant
                old(self).wf(),
                self.wf(),
                self.hosts_done@ == old(self).hosts_done@,
                self.ips_needed@ == old(self).ips_needed@,
                self.hosts_errored@ == old(self).hosts_errored@,
                self.done_fired == old(self).done_fired,
                self.started_ms == old(self).started_ms,
                done0 == self.done_keys(),
                done0 == old(self).done_keys(),
                old(self).ids_needed@ + added_ids(
                    done0,
                    id_keys(old(self).ids_needed@),
                    hosts0,
                ) == self.ids_needed@ + added_ids(done0, id_keys(self.ids_needed@), hosts@),
            decreases hosts@.len(),
        {
            let ghost pre_hosts = hosts@;
            let ghost pre_ids = self.ids_needed@;
            let (id, name) = hosts.remove(0);
            let ghost entry = pre_hosts[0];
            proof {
                assert(entry == (id, name));
                assert(pre_hosts.first() == entry);
                assert(pre_hosts.remove(0) =~= pre_hosts.drop_first());
                assert(hosts@ == pre_hosts.drop_first());
            }
            let in_done = self.machine_done(id);
            let in_ids = self.id_listed(id);
            if !in_done && !in_ids {
                self.ids_needed.push((id, name));
                proof {
                    lemma_id_keys_push(pre_ids, entry);
                    assert(added_ids(done0, id_keys(pre_ids), pre_hosts) == seq![entry]
                        + added_ids(done0, id_keys(pre_ids).insert(id), pre_hosts.drop_first()));
                    assert(id_keys(self.ids_needed@) == id_keys(pre_ids).insert(id));
                    assert(pre_ids + (seq![entry] + added_ids(
                        done0,
                        id_keys(self.ids_needed@),
                        hosts@,
                    )) =~= self.ids_needed@ + added_ids(done0, id_keys(self.ids_needed@), hosts@));
                    assert(added_ids(done0, id_keys(pre_ids).insert(id), pre_hosts.drop_first())
                        == added_ids(done0, id_keys(self.ids_needed@), hosts@));
                    assert(self.ids_needed@ + added_ids(done0, id_keys(self.ids_needed@), hosts@)
                        == pre_ids + added_ids(done0, id_keys(pre_ids), pre_hosts));
                    assert forall|a: int, b: int|
                        0 <= a < b < self.ids_needed@.len() implies self.ids_needed@[a].0
                        != self.ids_needed@[b].0 by {
                        if b == self.ids_needed@.len() - 1 {
                            assert(self.ids_needed@[a] == pre_ids[a]);
                            if pre_ids[a].0 == id {
                                let ks = pre_ids.map_values(|p: (MachineId, Vec<u8>)| p.0);
                                assert(ks[a] == id);
                                assert(id_keys(pre_ids).contains(id));
                            }
                        } else {
                            assert(self.ids_needed@[a] == pre_ids[a]);
                            assert(self.ids_needed@[b] == pre_ids[b]);
                        }
                    }
                }
            } else {
                proof {
                    assert(done0.contains(entry.0) || id_keys(pre_ids).contains(entry.0));
                    assert(added_ids(done0, id_keys(pre_ids), pre_hosts) == added_ids(
                        done0,
                        id_keys(pre_ids),
                        pre_hosts.drop_first(),
                    ));
                    assert(self.ids_needed@ + added_ids(done0, id_keys(self.ids_needed@), hosts@)
                        == pre_ids + added_ids(done0, id_keys(pre_ids), pre_hosts));
                }
            }
        }
        proof {
            assert(added_ids(done0, id_keys(self.ids_needed@), hosts@) =~= Seq::<
                (MachineId, Vec<u8>),
            >::empty());
            assert(self.ids_needed@ + Seq::<(MachineId, Vec<u8>)>::empty() =~= self.ids_needed@);
        }
    }

    /// Is `machine` already among the announced extra recipients?
    fn id_listed(&self, machine: MachineId) -> (r: bool)
        ensures
            r == id_keys(self.ids_needed@).contains(machine),
    {
        let ghost ks = self.ids_needed@.map_values(|p: (MachineId, Vec<u8>)| p.0);
        let mut i: usize = 0;
        while i < self.ids_needed.len()
            invariant
                i <= self.ids_needed@.len(),
                ks == self.ids_needed@.map_values(|p: (MachineId, Vec<u8>)| p.0),
                forall|j: int| 0 <= j < i ==> self.ids_needed@[j].0 != machine,
            decreases self.ids_needed@.len() - i,
        {
            if self.ids_needed[i].0 == machine {
                proof {
                    assert(ks[i as int] == machine);
                    assert(ks.contains(machine));
                }
                return true;
            }
            i = i + 1;
        }
        proof {
            if ks.contains(machine) {
                let j = choose|j: int| 0 <= j < ks.len() && ks[j] == machine;
                assert(self.ids_needed@[j].0 == machine);
                assert(false);
            }
        }
        false
    }

    /// Has `machine` already confirmed receipt?
    fn machine_done(&self, machine: MachineId) -> (r: bool)
        ensures
            r == self.done_keys().contains(machine),
    {
        let ghost ks = self.hosts_done@.map_values(|p: (MachineId, Vec<u8>)| p.0);
        let mut i: usize = 0;
        while i < self.hosts_done.len()
            invariant
                i <= self.hosts_done@.len(),
                ks == self.hosts_done@.map_values(|p: (MachineId, Vec<u8>)| p.0),
                forall|j: int| 0 <= j < i ==> self.hosts_done@[j].0 != machine,
            decreases self.hosts_done@.len() - i,
        {
            if self.hosts_done[i].0 == machine {
                proof {
                    assert(ks[i as int] == machine);
                    assert(ks.contains(machine));
                }
                return true;
            }
            i = i + 1;
        }
        proof {
            if ks.contains(machine) {
                let j = choose|j: int| 0 <= j < ks.len() && ks[j] == machine;
                assert(self.hosts_done@[j].0 == machine);
                assert(false);
            }
        }
        false
    }

    /// The upload saw no errored host.
    pub fn is_ok(&self) -> (r: bool)
        ensures
            r == (self.hosts_errored@.len() == 0),
    {
        self.hosts_errored.len() == 0
    }
}

/// One cluster succeeded when at least one of its addresses did.
pub fn cluster_ok(address_results: &Vec<bool>) -> (r: bool)
    ensures
        r == exists|i: int| 0 <= i < address_results@.len() && address_results@[i],
{
    let mut i: usize = 0;
    while i < address_results.len()
        invariant
            i <= address_results@.len(),
            forall|j: int| 0 <= j < i ==> !address_results@[j],
        decreases address_results@.len() - i,
    {
        if address_results[i] {
            return true;
        }
        i = i + 1;
    }
    false
}

/// The whole run succeeded when every cluster did.
pub fn overall_ok(cluster_results: &Vec<bool>) -> (r: bool)
    ensures
        r == forall|i: int| 0 <= i < cluster_results@.len() ==> cluster_results@[i],
{
    let mut i: usize = 0;
    while i < cluster_results.len()
        invariant
            i <= cluster_results@.len(),
            forall|j: int| 0 <= j < i ==> cluster_results@[j],
        decreases cluster_results@.len() - i,
    {
        if !cluster_results[i] {
            return false;
        }
        i = i + 1;
    }
    true
}

/// The process exit code for an upload run: 0 when every upload
/// succeeded, 1 when some upload was rejected or failed, 2 when keys
/// could not be loaded or the source could not be scanned.
pub fn upload_exit_code(run: Result<bool, ()>) -> (r: i32)
    ensures
        (run == Ok::<bool, ()>(true)) ==> r == 0,
        (run == Ok::<bool, ()>(false)) ==> r == 1,
        (run is Err) ==> r == 2,
{
    match run {
        Ok(true) => 0,
        Ok(false) => 1,
        Err(()) => 2,
    }
}

} // verus!
