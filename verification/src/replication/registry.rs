//! The leader's registry of connected replicas.

use vstd::prelude::*;
use crate::clock::now_secs;

verus! {

/// Connection state of a registered replica.
#[derive(Debug, Clone, Copy, PartialEq, Eq, Structural)]
pub enum ConnectionState {
    /// Just connected, handshake received.
    Connected,
    /// Actively pulling segments.
    Syncing,
    /// Connected but quiet.
    Idle,
    /// Gone.
    Offline,
}

/// What the leader knows about one replica.
#[derive(Debug)]
pub struct ReplicaInfo {
    pub replica_id: String,
    pub last_segment_requested: u64,
    pub connection_state: ConnectionState,
    /// Last activity, seconds since the epoch.
    pub last_heartbeat: u64,
    pub remote_addr: String,
    pub bytes_sent: u64,
    /// When the replica first connected, seconds since the epoch.
    pub connected_at: u64,
}

/// Registry of every replica the leader has seen.
#[derive(Debug)]
pub struct ReplicaRegistry {
    pub replicas: Vec<ReplicaInfo>,
}

impl ReplicaRegistry {
    /// Replica ids are unique.
    pub open spec fn wf(self) -> bool {
        forall|i: int, j: int|
            0 <= i < j < self.replicas@.len() ==> (#[trigger] self.replicas@[i]).replica_id@ != (
            #[trigger] self.replicas@[j]).replica_id@
    }

    pub fn new() -> (r: ReplicaRegistry)
        ensures
            r.wf(),
            r.replicas@.len() == 0,
    {
        ReplicaRegistry { replicas: Vec::new() }
    }

    fn find(&self, replica_id: &String) -> (r: Option<usize>)
        ensures
            r matches Some(i) ==> i < self.replicas@.len()
                && self.replicas@[i as int].replica_id@ == replica_id@,
            r is None ==> forall|i: int|
                0 <= i < self.replicas@.len() ==> (#[trigger] self.replicas@[i]).replica_id@
                    != replica_id@,
    {
        let n = self.replicas.len();
        let mut i: usize = 0;
        while i < n
            invariant
                n == self.replicas@.len(),
                i <= n,
                forall|j: int|
                    0 <= j < i ==> (#[trigger] self.replicas@[j]).replica_id@ != replica_id@,
            decreases n - i,
        {
            if self.replicas[i].replica_id == *replica_id {
                return Some(i);
            }
            i = i + 1;
        }
        None
    }

    /// Register a replica: a fresh entry in `Connected` state, replacing
    /// any prior entry under the same id.
    pub fn register(&mut self, replica_id: String, remote_addr: String, last_synced_segment: u64)
        requires
            old(self).wf(),
        ensures
            final(self).wf(),
            exists|i: int|
                0 <= i < final(self).replicas@.len() && {
                    let e = #[trigger] final(self).replicas@[i];
                    &&& e.replica_id@ == replica_id@
                    &&& e.last_segment_requested == last_synced_segment
                    &&& e.connection_state is Connected
                    &&& e.bytes_sent == 0
                },
    {
        let now = now_secs();
        let info = ReplicaInfo {
            replica_id,
            last_segment_requested: last_synced_segment,
            connection_state: ConnectionState::Connected,
            last_heartbeat: now,
            remote_addr,
            bytes_sent: 0,
            connected_at: now,
        };
        let slot = self.find(&info.replica_id);
        match slot {
            Some(i) => {
                let ghost pre = self.replicas@;
                self.replicas.set(i, info);
                proof {
                    let post = self.replicas@;
                    assert(post[i as int].replica_id@ == pre[i as int].replica_id@);
                    assert forall|p: int, q: int|
                        0 <= p < q < post.len() implies (#[trigger] post[p]).replica_id@ != (
                        #[trigger] post[q]).replica_id@ by {
                        assert(pre[p].replica_id@ != pre[q].replica_id@);
                    }
                    assert(post[i as int].replica_id@ == replica_id@ && post[
                        i as int
                    ].last_segment_requested == last_synced_segment && post[
                        i as int
                    ].connection_state is Connected && post[i as int].bytes_sent == 0);
                }
            },
            None => {
                self.replicas.push(info);
                proof {
                    let post = self.replicas@;
                    let w = post.len() - 1;
                    assert(post[w].replica_id@ == replica_id@ && post[w].last_segment_requested
                        == last_synced_segment && post[w].connection_state is Connected
                        && post[w].bytes_sent == 0);
                }
            },
        }
    }

    /// Record a segment request: the replica is syncing, its floor and
    /// byte counter move.
    pub fn update_segment(&mut self, replica_id: &String, segment: u64, bytes: u64)
        requires
            old(self).wf(),
        ensures
            final(self).wf(),
            final(self).replicas@.len() == old(self).replicas@.len(),
            forall|i: int|
                0 <= i < old(self).replicas@.len() && (#[trigger] old(self).replicas@[i]).replica_id@ == replica_id@ ==> {
                    let e = final(self).replicas@[i];
                    &&& e.last_segment_requested == segment
                    &&& e.connection_state is Syncing
                    &&& e.bytes_sent == (if old(self).replicas@[i].bytes_sent + bytes
                        <= u64::MAX {
                        old(self).replicas@[i].bytes_sent + bytes
                    } else {
                        u64::MAX as int
                    })
                },
            forall|i: int|
                0 <= i < old(self).replicas@.len() && (#[trigger] old(self).replicas@[i]).replica_id@ != replica_id@ ==> final(self).replicas@[i] == old(self).replicas@[i],
    {
        let slot = self.find(replica_id);
        if let Some(i) = slot {
            let ghost pre = self.replicas@;
            let now = now_secs();
            let old_info = &self.replicas[i];
            let sent = if old_info.bytes_sent <= u64::MAX - bytes {
                old_info.bytes_sent + bytes
            } else {
                u64::MAX
            };
            let id_copy = old_info.replica_id.clone();
            let addr_copy = old_info.remote_addr.clone();
            let connected_at = old_info.connected_at;
            let info = ReplicaInfo {
                replica_id: id_copy,
                last_segment_requested: segment,
                connection_state: ConnectionState::Syncing,
                last_heartbeat: now,
                remote_addr: addr_copy,
                bytes_sent: sent,
                connected_at,
            };
            proof {
                assert(info.replica_id@ == pre[i as int].replica_id@);
            }
            self.replicas.set(i, info);
            proof {
                let post = self.replicas@;
                assert forall|p: int, q: int|
                    0 <= p < q < post.len() implies (#[trigger] post[p]).replica_id@ != (
                    #[trigger] post[q]).replica_id@ by {
                    assert(pre[p].replica_id@ != pre[q].replica_id@);
                }
                assert forall|j: int|
                    0 <= j < pre.len() && (#[trigger] pre[j]).replica_id@ == replica_id@
                        implies j == i by {
                    if j != i {
                        assert(pre[j].replica_id@ != pre[i as int].replica_id@);
                    }
                }
            }
        }
    }

    /// Mark a connected replica idle; an offline one stays offline.
    pub fn mark_idle(&mut self, replica_id: &String)
        requires
            old(self).wf(),
        ensures
            final(self).wf(),
            final(self).replicas@.len() == old(self).replicas@.len(),
            forall|i: int|
                0 <= i < final(self).replicas@.len() ==> (
                #[trigger] final(self).replicas@[i]).connection_state == (
                if old(self).replicas@[i].replica_id@ == replica_id@ && !(old(self).replicas@[i].connection_state is Offline) {
                    ConnectionState::Idle
                } else {
                    old(self).replicas@[i].connection_state
                }),
            forall|i: int|
                0 <= i < final(self).replicas@.len() ==> (
                #[trigger] final(self).replicas@[i]).replica_id@ == old(self).replicas@[i].replica_id@ && final(self).replicas@[i].last_segment_requested
                    == old(self).replicas@[i].last_segment_requested,
    {
        let slot = self.find(replica_id);
        if let Some(i) = slot {
            let ghost pre = self.replicas@;
            let already_offline = match self.replicas[i].connection_state {
                ConnectionState::Offline => true,
                _ => false,
            };
            if !already_offline {
                let old_info = &self.replicas[i];
                let info = ReplicaInfo {
                    replica_id: old_info.replica_id.clone(),
                    last_segment_requested: old_info.last_segment_requested,
                    connection_state: ConnectionState::Idle,
                    last_heartbeat: old_info.last_heartbeat,
                    remote_addr: old_info.remote_addr.clone(),
                    bytes_sent: old_info.bytes_sent,
                    connected_at: old_info.connected_at,
                };
                proof {
                    assert(info.replica_id@ == pre[i as int].replica_id@);
                }
                self.replicas.set(i, info);
                proof {
                    let post = self.replicas@;
                    assert forall|p: int, q: int|
                        0 <= p < q < post.len() implies (#[trigger] post[p]).replica_id@ != (
                        #[trigger] post[q]).replica_id@ by {
                        assert(pre[p].replica_id@ != pre[q].replica_id@);
                    }
                }
            }
        }
    }

    /// Mark a replica offline.
    pub fn mark_offline(&mut self, replica_id: &String)
        requires
            old(self).wf(),
        ensures
            final(self).wf(),
            final(self).replicas@.len() == old(self).replicas@.len(),
            forall|i: int|
                0 <= i < old(self).replicas@.len() && (#[trigger] old(self).replicas@[i]).replica_id@ == replica_id@ ==> final(self).replicas@[i].connection_state is Offline,
    {
        let slot = self.find(replica_id);
        if let Some(i) = slot {
            let ghost pre = self.replicas@;
            let old_info = &self.replicas[i];
            let info = ReplicaInfo {
                replica_id: old_info.replica_id.clone(),
                last_segment_requested: old_info.last_segment_requested,
                connection_state: ConnectionState::Offline,
                last_heartbeat: old_info.last_heartbeat,
                remote_addr: old_info.remote_addr.clone(),
                bytes_sent: old_info.bytes_sent,
                connected_at: old_info.connected_at,
            };
            proof {
                assert(info.replica_id@ == pre[i as int].replica_id@);
            }
            self.replicas.set(i, info);
            proof {
                let post = self.replicas@;
                assert forall|p: int, q: int|
                    0 <= p < q < post.len() implies (#[trigger] post[p]).replica_id@ != (
                    #[trigger] post[q]).replica_id@ by {
                    assert(pre[p].replica_id@ != pre[q].replica_id@);
                }
                assert forall|j: int|
                    0 <= j < pre.len() && (#[trigger] pre[j]).replica_id@ == replica_id@
                        implies j == i by {
                    if j != i {
                        assert(pre[j].replica_id@ != pre[i as int].replica_id@);
                    }
                }
            }
        }
    }

    /// Number of replicas not marked offline.
    pub fn connected_count(&self) -> (r: usize)
        ensures
            r <= self.replicas@.len(),
            r == self.replicas@.filter(
                |e: ReplicaInfo| !(e.connection_state is Offline),
            ).len(),
    {
        let ghost pred = |e: ReplicaInfo| !(e.connection_state is Offline);
        let n = self.replicas.len();
        let mut count: usize = 0;
        let mut i: usize = 0;
        proof {
            assert(self.replicas@.take(0).filter(pred) =~= Seq::<ReplicaInfo>::empty());
        }
        while i < n
            invariant
                n == self.replicas@.len(),
                i <= n,
                count == self.replicas@.take(i as int).filter(pred).len(),
                count <= i,
                forall|e: ReplicaInfo| #[trigger]
                    pred(e) == !(e.connection_state is Offline),
            decreases n - i,
        {
            let keep = match self.replicas[i].connection_state {
                ConnectionState::Offline => false,
                _ => true,
            };
            proof {
                assert(self.replicas@.take(i as int + 1) =~= self.replicas@.take(i as int).push(
                    self.replicas@[i as int],
                ));
                reveal_reg_filter_push(self.replicas@.take(i as int), self.replicas@[i as int],
                    pred);
                assert(keep == pred(self.replicas@[i as int]));
            }
            if keep {
                count = count + 1;
            }
            i = i + 1;
        }
        proof {
            assert(self.replicas@.take(n as int) =~= self.replicas@);
        }
        count
    }

    /// A copy of every entry.
    pub fn get_all(&self) -> (r: Vec<ReplicaInfo>)
        ensures
            r@.len() == self.replicas@.len(),
            forall|i: int|
                0 <= i < r@.len() ==> (#[trigger] r@[i]).replica_id@
                    == self.replicas@[i].replica_id@ && r@[i].last_segment_requested
                    == self.replicas@[i].last_segment_requested && r@[i].connection_state
                    == self.replicas@[i].connection_state && r@[i].bytes_sent
                    == self.replicas@[i].bytes_sent,
    {
        let n = self.replicas.len();
        let mut out: Vec<ReplicaInfo> = Vec::new();
        let mut i: usize = 0;
        while i < n
            invariant
                n == self.replicas@.len(),
                i <= n,
                out@.len() == i,
                forall|j: int|
                    0 <= j < i ==> (#[trigger] out@[j]).replica_id@
                        == self.replicas@[j].replica_id@ && out@[j].last_segment_requested
                        == self.replicas@[j].last_segment_requested && out@[j].connection_state
                        == self.replicas@[j].connection_state && out@[j].bytes_sent
                        == self.replicas@[j].bytes_sent,
            decreases n - i,
        {
            out.push(clone_info(&self.replicas, i));
            i = i + 1;
        }
        out
    }

    /// A copy of the entry for `replica_id`, if any.
    pub fn get(&self, replica_id: &String) -> (r: Option<ReplicaInfo>)
        ensures
            r is Some <==> (exists|i: int|
                0 <= i < self.replicas@.len() && (#[trigger] self.replicas@[i]).replica_id@
                    == replica_id@),
            r matches Some(info) ==> info.replica_id@ == replica_id@,
    {
        let slot = self.find(replica_id);
        match slot {
            Some(i) => Some(clone_info(&self.replicas, i)),
            None => None,
        }
    }

    /// Drop offline entries whose last activity is older than `max_age`
    /// seconds.  Entries that are not offline all survive.
    pub fn cleanup_offline(&mut self, max_age_secs: u64)
        requires
            old(self).wf(),
        ensures
            final(self).wf(),
            final(self).replicas@.len() <= old(self).replicas@.len(),
            forall|i: int|
                0 <= i < final(self).replicas@.len() ==> old(self).replicas@.contains(
                    #[trigger] final(self).replicas@[i],
                ),
            forall|j: int|
                0 <= j < old(self).replicas@.len() && !((#[trigger] old(self).replicas@[j]).connection_state is Offline) ==> final(self).replicas@.contains(
                    old(self).replicas@[j],
                ),
    {
        let now = now_secs();
        let ghost pre = self.replicas@;
        let mut kept: Vec<ReplicaInfo> = Vec::new();
        let mut rest: Vec<ReplicaInfo> = Vec::new();
        core::mem::swap(&mut rest, &mut self.replicas);
        proof {
            assert(rest@ =~= pre.skip(0));
        }
        while rest.len() > 0
            invariant
                rest@.len() <= pre.len(),
                rest@ == pre.skip(pre.len() - rest@.len()),
                kept@.len() + rest@.len() <= pre.len(),
                forall|i: int| 0 <= i < kept@.len() ==> pre.contains(#[trigger] kept@[i]),
                forall|j: int|
                    0 <= j < pre.len() - rest@.len() && !((#[trigger] pre[j]).connection_state
                        is Offline) ==> kept@.contains(pre[j]),
                forall|p: int, q: int|
                    0 <= p < q < kept@.len() ==> (#[trigger] kept@[p]).replica_id@ != (
                    #[trigger] kept@[q]).replica_id@,
                forall|i: int, j: int|
                    0 <= i < kept@.len() && 0 <= j < rest@.len() ==> (#[trigger] kept@[i]).replica_id@
                        != (#[trigger] rest@[j]).replica_id@,
                forall|p: int, q: int|
                    0 <= p < q < rest@.len() ==> (#[trigger] rest@[p]).replica_id@ != (
                    #[trigger] rest@[q]).replica_id@,
            decreases rest@.len(),
        {
            let ghost k = pre.len() - rest@.len();
            let info = rest.remove(0);
            proof {
                assert(info == pre[k]);
                assert(rest@ =~= pre.skip(k + 1));
            }
            let stale_offline = match info.connection_state {
                ConnectionState::Offline => now >= info.last_heartbeat && now
                    - info.last_heartbeat >= max_age_secs,
                _ => false,
            };
            let ghost kept_before = kept@;
            if !stale_offline {
                kept.push(info);
            }
            proof {
                if !stale_offline {
                    assert(kept@ == kept_before.push(info));
                    assert(kept@[kept@.len() - 1] == pre[k]);
                }
                assert forall|j: int|
                    0 <= j < pre.len() - rest@.len() && !((#[trigger] pre[j]).connection_state
                        is Offline) implies kept@.contains(pre[j]) by {
                    if j == k {
                        assert(!stale_offline);
                        assert(kept@[kept@.len() - 1] == pre[j]);
                    } else {
                        assert(kept_before.contains(pre[j]));
                        let w = choose|w: int|
                            0 <= w < kept_before.len() && kept_before[w] == pre[j];
                        assert(kept@[w] == pre[j]);
                    }
                }
                assert forall|i: int| 0 <= i < kept@.len() implies pre.contains(
                    #[trigger] kept@[i],
                ) by {
                    if i < kept_before.len() {
                        assert(kept@[i] == kept_before[i]);
                    } else {
                        assert(kept@[i] == pre[k]);
                    }
                }
            }
        }
        self.replicas = kept;
    }

    /// The smallest segment any live replica still wants; `u64::MAX` when
    /// no live replica exists.  This is the replica floor of WAL retention.
    pub fn min_segment_floor(&self) -> (r: u64)
        ensures
            r == spec_min_floor(self.replicas@),
    {
        let n = self.replicas.len();
        let mut floor = u64::MAX;
        let mut i: usize = 0;
        proof {
            assert(self.replicas@.take(0) =~= Seq::<ReplicaInfo>::empty());
        }
        while i < n
            invariant
                n == self.replicas@.len(),
                i <= n,
                floor == spec_min_floor(self.replicas@.take(i as int)),
            decreases n - i,
        {
            let e_state = self.replicas[i].connection_state;
            let e_seg = self.replicas[i].last_segment_requested;
            let live = match e_state {
                ConnectionState::Offline => false,
                _ => true,
            };
            proof {
                assert(self.replicas@.take(i as int + 1).drop_last() =~= self.replicas@.take(
                    i as int,
                ));
                assert(self.replicas@.take(i as int + 1).last() == self.replicas@[i as int]);
            }
            if live && e_seg < floor {
                floor = e_seg;
            }
            i = i + 1;
        }
        proof {
            assert(self.replicas@.take(n as int) =~= self.replicas@);
        }
        floor
    }
}

/// The smallest `last_segment_requested` among live replicas, `u64::MAX`
/// when there is none.
pub open spec fn spec_min_floor(s: Seq<ReplicaInfo>) -> u64
    decreases s.len(),
{
    if s.len() == 0 {
        u64::MAX
    } else {
        let rest = spec_min_floor(s.drop_last());
        let e = s.last();
        if !(e.connection_state is Offline) && e.last_segment_requested < rest {
            e.last_segment_requested
        } else {
            rest
        }
    }
}

/// Clone the entry at `idx`.
fn clone_info(infos: &Vec<ReplicaInfo>, idx: usize) -> (r: ReplicaInfo)
    requires
        idx < infos@.len(),
    ensures
        r.replica_id@ == infos@[idx as int].replica_id@,
        r.last_segment_requested == infos@[idx as int].last_segment_requested,
        r.connection_state == infos@[idx as int].connection_state,
        r.last_heartbeat == infos@[idx as int].last_heartbeat,
        r.remote_addr@ == infos@[idx as int].remote_addr@,
        r.bytes_sent == infos@[idx as int].bytes_sent,
        r.connected_at == infos@[idx as int].connected_at,
{
    let source = &infos[idx];
    ReplicaInfo {
        replica_id: source.replica_id.clone(),
        last_segment_requested: source.last_segment_requested,
        connection_state: source.connection_state,
        last_heartbeat: source.last_heartbeat,
        remote_addr: source.remote_addr.clone(),
        bytes_sent: source.bytes_sent,
        connected_at: source.connected_at,
    }
}

/// Unfold one step of `filter` on a pushed entry.
proof fn reveal_reg_filter_push(s: Seq<ReplicaInfo>, x: ReplicaInfo, pred: spec_fn(ReplicaInfo) -> bool)
    ensures
        s.push(x).filter(pred) == if pred(x) {
            s.filter(pred).push(x)
        } else {
            s.filter(pred)
        },
{
    reveal(Seq::filter);
    assert(s.push(x).drop_last() =~= s);
}

} // verus!
