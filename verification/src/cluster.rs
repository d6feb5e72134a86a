//! Administration of a cluster: the requests an operator sends, what a lane
//! answers, and the plan by which a cluster is grown node by node.

use crate::clock::{Index, NodeId};
use crate::error::Error;
use crate::membership::same_ids;
use crate::peers::{has_peer, PeersView};
use crate::command_log::initial_log;
use crate::process::{
    after_election, electorate_of, in_office, may_bootstrap, membership_submitted, peers_follow,
    peers_after_election, peers_synced, submit_result, RaftProcess, Submitted,
};
use crate::voter::ElectionStep;
use vstd::prelude::*;

verus! {

/// What a node reports of its lane: the leader it knows and the members in force.
#[derive(Debug)]
pub struct ClusterInfo {
    pub leader_id: Option<NodeId>,
    pub membership: Vec<NodeId>,
}

impl ClusterInfo {
    /// Both reports name the same leader and list the same members in the
    /// same order.
    pub open spec fn agrees_with(&self, other: &ClusterInfo) -> bool {
        self.leader_id == other.leader_id && self.membership@ == other.membership@
    }

    /// Whether both reports say the same.
    pub fn eq(&self, other: &ClusterInfo) -> (b: bool)
        ensures
            b == self.agrees_with(other),
    {
        let same_leader: bool = match (self.leader_id, other.leader_id) {
            (None, None) => true,
            (Some(a), Some(b)) => a == b,
            _ => false,
        };
        same_leader && same_ids(&self.membership, &other.membership)
    }
}

/// What an operator may ask of a lane.
#[derive(Clone, Copy, Debug, PartialEq, Eq, Structural)]
pub enum AdminOp {
    AddServer(NodeId),
    RemoveServer(NodeId),
    ClusterInfo,
    TimeoutNow,
}

/// A request of an operator, addressed to a node.
#[derive(Clone, Copy, Debug, PartialEq, Eq, Structural)]
pub struct AdminRequest {
    pub to: NodeId,
    pub op: AdminOp,
}

/// What a lane answers to an operator.
#[derive(Debug)]
pub enum AdminReply {
    Submitted(Submitted),
    Info(ClusterInfo),
    Election(ElectionStep),
}

/// The identity of the node that a test calls by the small number `id`.
pub open spec fn node_id_of(id: u8) -> NodeId {
    id as NodeId
}

/// See [`node_id_of`].
pub fn get_node_id(id: u8) -> (n: NodeId)
    ensures
        n == node_id_of(id),
{
    id as NodeId
}

/// An operator's handle on one node.
#[derive(Clone, Copy, Debug)]
pub struct Admin {
    to: NodeId,
}

impl Admin {
    /// The node that requests of this handle go to.
    pub closed spec fn target(&self) -> NodeId {
        self.to
    }

    /// A handle on the node that a test calls `id`.
    pub fn to(id: u8) -> (a: Admin)
        ensures
            a.target() == node_id_of(id),
    {
        Admin { to: get_node_id(id) }
    }

    /// The request to add node `id` to the lane.
    pub fn add_server(&self, id: u8) -> (r: AdminRequest)
        ensures
            r == (AdminRequest { to: self.target(), op: AdminOp::AddServer(node_id_of(id)) }),
    {
        AdminRequest { to: self.to, op: AdminOp::AddServer(get_node_id(id)) }
    }

    /// The request to remove node `id` from the lane.
    pub fn remove_server(&self, id: u8) -> (r: AdminRequest)
        ensures
            r == (AdminRequest { to: self.target(), op: AdminOp::RemoveServer(node_id_of(id)) }),
    {
        AdminRequest { to: self.to, op: AdminOp::RemoveServer(get_node_id(id)) }
    }

    /// The request to report leader and membership.
    pub fn cluster_info(&self) -> (r: AdminRequest)
        ensures
            r == (AdminRequest { to: self.target(), op: AdminOp::ClusterInfo }),
    {
        AdminRequest { to: self.to, op: AdminOp::ClusterInfo }
    }

    /// The request to call an election at once.
    pub fn timeout_now(&self) -> (r: AdminRequest)
        ensures
            r == (AdminRequest { to: self.target(), op: AdminOp::TimeoutNow }),
    {
        AdminRequest { to: self.to, op: AdminOp::TimeoutNow }
    }
}

/// What the lane reports of itself.
pub fn cluster_info(process: &RaftProcess) -> (info: ClusterInfo)
    requires
        process.wf(),
    ensures
        info.leader_id == process@.voter.leader_id,
        info.membership@ == electorate_of(process@.log),
{
    ClusterInfo { leader_id: process.leader_id(), membership: process.membership().to_vec() }
}

/// The reply that carries the outcome of a change of the membership.
pub open spec fn submitted_reply(r: Result<Submitted, Error>) -> Result<AdminReply, Error> {
    match r {
        Ok(s) => Ok(AdminReply::Submitted(s)),
        Err(e) => Err(e),
    }
}

/// Serves an operator's request on a lane.
pub fn serve_admin(process: &mut RaftProcess, op: AdminOp, now: u64, draw: u64) -> (r: Result<
    AdminReply,
    Error,
>)
    requires
        old(process).wf(),
    ensures
        final(process).wf(),
        peers_follow(final(process)@.peers, final(process)@.log),
        final(process)@.peers.self_id == final(process)@.voter.self_id,
        final(process)@.verified == old(process)@.verified,
        old(process)@.log.pointers_not_after(final(process)@.log),
        crate::voter::ballot_step(old(process)@.voter.ballot, final(process)@.voter.ballot),
        match op {
            AdminOp::AddServer(id) => if old(process)@.log.log.is_empty() {
                if may_bootstrap(old(process)@.voter, id) {
                    &&& r == Ok::<AdminReply, Error>(
                        AdminReply::Submitted(Submitted::Accepted(2)),
                    )
                    &&& final(process)@.voter == old(process)@.voter.after_takeover(
                        set![id],
                        now,
                        draw,
                    )
                    &&& final(process)@.log == in_office(
                        initial_log(id),
                        final(process)@.voter.ballot.cur_term,
                    )
                    &&& final(process)@.peers == (PeersView {
                        self_id: id,
                        self_is_member: true,
                        peers: Seq::empty(),
                    })
                } else {
                    &&& r == Err::<AdminReply, Error>(Error::LeaderUnknown)
                    &&& final(process)@.voter == old(process)@.voter
                    &&& final(process)@.log == old(process)@.log
                    &&& final(process)@.peers == old(process)@.peers
                }
            } else {
                &&& final(process)@.voter == old(process)@.voter
                &&& r == submitted_reply(
                    submit_result(old(process)@.voter, old(process)@.log, true),
                )
                &&& membership_submitted(
                    old(process)@.voter,
                    old(process)@.log,
                    final(process)@.log,
                    electorate_of(old(process)@.log).to_set().insert(id),
                )
                &&& (r matches Ok(AdminReply::Submitted(Submitted::Accepted(_)))
                    && id != old(process)@.voter.self_id ==> has_peer(
                    final(process)@.peers.peers,
                    id,
                ))
                &&& peers_synced(
                    old(process)@.peers,
                    final(process)@.peers,
                    final(process)@.log.log.last_index() as Index,
                )
            },
            AdminOp::RemoveServer(id) => {
                &&& final(process)@.voter == old(process)@.voter
                &&& r == submitted_reply(
                    submit_result(old(process)@.voter, old(process)@.log, true),
                )
                &&& membership_submitted(
                    old(process)@.voter,
                    old(process)@.log,
                    final(process)@.log,
                    electorate_of(old(process)@.log).to_set().remove(id),
                )
                &&& (r matches Ok(AdminReply::Submitted(Submitted::Accepted(_))) ==> !has_peer(
                    final(process)@.peers.peers,
                    id,
                ))
                &&& peers_synced(
                    old(process)@.peers,
                    final(process)@.peers,
                    final(process)@.log.log.last_index() as Index,
                )
            },
            AdminOp::ClusterInfo => {
                &&& final(process)@.voter == old(process)@.voter
                &&& final(process)@.log == old(process)@.log
                &&& final(process)@.peers == old(process)@.peers
                &&& r matches Ok(AdminReply::Info(info))
                &&& info.leader_id == old(process)@.voter.leader_id
                &&& info.membership@ == electorate_of(old(process)@.log)
            },
            AdminOp::TimeoutNow => {
                &&& final(process)@.voter == old(process)@.voter.after_takeover(
                    electorate_of(old(process)@.log).to_set(),
                    now,
                    draw,
                )
                &&& r == Ok::<AdminReply, Error>(
                    AdminReply::Election(
                        old(process)@.voter.campaign_step(
                            final(process)@.voter,
                            electorate_of(old(process)@.log).to_set(),
                            old(process)@.log.last_clock(),
                        ),
                    ),
                )
                &&& r matches Ok(AdminReply::Election(step))
                &&& final(process)@.log == after_election(
                    old(process)@.log,
                    step,
                    final(process)@.voter.ballot.cur_term,
                )
                &&& final(process)@.peers == peers_after_election(
                    old(process)@.peers,
                    step,
                    final(process)@.log.log.last_index() as Index,
                )
            },
        },
{
    let r = match op {
        AdminOp::AddServer(id) => match process.add_server(id, now, draw) {
            Ok(s) => Ok(AdminReply::Submitted(s)),
            Err(e) => Err(e),
        },
        AdminOp::RemoveServer(id) => match process.remove_server(id) {
            Ok(s) => Ok(AdminReply::Submitted(s)),
            Err(e) => Err(e),
        },
        AdminOp::ClusterInfo => Ok(AdminReply::Info(cluster_info(process))),
        AdminOp::TimeoutNow => Ok(AdminReply::Election(process.receive_timeout_now(now, draw))),
    };
    proof {
        process.lemma_peers_follow();
    }
    r
}

/// One step of growing a cluster.
#[derive(Clone, Copy, Debug, PartialEq, Eq, Structural)]
pub enum ClusterStep {
    /// Start this node.
    Start(u8),
    /// Ask node `via` to add node `id`.
    AddServer { via: u8, id: u8 },
    /// Wait until the nodes `0..=upto` agree that they are the members.
    EnsureMembership { upto: u8 },
}

/// The plan that makes a cluster of the single node `id`.
pub open spec fn single_node_plan(id: u8) -> Seq<ClusterStep> {
    seq![ClusterStep::Start(id), ClusterStep::AddServer { via: id, id }]
}

/// The plan that makes a cluster of the nodes `0..n`: a cluster of node 0
/// first, then each further node is started, added through node 0, and waited
/// for.
pub open spec fn cluster_plan(n: u8) -> Seq<ClusterStep>
    decreases n,
{
    if n <= 1 {
        single_node_plan(0)
    } else {
        cluster_plan((n - 1) as u8) + seq![
            ClusterStep::Start((n - 1) as u8),
            ClusterStep::AddServer { via: 0, id: (n - 1) as u8 },
            ClusterStep::EnsureMembership { upto: (n - 1) as u8 },
        ]
    }
}

/// The plan that makes a cluster of the single node `id`.
pub fn env_new(id: u8) -> (plan: Vec<ClusterStep>)
    ensures
        plan@ == single_node_plan(id),
{
    let mut plan: Vec<ClusterStep> = Vec::new();
    plan.push(ClusterStep::Start(id));
    plan.push(ClusterStep::AddServer { via: id, id });
    assert(plan@ =~= single_node_plan(id));
    plan
}

/// The plan that makes a cluster of the nodes `0..n`.
pub fn make_cluster(n: u8) -> (plan: Vec<ClusterStep>)
    ensures
        plan@ == cluster_plan(n),
{
    let mut plan = env_new(0);
    let mut k: u8 = 1;
    while k < n
        invariant
            1 <= k,
            k <= n || n == 0,
            n == 0 ==> k == 1,
            plan@ == cluster_plan(k),
        decreases n - k,
    {
        plan.push(ClusterStep::Start(k));
        plan.push(ClusterStep::AddServer { via: 0, id: k });
        plan.push(ClusterStep::EnsureMembership { upto: k });
        proof {
            assert(plan@ =~= cluster_plan(k) + seq![
                ClusterStep::Start(k),
                ClusterStep::AddServer { via: 0, id: k },
                ClusterStep::EnsureMembership { upto: k },
            ]);
        }
        k = k + 1;
    }
    assert(cluster_plan(0) == cluster_plan(1));
    plan
}

/// The identities of the nodes that a test calls by the numbers `ids`.
pub open spec fn node_ids_of(ids: Seq<u8>) -> Seq<NodeId> {
    Seq::new(ids.len(), |k: int| node_id_of(ids[k]))
}

/// Whether `s` lists its node ids in ascending order; an id may stand twice.
pub open spec fn weakly_ascending(s: Seq<NodeId>) -> bool {
    forall|i: int, j: int| 0 <= i < j < s.len() ==> s[i] <= s[j]
}

/// Whether `s` is the list `of` put in ascending order.
pub open spec fn sorted_copy_of(s: Seq<NodeId>, of: Seq<NodeId>) -> bool {
    weakly_ascending(s) && s.to_multiset() == of.to_multiset()
}

/// The list `ids` put in ascending order.
pub fn sorted_ids(ids: &Vec<NodeId>) -> (out: Vec<NodeId>)
    ensures
        sorted_copy_of(out@, ids@),
{
    let n: usize = ids.len();
    let mut out: Vec<NodeId> = Vec::new();
    let mut k: usize = 0;
    assert(ids@.take(0) =~= Seq::<NodeId>::empty());
    while k < n
        invariant
            n == ids@.len(),
            k <= n,
            weakly_ascending(out@),
            out@.to_multiset() == ids@.take(k as int).to_multiset(),
        decreases n - k,
    {
        let x: NodeId = ids[k];
        let m: usize = out.len();
        let mut p: usize = 0;
        while p < m && out[p] <= x
            invariant
                m == out@.len(),
                p <= m,
                forall|j: int| 0 <= j < p ==> out@[j] <= x,
            decreases m - p,
        {
            p = p + 1;
        }
        let ghost before = out@;
        out.insert(p, x);
        proof {
            vstd::seq_lib::to_multiset_insert(before, p as int, x);
            vstd::seq_lib::to_multiset_build(ids@.take(k as int), x);
            assert(ids@.take(k + 1) =~= ids@.take(k as int).push(x));
            assert forall|i: int, j: int| 0 <= i < j < out@.len() implies out@[i] <= out@[j] by {
                let bi = if i < p {
                    i
                } else {
                    i - 1
                };
                let bj = if j < p {
                    j
                } else {
                    j - 1
                };
                if i != p && j != p {
                    assert(before[bi] <= before[bj]);
                } else if i == p {
                    assert(before[p as int] > x);
                    assert(before[p as int] <= before[bj]);
                }
            }
        }
        k = k + 1;
    }
    assert(ids@.take(n as int) =~= ids@);
    out
}

/// A list has one sorted copy.
pub proof fn lemma_sorted_copy_is_unique(a: Seq<NodeId>, b: Seq<NodeId>, of: Seq<NodeId>)
    requires
        sorted_copy_of(a, of),
        sorted_copy_of(b, of),
    ensures
        a == b,
{
    let leq = |x: NodeId, y: NodeId| x <= y;
    assert(vstd::relations::total_ordering(leq));
    assert(vstd::relations::sorted_by(a, leq));
    assert(vstd::relations::sorted_by(b, leq));
    vstd::seq_lib::lemma_sorted_unique(a, b, leq);
}

/// Whether the reports of the live nodes show a settled cluster: every live
/// node has reported, all reports say the same, the members are those of
/// `member_nodes` in ascending order, and the leader is one of the live
/// nodes.
pub open spec fn membership_settled(
    live_nodes: Seq<u8>,
    member_nodes: Seq<u8>,
    observed: Seq<Option<ClusterInfo>>,
) -> bool {
    &&& live_nodes.len() > 0
    &&& observed.len() == live_nodes.len()
    &&& forall|k: int|
        0 <= k < observed.len()
            ==> (#[trigger] observed[k]) is Some && observed[k]->Some_0.agrees_with(
            &observed[0]->Some_0,
        )
    &&& sorted_copy_of(observed[0]->Some_0.membership@, node_ids_of(member_nodes))
    &&& observed[0]->Some_0.leader_id is Some
    &&& node_ids_of(live_nodes).contains(observed[0]->Some_0.leader_id->Some_0)
}

/// Checks that every node in `live_nodes` recognizes the same membership;
/// `observed` holds what each of them reported, `None` for a node that did
/// not answer. See [`membership_settled`].
pub fn ensure_membership(
    live_nodes: &Vec<u8>,
    member_nodes: &Vec<u8>,
    observed: &Vec<Option<ClusterInfo>>,
) -> (settled: bool)
    ensures
        settled == membership_settled(live_nodes@, member_nodes@, observed@),
{
    let n: usize = live_nodes.len();
    if n == 0 || observed.len() != n {
        return false;
    }
    let first: &ClusterInfo = match &observed[0] {
        Some(info) => info,
        None => {
            return false;
        },
    };
    let mut k: usize = 1;
    while k < n
        invariant
            n == observed@.len(),
            1 <= k <= n,
            observed@[0] == Some(*first),
            forall|j: int|
                0 <= j < k
                    ==> (#[trigger] observed@[j]) is Some && observed@[j]->Some_0.agrees_with(
                    first,
                ),
        decreases n - k,
    {
        match &observed[k] {
            Some(info) => {
                if !info.eq(first) {
                    return false;
                }
            },
            None => {
                return false;
            },
        }
        k = k + 1;
    }
    let mut member_ids: Vec<NodeId> = Vec::new();
    let mut i: usize = 0;
    while i < member_nodes.len()
        invariant
            i <= member_nodes@.len(),
            member_ids@ == node_ids_of(member_nodes@.take(i as int)),
        decreases member_nodes@.len() - i,
    {
        member_ids.push(get_node_id(member_nodes[i]));
        assert(member_ids@ =~= node_ids_of(member_nodes@.take(i + 1)));
        i = i + 1;
    }
    assert(member_nodes@.take(member_nodes@.len() as int) =~= member_nodes@);
    let expected = sorted_ids(&member_ids);
    let same_members: bool = same_ids(&first.membership, &expected);
    proof {
        if sorted_copy_of(first.membership@, member_ids@) {
            lemma_sorted_copy_is_unique(first.membership@, expected@, member_ids@);
        }
    }
    if !same_members {
        return false;
    }
    let leader: NodeId = match first.leader_id {
        Some(l) => l,
        None => {
            return false;
        },
    };
    let mut j: usize = 0;
    let mut found: bool = false;
    while j < n
        invariant
            n == live_nodes@.len(),
            j <= n,
            found == exists|c: int| 0 <= c < j && node_id_of(#[trigger] live_nodes@[c]) == leader,
        decreases n - j,
    {
        if get_node_id(live_nodes[j]) == leader {
            found = true;
        }
        j = j + 1;
    }
    proof {
        let ids = node_ids_of(live_nodes@);
        if ids.contains(leader) {
            let c = choose|c: int| 0 <= c < ids.len() && ids[c] == leader;
            assert(node_id_of(live_nodes@[c]) == leader);
        }
        if found {
            let c = choose|c: int| 0 <= c < n && node_id_of(#[trigger] live_nodes@[c]) == leader;
            assert(ids[c] == leader);
        }
    }
    found
}

} // verus!
