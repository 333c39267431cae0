//! The contract: a graph of encounters the player routes through.
//!
//! The graph and route-locking rules live here; how the map is drawn is left
//! to whoever presents it. Nodes are held in id order, and every set of ids
//! (locked, completed) is held as a strictly increasing list, so two
//! contracts in the same state compare equal.

use vstd::prelude::*;
use crate::counting::{lemma_distinct_indices, lemma_lowest_scoring};
use crate::random::{random_usize_in, shuffle};
use crate::text::{decimal, number_between, push_decimal};
use rand::rngs::StdRng;

verus! {

pub type NodeId = u32;

#[derive(Clone, Copy, Debug, PartialEq, Eq, Structural)]
pub enum EncounterType {
    Entry,
    Combat,
    Event,
    Shop,
    Elite,
    /// The security system guarding the end of a zone. One per zone, always
    /// alone in its column, and the only way through to the zone after it.
    Boss,
}

pub open spec fn encounter_type_str(encounter_type: EncounterType) -> Seq<char> {
    match encounter_type {
        EncounterType::Entry => "entry"@,
        EncounterType::Combat => "combat"@,
        EncounterType::Event => "event"@,
        EncounterType::Shop => "shop"@,
        EncounterType::Elite => "elite"@,
        EncounterType::Boss => "boss"@,
    }
}

impl EncounterType {
    pub fn as_str(self) -> (name: &'static str)
        ensures
            name@ == encounter_type_str(self),
    {
        match self {
            EncounterType::Entry => "entry",
            EncounterType::Combat => "combat",
            EncounterType::Event => "event",
            EncounterType::Shop => "shop",
            EncounterType::Elite => "elite",
            EncounterType::Boss => "boss",
        }
    }

    pub open spec fn spec_is_boss(self) -> bool {
        self is Boss
    }

    #[verifier::when_used_as_spec(spec_is_boss)]
    pub fn is_boss(self) -> (boss: bool)
        ensures
            boss == (self is Boss),
    {
        matches!(self, EncounterType::Boss)
    }
}

/// What a node is, as the contracts see it.
#[verifier::ext_equal]
pub struct NodeView {
    pub id: NodeId,
    pub encounter_type: EncounterType,
    pub next: Seq<NodeId>,
}

#[derive(Clone, Debug, PartialEq, Eq)]
pub struct EncounterNode {
    id: NodeId,
    encounter_type: EncounterType,
    next_nodes: Vec<NodeId>,
}

impl View for EncounterNode {
    type V = NodeView;

    closed spec fn view(&self) -> NodeView {
        NodeView { id: self.id, encounter_type: self.encounter_type, next: self.next_nodes@ }
    }
}

impl EncounterNode {
    pub fn new(id: NodeId, encounter_type: EncounterType, next_nodes: Vec<NodeId>) -> (node: Self)
        ensures
            node@ == (NodeView { id, encounter_type, next: next_nodes@ }),
    {
        EncounterNode { id, encounter_type, next_nodes }
    }

    pub fn id(&self) -> (id: NodeId)
        ensures
            id == self@.id,
    {
        self.id
    }

    pub fn encounter_type(&self) -> (encounter_type: EncounterType)
        ensures
            encounter_type == self@.encounter_type,
    {
        self.encounter_type
    }

    /// The nodes this one leads on to.
    pub fn next_nodes(&self) -> (next: &[NodeId])
        ensures
            next@ == self@.next,
    {
        self.next_nodes.as_slice()
    }
}

pub open spec fn views(nodes: Seq<EncounterNode>) -> Seq<NodeView> {
    nodes.map_values(|node: EncounterNode| node@)
}

// ---------------------------------------------------------------------------
// The graph, as a sequence of node views.
// ---------------------------------------------------------------------------

pub open spec fn ids_increasing(g: Seq<NodeView>) -> bool {
    forall|i: int, j: int| 0 <= i < j < g.len() ==> #[trigger] g[i].id < #[trigger] g[j].id
}

pub open spec fn has_node(g: Seq<NodeView>, id: NodeId) -> bool {
    exists|i: int| 0 <= i < g.len() && #[trigger] g[i].id == id
}

pub open spec fn is_edge(g: Seq<NodeView>, from: NodeId, to: NodeId) -> bool {
    exists|i: int| 0 <= i < g.len() && #[trigger] g[i].id == from && g[i].next.contains(to)
}

/// A score that rises along every edge.
pub open spec fn is_ranking(g: Seq<NodeView>, rank: spec_fn(NodeId) -> int) -> bool {
    forall|from: NodeId, to: NodeId| #[trigger] is_edge(g, from, to) ==> rank(from) < rank(to)
}

/// No route through the graph ever comes back to where it was: some score
/// rises along every edge.
pub open spec fn is_acyclic(g: Seq<NodeView>) -> bool {
    exists|rank: spec_fn(NodeId) -> int| #[trigger] is_ranking(g, rank)
}

/// Every link of every node is to a node of the graph, and no node links to
/// the same node twice.
pub open spec fn links_valid(g: Seq<NodeView>) -> bool {
    &&& forall|i: int| 0 <= i < g.len() ==> (#[trigger] g[i]).next.no_duplicates()
    &&& forall|i: int, k: int|
        0 <= i < g.len() && 0 <= k < g[i].next.len() ==> has_node(g, #[trigger] g[i].next[k])
}

/// A graph the contract can be played on.
pub open spec fn graph_valid(g: Seq<NodeView>, start: NodeId) -> bool {
    &&& g.len() > 0
    &&& ids_increasing(g)
    &&& has_node(g, start)
    &&& links_valid(g)
    &&& is_acyclic(g)
}

pub open spec fn same_nodes(a: Seq<NodeView>, b: Seq<NodeView>) -> bool {
    &&& a.len() == b.len()
    &&& forall|i: int| 0 <= i < a.len() ==> b.contains(#[trigger] a[i])
    &&& forall|i: int| 0 <= i < b.len() ==> a.contains(#[trigger] b[i])
}

// ---------------------------------------------------------------------------
// Validation of authored node lists.
// ---------------------------------------------------------------------------

pub open spec fn repeats_earlier_id(ns: Seq<NodeView>, j: int) -> bool {
    exists|i: int| 0 <= i < j && #[trigger] ns[i].id == ns[j].id
}

pub open spec fn has_repeated_id(ns: Seq<NodeView>) -> bool {
    exists|j: int| 0 <= j < ns.len() && #[trigger] repeats_earlier_id(ns, j)
}

pub open spec fn is_first_repeat(ns: Seq<NodeView>, j: int) -> bool {
    &&& 0 <= j < ns.len()
    &&& repeats_earlier_id(ns, j)
    &&& forall|k: int| 0 <= k < j ==> !#[trigger] repeats_earlier_id(ns, k)
}

/// Link `k` of `node` repeats one of its earlier links.
pub open spec fn link_repeats(node: NodeView, k: int) -> bool {
    exists|p: int| 0 <= p < k && #[trigger] node.next[p] == node.next[k]
}

pub open spec fn link_is_bad(ns: Seq<NodeView>, node: NodeView, k: int) -> bool {
    &&& 0 <= k < node.next.len()
    &&& (link_repeats(node, k) || !has_node(ns, node.next[k]))
}

pub open spec fn node_has_bad_link(ns: Seq<NodeView>, node: NodeView) -> bool {
    exists|k: int| #[trigger] link_is_bad(ns, node, k)
}

pub open spec fn has_bad_link(ns: Seq<NodeView>) -> bool {
    exists|j: int| 0 <= j < ns.len() && #[trigger] node_has_bad_link(ns, ns[j])
}

/// The bad link reported: the earliest one on the lowest-id node that has one.
pub open spec fn is_first_bad_link(ns: Seq<NodeView>, i: int, k: int) -> bool {
    &&& 0 <= i < ns.len()
    &&& link_is_bad(ns, ns[i], k)
    &&& forall|q: int| 0 <= q < k ==> !#[trigger] link_is_bad(ns, ns[i], q)
    &&& forall|j: int|
        0 <= j < ns.len() && #[trigger] node_has_bad_link(ns, ns[j]) ==> ns[i].id <= ns[j].id
}

pub open spec fn bad_link_error(node: NodeView, k: int) -> ContractMapError {
    if link_repeats(node, k) {
        ContractMapError::DuplicateConnection { from: node.id, to: node.next[k] }
    } else {
        ContractMapError::UnknownConnection { from: node.id, to: node.next[k] }
    }
}

#[derive(Clone, Debug, PartialEq, Eq, Structural)]
pub enum ContractMapError {
    EmptyMap,
    DuplicateNode(NodeId),
    DuplicateConnection { from: NodeId, to: NodeId },
    UnknownStartNode(NodeId),
    UnknownConnection { from: NodeId, to: NodeId },
    CyclicGraph,
    EncounterAlreadyInProgress(NodeId),
    NoEncounterInProgress,
    EncounterNotReachable { from: NodeId, requested: NodeId },
    ZoneSealed { requested: NodeId, zone: usize },
}

/// What the player reads when a contract refuses something.
pub open spec fn contract_error_message(error: ContractMapError) -> Seq<char> {
    match error {
        ContractMapError::EmptyMap => "the contract map contains no encounters"@,
        ContractMapError::DuplicateNode(id) => "encounter "@ + decimal(id as nat) + " appears more than once"@,
        ContractMapError::DuplicateConnection { from, to } => "encounter "@ + decimal(from as nat)
            + " links to encounter "@ + decimal(to as nat) + " more than once"@,
        ContractMapError::UnknownStartNode(id) => "starting encounter "@ + decimal(id as nat) + " does not exist"@,
        ContractMapError::UnknownConnection { from, to } => "encounter "@ + decimal(from as nat)
            + " leads to missing encounter "@ + decimal(to as nat),
        ContractMapError::CyclicGraph => "the contract map contains a cycle"@,
        ContractMapError::EncounterAlreadyInProgress(id) => "encounter "@ + decimal(id as nat)
            + " is already in progress; another route cannot be chosen"@,
        ContractMapError::NoEncounterInProgress => "there is no active map encounter"@,
        ContractMapError::EncounterNotReachable { from, requested } => "encounter "@ + decimal(requested as nat)
            + " is unavailable from encounter "@ + decimal(from as nat),
        ContractMapError::ZoneSealed { requested, zone } => "encounter "@ + decimal(requested as nat) + " is in zone "@
            + decimal(zone as nat + 1) + " and stays sealed until this zone's boss is beaten"@,
    }
}

impl ContractMapError {
    /// The message for this error, as the player reads it. Zones are counted
    /// from 1 here, the way the player counts them.
    pub fn message(&self) -> (text: String)
        requires
            self matches ContractMapError::ZoneSealed { zone, .. } ==> zone < u64::MAX,
        ensures
            text@ == contract_error_message(*self),
    {
        match self {
            ContractMapError::EmptyMap => String::from_str("the contract map contains no encounters"),
            ContractMapError::DuplicateNode(id) => number_between("encounter ", *id as u64, " appears more than once"),
            ContractMapError::DuplicateConnection { from, to } => {
                let mut text = number_between("encounter ", *from as u64, " links to encounter ");
                push_decimal(&mut text, *to as u64);
                text.append(" more than once");
                text
            },
            ContractMapError::UnknownStartNode(id) => number_between("starting encounter ", *id as u64, " does not exist"),
            ContractMapError::UnknownConnection { from, to } => {
                let mut text = number_between("encounter ", *from as u64, " leads to missing encounter ");
                push_decimal(&mut text, *to as u64);
                text
            },
            ContractMapError::CyclicGraph => String::from_str("the contract map contains a cycle"),
            ContractMapError::EncounterAlreadyInProgress(id) => number_between(
                "encounter ",
                *id as u64,
                " is already in progress; another route cannot be chosen",
            ),
            ContractMapError::NoEncounterInProgress => String::from_str("there is no active map encounter"),
            ContractMapError::EncounterNotReachable { from, requested } => {
                let mut text = number_between("encounter ", *requested as u64, " is unavailable from encounter ");
                push_decimal(&mut text, *from as u64);
                text
            },
            ContractMapError::ZoneSealed { requested, zone } => {
                let mut text = number_between("encounter ", *requested as u64, " is in zone ");
                push_decimal(&mut text, *zone as u64 + 1);
                text.append(" and stays sealed until this zone's boss is beaten");
                text
            },
        }
    }
}

// ---------------------------------------------------------------------------
// Lemmas about the graph.
// ---------------------------------------------------------------------------

/// In a graph with increasing ids, each id names one index.
proof fn lemma_unique_index(g: Seq<NodeView>, i: int, j: int)
    requires
        ids_increasing(g),
        0 <= i < g.len(),
        0 <= j < g.len(),
        g[i].id == g[j].id,
    ensures
        i == j,
{
    if i < j {
        assert(g[i].id < g[j].id);
    } else if j < i {
        assert(g[j].id < g[i].id);
    }
}

/// Two arrangements of the same nodes have the same nodes and edges.
proof fn lemma_same_nodes_same_graph(a: Seq<NodeView>, b: Seq<NodeView>)
    requires
        same_nodes(a, b),
    ensures
        forall|id: NodeId| has_node(a, id) <==> has_node(b, id),
        forall|from: NodeId, to: NodeId| is_edge(a, from, to) <==> is_edge(b, from, to),
        is_acyclic(a) <==> is_acyclic(b),
{
    assert forall|id: NodeId| has_node(a, id) implies has_node(b, id) by {
        let i = choose|i: int| 0 <= i < a.len() && #[trigger] a[i].id == id;
        assert(b.contains(a[i]));
        let j = b.index_of(a[i]);
        assert(b[j].id == id);
    }
    assert forall|id: NodeId| has_node(b, id) implies has_node(a, id) by {
        let i = choose|i: int| 0 <= i < b.len() && #[trigger] b[i].id == id;
        assert(a.contains(b[i]));
        let j = a.index_of(b[i]);
        assert(a[j].id == id);
    }
    assert forall|from: NodeId, to: NodeId| is_edge(a, from, to) implies is_edge(b, from, to) by {
        let i = choose|i: int| 0 <= i < a.len() && #[trigger] a[i].id == from && a[i].next.contains(to);
        assert(b.contains(a[i]));
        let j = b.index_of(a[i]);
        assert(b[j].id == from);
    }
    assert forall|from: NodeId, to: NodeId| is_edge(b, from, to) implies is_edge(a, from, to) by {
        let i = choose|i: int| 0 <= i < b.len() && #[trigger] b[i].id == from && b[i].next.contains(to);
        assert(a.contains(b[i]));
        let j = a.index_of(b[i]);
        assert(a[j].id == from);
    }
    if is_acyclic(a) {
        let rank = choose|rank: spec_fn(NodeId) -> int| #[trigger] is_ranking(a, rank);
        assert(is_ranking(b, rank));
    }
    if is_acyclic(b) {
        let rank = choose|rank: spec_fn(NodeId) -> int| #[trigger] is_ranking(b, rank);
        assert(is_ranking(a, rank));
    }
}

// Counting the predecessors of node `j` among indices below `k` that are not
// yet in `done`.
spec fn index_edge(g: Seq<NodeView>, i: int, j: int) -> bool {
    g[i].next.contains(g[j].id)
}

spec fn waiting_preds(g: Seq<NodeView>, j: int, k: int, done: Seq<int>) -> nat
    decreases k,
{
    if k <= 0 {
        0
    } else {
        waiting_preds(g, j, k - 1, done) + if !done.contains(k - 1) && index_edge(g, k - 1, j) {
            1nat
        } else {
            0nat
        }
    }
}

proof fn lemma_waiting_preds_bound(g: Seq<NodeView>, j: int, k: int, done: Seq<int>)
    requires
        0 <= k,
    ensures
        waiting_preds(g, j, k, done) <= k,
    decreases k,
{
    if k > 0 {
        lemma_waiting_preds_bound(g, j, k - 1, done);
    }
}

proof fn lemma_waiting_preds_zero(g: Seq<NodeView>, j: int, k: int, done: Seq<int>)
    requires
        0 <= k,
    ensures
        waiting_preds(g, j, k, done) == 0 <==> forall|i: int|
            0 <= i < k && #[trigger] index_edge(g, i, j) ==> done.contains(i),
    decreases k,
{
    if k > 0 {
        lemma_waiting_preds_zero(g, j, k - 1, done);
    }
}

proof fn lemma_waiting_preds_done(g: Seq<NodeView>, j: int, k: int, done: Seq<int>, u: int)
    requires
        0 <= k,
        !done.contains(u),
    ensures
        waiting_preds(g, j, k, done.push(u)) + if 0 <= u < k && index_edge(g, u, j) {
            1nat
        } else {
            0nat
        } == waiting_preds(g, j, k, done),
    decreases k,
{
    if k > 0 {
        lemma_waiting_preds_done(g, j, k - 1, done, u);
        assert(done.push(u).contains(k - 1) <==> (done.contains(k - 1) || k - 1 == u)) by {
            if done.push(u).contains(k - 1) {
                let p = done.push(u).index_of(k - 1);
                if p < done.len() {
                    assert(done[p] == k - 1);
                }
            }
            if done.contains(k - 1) {
                let p = done.index_of(k - 1);
                assert(done.push(u)[p] == k - 1);
            }
            if k - 1 == u {
                assert(done.push(u)[done.len() as int] == u);
            }
        }
    }
}

// ---------------------------------------------------------------------------
// Executable helpers over the node list.
// ---------------------------------------------------------------------------

/// Where the node with `id` sits in `nodes`, if it is there.
fn find_index(nodes: &Vec<EncounterNode>, id: NodeId) -> (found: Option<usize>)
    ensures
        match found {
            Some(i) => i < nodes@.len() && nodes@[i as int]@.id == id,
            None => !has_node(views(nodes@), id),
        },
{
    let mut i: usize = 0;
    while i < nodes.len()
        invariant
            i <= nodes@.len(),
            forall|q: int| 0 <= q < i ==> nodes@[q]@.id != id,
        decreases nodes@.len() - i,
    {
        if nodes[i].id == id {
            return Some(i);
        }
        i += 1;
    }
    proof {
        if has_node(views(nodes@), id) {
            let q = choose|q: int| 0 <= q < views(nodes@).len() && #[trigger] views(nodes@)[q].id == id;
            assert(nodes@[q]@.id == id);
        }
    }
    None
}

/// Whether following links can ever lead back to where it began, decided by
/// repeatedly taking away nodes with nothing left leading into them.
fn graph_contains_cycle(nodes: &Vec<EncounterNode>) -> (cyclic: bool)
    requires
        ids_increasing(views(nodes@)),
        links_valid(views(nodes@)),
    ensures
        cyclic == !is_acyclic(views(nodes@)),
{
    let ghost g = views(nodes@);
    let n = nodes.len();
    let mut incoming: Vec<usize> = Vec::new();
    while incoming.len() < n
        invariant
            incoming@.len() <= n,
            forall|j: int| 0 <= j < incoming@.len() ==> incoming@[j] == 0,
        decreases n - incoming@.len(),
    {
        incoming.push(0);
    }
    proof {
        assert forall|j: int| 0 <= j < n implies incoming@[j] == waiting_preds(g, j, 0, Seq::empty()) by {}
    }
    let mut i: usize = 0;
    while i < n
        invariant
            g == views(nodes@),
            n == nodes@.len(),
            ids_increasing(g),
            links_valid(g),
            i <= n,
            incoming@.len() == n,
            forall|j: int| 0 <= j < n ==> incoming@[j] == waiting_preds(g, j, i as int, Seq::empty()),
        decreases n - i,
    {
        let next = &nodes[i].next_nodes;
        let ghost row = g[i as int];
        assert(row.next == next@);
        let mut k: usize = 0;
        while k < next.len()
            invariant
                g == views(nodes@),
                n == nodes@.len(),
                ids_increasing(g),
                links_valid(g),
                i < n,
                row == g[i as int],
                row.next == next@,
                k <= next@.len(),
                incoming@.len() == n,
                forall|j: int|
                    0 <= j < n ==> incoming@[j] == waiting_preds(g, j, i as int, Seq::empty()) + if next@.take(k as int).contains(g[j].id) {
                        1nat
                    } else {
                        0nat
                    },
            decreases next@.len() - k,
        {
            let target = next[k];
            assert(has_node(g, row.next[k as int]));
            let found = find_index(nodes, target);
            let j = match found {
                Some(j) => j,
                None => {
                    assert(false);
                    0
                },
            };
            proof {
                lemma_waiting_preds_bound(g, j as int, i as int, Seq::empty());
                if next@.take(k as int).contains(g[j as int].id) {
                    let p = next@.take(k as int).index_of(g[j as int].id);
                    assert(next@[p] == next@[k as int]);
                }
                assert forall|q: int| 0 <= q < n implies (next@.take(k + 1).contains(g[q].id) <==> (
                next@.take(k as int).contains(g[q].id) || q == j)) by {
                    if next@.take(k + 1).contains(g[q].id) {
                        let p = next@.take(k + 1).index_of(g[q].id);
                        if p == k {
                            lemma_unique_index(g, q, j as int);
                        } else {
                            assert(next@.take(k as int)[p] == g[q].id);
                        }
                    }
                    if next@.take(k as int).contains(g[q].id) {
                        let p = next@.take(k as int).index_of(g[q].id);
                        assert(next@.take(k + 1)[p] == g[q].id);
                    }
                    if q == j {
                        assert(next@.take(k + 1)[k as int] == g[q].id);
                    }
                }
            }
            let count = incoming[j];
            incoming.set(j, count + 1);
            k += 1;
        }
        proof {
            assert(next@.take(next@.len() as int) =~= next@);
            assert forall|j: int| 0 <= j < n implies incoming@[j] == waiting_preds(
                g,
                j,
                i + 1,
                Seq::empty(),
            ) by {
                assert(index_edge(g, i as int, j) == next@.contains(g[j].id));
            }
        }
        i += 1;
    }
    let mut stack: Vec<usize> = Vec::new();
    let mut j: usize = 0;
    while j < n
        invariant
            j <= n,
            incoming@.len() == n,
            stack@.no_duplicates(),
            forall|q: int| 0 <= q < stack@.len() ==> #[trigger] stack@[q] < j,
            forall|q: int| 0 <= q < j ==> (stack@.contains(q as usize) <==> incoming@[q] == 0),
        decreases n - j,
    {
        let ghost before = stack@;
        if incoming[j] == 0 {
            stack.push(j);
        }
        proof {
            assert forall|q: int| 0 <= q <= j implies (#[trigger] stack@.contains(q as usize) <==> incoming@[q] == 0) by {
                if stack@.contains(q as usize) && q < j {
                    let p = stack@.index_of(q as usize);
                    if p < before.len() {
                        assert(before[p] == q);
                    }
                }
                if before.contains(q as usize) {
                    let p = before.index_of(q as usize);
                    assert(stack@[p] == q);
                }
                if q == j && incoming@[q] == 0 {
                    assert(stack@[stack@.len() - 1] == q);
                }
                if q == j && stack@.contains(q as usize) {
                    let p = stack@.index_of(q as usize);
                    if p < before.len() {
                        assert(before[p] < j);
                    }
                }
            }
        }
        j += 1;
    }
    proof {
        assert forall|p: int, q: int|
            0 <= p < n && 0 <= q < n && #[trigger] index_edge(g, p, q) && stack@.contains(q as usize)
            implies false by {
            assert(incoming@[q] == 0);
            assert(incoming@[q] == waiting_preds(g, q, n as int, Seq::empty()));
            lemma_waiting_preds_zero(g, q, n as int, Seq::empty());
            assert(!Seq::<int>::empty().contains(p));
        }
    }
    let ghost mut order: Seq<int> = Seq::empty();
    let ghost mut time: Seq<int> = Seq::new(n as nat, |q: int| 0);
    let mut visited: usize = 0;
    while stack.len() > 0
        invariant
            g == views(nodes@),
            n == nodes@.len(),
            ids_increasing(g),
            links_valid(g),
            incoming@.len() == n,
            time.len() == n,
            visited == order.len(),
            visited <= n,
            order.no_duplicates(),
            forall|q: int| 0 <= q < order.len() ==> 0 <= #[trigger] order[q] < n,
            stack@.no_duplicates(),
            forall|q: int| 0 <= q < stack@.len() ==> #[trigger] stack@[q] < n,
            forall|q: int| 0 <= q < stack@.len() ==> !order.contains(#[trigger] stack@[q] as int),
            forall|q: int| 0 <= q < n ==> incoming@[q] == waiting_preds(g, q, n as int, order),
            forall|q: int|
                0 <= q < n ==> ((stack@.contains(q as usize) || order.contains(q)) <==> incoming@[q] == 0),
            forall|q: int| 0 <= q < n && order.contains(q) ==> time[q] < visited,
            forall|p: int, q: int|
                0 <= p < n && 0 <= q < n && #[trigger] index_edge(g, p, q) && (stack@.contains(
                    q as usize,
                ) || order.contains(q)) ==> order.contains(p) && (order.contains(q) ==> time[p]
                    < time[q]),
        decreases n - visited,
    {
        let ghost old_stack = stack@;
        let u = stack.pop().unwrap();
        let ghost old_order = order;
        proof {
            assert(old_stack[old_stack.len() - 1] == u);
            assert(old_stack.contains(u));
            assert forall|q: int| 0 <= q < n implies (#[trigger] old_stack.contains(q as usize) <==> (stack@.contains(q as usize) || q == u)) by {
                if old_stack.contains(q as usize) {
                    let p = old_stack.index_of(q as usize);
                    if p < stack@.len() {
                        assert(stack@[p] == q);
                    }
                }
                if stack@.contains(q as usize) {
                    let p = stack@.index_of(q as usize);
                    assert(old_stack[p] == q);
                }
            }
            assert(!stack@.contains(u)) by {
                if stack@.contains(u) {
                    let p = stack@.index_of(u);
                    assert(old_stack[p] == u);
                    assert(old_stack[old_stack.len() - 1] == u);
                }
            }
            lemma_waiting_preds_zero(g, u as int, n as int, old_order);
            assert(!index_edge(g, u as int, u as int));
            lemma_distinct_indices(order.push(u as int), n as int);
            assert(order.push(u as int).len() <= n) by {
                assert forall|q: int| 0 <= q < order.push(u as int).len() implies 0 <= #[trigger] order.push(
                    u as int,
                )[q] < n by {
                    if q < order.len() {
                    }
                }
            }
            time = time.update(u as int, visited as int);
            order = order.push(u as int);
            assert(order[order.len() - 1] == u);
            assert forall|q: int| 0 <= q < n implies (#[trigger] order.contains(q) <==> (old_order.contains(q) || q == u)) by {
                if order.contains(q) {
                    let p = order.index_of(q);
                    if p < old_order.len() {
                        assert(old_order[p] == q);
                    }
                }
                if old_order.contains(q) {
                    let p = old_order.index_of(q);
                    assert(order[p] == q);
                }
            }
            assert forall|q: int| 0 <= q < n implies incoming@[q] == waiting_preds(g, q, n as int, order)
                + if index_edge(g, u as int, q) {
                1nat
            } else {
                0nat
            } by {
                lemma_waiting_preds_done(g, q, n as int, old_order, u as int);
            }
        }
        visited += 1;
        let next = &nodes[u].next_nodes;
        let ghost row = g[u as int];
        assert(row.next == next@);
        let mut k: usize = 0;
        while k < next.len()
            invariant
                g == views(nodes@),
                n == nodes@.len(),
                ids_increasing(g),
                links_valid(g),
                u < n,
                row == g[u as int],
                row.next == next@,
                k <= next@.len(),
                incoming@.len() == n,
                time.len() == n,
                visited == order.len(),
                visited <= n,
                order.no_duplicates(),
                order.contains(u as int),
                forall|q: int| 0 <= q < order.len() ==> 0 <= #[trigger] order[q] < n,
                stack@.no_duplicates(),
                forall|q: int| 0 <= q < stack@.len() ==> #[trigger] stack@[q] < n,
                forall|q: int| 0 <= q < stack@.len() ==> !order.contains(#[trigger] stack@[q] as int),
                forall|q: int|
                    0 <= q < n ==> incoming@[q] == waiting_preds(g, q, n as int, order) + if index_edge(
                        g,
                        u as int,
                        q,
                    ) && !next@.take(k as int).contains(g[q].id) {
                        1nat
                    } else {
                        0nat
                    },
                forall|q: int|
                    0 <= q < n ==> ((stack@.contains(q as usize) || order.contains(q)) <==> incoming@[q]
                        == 0),
                forall|q: int| 0 <= q < n && order.contains(q) ==> time[q] < visited,
                forall|p: int, q: int|
                    0 <= p < n && 0 <= q < n && #[trigger] index_edge(g, p, q) && (stack@.contains(
                        q as usize,
                    ) || order.contains(q)) ==> order.contains(p) && (order.contains(q) ==> time[p]
                        < time[q]),
            decreases next@.len() - k,
        {
            let target = next[k];
            assert(has_node(g, row.next[k as int]));
            let found = find_index(nodes, target);
            let j = match found {
                Some(j) => j,
                None => {
                    assert(false);
                    0
                },
            };
            proof {
                assert(index_edge(g, u as int, j as int));
                if next@.take(k as int).contains(g[j as int].id) {
                    let p = next@.take(k as int).index_of(g[j as int].id);
                    assert(next@[p] == next@[k as int]);
                }
                assert forall|q: int| 0 <= q < n implies (next@.take(k + 1).contains(g[q].id) <==> (
                next@.take(k as int).contains(g[q].id) || q == j)) by {
                    if next@.take(k + 1).contains(g[q].id) {
                        let p = next@.take(k + 1).index_of(g[q].id);
                        if p == k {
                            lemma_unique_index(g, q, j as int);
                        } else {
                            assert(next@.take(k as int)[p] == g[q].id);
                        }
                    }
                    if next@.take(k as int).contains(g[q].id) {
                        let p = next@.take(k as int).index_of(g[q].id);
                        assert(next@.take(k + 1)[p] == g[q].id);
                    }
                    if q == j {
                        assert(next@.take(k + 1)[k as int] == g[q].id);
                    }
                }
            }
            let count = incoming[j];
            assert(count == waiting_preds(g, j as int, n as int, order) + 1);
            assert(!order.contains(j as int) && !stack@.contains(j));
            incoming.set(j, count - 1);
            let ghost mid_stack = stack@;
            if count - 1 == 0 {
                proof {
                    lemma_waiting_preds_zero(g, j as int, n as int, order);
                }
                stack.push(j);
            }
            proof {
                assert forall|q: int| 0 <= q < n implies (#[trigger] stack@.contains(q as usize) <==> (mid_stack.contains(q as usize) || (q == j && count - 1 == 0))) by {
                    if stack@.contains(q as usize) {
                        let p = stack@.index_of(q as usize);
                        if p < mid_stack.len() {
                            assert(mid_stack[p] == q);
                        }
                    }
                    if mid_stack.contains(q as usize) {
                        let p = mid_stack.index_of(q as usize);
                        assert(stack@[p] == q);
                    }
                    if q == j && count - 1 == 0 {
                        assert(stack@[stack@.len() - 1] == q);
                    }
                }
                if count - 1 == 0 {
                    lemma_waiting_preds_zero(g, j as int, n as int, order);
                }
            }
            k += 1;
        }
        proof {
            assert(next@.take(next@.len() as int) =~= next@);
        }
    }
    proof {
        if visited == n {
            lemma_distinct_indices(order, n as int);
            let rank = |id: NodeId| time[choose|q: int| 0 <= q < n && #[trigger] g[q].id == id];
            assert forall|from: NodeId, to: NodeId| #[trigger] is_edge(g, from, to) implies rank(from)
                < rank(to) by {
                let p = choose|p: int| 0 <= p < g.len() && #[trigger] g[p].id == from && g[p].next.contains(to);
                let kk = g[p].next.index_of(to);
                assert(has_node(g, g[p].next[kk]));
                let q = choose|q: int| 0 <= q < g.len() && #[trigger] g[q].id == to;
                let p2 = choose|q: int| 0 <= q < n && #[trigger] g[q].id == from;
                let q2 = choose|q: int| 0 <= q < n && #[trigger] g[q].id == to;
                lemma_unique_index(g, p, p2);
                lemma_unique_index(g, q, q2);
                assert(index_edge(g, p, q));
                assert(order.contains(q));
            }
            assert(is_ranking(g, rank));
        } else {
            lemma_distinct_indices(order, n as int);
            assert(!(forall|k: int| 0 <= k < n ==> order.contains(k)));
            let missing = choose|k: int| !(0 <= k < n ==> order.contains(k));
            if is_acyclic(g) {
                let rank = choose|rank: spec_fn(NodeId) -> int| #[trigger] is_ranking(g, rank);
                let waiting = |q: int| !order.contains(q);
                let score = |q: int| rank(g[q].id);
                assert(waiting(missing));
                lemma_lowest_scoring(n as int, waiting, score);
                let m = choose|m: int| #![trigger score(m)]
                    0 <= m < n && waiting(m) && (forall|q: int| 0 <= q < n && #[trigger] waiting(q) ==> score(m) <= score(q));
                assert(!stack@.contains(m as usize));
                assert(incoming@[m] != 0);
                lemma_waiting_preds_zero(g, m, n as int, order);
                let p = choose|p: int| 0 <= p < n && #[trigger] index_edge(g, p, m) && !order.contains(p);
                assert(is_edge(g, g[p].id, g[m].id));
                assert(waiting(p));
            }
        }
    }
    visited != n
}


// ---------------------------------------------------------------------------
// The contract itself.
// ---------------------------------------------------------------------------

pub open spec fn strictly_increasing(s: Seq<NodeId>) -> bool {
    forall|i: int, j: int| 0 <= i < j < s.len() ==> #[trigger] s[i] < #[trigger] s[j]
}

/// The state of a contract as the contracts see it.
pub struct ContractView {
    pub nodes: Seq<NodeView>,
    pub start: NodeId,
    pub current: NodeId,
    pub locked: Seq<NodeId>,
    pub active: Option<NodeId>,
    pub completed: Seq<NodeId>,
    pub unlocked_zones: nat,
}

impl ContractView {
    pub open spec fn wf(self) -> bool {
        &&& graph_valid(self.nodes, self.start)
        &&& has_node(self.nodes, self.current)
        &&& strictly_increasing(self.locked)
        &&& strictly_increasing(self.completed)
        &&& (self.active matches Some(active) ==> has_node(self.nodes, active))
    }

    /// A contract on `nodes` that has not been started: the player stands on
    /// `start` with nothing chosen, locked, completed or unlocked.
    pub open spec fn is_fresh(self, nodes: Seq<NodeView>, start: NodeId) -> bool {
        &&& ids_increasing(self.nodes)
        &&& same_nodes(self.nodes, nodes)
        &&& self.start == start
        &&& self.current == start
        &&& self.locked.len() == 0
        &&& self.active is None
        &&& self.completed.len() == 0
        &&& self.unlocked_zones == 0
    }
}

/// No repeated node, something to play, a known start and no bad link: all
/// an authored node list needs besides having no cycle.
pub open spec fn authored_ok_but_cycles(ns: Seq<NodeView>, start: NodeId) -> bool {
    &&& !has_repeated_id(ns)
    &&& ns.len() > 0
    &&& has_node(ns, start)
    &&& !has_bad_link(ns)
}

#[derive(Clone, Debug, PartialEq, Eq)]
pub struct ContractMap {
    nodes: Vec<EncounterNode>,
    /// Where the run began. `current_node` moves as the player advances, so
    /// the entry point is kept separately for drawing the map.
    start_node: NodeId,
    current_node: NodeId,
    locked_nodes: Vec<NodeId>,
    active_node: Option<NodeId>,
    completed_nodes: Vec<NodeId>,
    /// Highest zone the player may enter. Raised only by beating a boss, so
    /// the nodes past one stay sealed however reachable the graph makes them.
    unlocked_zones: usize,
}

impl View for ContractMap {
    type V = ContractView;

    closed spec fn view(&self) -> ContractView {
        ContractView {
            nodes: views(self.nodes@),
            start: self.start_node,
            current: self.current_node,
            locked: self.locked_nodes@,
            active: self.active_node,
            completed: self.completed_nodes@,
            unlocked_zones: self.unlocked_zones as nat,
        }
    }
}

impl ContractMap {
    pub open spec fn wf(&self) -> bool {
        self@.wf()
    }

    /// Builds a contract from authored nodes, refusing a repeated node, an
    /// empty list, an unknown start, a repeated or dangling link, or a cycle,
    /// in that order of checking.
    pub fn new(nodes: Vec<EncounterNode>, start_node: NodeId) -> (result: Result<Self, ContractMapError>)
        ensures
            has_repeated_id(views(nodes@)) ==> exists|j: int|
                is_first_repeat(views(nodes@), j) && result == Err::<Self, ContractMapError>(
                    ContractMapError::DuplicateNode(#[trigger] views(nodes@)[j].id),
                ),
            !has_repeated_id(views(nodes@)) && nodes@.len() == 0 ==> result == Err::<
                Self,
                ContractMapError,
            >(ContractMapError::EmptyMap),
            !has_repeated_id(views(nodes@)) && nodes@.len() > 0 && !has_node(views(nodes@), start_node)
                ==> result == Err::<Self, ContractMapError>(
                ContractMapError::UnknownStartNode(start_node),
            ),
            !has_repeated_id(views(nodes@)) && nodes@.len() > 0 && has_node(views(nodes@), start_node)
                && has_bad_link(views(nodes@)) ==> exists|i: int, k: int|
                #[trigger] is_first_bad_link(views(nodes@), i, k) && result == Err::<Self, ContractMapError>(
                    bad_link_error(views(nodes@)[i], k),
                ),
            authored_ok_but_cycles(views(nodes@), start_node) && !is_acyclic(views(nodes@))
                ==> result == Err::<Self, ContractMapError>(ContractMapError::CyclicGraph),
            result is Ok <==> (authored_ok_but_cycles(views(nodes@), start_node) && is_acyclic(
                views(nodes@),
            )),
            result matches Ok(map) ==> map.wf() && map@.is_fresh(views(nodes@), start_node),
    {
        let ghost ns = views(nodes@);
        let mut input = nodes;
        let mut node_map: Vec<EncounterNode> = Vec::new();
        let ghost mut taken: int = 0;
        while input.len() > 0
            invariant
                ns == views(nodes@),
                0 <= taken <= ns.len(),
                views(input@) == ns.skip(taken),
                ids_increasing(views(node_map@)),
                same_nodes(views(node_map@), ns.take(taken)),
                forall|k: int| 0 <= k < taken ==> !#[trigger] repeats_earlier_id(ns, k),
            decreases input@.len(),
        {
            let ghost before = views(node_map@);
            let ghost old_input = input@;
            let node = input.remove(0);
            assert(node == old_input[0]);
            assert(views(old_input)[0] == old_input[0]@);
            assert(old_input.len() > 0);
            assert(views(old_input).len() == old_input.len());
            assert(views(old_input)[0] == ns.skip(taken)[0]);
            assert(ns.skip(taken)[0] == ns[taken]);
            assert(node@ == ns[taken]);
            assert(views(input@) =~= views(old_input).drop_first());
            let mut p: usize = 0;
            while p < node_map.len() && node_map[p].id < node.id
                invariant
                    p <= node_map@.len(),
                    forall|q: int| 0 <= q < p ==> node_map@[q]@.id < node@.id,
                decreases node_map@.len() - p,
            {
                p += 1;
            }
            if p < node_map.len() && node_map[p].id == node.id {
                proof {
                    assert(ns.take(taken).contains(before[p as int]));
                    let i = ns.take(taken).index_of(before[p as int]);
                    assert(ns[i].id == ns[taken].id);
                    assert(repeats_earlier_id(ns, taken));
                    assert(is_first_repeat(ns, taken));
                }
                return Err(ContractMapError::DuplicateNode(node.id));
            }
            proof {
                assert(!repeats_earlier_id(ns, taken)) by {
                    if repeats_earlier_id(ns, taken) {
                        let i = choose|i: int| 0 <= i < taken && #[trigger] ns[i].id == ns[taken].id;
                        assert(ns.take(taken)[i] == ns[i]);
                        assert(before.contains(ns[i]));
                        let q = before.index_of(ns[i]);
                        if q < p {
                            assert(node_map@[q]@.id < node@.id);
                        } else if q > p {
                            assert(before[p as int].id < before[q].id);
                            assert(before[p as int].id >= node@.id);
                        }
                    }
                }
            }
            node_map.insert(p, node);
            proof {
                let after = views(node_map@);
                assert(after =~= before.insert(p as int, ns[taken]));
                assert(ns.take(taken + 1) =~= ns.take(taken).push(ns[taken]));
                assert forall|a: int, b: int| 0 <= a < b < after.len() implies #[trigger] after[a].id
                    < #[trigger] after[b].id by {
                    if b < p {
                    } else if b == p {
                    } else if a < p {
                        assert(before[b - 1].id >= node@.id);
                    } else if a == p {
                        assert(before[b - 1].id >= before[p as int].id || b - 1 == p);
                    } else {
                    }
                }
                assert forall|i: int| 0 <= i < after.len() implies ns.take(taken + 1).contains(
                    #[trigger] after[i],
                ) by {
                    if i < p {
                        assert(ns.take(taken).contains(before[i]));
                        let q = ns.take(taken).index_of(before[i]);
                        assert(ns.take(taken + 1)[q] == before[i]);
                    } else if i == p {
                        assert(ns.take(taken + 1)[taken] == ns[taken]);
                    } else {
                        assert(ns.take(taken).contains(before[i - 1]));
                        let q = ns.take(taken).index_of(before[i - 1]);
                        assert(ns.take(taken + 1)[q] == before[i - 1]);
                    }
                }
                assert forall|i: int| 0 <= i < ns.take(taken + 1).len() implies after.contains(
                    #[trigger] ns.take(taken + 1)[i],
                ) by {
                    if i < taken {
                        assert(ns.take(taken)[i] == ns.take(taken + 1)[i]);
                        assert(before.contains(ns.take(taken)[i]));
                        let q = before.index_of(ns.take(taken)[i]);
                        if q < p {
                            assert(after[q] == before[q]);
                        } else {
                            assert(after[q + 1] == before[q]);
                        }
                    } else {
                        assert(after[p as int] == ns[taken]);
                    }
                }
                assert(ns.skip(taken + 1) =~= ns.skip(taken).drop_first());
                taken = taken + 1;
            }
        }
        proof {
            assert(ns.take(taken) =~= ns);
            assert(!has_repeated_id(ns));
        }
        let ghost g = views(node_map@);
        proof {
            lemma_same_nodes_same_graph(g, ns);
        }
        if node_map.len() == 0 {
            return Err(ContractMapError::EmptyMap);
        }
        match find_index(&node_map, start_node) {
            None => {
                return Err(ContractMapError::UnknownStartNode(start_node));
            },
            Some(si) => {
                assert(g[si as int].id == start_node);
            },
        }
        let mut i: usize = 0;
        while i < node_map.len()
            invariant
                ns == views(nodes@),
                !has_repeated_id(ns),
                ns.len() > 0,
                has_node(ns, start_node),
                g == views(node_map@),
                ids_increasing(g),
                same_nodes(g, ns),
                forall|id: NodeId| has_node(g, id) <==> has_node(ns, id),
                i <= g.len(),
                forall|j: int| 0 <= j < i ==> !#[trigger] node_has_bad_link(ns, g[j]),
            decreases g.len() - i,
        {
            let next = &node_map[i].next_nodes;
            let ghost row = g[i as int];
            assert(row.next == next@);
            let mut k: usize = 0;
            while k < next.len()
                invariant
                    ns == views(nodes@),
                    !has_repeated_id(ns),
                    ns.len() > 0,
                    has_node(ns, start_node),
                    g == views(node_map@),
                    ids_increasing(g),
                    same_nodes(g, ns),
                    forall|id: NodeId| has_node(g, id) <==> has_node(ns, id),
                    i < g.len(),
                    row == g[i as int],
                    row.next == next@,
                    k <= next@.len(),
                    forall|j: int| 0 <= j < i ==> !#[trigger] node_has_bad_link(ns, g[j]),
                    forall|q: int| 0 <= q < k ==> !#[trigger] link_is_bad(ns, row, q),
                decreases next@.len() - k,
            {
                let mut p: usize = 0;
                let mut repeated = false;
                while p < k && !repeated
                    invariant
                        k < next@.len(),
                        p <= k,
                        repeated ==> link_repeats(row, k as int),
                        row.next == next@,
                        !repeated ==> forall|q: int| 0 <= q < p ==> next@[q] != next@[k as int],
                    decreases k - p,
                {
                    if next[p] == next[k] {
                        repeated = true;
                        assert(row.next[p as int] == row.next[k as int]);
                    }
                    p += 1;
                }
                let found = find_index(&node_map, next[k]);
                let unknown = found.is_none();
                if let Some(x) = found {
                    assert(g[x as int].id == row.next[k as int]);
                }
                if repeated || unknown {
                    proof {
                        assert(link_is_bad(ns, row, k as int));
                        assert(ns.contains(row));
                        let i0 = ns.index_of(row);
                        assert(ns[i0] == row);
                        assert forall|j: int|
                            0 <= j < ns.len() && #[trigger] node_has_bad_link(ns, ns[j]) implies ns[i0].id
                            <= ns[j].id by {
                            assert(g.contains(ns[j]));
                            let j2 = g.index_of(ns[j]);
                            assert(g[j2] == ns[j]);
                            if j2 < i {
                                assert(!node_has_bad_link(ns, g[j2]));
                            } else if j2 > i {
                                assert(g[i as int].id < g[j2].id);
                            }
                        }
                        assert(is_first_bad_link(ns, i0, k as int));
                        assert(node_has_bad_link(ns, ns[i0]));
                        assert(has_bad_link(ns));
                        if !repeated {
                            assert(!link_repeats(row, k as int)) by {
                                if link_repeats(row, k as int) {
                                    let q = choose|q: int| 0 <= q < k && #[trigger] row.next[q] == row.next[k as int];
                                    assert(next@[q] != next@[k as int]);
                                }
                            }
                        }
                    }
                    if repeated {
                        return Err(
                            ContractMapError::DuplicateConnection { from: node_map[i].id, to: next[k] },
                        );
                    } else {
                        return Err(
                            ContractMapError::UnknownConnection { from: node_map[i].id, to: next[k] },
                        );
                    }
                }
                proof {
                    assert(!link_repeats(row, k as int)) by {
                        if link_repeats(row, k as int) {
                            let q = choose|q: int| 0 <= q < k && #[trigger] row.next[q] == row.next[k as int];
                            assert(next@[q] != next@[k as int]);
                        }
                    }
                    assert(has_node(g, row.next[k as int]));
                }
                k += 1;
            }
            proof {
                assert(!node_has_bad_link(ns, row)) by {
                    if node_has_bad_link(ns, row) {
                        let q = choose|q: int| #[trigger] link_is_bad(ns, row, q);
                    }
                }
            }
            i += 1;
        }
        proof {
            assert(!has_bad_link(ns)) by {
                if has_bad_link(ns) {
                    let j = choose|j: int| 0 <= j < ns.len() && #[trigger] node_has_bad_link(ns, ns[j]);
                    assert(g.contains(ns[j]));
                    let j2 = g.index_of(ns[j]);
                    assert(g[j2] == ns[j]);
                }
            }
            assert forall|a: int| 0 <= a < g.len() implies (#[trigger] g[a]).next.no_duplicates() by {
                assert forall|x: int, y: int| 0 <= x < y < g[a].next.len() implies g[a].next[x]
                    != g[a].next[y] by {
                    assert(!node_has_bad_link(ns, g[a]));
                    assert(!link_is_bad(ns, g[a], y));
                }
            }
            assert forall|a: int, k: int|
                0 <= a < g.len() && 0 <= k < g[a].next.len() implies has_node(
                g,
                #[trigger] g[a].next[k],
            ) by {
                assert(!node_has_bad_link(ns, g[a]));
                assert(!link_is_bad(ns, g[a], k));
            }
            assert(links_valid(g));
        }
        if graph_contains_cycle(&node_map) {
            return Err(ContractMapError::CyclicGraph);
        }
        let map = ContractMap {
            nodes: node_map,
            start_node,
            current_node: start_node,
            locked_nodes: Vec::new(),
            active_node: None,
            completed_nodes: Vec::new(),
            unlocked_zones: 0,
        };
        Ok(map)
    }
}

// ---------------------------------------------------------------------------
// Routes and depths.
// ---------------------------------------------------------------------------

/// `path` follows links from its first node to its last.
pub open spec fn is_route(g: Seq<NodeView>, path: Seq<NodeId>) -> bool {
    &&& path.len() >= 1
    &&& forall|i: int| 0 < i < path.len() ==> is_edge(g, path[i - 1], #[trigger] path[i])
}

pub open spec fn route_from(g: Seq<NodeView>, start: NodeId, path: Seq<NodeId>) -> bool {
    is_route(g, path) && path[0] == start
}

pub open spec fn reaches(g: Seq<NodeView>, start: NodeId, id: NodeId) -> bool {
    exists|path: Seq<NodeId>| #[trigger] route_from(g, start, path) && path.last() == id
}

/// `depth` edges is the longest way from `start` to `id`.
pub open spec fn is_longest_depth(g: Seq<NodeView>, start: NodeId, id: NodeId, depth: nat) -> bool {
    &&& exists|path: Seq<NodeId>|
        #[trigger] route_from(g, start, path) && path.last() == id && path.len() == depth + 1
    &&& forall|path: Seq<NodeId>|
        #[trigger] route_from(g, start, path) && path.last() == id ==> path.len() <= depth + 1
}

/// How far `id` sits from `start`, along the longest route that reaches it;
/// a node no route reaches sits at 0.
pub open spec fn depth_of(g: Seq<NodeView>, start: NodeId, id: NodeId) -> nat {
    if reaches(g, start, id) {
        choose|depth: nat| is_longest_depth(g, start, id, depth)
    } else {
        0
    }
}

pub open spec fn index_of_id(g: Seq<NodeView>, id: NodeId) -> int {
    choose|i: int| 0 <= i < g.len() && #[trigger] g[i].id == id
}

proof fn lemma_index_of_id(g: Seq<NodeView>, i: int)
    requires
        ids_increasing(g),
        0 <= i < g.len(),
    ensures
        index_of_id(g, g[i].id) == i,
{
    let j = index_of_id(g, g[i].id);
    lemma_unique_index(g, i, j);
}

proof fn lemma_route_rank(g: Seq<NodeView>, rank: spec_fn(NodeId) -> int, path: Seq<NodeId>, a: int, b: int)
    requires
        is_ranking(g, rank),
        is_route(g, path),
        0 <= a < b < path.len(),
    ensures
        rank(path[a]) < rank(path[b]),
    decreases b - a,
{
    assert(is_edge(g, path[b - 1], path[b]));
    if a < b - 1 {
        lemma_route_rank(g, rank, path, a, b - 1);
    }
}

proof fn lemma_route_present(g: Seq<NodeView>, start: NodeId, path: Seq<NodeId>, i: int)
    requires
        graph_valid(g, start),
        route_from(g, start, path),
        0 <= i < path.len(),
    ensures
        has_node(g, path[i]),
{
    if i > 0 {
        assert(is_edge(g, path[i - 1], path[i]));
        let q = choose|q: int| 0 <= q < g.len() && #[trigger] g[q].id == path[i - 1] && g[q].next.contains(path[i]);
        let k = g[q].next.index_of(path[i]);
        assert(has_node(g, g[q].next[k]));
    }
}

/// A route through an acyclic graph never visits a node twice, so it holds at
/// most as many nodes as the graph.
proof fn lemma_route_length(g: Seq<NodeView>, start: NodeId, path: Seq<NodeId>)
    requires
        graph_valid(g, start),
        route_from(g, start, path),
    ensures
        path.len() <= g.len(),
{
    let rank = choose|rank: spec_fn(NodeId) -> int| #[trigger] is_ranking(g, rank);
    let positions = Seq::new(path.len(), |i: int| index_of_id(g, path[i]));
    assert forall|i: int| 0 <= i < positions.len() implies 0 <= #[trigger] positions[i] < g.len()
        && g[positions[i]].id == path[i] by {
        lemma_route_present(g, start, path, i);
    }
    assert(positions.no_duplicates()) by {
        assert forall|a: int, b: int| 0 <= a < b < positions.len() implies positions[a] != positions[b] by {
            lemma_route_rank(g, rank, path, a, b);
        }
    }
    lemma_distinct_indices(positions, g.len() as int);
}

proof fn lemma_route_extend(g: Seq<NodeView>, start: NodeId, path: Seq<NodeId>, next: NodeId)
    requires
        route_from(g, start, path),
        is_edge(g, path.last(), next),
    ensures
        route_from(g, start, path.push(next)),
{
    let longer = path.push(next);
    assert forall|i: int| 0 < i < longer.len() implies is_edge(g, longer[i - 1], #[trigger] longer[i]) by {
        if i < path.len() {
            assert(longer[i] == path[i]);
            assert(longer[i - 1] == path[i - 1]);
        }
    }
}

proof fn lemma_route_prefix(g: Seq<NodeView>, start: NodeId, path: Seq<NodeId>, m: int)
    requires
        route_from(g, start, path),
        1 <= m <= path.len(),
    ensures
        route_from(g, start, path.take(m)),
{
    let short = path.take(m);
    assert forall|i: int| 0 < i < short.len() implies is_edge(g, short[i - 1], #[trigger] short[i]) by {
        assert(short[i] == path[i]);
        assert(is_edge(g, path[i - 1], path[i]));
    }
}

proof fn lemma_longest_unique(g: Seq<NodeView>, start: NodeId, id: NodeId, depth: nat)
    requires
        is_longest_depth(g, start, id, depth),
    ensures
        reaches(g, start, id),
        depth_of(g, start, id) == depth,
{
    let witness = choose|path: Seq<NodeId>|
        #[trigger] route_from(g, start, path) && path.last() == id && path.len() == depth + 1;
    assert(reaches(g, start, id));
    let other = choose|d: nat| is_longest_depth(g, start, id, d);
    let other_path = choose|path: Seq<NodeId>|
        #[trigger] route_from(g, start, path) && path.last() == id && path.len() == other + 1;
}

/// Every depth recorded in `before` is still recorded, at least as deep.
spec fn grows(before: Seq<Option<usize>>, after: Seq<Option<usize>>) -> bool {
    &&& before.len() == after.len()
    &&& forall|j: int| 0 <= j < before.len() && #[trigger] before[j] is Some ==> (after[j] matches Some(e) && e >= before[j]->0)
}

proof fn lemma_raise_keeps_sound(g: Seq<NodeView>, start: NodeId, before: Seq<Option<usize>>, j: int, value: usize)
    requires
        depths_sound(g, start, before),
        0 <= j < before.len(),
        route_of_length(g, start, g[j].id, value + 1),
    ensures
        depths_sound(g, start, before.update(j, Some(value))),
{
    let after = before.update(j, Some(value));
    assert forall|q: int| 0 <= q < after.len() && #[trigger] after[q] is Some implies route_of_length(g, start, g[q].id, after[q]->0 + 1) by {
        if q != j {
            assert(before[q] is Some);
        }
    }
}

proof fn lemma_raise_grows(initial: Seq<Option<usize>>, before: Seq<Option<usize>>, j: int, value: usize)
    requires
        grows(initial, before),
        0 <= j < before.len(),
        before[j] matches Some(e) ==> value > e,
    ensures
        grows(initial, before.update(j, Some(value))),
{
    let after = before.update(j, Some(value));
    assert forall|q: int| 0 <= q < initial.len() && #[trigger] initial[q] is Some implies (after[q] matches Some(e) && e >= initial[q]->0) by {
        assert(before[q] is Some);
    }
}

/// The depth recorded for the node at the end of `path` accounts for it.
spec fn covers(g: Seq<NodeView>, depths: Seq<Option<usize>>, path: Seq<NodeId>) -> bool {
    depths[index_of_id(g, path.last())] matches Some(d) && path.len() <= d + 1
}

/// Some route of `len` nodes leads from `start` to `id`.
#[verifier::opaque]
spec fn route_of_length(g: Seq<NodeView>, start: NodeId, id: NodeId, len: int) -> bool {
    exists|path: Seq<NodeId>| #[trigger] route_from(g, start, path) && path.last() == id && path.len() == len
}

/// Every recorded depth is the length of a real route.
spec fn depths_sound(g: Seq<NodeView>, start: NodeId, depths: Seq<Option<usize>>) -> bool {
    forall|j: int|
        0 <= j < depths.len() && #[trigger] depths[j] is Some ==> route_of_length(g, start, g[j].id, depths[j]->0 + 1)
}

proof fn lemma_sound_bound(g: Seq<NodeView>, start: NodeId, depths: Seq<Option<usize>>, j: int)
    requires
        graph_valid(g, start),
        depths.len() == g.len(),
        depths_sound(g, start, depths),
        0 <= j < depths.len(),
        depths[j] is Some,
    ensures
        depths[j]->0 < g.len(),
{
    assert(route_of_length(g, start, g[j].id, depths[j]->0 + 1));
    reveal(route_of_length);
    let path = choose|path: Seq<NodeId>|
        #[trigger] route_from(g, start, path) && path.last() == g[j].id && path.len() == depths[j]->0 + 1;
    lemma_route_length(g, start, path);
}

/// Once relaxing every link changes nothing, every route is accounted for.
proof fn lemma_fixpoint_covers(g: Seq<NodeView>, start: NodeId, depths: Seq<Option<usize>>, path: Seq<NodeId>)
    requires
        graph_valid(g, start),
        depths.len() == g.len(),
        depths[index_of_id(g, start)] is Some,
        forall|i: int, k: int|
            0 <= i < g.len() && depths[i] is Some && 0 <= k < g[i].next.len() ==> (#[trigger] depths[index_of_id(g, #[trigger] g[i].next[k])] matches Some(e) && e >= depths[i]->0 + 1),
        route_from(g, start, path),
    ensures
        covers(g, depths, path),
    decreases path.len(),
{
    if path.len() > 1 {
        let prefix = path.drop_last();
        lemma_route_prefix(g, start, path, path.len() - 1);
        assert(prefix =~= path.take(path.len() - 1));
        lemma_fixpoint_covers(g, start, depths, prefix);
        let last = path.len() - 1;
        assert(is_edge(g, path[last - 1], path[last]));
        let q = choose|q: int| 0 <= q < g.len() && #[trigger] g[q].id == path[last - 1] && g[q].next.contains(path[last]);
        lemma_route_present(g, start, path, last - 1);
        let i = index_of_id(g, path[last - 1]);
        lemma_unique_index(g, q, i);
        let k = g[q].next.index_of(path[last]);
        assert(g[i].next[k] == path[last]);
    }
}

impl ContractMap {
    /// Position of the node with `id`, which a valid contract always has.
    fn position_of(&self, id: NodeId) -> (position: usize)
        requires
            self.wf(),
            has_node(self@.nodes, id),
        ensures
            position < self@.nodes.len(),
            self@.nodes[position as int].id == id,
            position == index_of_id(self@.nodes, id),
    {
        let found = find_index(&self.nodes, id);
        match found {
            Some(position) => {
                proof {
                    lemma_index_of_id(self@.nodes, position as int);
                }
                position
            },
            None => {
                assert(false);
                0
            },
        }
    }

    /// Raises every node `position` links to so that it sits at least one
    /// past `depth`, the depth recorded for `position`.
    #[verifier::rlimit(100)]
    fn relax_links(&self, depths: &mut Vec<Option<usize>>, position: usize, depth: usize) -> (raised: bool)
        requires
            self.wf(),
            old(depths)@.len() == self@.nodes.len(),
            position < self@.nodes.len(),
            old(depths)@[position as int] == Some(depth),
            depths_sound(self@.nodes, self@.start, old(depths)@),
        ensures
            final(depths)@.len() == self@.nodes.len(),
            depths_sound(self@.nodes, self@.start, final(depths)@),
            grows(old(depths)@, final(depths)@),
            !raised ==> final(depths)@ == old(depths)@,
            forall|k: int| 0 <= k < self@.nodes[position as int].next.len() ==> (final(depths)@[index_of_id(self@.nodes, #[trigger] self@.nodes[position as int].next[k])] matches Some(e) && e >= depth + 1),
    {
        let ghost g = self@.nodes;
        let ghost start = self@.start;
        let ghost initial = depths@;
        proof {
            lemma_sound_bound(g, start, depths@, position as int);
            assert(depths@[position as int] is Some);
            assert(depth < g.len());
            assert(g.len() == self.nodes@.len());
        }
        let node_count = self.nodes.len();
        assert(depth < node_count);
        let candidate = depth + 1;
        let next = &self.nodes[position].next_nodes;
        let ghost row = g[position as int];
        assert(row.next == next@);
        let mut raised = false;
        let mut k: usize = 0;
        while k < next.len()
            invariant
                self.wf(),
                g == self@.nodes,
                start == self@.start,
                depths@.len() == g.len(),
                position < g.len(),
                row == g[position as int],
                row.next == next@,
                k <= next@.len(),
                candidate == depth + 1,
                route_of_length(g, start, g[position as int].id, depth + 1),
                depths_sound(g, start, depths@),
                grows(initial, depths@),
                !raised ==> depths@ == initial,
                forall|q: int| 0 <= q < k ==> (depths@[index_of_id(g, #[trigger] row.next[q])] matches Some(e) && e >= candidate),
            decreases next@.len() - k,
        {
            let target = next[k];
            proof {
                assert(has_node(g, row.next[k as int]));
            }
            let j = self.position_of(target);
            let existing = depths[j];
            let raise = match existing {
                None => true,
                Some(e) => candidate > e,
            };
            if raise {
                proof {
                    reveal(route_of_length);
                    let path = choose|path: Seq<NodeId>| #[trigger] route_from(g, start, path) && path.last() == g[position as int].id && path.len() == depth + 1;
                    assert(is_edge(g, path.last(), target));
                    lemma_route_extend(g, start, path, target);
                    assert(route_from(g, start, path.push(target)));
                    assert(route_of_length(g, start, g[j as int].id, candidate + 1));
                    lemma_raise_keeps_sound(g, start, depths@, j as int, candidate);
                    lemma_raise_grows(initial, depths@, j as int, candidate);
                }
                depths.set(j, Some(candidate));
                raised = true;
            }
            proof {
                assert(depths@[j as int] matches Some(e) && e >= candidate);
                assert forall|q: int| 0 <= q < k + 1 implies (depths@[index_of_id(g, #[trigger] row.next[q])] matches Some(e) && e >= candidate) by {
                    if q == k {
                        assert(row.next[q] == target);
                    }
                }
            }
            k += 1;
        }
        raised
    }

    /// One pass relaxing every link, in node order. Returns whether any
    /// depth moved.
    fn relax_pass(&self, depths: &mut Vec<Option<usize>>, Ghost(pass): Ghost<nat>) -> (changed: bool)
        requires
            self.wf(),
            old(depths)@.len() == self@.nodes.len(),
            old(depths)@[index_of_id(self@.nodes, self@.start)] is Some,
            depths_sound(self@.nodes, self@.start, old(depths)@),
            forall|path: Seq<NodeId>|
                #[trigger] route_from(self@.nodes, self@.start, path) && path.len() <= pass + 1 ==> covers(self@.nodes, old(depths)@, path),
        ensures
            final(depths)@.len() == self@.nodes.len(),
            final(depths)@[index_of_id(self@.nodes, self@.start)] is Some,
            depths_sound(self@.nodes, self@.start, final(depths)@),
            forall|path: Seq<NodeId>|
                #[trigger] route_from(self@.nodes, self@.start, path) && path.len() <= pass + 2 ==> covers(self@.nodes, final(depths)@, path),
            !changed ==> forall|i: int, k: int|
                0 <= i < self@.nodes.len() && final(depths)@[i] is Some && 0 <= k < self@.nodes[i].next.len() ==> (#[trigger] final(depths)@[index_of_id(self@.nodes, #[trigger] self@.nodes[i].next[k])] matches Some(e) && e >= final(depths)@[i]->0 + 1),
    {
        let ghost g = self@.nodes;
        let ghost start = self@.start;
        let ghost at_pass_start = depths@;
        let n = self.nodes.len();
        let mut changed = false;
        let mut i: usize = 0;
        while i < n
            invariant
                self.wf(),
                g == self@.nodes,
                start == self@.start,
                n == g.len(),
                depths@.len() == n,
                i <= n,
                depths@[index_of_id(g, start)] is Some,
                depths_sound(g, start, depths@),
                grows(at_pass_start, depths@),
                forall|path: Seq<NodeId>|
                    #[trigger] route_from(g, start, path) && path.len() <= pass + 1 ==> covers(g, depths@, path),
                forall|path: Seq<NodeId>|
                    #[trigger] route_from(g, start, path) && path.len() == pass + 2 && index_of_id(g, path[path.len() - 2]) < i ==> covers(g, depths@, path),
                !changed ==> depths@ == at_pass_start,
                !changed ==> forall|a: int, k: int|
                    0 <= a < i && depths@[a] is Some && 0 <= k < g[a].next.len() ==> (#[trigger] depths@[index_of_id(g, #[trigger] g[a].next[k])] matches Some(e) && e >= depths@[a]->0 + 1),
            decreases n - i,
        {
            let ghost before = depths@;
            let current = depths[i];
            if let Some(depth) = current {
                let raised = self.relax_links(depths, i, depth);
                if raised {
                    changed = true;
                }
                proof {
                    assert forall|path: Seq<NodeId>|
                        #[trigger] route_from(g, start, path) && path.len() <= pass + 1 implies covers(g, depths@, path) by {
                        assert(covers(g, before, path));
                    }
                    assert forall|path: Seq<NodeId>|
                        #[trigger] route_from(g, start, path) && path.len() == pass + 2 && index_of_id(g, path[path.len() - 2]) < i implies covers(g, depths@, path) by {
                        assert(covers(g, before, path));
                    }
                }
            }
            proof {
                assert forall|path: Seq<NodeId>|
                    #[trigger] route_from(g, start, path) && path.len() == pass + 2 && index_of_id(g, path[path.len() - 2]) == i implies covers(g, depths@, path) by {
                    let last = path.len() - 1;
                    lemma_route_prefix(g, start, path, last);
                    let prefix = path.take(last);
                    assert(prefix.last() == path[last - 1]);
                    assert(covers(g, before, prefix));
                    assert(is_edge(g, path[last - 1], path[last]));
                    let q = choose|q: int| 0 <= q < g.len() && #[trigger] g[q].id == path[last - 1] && g[q].next.contains(path[last]);
                    lemma_route_present(g, start, path, last - 1);
                    lemma_unique_index(g, q, i as int);
                    let kk = g[q].next.index_of(path[last]);
                    assert(g[i as int].next[kk] == path[last]);
                }
            }
            i += 1;
        }
        changed
    }

    /// How far each node sits from the entry, measured along the longest
    /// route that reaches it, in node order; nothing for a node no route
    /// reaches.
    ///
    /// Longest rather than shortest, so a node every branch reconverges on
    /// lands past all of them. Repeatedly relaxing every link settles after
    /// at most one pass per node, because the graph is acyclic.
    fn reached_depths(&self) -> (depths: Vec<Option<usize>>)
        requires
            self.wf(),
        ensures
            depths@.len() == self@.nodes.len(),
            forall|j: int|
                0 <= j < depths@.len() ==> (#[trigger] depths@[j] is Some <==> reaches(
                    self@.nodes,
                    self@.start,
                    self@.nodes[j].id,
                )),
            forall|j: int|
                0 <= j < depths@.len() && #[trigger] depths@[j] is Some ==> depths@[j]->0 == depth_of(
                    self@.nodes,
                    self@.start,
                    self@.nodes[j].id,
                ) && depths@[j]->0 < depths@.len(),
    {
        let ghost g = self@.nodes;
        let ghost start = self@.start;
        let n = self.nodes.len();
        let mut depths: Vec<Option<usize>> = Vec::new();
        while depths.len() < n
            invariant
                depths@.len() <= n,
                forall|j: int| 0 <= j < depths@.len() ==> depths@[j] is None,
            decreases n - depths@.len(),
        {
            depths.push(None);
        }
        let start_position = self.position_of(self.start_node);
        depths.set(start_position, Some(0));
        proof {
            assert forall|j: int| 0 <= j < depths@.len() && #[trigger] depths@[j] is Some implies route_of_length(g, start, g[j].id, depths@[j]->0 + 1) by {
                assert(j == start_position);
                reveal(route_of_length);
                assert(route_from(g, start, seq![start]));
            }
            assert forall|path: Seq<NodeId>| #[trigger] route_from(g, start, path) && path.len() <= 1 implies covers(
                g,
                depths@,
                path,
            ) by {
                assert(path.last() == start);
            }
        }
        let mut pass: usize = 0;
        let mut settled = false;
        while pass < n && !settled
            invariant
                self.wf(),
                g == self@.nodes,
                start == self@.start,
                n == g.len(),
                depths@.len() == n,
                pass <= n,
                depths@[index_of_id(g, start)] is Some,
                depths_sound(g, start, depths@),
                forall|path: Seq<NodeId>|
                    #[trigger] route_from(g, start, path) && path.len() <= pass + 1 ==> covers(g, depths@, path),
                settled ==> forall|i: int, k: int|
                    0 <= i < n && depths@[i] is Some && 0 <= k < g[i].next.len() ==> (#[trigger] depths@[index_of_id(g, #[trigger] g[i].next[k])] matches Some(e) && e >= depths@[i]->0 + 1),
            decreases n - pass + if settled { 0int } else { 1int },
        {
            let changed = self.relax_pass(&mut depths, Ghost(pass as nat));
            if !changed {
                settled = true;
            } else {
                pass += 1;
            }
        }
        proof {
            assert forall|path: Seq<NodeId>| #[trigger] route_from(g, start, path) implies covers(g, depths@, path) by {
                if settled {
                    lemma_fixpoint_covers(g, start, depths@, path);
                } else {
                    lemma_route_length(g, start, path);
                }
            }
        }
        proof {
            assert forall|j: int| 0 <= j < n implies (#[trigger] depths@[j] is Some <==> reaches(g, start, g[j].id)) && (
            depths@[j] is Some ==> depths@[j]->0 == depth_of(g, start, g[j].id) && depths@[j]->0 < n) by {
                lemma_index_of_id(g, j);
                match depths@[j] {
                    Some(d) => {
                        lemma_sound_bound(g, start, depths@, j);
                        assert(route_of_length(g, start, g[j].id, d + 1));
                        reveal(route_of_length);
                        assert forall|path: Seq<NodeId>| #[trigger] route_from(g, start, path) && path.last() == g[j].id implies path.len() <= d + 1 by {
                            assert(covers(g, depths@, path));
                        }
                        assert(is_longest_depth(g, start, g[j].id, d as nat));
                        lemma_longest_unique(g, start, g[j].id, d as nat);
                    },
                    None => {
                        if reaches(g, start, g[j].id) {
                            let path = choose|path: Seq<NodeId>| #[trigger] route_from(g, start, path) && path.last() == g[j].id;
                            assert(covers(g, depths@, path));
                        }
                    },
                }
            }
        }
        depths
    }

    /// How far each node sits from the entry, along the longest route that
    /// reaches it; a node no route reaches still needs somewhere to sit, and
    /// sits at 0.
    pub fn node_depths(&self) -> (depths: Vec<usize>)
        requires
            self.wf(),
        ensures
            depths@.len() == self@.nodes.len(),
            forall|j: int| 0 <= j < depths@.len() ==> #[trigger] depths@[j] < depths@.len(),
            forall|j: int|
                0 <= j < depths@.len() ==> #[trigger] depths@[j] == depth_of(
                    self@.nodes,
                    self@.start,
                    self@.nodes[j].id,
                ),
    {
        let ghost g = self@.nodes;
        let ghost start = self@.start;
        let n = self.nodes.len();
        let reached = self.reached_depths();
        let mut result: Vec<usize> = Vec::new();
        let mut j: usize = 0;
        while j < n
            invariant
                g == self@.nodes,
                start == self@.start,
                n == g.len(),
                reached@.len() == n,
                forall|q: int| 0 <= q < n ==> (#[trigger] reached@[q] is Some <==> reaches(g, start, g[q].id)),
                forall|q: int| 0 <= q < n && #[trigger] reached@[q] is Some ==> reached@[q]->0 == depth_of(g, start, g[q].id)
                    && reached@[q]->0 < n,
                j <= n,
                result@.len() == j,
                forall|q: int| 0 <= q < j ==> #[trigger] result@[q] == depth_of(g, start, g[q].id),
                forall|q: int| 0 <= q < j ==> #[trigger] result@[q] < n,
            decreases n - j,
        {
            let value = match reached[j] {
                Some(d) => d,
                None => 0,
            };
            proof {
                if reached@[j as int] is Some {
                    assert(reached@[j as int]->0 == depth_of(g, start, g[j as int].id));
                }
            }
            result.push(value);
            j += 1;
        }
        result
    }
}

// ---------------------------------------------------------------------------
// Zones.
// ---------------------------------------------------------------------------

/// Some boss that a route from `start` reaches sits at depth `depth`. A boss
/// no route reaches can never be beaten, so it closes no zone.
pub open spec fn is_boss_depth(g: Seq<NodeView>, start: NodeId, depth: int) -> bool {
    exists|i: int|
        0 <= i < g.len() && (#[trigger] g[i]).encounter_type is Boss && reaches(g, start, g[i].id) && depth_of(
            g,
            start,
            g[i].id,
        ) == depth
}

/// The depths, short of `id`'s own, at which a boss sits.
pub open spec fn bosses_before(g: Seq<NodeView>, start: NodeId, id: NodeId) -> Set<int> {
    Set::new(|depth: int| 0 <= depth < depth_of(g, start, id) && is_boss_depth(g, start, depth))
}

/// Which zone `id` sits in, counting from 0: the number of boss columns
/// before it. A zone runs up to and including its boss, so the boss closes
/// the zone it belongs to and the column after it opens the next.
pub open spec fn zone_of(g: Seq<NodeView>, start: NodeId, id: NodeId) -> nat {
    bosses_before(g, start, id).len()
}

proof fn lemma_zone_bound(g: Seq<NodeView>, start: NodeId, id: NodeId)
    ensures
        bosses_before(g, start, id).finite(),
        zone_of(g, start, id) <= depth_of(g, start, id),
{
    let range = vstd::set_lib::set_int_range(0, depth_of(g, start, id) as int);
    vstd::set_lib::lemma_int_range(0, depth_of(g, start, id) as int);
    assert(bosses_before(g, start, id).subset_of(range));
    vstd::set_lib::lemma_len_subset(bosses_before(g, start, id), range);
}

/// Whether `value` is one of `values`.
fn contains_value(values: &Vec<usize>, value: usize) -> (found: bool)
    ensures
        found == values@.contains(value),
{
    let mut i: usize = 0;
    while i < values.len()
        invariant
            i <= values@.len(),
            forall|q: int| 0 <= q < i ==> values@[q] != value,
        decreases values@.len() - i,
    {
        if values[i] == value {
            return true;
        }
        i += 1;
    }
    false
}

/// Whether `id` is one of `ids`.
fn contains_id(ids: &Vec<NodeId>, id: NodeId) -> (found: bool)
    ensures
        found == ids@.contains(id),
{
    let mut i: usize = 0;
    while i < ids.len()
        invariant
            i <= ids@.len(),
            forall|q: int| 0 <= q < i ==> ids@[q] != id,
        decreases ids@.len() - i,
    {
        if ids[i] == id {
            return true;
        }
        i += 1;
    }
    false
}

/// Adds `id` to a strictly increasing list, keeping it so.
fn insert_sorted(ids: &mut Vec<NodeId>, id: NodeId)
    requires
        strictly_increasing(old(ids)@),
    ensures
        strictly_increasing(final(ids)@),
        forall|x: NodeId| #[trigger] final(ids)@.contains(x) <==> (old(ids)@.contains(x) || x == id),
{
    let ghost before = ids@;
    let mut p: usize = 0;
    while p < ids.len() && ids[p] < id
        invariant
            p <= ids@.len(),
            ids@ == before,
            forall|q: int| 0 <= q < p ==> ids@[q] < id,
        decreases ids@.len() - p,
    {
        p += 1;
    }
    if p < ids.len() && ids[p] == id {
        return;
    }
    ids.insert(p, id);
    proof {
        let after = ids@;
        assert(after =~= before.insert(p as int, id));
        assert forall|a: int, b: int| 0 <= a < b < after.len() implies #[trigger] after[a] < #[trigger] after[b] by {
            if b < p {
            } else if b == p {
            } else if a < p {
                assert(before[b - 1] >= id);
            } else if a == p {
                assert(before[b - 1] >= before[p as int] || b - 1 == p);
            }
        }
        assert forall|x: NodeId| #[trigger] after.contains(x) <==> (before.contains(x) || x == id) by {
            if after.contains(x) {
                let q = after.index_of(x);
                if q < p {
                    assert(before[q] == x);
                } else if q > p {
                    assert(before[q - 1] == x);
                }
            }
            if before.contains(x) {
                let q = before.index_of(x);
                if q < p {
                    assert(after[q] == x);
                } else {
                    assert(after[q + 1] == x);
                }
            }
            if x == id {
                assert(after[p as int] == id);
            }
        }
    }
}

impl ContractMap {
    /// Which zone each node sits in, counting from 0, in node order.
    ///
    /// Derived from where the bosses sit rather than stored on the nodes, so
    /// an authored contract and a generated one agree without either
    /// declaring its zones.
    pub fn node_zones(&self) -> (zones: Vec<usize>)
        requires
            self.wf(),
        ensures
            zones@.len() == self@.nodes.len(),
            forall|j: int| 0 <= j < zones@.len() ==> #[trigger] zones@[j] < zones@.len(),
            forall|j: int|
                0 <= j < zones@.len() ==> #[trigger] zones@[j] == zone_of(
                    self@.nodes,
                    self@.start,
                    self@.nodes[j].id,
                ),
    {
        let ghost g = self@.nodes;
        let ghost start = self@.start;
        let depths = self.node_depths();
        let reached = self.reached_depths();
        let n = self.nodes.len();
        let mut boss_depths: Vec<usize> = Vec::new();
        let mut i: usize = 0;
        while i < n
            invariant
                g == self@.nodes,
                start == self@.start,
                n == g.len(),
                depths@.len() == n,
                reached@.len() == n,
                forall|j: int| 0 <= j < n ==> #[trigger] depths@[j] == depth_of(g, start, g[j].id),
                forall|j: int| 0 <= j < n ==> (#[trigger] reached@[j] is Some <==> reaches(g, start, g[j].id)),
                i <= n,
                boss_depths@.no_duplicates(),
                forall|x: usize| #[trigger] boss_depths@.contains(x) <==> exists|q: int|
                    0 <= q < i && (#[trigger] g[q]).encounter_type is Boss && reaches(g, start, g[q].id) && depths@[q]
                        == x,
            decreases n - i,
        {
            if self.nodes[i].encounter_type.is_boss() && reached[i].is_some() {
                let depth = depths[i];
                if !contains_value(&boss_depths, depth) {
                    let ghost before = boss_depths@;
                    boss_depths.push(depth);
                    proof {
                        assert forall|x: usize| #[trigger] boss_depths@.contains(x) <==> (before.contains(x) || x == depth) by {
                            if boss_depths@.contains(x) {
                                let q = boss_depths@.index_of(x);
                                if q < before.len() {
                                    assert(before[q] == x);
                                }
                            }
                            if before.contains(x) {
                                let q = before.index_of(x);
                                assert(boss_depths@[q] == x);
                            }
                            if x == depth {
                                assert(boss_depths@[before.len() as int] == x);
                            }
                        }
                    }
                }
                proof {
                    assert(g[i as int].encounter_type is Boss && reaches(g, start, g[i as int].id));
                }
            }
            proof {
                assert(reached@[i as int] is Some <==> reaches(g, start, g[i as int].id));
            }
            i += 1;
        }
        let mut zones: Vec<usize> = Vec::new();
        let mut j: usize = 0;
        while j < n
            invariant
                g == self@.nodes,
                start == self@.start,
                n == g.len(),
                depths@.len() == n,
                forall|q: int| 0 <= q < n ==> #[trigger] depths@[q] == depth_of(g, start, g[q].id),
                forall|q: int| 0 <= q < n ==> #[trigger] depths@[q] < n,
                boss_depths@.no_duplicates(),
                forall|x: usize| #[trigger] boss_depths@.contains(x) <==> exists|q: int|
                    0 <= q < n && (#[trigger] g[q]).encounter_type is Boss && reaches(g, start, g[q].id) && depths@[q]
                        == x,
                j <= n,
                zones@.len() == j,
                forall|q: int| 0 <= q < j ==> #[trigger] zones@[q] == zone_of(g, start, g[q].id),
                forall|q: int| 0 <= q < j ==> #[trigger] zones@[q] < n,
            decreases n - j,
        {
            let depth = depths[j];
            let mut count: usize = 0;
            let mut k: usize = 0;
            let ghost mut below: Set<int> = Set::empty();
            while k < boss_depths.len()
                invariant
                    k <= boss_depths@.len(),
                    boss_depths@.no_duplicates(),
                    count <= k,
                    below.finite(),
                    below.len() == count,
                    forall|x: int| #[trigger] below.contains(x) <==> (boss_depths@.take(k as int).contains(x as usize) && 0 <= x < depth),
                decreases boss_depths@.len() - k,
            {
                let ghost before = below;
                proof {
                    assert forall|x: int| #[trigger] boss_depths@.take(k + 1).contains(x as usize) && 0 <= x <= usize::MAX <==> ((boss_depths@.take(k as int).contains(x as usize) && 0 <= x <= usize::MAX) || x == boss_depths@[k as int]) by {
                        if boss_depths@.take(k + 1).contains(x as usize) && 0 <= x <= usize::MAX {
                            let q = boss_depths@.take(k + 1).index_of(x as usize);
                            if q < k {
                                assert(boss_depths@.take(k as int)[q] == x);
                            }
                        }
                        if boss_depths@.take(k as int).contains(x as usize) && 0 <= x <= usize::MAX {
                            let q = boss_depths@.take(k as int).index_of(x as usize);
                            assert(boss_depths@.take(k + 1)[q] == x);
                        }
                        if x == boss_depths@[k as int] {
                            assert(boss_depths@.take(k + 1)[k as int] == x);
                        }
                    }
                    if boss_depths@.take(k as int).contains(boss_depths@[k as int]) {
                        let q = boss_depths@.take(k as int).index_of(boss_depths@[k as int]);
                        assert(boss_depths@[q] == boss_depths@[k as int]);
                    }
                }
                if boss_depths[k] < depth {
                    proof {
                        below = below.insert(boss_depths@[k as int] as int);
                    }
                    count += 1;
                }
                proof {
                    assert forall|x: int| #[trigger] below.contains(x) <==> (boss_depths@.take(k + 1).contains(x as usize) && 0 <= x < depth) by {
                        if below.contains(x) && x != boss_depths@[k as int] {
                            assert(before.contains(x));
                        }
                        if boss_depths@.take(k + 1).contains(x as usize) && 0 <= x < depth {
                            if x != boss_depths@[k as int] {
                                assert(boss_depths@.take(k as int).contains(x as usize));
                            }
                        }
                    }
                }
                k += 1;
            }
            proof {
                assert(boss_depths@.take(boss_depths@.len() as int) =~= boss_depths@);
                let target = bosses_before(g, start, g[j as int].id);
                assert forall|x: int| #[trigger] below.contains(x) <==> target.contains(x) by {
                    if below.contains(x) {
                        assert(boss_depths@.contains(x as usize));
                        let q = choose|q: int| 0 <= q < n && (#[trigger] g[q]).encounter_type is Boss && reaches(g, start, g[q].id) && depths@[q] == x as usize;
                        assert(is_boss_depth(g, start, x));
                    }
                    if target.contains(x) {
                        let q = choose|q: int| 0 <= q < g.len() && (#[trigger] g[q]).encounter_type is Boss && reaches(g, start, g[q].id) && depth_of(g, start, g[q].id) == x;
                        assert(depths@[q] == depth_of(g, start, g[q].id));
                        assert(boss_depths@.contains(depths@[q]));
                    }
                }
                assert(below =~= target);
                lemma_zone_bound(g, start, g[j as int].id);
                assert(depths@[j as int] == depth_of(g, start, g[j as int].id));
            }
            zones.push(count);
            j += 1;
        }
        zones
    }
}

// ---------------------------------------------------------------------------
// Choosing a route.
// ---------------------------------------------------------------------------

#[derive(Clone, Copy, Debug, PartialEq, Eq, Structural)]
pub struct EncounterSelection {
    pub node_id: NodeId,
    pub encounter_type: EncounterType,
    /// Which zone the chosen encounter is in, so the construct guarding it
    /// can be scaled to the depth the player has reached.
    pub zone: usize,
}

/// How far through the contract's zones the player is.
#[derive(Clone, Copy, Debug, PartialEq, Eq, Structural)]
pub struct ZoneProgress {
    /// Zone the player is standing in, counting from 0.
    pub current_zone: usize,
    /// Highest zone opened up so far.
    pub unlocked_zones: usize,
    /// Zones on this contract. A contract with no boss nodes is one zone.
    pub total_zones: usize,
}

/// How far through the contract the player is. The entry node is excluded:
/// it is where a run starts, not an encounter the player completes.
#[derive(Clone, Copy, Debug, PartialEq, Eq, Structural)]
pub struct ContractProgress {
    pub completed: usize,
    pub total: usize,
}

impl ContractView {
    pub open spec fn node(self, id: NodeId) -> NodeView {
        self.nodes[index_of_id(self.nodes, id)]
    }

    pub open spec fn depth(self, id: NodeId) -> nat {
        depth_of(self.nodes, self.start, id)
    }

    pub open spec fn zone(self, id: NodeId) -> nat {
        zone_of(self.nodes, self.start, id)
    }

    /// Neither ruled out by an earlier choice nor sealed behind a boss.
    pub open spec fn is_open(self, id: NodeId) -> bool {
        !self.locked.contains(id) && self.zone(id) <= self.unlocked_zones
    }

    /// What the player may choose next: every open node the current one
    /// leads to, in link order, and nothing while an encounter is under way.
    pub open spec fn selectable(self) -> Seq<NodeId> {
        if self.active is Some {
            Seq::empty()
        } else {
            self.node(self.current).next.filter(|id: NodeId| self.is_open(id))
        }
    }

    /// What asking for `requested` comes to.
    pub open spec fn option_outcome(self, requested: NodeId) -> Result<EncounterSelection, ContractMapError> {
        match self.active {
            Some(active) => Err(ContractMapError::EncounterAlreadyInProgress(active)),
            None => {
                if self.locked.contains(requested) || !self.node(self.current).next.contains(requested) {
                    Err(ContractMapError::EncounterNotReachable { from: self.current, requested })
                } else if self.zone(requested) > self.unlocked_zones {
                    Err(ContractMapError::ZoneSealed { requested, zone: self.zone(requested) as usize })
                } else {
                    Ok(
                        EncounterSelection {
                            node_id: requested,
                            encounter_type: self.node(requested).encounter_type,
                            zone: self.zone(requested) as usize,
                        },
                    )
                }
            },
        }
    }

    /// The contract after the encounter under way is completed: the player
    /// moves onto it, it and the node left behind count as completed, and
    /// beating a boss opens the zone after it.
    pub open spec fn after_completing(self, after: ContractView) -> bool {
        let done = self.active->0;
        &&& after.nodes == self.nodes
        &&& after.start == self.start
        &&& after.locked == self.locked
        &&& after.active is None
        &&& after.current == done
        &&& forall|id: NodeId|
            #[trigger] after.completed.contains(id) <==> (self.completed.contains(id) || id == done || id
                == self.current)
        &&& after.unlocked_zones == if self.node(done).encounter_type is Boss && self.zone(done) + 1
            > self.unlocked_zones {
            self.zone(done) + 1
        } else {
            self.unlocked_zones
        }
    }

    /// The contract after committing to `requested`: every other branch from
    /// the current node is locked out for good.
    pub open spec fn after_selecting(self, after: ContractView, requested: NodeId) -> bool {
        &&& after.nodes == self.nodes
        &&& after.start == self.start
        &&& after.current == self.current
        &&& after.completed == self.completed
        &&& after.unlocked_zones == self.unlocked_zones
        &&& after.active == Some(requested)
        &&& forall|id: NodeId|
            #[trigger] after.locked.contains(id) <==> (self.locked.contains(id) || (self.node(
                self.current,
            ).next.contains(id) && id != requested))
    }
}

impl ContractMap {
    /// The node the player is standing on.
    pub fn current_encounter(&self) -> (node: &EncounterNode)
        requires
            self.wf(),
        ensures
            node@ == self@.node(self@.current),
    {
        let position = self.position_of(self.current_node);
        &self.nodes[position]
    }

    /// Every node the player may choose from where they stand.
    pub fn selectable_encounters(&self) -> (options: Vec<&EncounterNode>)
        requires
            self.wf(),
        ensures
            options@.len() == self@.selectable().len(),
            forall|k: int| 0 <= k < options@.len() ==> #[trigger] options@[k]@ == self@.node(self@.selectable()[k]),
    {
        let ghost v = self@;
        let mut options: Vec<&EncounterNode> = Vec::new();
        if self.active_node.is_some() {
            return options;
        }
        let zones = self.node_zones();
        let position = self.position_of(self.current_node);
        let next = &self.nodes[position].next_nodes;
        let ghost open = |id: NodeId| v.is_open(id);
        assert(next@ == v.node(v.current).next);
        let mut k: usize = 0;
        while k < next.len()
            invariant
                v == self@,
                self.wf(),
                zones@.len() == v.nodes.len(),
                forall|j: int| 0 <= j < zones@.len() ==> #[trigger] zones@[j] == zone_of(v.nodes, v.start, v.nodes[j].id),
                next@ == v.node(v.current).next,
                v.active is None,
                open == (|id: NodeId| v.is_open(id)),
                k <= next@.len(),
                options@.len() == next@.take(k as int).filter(open).len(),
                forall|q: int| 0 <= q < options@.len() ==> #[trigger] options@[q]@ == v.node(next@.take(k as int).filter(open)[q]),
            decreases next@.len() - k,
        {
            let id = next[k];
            proof {
                let cur = index_of_id(v.nodes, v.current);
                assert(has_node(v.nodes, v.nodes[cur].next[k as int]));
                assert(next@.take(k + 1) =~= next@.take(k as int).push(id));
            }
            let target = self.position_of(id);
            let locked = contains_id(&self.locked_nodes, id);
            if !locked && zones[target] <= self.unlocked_zones {
                options.push(&self.nodes[target]);
            }
            proof {
                assert(open(id) == (!locked && zones@[target as int] <= self.unlocked_zones));
                next@.take(k as int).lemma_filter_push(id, open);
            }
            k += 1;
        }
        proof {
            assert(next@.take(next@.len() as int) =~= next@);
        }
        options
    }

    /// What selecting `requested_node` would come to, without selecting it.
    pub fn encounter_option(&self, requested_node: NodeId) -> (result: Result<EncounterSelection, ContractMapError>)
        requires
            self.wf(),
        ensures
            result == self@.option_outcome(requested_node),
    {
        let ghost v = self@;
        if let Some(active_node) = self.active_node {
            return Err(ContractMapError::EncounterAlreadyInProgress(active_node));
        }
        let position = self.position_of(self.current_node);
        let leads_there = contains_id(&self.nodes[position].next_nodes, requested_node);
        if contains_id(&self.locked_nodes, requested_node) || !leads_there {
            return Err(
                ContractMapError::EncounterNotReachable { from: self.current_node, requested: requested_node },
            );
        }
        proof {
            let cur = index_of_id(v.nodes, v.current);
            let k = v.nodes[cur].next.index_of(requested_node);
            assert(has_node(v.nodes, v.nodes[cur].next[k]));
        }
        let zones = self.node_zones();
        let target = self.position_of(requested_node);
        let zone = zones[target];
        if zone > self.unlocked_zones {
            return Err(ContractMapError::ZoneSealed { requested: requested_node, zone });
        }
        Ok(
            EncounterSelection {
                node_id: requested_node,
                encounter_type: self.nodes[target].encounter_type,
                zone,
            },
        )
    }

    /// Commits to one reachable encounter, locking every other branch from
    /// the current node for good. A refused request changes nothing.
    pub fn select_encounter(&mut self, requested_node: NodeId) -> (result: Result<EncounterSelection, ContractMapError>)
        requires
            old(self).wf(),
        ensures
            final(self).wf(),
            result == old(self)@.option_outcome(requested_node),
            result is Err ==> *final(self) == *old(self),
            result is Ok ==> old(self)@.after_selecting(final(self)@, requested_node),
    {
        let ghost v = self@;
        let selection = self.encounter_option(requested_node);
        if selection.is_err() {
            return selection;
        }
        let position = self.position_of(self.current_node);
        let count = self.nodes[position].next_nodes.len();
        let mut k: usize = 0;
        while k < count
            invariant
                self.nodes == old(self).nodes,
                self.start_node == old(self).start_node,
                self.current_node == old(self).current_node,
                self.completed_nodes == old(self).completed_nodes,
                self.unlocked_zones == old(self).unlocked_zones,
                self.active_node == old(self).active_node,
                v == old(self)@,
                position < v.nodes.len(),
                v.nodes[position as int] == v.node(v.current),
                count == v.node(v.current).next.len(),
                k <= count,
                strictly_increasing(self.locked_nodes@),
                forall|id: NodeId| #[trigger] self.locked_nodes@.contains(id) <==> (v.locked.contains(id) || (v.node(v.current).next.take(k as int).contains(id) && id != requested_node)),
            decreases count - k,
        {
            let id = self.nodes[position].next_nodes[k];
            if id != requested_node {
                insert_sorted(&mut self.locked_nodes, id);
            }
            proof {
                let next = v.node(v.current).next;
                assert(next[k as int] == id);
                assert forall|x: NodeId| #[trigger] next.take(k + 1).contains(x) <==> (next.take(k as int).contains(x) || x == id) by {
                    if next.take(k + 1).contains(x) {
                        let q = next.take(k + 1).index_of(x);
                        if q < k {
                            assert(next.take(k as int)[q] == x);
                        }
                    }
                    if next.take(k as int).contains(x) {
                        let q = next.take(k as int).index_of(x);
                        assert(next.take(k + 1)[q] == x);
                    }
                    if x == id {
                        assert(next.take(k + 1)[k as int] == x);
                    }
                }
            }
            k += 1;
        }
        proof {
            assert(v.node(v.current).next.take(count as int) =~= v.node(v.current).next);
            assert(has_node(v.nodes, requested_node)) by {
                let cur = index_of_id(v.nodes, v.current);
                let q = v.nodes[cur].next.index_of(requested_node);
                assert(has_node(v.nodes, v.nodes[cur].next[q]));
            }
        }
        self.active_node = Some(requested_node);
        selection
    }

    /// Finishes the encounter under way: the player moves onto it, it and
    /// the node left behind count as completed, and beating a boss opens the
    /// zone after it.
    pub fn complete_current_encounter(&mut self) -> (result: Result<(), ContractMapError>)
        requires
            old(self).wf(),
        ensures
            final(self).wf(),
            result is Err <==> old(self)@.active is None,
            result is Err ==> result == Err::<(), ContractMapError>(ContractMapError::NoEncounterInProgress)
                && *final(self) == *old(self),
            result is Ok ==> old(self)@.after_completing(final(self)@),
    {
        let ghost v = self@;
        let completed_node = match self.active_node {
            Some(node) => node,
            None => {
                return Err(ContractMapError::NoEncounterInProgress);
            },
        };
        let departed_node = self.current_node;
        let position = self.position_of(completed_node);
        let cleared_a_boss = self.nodes[position].encounter_type.is_boss();
        if cleared_a_boss {
            let zones = self.node_zones();
            let zone = zones[position];
            let node_count = self.nodes.len();
            assert(zone < node_count);
            if zone + 1 > self.unlocked_zones {
                self.unlocked_zones = zone + 1;
            }
        }
        self.active_node = None;
        self.current_node = completed_node;
        insert_sorted(&mut self.completed_nodes, completed_node);
        insert_sorted(&mut self.completed_nodes, departed_node);
        Ok(())
    }

    /// Ends a failed encounter without advancing past it. The chosen route
    /// remains committed, so the same encounter is the only retry offered.
    pub fn fail_current_encounter(&mut self) -> (result: Result<(), ContractMapError>)
        requires
            old(self).wf(),
        ensures
            final(self).wf(),
            result is Err <==> old(self)@.active is None,
            result is Err ==> result == Err::<(), ContractMapError>(ContractMapError::NoEncounterInProgress)
                && *final(self) == *old(self),
            result is Ok ==> final(self)@ == (ContractView { active: None, ..old(self)@ }),
    {
        match self.active_node.take() {
            Some(_) => Ok(()),
            None => Err(ContractMapError::NoEncounterInProgress),
        }
    }
}

// ---------------------------------------------------------------------------
// Progress, and the built-in contracts.
// ---------------------------------------------------------------------------

/// Nodes numbered `0..n` in order, each linking only forward to nodes that
/// exist, in increasing order.
pub open spec fn numbered_forward(g: Seq<NodeView>) -> bool {
    &&& forall|i: int| 0 <= i < g.len() ==> (#[trigger] g[i]).id == i
    &&& forall|i: int, k: int|
        0 <= i < g.len() && 0 <= k < g[i].next.len() ==> g[i].id < #[trigger] g[i].next[k] < g.len()
    &&& forall|i: int, a: int, b: int|
        0 <= i < g.len() && 0 <= a < b < g[i].next.len() ==> #[trigger] g[i].next[a] < #[trigger] g[i].next[b]
}

/// A graph numbered in order and linking only forward passes every check.
proof fn lemma_numbered_forward_valid(g: Seq<NodeView>, start: NodeId)
    requires
        numbered_forward(g),
        g.len() > 0,
        start < g.len(),
    ensures
        authored_ok_but_cycles(g, start),
        is_acyclic(g),
        graph_valid(g, start),
{
    assert(!has_repeated_id(g)) by {
        if has_repeated_id(g) {
            let j = choose|j: int| 0 <= j < g.len() && #[trigger] repeats_earlier_id(g, j);
            let i = choose|i: int| 0 <= i < j && #[trigger] g[i].id == g[j].id;
        }
    }
    assert(g[start as int].id == start);
    assert forall|id: NodeId| id < g.len() implies has_node(g, id) by {
        assert(g[id as int].id == id);
    }
    assert(!has_bad_link(g)) by {
        if has_bad_link(g) {
            let j = choose|j: int| 0 <= j < g.len() && #[trigger] node_has_bad_link(g, g[j]);
            let k = choose|k: int| #[trigger] link_is_bad(g, g[j], k);
            if link_repeats(g[j], k) {
                let p = choose|p: int| 0 <= p < k && #[trigger] g[j].next[p] == g[j].next[k];
            } else {
                assert(has_node(g, g[j].next[k]));
            }
        }
    }
    let rank = |id: NodeId| id as int;
    assert forall|from: NodeId, to: NodeId| #[trigger] is_edge(g, from, to) implies rank(from) < rank(to) by {
        let i = choose|i: int| 0 <= i < g.len() && #[trigger] g[i].id == from && g[i].next.contains(to);
        let k = g[i].next.index_of(to);
        assert(g[i].next[k] == to);
    }
    assert(is_ranking(g, rank));
    assert forall|i: int| 0 <= i < g.len() implies (#[trigger] g[i]).next.no_duplicates() by {
        assert forall|a: int, b: int| 0 <= a < b < g[i].next.len() implies g[i].next[a] != g[i].next[b] by {
            assert(g[i].next[a] < g[i].next[b]);
        }
    }
    assert forall|i: int, k: int| 0 <= i < g.len() && 0 <= k < g[i].next.len() implies has_node(g, #[trigger] g[i].next[k]) by {
        assert(g[i].next[k] < g.len());
    }
}

/// A completed node that counts towards progress: any node of the contract
/// but the one the run starts from, and any entry node, which is where a run
/// starts rather than an encounter the player completes.
pub open spec fn counts_as_completed(v: ContractView, id: NodeId) -> bool {
    has_node(v.nodes, id) && id != v.start && !(v.node(id).encounter_type is Entry)
}

/// How many completed nodes count towards progress.
pub open spec fn completed_count(v: ContractView) -> nat {
    v.completed.filter(|id: NodeId| counts_as_completed(v, id)).len()
}

/// `total` is the greatest depth of any node: the number of encounters on a
/// route from the entry to the deepest node.
pub open spec fn is_greatest_depth(v: ContractView, total: nat) -> bool {
    &&& exists|i: int| 0 <= i < v.nodes.len() && total == v.depth(#[trigger] v.nodes[i].id)
    &&& forall|i: int| 0 <= i < v.nodes.len() ==> v.depth(#[trigger] v.nodes[i].id) <= total
}

impl ContractMap {
    /// Which zone the player is in, how many have been opened up, and how
    /// many the contract has in all.
    pub fn zone_progress(&self) -> (progress: ZoneProgress)
        requires
            self.wf(),
        ensures
            progress.current_zone == self@.zone(self@.current),
            progress.unlocked_zones == self@.unlocked_zones,
            exists|i: int| 0 <= i < self@.nodes.len() && progress.total_zones == self@.zone(#[trigger] self@.nodes[i].id) + 1,
            forall|i: int| 0 <= i < self@.nodes.len() ==> self@.zone(#[trigger] self@.nodes[i].id) + 1 <= progress.total_zones,
    {
        let ghost v = self@;
        let zones = self.node_zones();
        let position = self.position_of(self.current_node);
        let n = self.nodes.len();
        let mut highest: usize = zones[0];
        let mut i: usize = 1;
        while i < n
            invariant
                v == self@,
                n == v.nodes.len(),
                zones@.len() == n,
                forall|j: int| 0 <= j < n ==> #[trigger] zones@[j] == zone_of(v.nodes, v.start, v.nodes[j].id),
                forall|j: int| 0 <= j < n ==> #[trigger] zones@[j] < n,
                1 <= i <= n,
                exists|j: int| 0 <= j < i && highest == #[trigger] zones@[j],
                forall|j: int| 0 <= j < i ==> #[trigger] zones@[j] <= highest,
            decreases n - i,
        {
            if zones[i] > highest {
                highest = zones[i];
            }
            i += 1;
        }
        proof {
            let j = choose|j: int| 0 <= j < n && highest == #[trigger] zones@[j];
            assert(v.zone(v.nodes[j].id) == zones@[j]);
            assert forall|q: int| 0 <= q < n implies v.zone(#[trigger] v.nodes[q].id) + 1 <= highest + 1 by {
                assert(zones@[q] <= highest);
            }
        }
        ZoneProgress {
            current_zone: zones[position],
            unlocked_zones: self.unlocked_zones,
            total_zones: highest + 1,
        }
    }

    /// Completed encounters out of the number on a route through the
    /// contract: one per column after the entry, since committing to a branch
    /// locks its siblings out for good. The node the run starts from is not
    /// an encounter the player completes, so it never counts.
    pub fn progress(&self) -> (progress: ContractProgress)
        requires
            self.wf(),
        ensures
            progress.completed == completed_count(self@),
            is_greatest_depth(self@, progress.total as nat),
    {
        let ghost v = self@;
        let depths = self.node_depths();
        let n = self.nodes.len();
        let mut total: usize = depths[0];
        let mut i: usize = 1;
        while i < n
            invariant
                v == self@,
                n == v.nodes.len(),
                depths@.len() == n,
                forall|j: int| 0 <= j < n ==> #[trigger] depths@[j] == depth_of(v.nodes, v.start, v.nodes[j].id),
                1 <= i <= n,
                exists|j: int| 0 <= j < i && total == #[trigger] depths@[j],
                forall|j: int| 0 <= j < i ==> #[trigger] depths@[j] <= total,
            decreases n - i,
        {
            if depths[i] > total {
                total = depths[i];
            }
            i += 1;
        }
        proof {
            let j = choose|j: int| 0 <= j < n && total == #[trigger] depths@[j];
            assert(v.depth(v.nodes[j].id) == depths@[j]);
            assert forall|q: int| 0 <= q < n implies v.depth(#[trigger] v.nodes[q].id) <= total by {
                assert(depths@[q] <= total);
            }
        }
        let ghost counted = |id: NodeId| counts_as_completed(v, id);
        let mut completed: usize = 0;
        let mut k: usize = 0;
        while k < self.completed_nodes.len()
            invariant
                v == self@,
                self.wf(),
                counted == (|id: NodeId| counts_as_completed(v, id)),
                k <= v.completed.len(),
                completed == v.completed.take(k as int).filter(counted).len(),
            decreases v.completed.len() - k,
        {
            let id = self.completed_nodes[k];
            let found = find_index(&self.nodes, id);
            let counts = match found {
                Some(position) => {
                    proof {
                        lemma_index_of_id(v.nodes, position as int);
                    }
                    id != self.start_node && !matches!(self.nodes[position].encounter_type, EncounterType::Entry)
                },
                None => false,
            };
            proof {
                assert(counted(id) == counts);
                assert(v.completed.take(k + 1) =~= v.completed.take(k as int).push(id));
                v.completed.take(k as int).lemma_filter_push(id, counted);
                v.completed.take(k as int).filter(counted).lemma_filter_len(counted);
                v.completed.take(k as int).lemma_filter_len(counted);
            }
            if counts {
                completed += 1;
            }
            k += 1;
        }
        proof {
            assert(v.completed.take(v.completed.len() as int) =~= v.completed);
        }
        ContractProgress { completed, total }
    }
}

// ---------------------------------------------------------------------------
// What is still within reach, and how the map reads.
// ---------------------------------------------------------------------------

/// `path` leads from the node the player stands on through nodes that are
/// not locked out.
pub open spec fn is_open_route(v: ContractView, path: Seq<NodeId>) -> bool {
    &&& route_from(v.nodes, v.current, path)
    &&& forall|k: int| 0 <= k < path.len() ==> !v.locked.contains(#[trigger] path[k])
}

/// Some route from where the player stands reaches `id` without passing
/// through a locked node.
pub open spec fn still_reachable(v: ContractView, id: NodeId) -> bool {
    exists|path: Seq<NodeId>| #[trigger] is_open_route(v, path) && path.last() == id
}

/// Where a node stands from the player's point of view, for drawing the map.
#[derive(Clone, Copy, Debug, PartialEq, Eq, Structural)]
pub enum NodeStatus {
    /// Finished, and the route moved on from it.
    Completed,
    /// Where the player is standing right now.
    Current,
    /// Reachable from the current node and not locked out.
    Available,
    /// Ruled out by choosing a different branch.
    Locked,
    /// In a later zone, behind a boss that has not been beaten yet. Distinct
    /// from `Locked`, which is permanent: a sealed node opens up again the
    /// moment the zone's boss goes down.
    Sealed,
    /// Further along the contract, not reachable yet.
    Upcoming,
}

pub open spec fn node_status_str(status: NodeStatus) -> Seq<char> {
    match status {
        NodeStatus::Completed => "completed"@,
        NodeStatus::Current => "current"@,
        NodeStatus::Available => "available"@,
        NodeStatus::Locked => "locked"@,
        NodeStatus::Sealed => "sealed"@,
        NodeStatus::Upcoming => "upcoming"@,
    }
}

impl NodeStatus {
    pub fn as_str(self) -> (name: &'static str)
        ensures
            name@ == node_status_str(self),
    {
        match self {
            NodeStatus::Completed => "completed",
            NodeStatus::Current => "current",
            NodeStatus::Available => "available",
            NodeStatus::Locked => "locked",
            NodeStatus::Sealed => "sealed",
            NodeStatus::Upcoming => "upcoming",
        }
    }
}

impl ContractView {
    /// The status the map shows for `id`. Being locked out is checked before
    /// the zone: it is permanent, and the more useful thing to tell the player.
    pub open spec fn status(self, id: NodeId) -> NodeStatus {
        if self.completed.contains(id) {
            NodeStatus::Completed
        } else if id == self.current {
            NodeStatus::Current
        } else if !still_reachable(self, id) {
            NodeStatus::Locked
        } else if self.zone(id) > self.unlocked_zones {
            NodeStatus::Sealed
        } else if self.selectable().contains(id) {
            NodeStatus::Available
        } else {
            NodeStatus::Upcoming
        }
    }
}

/// The greatest depth among `nodes`.
pub open spec fn deepest(v: ContractView, nodes: Seq<NodeView>) -> nat
    decreases nodes.len(),
{
    if nodes.len() == 0 {
        0
    } else {
        let rest = deepest(v, nodes.drop_last());
        let last = v.depth(nodes.last().id);
        if last > rest {
            last
        } else {
            rest
        }
    }
}

/// How many of `nodes` sit at depth `depth`.
pub open spec fn count_at_depth(v: ContractView, nodes: Seq<NodeView>, depth: nat) -> nat
    decreases nodes.len(),
{
    if nodes.len() == 0 {
        0
    } else {
        count_at_depth(v, nodes.drop_last(), depth) + (if v.depth(nodes.last().id) == depth {
            1nat
        } else {
            0nat
        })
    }
}

/// A node plus its status, so the map screen can draw the whole contract.
/// A node's place on the map is given by its column, `depth` out of
/// `max_depth` from the entry, and its `row` among the `column_len` nodes
/// sharing that column.
#[derive(Clone, Debug, PartialEq, Eq)]
pub struct NodeProgress {
    pub node_id: NodeId,
    pub encounter_type: EncounterType,
    pub status: NodeStatus,
    /// Column of the node: its longest distance from the entry.
    pub depth: usize,
    /// Column of the deepest node, the target's.
    pub max_depth: usize,
    /// Place of the node among those sharing its column, in id order.
    pub row: usize,
    /// Nodes sharing the column.
    pub column_len: usize,
    /// The node a run starts from.
    pub is_entry: bool,
    /// Where the player is standing. Tracked apart from `status`, because a
    /// node the player has cleared is both completed and where they are, and
    /// the map needs to show both at once.
    pub is_current: bool,
    /// A node nothing leads on from, i.e. the contract objective.
    pub is_target: bool,
    /// The security system at the end of its zone.
    pub is_boss: bool,
    /// Which zone this node belongs to, counting from 0.
    pub zone: usize,
    /// Nodes this one leads to, for drawing the lines between them.
    pub connections: Vec<NodeId>,
}

/// `entry` describes the `k`th node of the contract as `v` stands.
pub open spec fn describes(v: ContractView, k: int, entry: NodeProgress) -> bool {
    let node = v.nodes[k];
    &&& entry.node_id == node.id
    &&& entry.encounter_type == node.encounter_type
    &&& entry.status == v.status(node.id)
    &&& entry.depth == v.depth(node.id)
    &&& entry.max_depth == deepest(v, v.nodes)
    &&& entry.row == count_at_depth(v, v.nodes.take(k), v.depth(node.id))
    &&& entry.column_len == count_at_depth(v, v.nodes, v.depth(node.id))
    &&& entry.is_entry == (node.id == v.start)
    &&& entry.is_current == (node.id == v.current)
    &&& entry.is_target == (node.next.len() == 0)
    &&& entry.is_boss == (node.encounter_type is Boss)
    &&& entry.zone == v.zone(node.id)
    &&& entry.connections@ == node.next
}

/// How many entries of `marks` are set.
spec fn count_true(marks: Seq<bool>) -> nat
    decreases marks.len(),
{
    if marks.len() == 0 {
        0
    } else {
        count_true(marks.drop_last()) + (if marks.last() {
            1nat
        } else {
            0nat
        })
    }
}

proof fn lemma_count_true_bound(marks: Seq<bool>)
    ensures
        count_true(marks) <= marks.len(),
    decreases marks.len(),
{
    if marks.len() > 0 {
        lemma_count_true_bound(marks.drop_last());
    }
}

proof fn lemma_count_true_set(marks: Seq<bool>, j: int)
    requires
        0 <= j < marks.len(),
        !marks[j],
    ensures
        count_true(marks.update(j, true)) == count_true(marks) + 1,
    decreases marks.len(),
{
    let after = marks.update(j, true);
    if j == marks.len() - 1 {
        assert(after.drop_last() =~= marks.drop_last());
    } else {
        assert(after.drop_last() =~= marks.drop_last().update(j, true));
        lemma_count_true_set(marks.drop_last(), j);
    }
}

/// Every open node's unlocked successors are open too.
spec fn closed_under_links(v: ContractView, open: Seq<bool>) -> bool {
    forall|i: int, k: int|
        #![trigger open[i], v.nodes[i].next[k]]
        0 <= i < v.nodes.len() && open[i] && 0 <= k < v.nodes[i].next.len() && !v.locked.contains(v.nodes[i].next[k])
            ==> open[index_of_id(v.nodes, v.nodes[i].next[k])]
}

/// Once the marks are closed under links and hold the starting node, they
/// hold every node an open route reaches.
proof fn lemma_closed_covers(v: ContractView, open: Seq<bool>, path: Seq<NodeId>)
    requires
        v.wf(),
        open.len() == v.nodes.len(),
        closed_under_links(v, open),
        !v.locked.contains(v.current) ==> open[index_of_id(v.nodes, v.current)],
        is_open_route(v, path),
    ensures
        open[index_of_id(v.nodes, path.last())],
    decreases path.len(),
{
    let g = v.nodes;
    if path.len() == 1 {
        assert(!v.locked.contains(path[0]));
    } else {
        let prefix = path.drop_last();
        lemma_route_prefix(g, v.current, path, path.len() - 1);
        assert(prefix =~= path.take(path.len() - 1));
        assert forall|k: int| 0 <= k < prefix.len() implies !v.locked.contains(#[trigger] prefix[k]) by {
            assert(prefix[k] == path[k]);
        }
        lemma_closed_covers(v, open, prefix);
        let last = path.len() - 1;
        assert(is_edge(g, path[last - 1], path[last]));
        let q = choose|q: int| 0 <= q < g.len() && #[trigger] g[q].id == path[last - 1] && g[q].next.contains(path[last]);
        lemma_route_present(g, v.current, path, last - 1);
        let i = index_of_id(g, path[last - 1]);
        lemma_unique_index(g, q, i);
        let k = g[q].next.index_of(path[last]);
        assert(g[i].next[k] == path[last]);
        assert(!v.locked.contains(path[last]));
        assert(open[i]);
    }
}

impl ContractMap {
    /// Marks, by position, every node the player can still get to: those some
    /// route from the current node reaches without passing a locked node.
    pub fn reachable_from_current(&self) -> (open: Vec<bool>)
        requires
            self.wf(),
        ensures
            open@.len() == self@.nodes.len(),
            forall|j: int| 0 <= j < open@.len() ==> #[trigger] open@[j] == still_reachable(self@, self@.nodes[j].id),
    {
        let ghost v = self@;
        let ghost g = v.nodes;
        let n = self.nodes.len();
        let mut open: Vec<bool> = Vec::new();
        while open.len() < n
            invariant
                open@.len() <= n,
                forall|j: int| 0 <= j < open@.len() ==> !(#[trigger] open@[j]),
            decreases n - open@.len(),
        {
            open.push(false);
        }
        if !contains_id(&self.locked_nodes, self.current_node) {
            let position = self.position_of(self.current_node);
            open.set(position, true);
            proof {
                let path = seq![v.current];
                assert(is_open_route(v, path));
                assert(still_reachable(v, g[position as int].id));
            }
        }
        let mut changed = true;
        proof {
            lemma_count_true_bound(open@);
        }
        while changed
            invariant
                v == self@,
                self.wf(),
                g == v.nodes,
                n == g.len(),
                open@.len() == n,
                count_true(open@) <= n,
                forall|j: int| 0 <= j < n && #[trigger] open@[j] ==> still_reachable(v, g[j].id),
                !v.locked.contains(v.current) ==> open@[index_of_id(g, v.current)],
                !changed ==> closed_under_links(v, open@),
            decreases n - count_true(open@) + (if changed { 1int } else { 0int }),
        {
            let ghost count_before = count_true(open@);
            changed = false;
            let mut i: usize = 0;
            while i < n
                invariant
                    v == self@,
                    self.wf(),
                    g == v.nodes,
                    n == g.len(),
                    open@.len() == n,
                    i <= n,
                    count_true(open@) <= n,
                    count_true(open@) >= count_before + (if changed { 1int } else { 0int }),
                    forall|j: int| 0 <= j < n && #[trigger] open@[j] ==> still_reachable(v, g[j].id),
                    !v.locked.contains(v.current) ==> open@[index_of_id(g, v.current)],
                    !changed ==> forall|p: int, k: int|
                        #![trigger open@[p], g[p].next[k]]
                        0 <= p < i && open@[p] && 0 <= k < g[p].next.len() && !v.locked.contains(g[p].next[k])
                            ==> open@[index_of_id(g, g[p].next[k])],
                decreases n - i,
            {
                if open[i] {
                    let next = &self.nodes[i].next_nodes;
                    assert(next@ == g[i as int].next);
                    let mut k: usize = 0;
                    while k < next.len()
                        invariant
                            v == self@,
                            self.wf(),
                            g == v.nodes,
                            n == g.len(),
                            i < n,
                            open@[i as int],
                            next@ == g[i as int].next,
                            open@.len() == n,
                            k <= next@.len(),
                            count_true(open@) <= n,
                            count_true(open@) >= count_before + (if changed { 1int } else { 0int }),
                            forall|j: int| 0 <= j < n && #[trigger] open@[j] ==> still_reachable(v, g[j].id),
                            !v.locked.contains(v.current) ==> open@[index_of_id(g, v.current)],
                            !changed ==> forall|p: int, q: int|
                                #![trigger open@[p], g[p].next[q]]
                                0 <= p < i && open@[p] && 0 <= q < g[p].next.len() && !v.locked.contains(g[p].next[q])
                                    ==> open@[index_of_id(g, g[p].next[q])],
                            !changed ==> forall|q: int|
                                0 <= q < k && !v.locked.contains(#[trigger] g[i as int].next[q])
                                    ==> open@[index_of_id(g, g[i as int].next[q])],
                        decreases next@.len() - k,
                    {
                        let to = next[k];
                        if !contains_id(&self.locked_nodes, to) {
                            proof {
                                assert(has_node(g, g[i as int].next[k as int]));
                            }
                            let target = self.position_of(to);
                            if !open[target] {
                                proof {
                                    assert(still_reachable(v, g[i as int].id));
                                    let path = choose|path: Seq<NodeId>| #[trigger] is_open_route(v, path) && path.last() == g[i as int].id;
                                    assert(is_edge(g, path.last(), to));
                                    lemma_route_extend(g, v.current, path, to);
                                    let longer = path.push(to);
                                    assert forall|q: int| 0 <= q < longer.len() implies !v.locked.contains(#[trigger] longer[q]) by {
                                        if q < path.len() {
                                            assert(longer[q] == path[q]);
                                        }
                                    }
                                    assert(is_open_route(v, longer));
                                    lemma_count_true_set(open@, target as int);
                                }
                                open.set(target, true);
                                changed = true;
                                proof {
                                    lemma_count_true_bound(open@);
                                }
                            }
                        }
                        k += 1;
                    }
                }
                i += 1;
            }
        }
        proof {
            assert forall|j: int| 0 <= j < open@.len() implies #[trigger] open@[j] == still_reachable(v, g[j].id) by {
                if still_reachable(v, g[j].id) {
                    let path = choose|path: Seq<NodeId>| #[trigger] is_open_route(v, path) && path.last() == g[j].id;
                    lemma_closed_covers(v, open@, path);
                    lemma_index_of_id(g, j);
                }
            }
        }
        open
    }
}

impl ContractMap {
    /// Counts the nodes among the first `upto` that sit at `depth`.
    fn count_depth(depths: &Vec<usize>, upto: usize, depth: usize, Ghost(v): Ghost<ContractView>) -> (count: usize)
        requires
            upto <= depths@.len(),
            depths@.len() == v.nodes.len(),
            forall|j: int| 0 <= j < depths@.len() ==> #[trigger] depths@[j] == v.depth(v.nodes[j].id),
        ensures
            count == count_at_depth(v, v.nodes.take(upto as int), depth as nat),
    {
        let mut count: usize = 0;
        let mut j: usize = 0;
        while j < upto
            invariant
                j <= upto <= depths@.len(),
                depths@.len() == v.nodes.len(),
                forall|q: int| 0 <= q < depths@.len() ==> #[trigger] depths@[q] == v.depth(v.nodes[q].id),
                count == count_at_depth(v, v.nodes.take(j as int), depth as nat),
                count <= j,
            decreases upto - j,
        {
            proof {
                assert(v.nodes.take(j + 1).drop_last() =~= v.nodes.take(j as int));
                assert(v.nodes.take(j + 1).last() == v.nodes[j as int]);
            }
            if depths[j] == depth {
                count += 1;
            }
            j += 1;
        }
        count
    }

    /// Every node with its current status and place on the map, in id
    /// order, for drawing the map.
    pub fn node_progress(&self) -> (entries: Vec<NodeProgress>)
        requires
            self.wf(),
        ensures
            entries@.len() == self@.nodes.len(),
            forall|k: int| 0 <= k < entries@.len() ==> describes(self@, k, #[trigger] entries@[k]),
    {
        let ghost v = self@;
        let ghost g = v.nodes;
        let n = self.nodes.len();
        let open = self.reachable_from_current();
        let zones = self.node_zones();
        let depths = self.node_depths();
        let mut max_depth: usize = 0;
        let mut i: usize = 0;
        while i < n
            invariant
                n == g.len(),
                depths@.len() == n,
                forall|j: int| 0 <= j < n ==> #[trigger] depths@[j] == v.depth(g[j].id),
                i <= n,
                max_depth == deepest(v, g.take(i as int)),
            decreases n - i,
        {
            proof {
                assert(g.take(i + 1).drop_last() =~= g.take(i as int));
                assert(g.take(i + 1).last() == g[i as int]);
            }
            if depths[i] > max_depth {
                max_depth = depths[i];
            }
            i += 1;
        }
        proof {
            assert(g.take(n as int) =~= g);
        }
        let position = self.position_of(self.current_node);
        let current_next = &self.nodes[position].next_nodes;
        let mut entries: Vec<NodeProgress> = Vec::new();
        let mut k: usize = 0;
        while k < n
            invariant
                v == self@,
                self.wf(),
                g == v.nodes,
                n == g.len(),
                open@.len() == n,
                forall|j: int| 0 <= j < n ==> #[trigger] open@[j] == still_reachable(v, g[j].id),
                zones@.len() == n,
                forall|j: int| 0 <= j < n ==> #[trigger] zones@[j] == zone_of(g, v.start, g[j].id),
                depths@.len() == n,
                forall|j: int| 0 <= j < n ==> #[trigger] depths@[j] == v.depth(g[j].id),
                max_depth == deepest(v, g),
                current_next@ == v.node(v.current).next,
                k <= n,
                entries@.len() == k,
                forall|q: int| 0 <= q < k ==> describes(v, q, #[trigger] entries@[q]),
            decreases n - k,
        {
            let node = &self.nodes[k];
            let id = node.id;
            let depth = depths[k];
            let zone = zones[k];
            let offered = self.active_node.is_none() && contains_id(current_next, id) && !contains_id(
                &self.locked_nodes,
                id,
            ) && zone <= self.unlocked_zones;
            proof {
                let is_open = |x: NodeId| v.is_open(x);
                let next = v.node(v.current).next;
                assert(zone == v.zone(id));
                if v.active is None {
                    assert(v.selectable() == next.filter(is_open));
                    if next.contains(id) && is_open(id) {
                        next.filter_lemma(is_open);
                        let p = next.index_of(id);
                        assert(next.filter(is_open).contains(next[p]));
                    }
                    if next.filter(is_open).contains(id) {
                        next.lemma_filter_contains_rev(is_open, id);
                        next.filter_lemma(is_open);
                        let p = next.filter(is_open).index_of(id);
                        assert(is_open(next.filter(is_open)[p]));
                    }
                }
                assert(offered == v.selectable().contains(id));
            }
            let status = if contains_id(&self.completed_nodes, id) {
                NodeStatus::Completed
            } else if id == self.current_node {
                NodeStatus::Current
            } else if !open[k] {
                NodeStatus::Locked
            } else if zone > self.unlocked_zones {
                NodeStatus::Sealed
            } else if offered {
                NodeStatus::Available
            } else {
                NodeStatus::Upcoming
            };
            let row = Self::count_depth(&depths, k, depth, Ghost(v));
            let column_len = Self::count_depth(&depths, n, depth, Ghost(v));
            let connections = copy_ids(&node.next_nodes);
            proof {
                assert(g.take(n as int) =~= g);
            }
            entries.push(
                NodeProgress {
                    node_id: id,
                    encounter_type: node.encounter_type,
                    status,
                    depth,
                    max_depth,
                    row,
                    column_len,
                    is_entry: id == self.start_node,
                    is_current: id == self.current_node,
                    is_target: node.next_nodes.len() == 0,
                    is_boss: node.encounter_type.is_boss(),
                    zone,
                    connections,
                },
            );
            k += 1;
        }
        entries
    }
}

pub open spec fn node_view(id: NodeId, encounter_type: EncounterType, next: Seq<NodeId>) -> NodeView {
    NodeView { id, encounter_type, next }
}

/// The authored demo: two opening routes that rejoin before the final elite
/// encounter.
pub open spec fn demo_nodes() -> Seq<NodeView> {
    seq![
        node_view(0, EncounterType::Entry, seq![1, 2]),
        node_view(1, EncounterType::Combat, seq![3]),
        node_view(2, EncounterType::Event, seq![4]),
        node_view(3, EncounterType::Shop, seq![5]),
        node_view(4, EncounterType::Combat, seq![5]),
        node_view(5, EncounterType::Elite, seq![]),
    ]
}

/// The authored zoned demo: two zones, each opening on a branch and closing
/// on its own boss. Node 3 is zone 1's boss and node 6 is zone 2's, which is
/// also the contract target.
pub open spec fn demo_zoned_nodes() -> Seq<NodeView> {
    seq![
        node_view(0, EncounterType::Entry, seq![1, 2]),
        node_view(1, EncounterType::Combat, seq![3]),
        node_view(2, EncounterType::Event, seq![3]),
        node_view(3, EncounterType::Boss, seq![4, 5]),
        node_view(4, EncounterType::Combat, seq![6]),
        node_view(5, EncounterType::Shop, seq![6]),
        node_view(6, EncounterType::Boss, seq![]),
    ]
}

impl ContractMap {
    /// Builds a contract from nodes known to be numbered in order and to link
    /// only forward, which every check accepts.
    fn from_forward_nodes(nodes: Vec<EncounterNode>) -> (contract: Self)
        requires
            numbered_forward(views(nodes@)),
            nodes@.len() > 0,
        ensures
            contract.wf(),
            contract@.is_fresh(views(nodes@), 0),
    {
        proof {
            lemma_numbered_forward_valid(views(nodes@), 0);
        }
        match Self::new(nodes, 0) {
            Ok(contract) => contract,
            Err(_) => {
                assert(false);
                ContractMap {
                    nodes: Vec::new(),
                    start_node: 0,
                    current_node: 0,
                    locked_nodes: Vec::new(),
                    active_node: None,
                    completed_nodes: Vec::new(),
                    unlocked_zones: 0,
                }
            },
        }
    }

    /// Authored data used by the tests. The two opening routes rejoin before
    /// the final elite encounter.
    pub fn demo() -> (contract: Self)
        ensures
            contract.wf(),
            contract@.is_fresh(demo_nodes(), 0),
    {
        let nodes = vec![
            EncounterNode::new(0, EncounterType::Entry, vec![1, 2]),
            EncounterNode::new(1, EncounterType::Combat, vec![3]),
            EncounterNode::new(2, EncounterType::Event, vec![4]),
            EncounterNode::new(3, EncounterType::Shop, vec![5]),
            EncounterNode::new(4, EncounterType::Combat, vec![5]),
            EncounterNode::new(5, EncounterType::Elite, vec![]),
        ];
        proof {
            assert(views(nodes@) =~~= demo_nodes());
        }
        Self::from_forward_nodes(nodes)
    }

    /// Authored data used by the zone tests: two zones, each opening on a
    /// branch and closing on its own boss.
    pub fn demo_zoned() -> (contract: Self)
        ensures
            contract.wf(),
            contract@.is_fresh(demo_zoned_nodes(), 0),
    {
        let nodes = vec![
            EncounterNode::new(0, EncounterType::Entry, vec![1, 2]),
            EncounterNode::new(1, EncounterType::Combat, vec![3]),
            EncounterNode::new(2, EncounterType::Event, vec![3]),
            EncounterNode::new(3, EncounterType::Boss, vec![4, 5]),
            EncounterNode::new(4, EncounterType::Combat, vec![6]),
            EncounterNode::new(5, EncounterType::Shop, vec![6]),
            EncounterNode::new(6, EncounterType::Boss, vec![]),
        ];
        proof {
            assert(views(nodes@) =~~= demo_zoned_nodes());
        }
        Self::from_forward_nodes(nodes)
    }
}

// ---------------------------------------------------------------------------
// Laws of the contract.
// ---------------------------------------------------------------------------

/// What the map offers and what selecting accepts agree: a node is offered
/// exactly when asking for it would succeed.
pub proof fn law_offered_iff_selectable(v: ContractView, id: NodeId)
    requires
        v.wf(),
    ensures
        v.selectable().contains(id) <==> v.option_outcome(id) is Ok,
{
    if v.active is None {
        let next = v.node(v.current).next;
        let open = |x: NodeId| v.is_open(x);
        if next.filter(open).contains(id) {
            next.lemma_filter_contains_rev(open, id);
            let i = next.filter(open).index_of(id);
            next.lemma_filter_pred(open, i);
        }
        if v.option_outcome(id) is Ok {
            let k = next.index_of(id);
            next.lemma_filter_contains(open, k);
        }
    }
}

/// A node ruled out by an earlier branch choice is never offered and never
/// accepted.
pub proof fn law_locked_is_never_entered(v: ContractView, id: NodeId)
    requires
        v.wf(),
        v.locked.contains(id),
    ensures
        !v.selectable().contains(id),
        v.option_outcome(id) is Err,
{
    law_offered_iff_selectable(v, id);
}

/// A node in a zone whose boss has not been beaten is never offered and
/// never accepted, however directly the graph leads to it.
pub proof fn law_sealed_is_never_entered(v: ContractView, id: NodeId)
    requires
        v.wf(),
        v.zone(id) > v.unlocked_zones,
    ensures
        !v.selectable().contains(id),
        v.option_outcome(id) is Err,
{
    law_offered_iff_selectable(v, id);
}

/// Failing the encounter just committed to leaves it the only thing on
/// offer: the branches declined when it was chosen stay locked, and a boss
/// that beat the player is what is retried.
pub proof fn law_a_failed_encounter_is_the_only_retry(v: ContractView, after: ContractView, requested: NodeId)
    requires
        v.wf(),
        after.wf(),
        v.option_outcome(requested) is Ok,
        v.after_selecting(after, requested),
    ensures
        forall|id: NodeId| #[trigger] (ContractView { active: None, ..after }).selectable().contains(id) <==> id == requested,
{
    let failed = ContractView { active: None, ..after };
    assert forall|id: NodeId| #[trigger] failed.selectable().contains(id) <==> id == requested by {
        law_offered_iff_selectable(failed, id);
    }
}

/// One move of the player on the map: committing to an offered encounter,
/// completing or failing the one under way, or a request that was refused
/// and so changed nothing.
pub open spec fn is_move(before: ContractView, after: ContractView) -> bool {
    ||| after == before
    ||| exists|requested: NodeId|
        before.option_outcome(requested) is Ok && #[trigger] before.after_selecting(after, requested)
    ||| before.active is Some && before.after_completing(after)
    ||| before.active is Some && after == (ContractView { active: None, ..before })
}

/// A branch declined is locked for the rest of the run: along any run of
/// moves, a node locked at the start stays locked, and so is never offered.
pub proof fn law_locks_last_for_the_run(run: Seq<ContractView>, id: NodeId)
    requires
        run.len() > 0,
        forall|i: int| 0 <= i < run.len() - 1 ==> is_move(#[trigger] run[i], run[i + 1]),
        run[0].locked.contains(id),
    ensures
        forall|i: int| 0 <= i < run.len() ==> (#[trigger] run[i]).locked.contains(id) && !run[i].selectable().contains(id),
    decreases run.len(),
{
    if run.len() > 1 {
        let earlier = run.drop_last();
        assert forall|i: int| 0 <= i < earlier.len() - 1 implies is_move(#[trigger] earlier[i], earlier[i + 1]) by {
            assert(is_move(run[i], run[i + 1]));
        }
        law_locks_last_for_the_run(earlier, id);
        let i = run.len() - 2;
        assert(earlier[i] == run[i]);
        assert(is_move(run[i], run[i + 1]));
        if exists|requested: NodeId| run[i].option_outcome(requested) is Ok && #[trigger] run[i].after_selecting(run[i + 1], requested) {
            let requested = choose|requested: NodeId| run[i].option_outcome(requested) is Ok && #[trigger] run[i].after_selecting(run[i + 1], requested);
            assert(run[i + 1].locked.contains(id));
        }
        assert forall|k: int| 0 <= k < run.len() implies (#[trigger] run[k]).locked.contains(id) by {
            if k < run.len() - 1 {
                assert(earlier[k] == run[k]);
            }
        }
    }
    assert forall|k: int| 0 <= k < run.len() implies !(#[trigger] run[k]).selectable().contains(id) by {
        let v = run[k];
        assert(v.locked.contains(id)) by {
            if run.len() > 1 && k < run.len() - 1 {
                assert(run.drop_last()[k] == run[k]);
            }
        }
        if v.active is None {
            let next = v.node(v.current).next;
            let open = |x: NodeId| v.is_open(x);
            if next.filter(open).contains(id) {
                let q = next.filter(open).index_of(id);
                next.lemma_filter_pred(open, q);
            }
        }
    }
}

/// The map marks exactly one node as where the player stands, the current
/// one, and exactly one as where the run starts.
pub proof fn law_one_node_is_current(v: ContractView, entries: Seq<NodeProgress>)
    requires
        v.wf(),
        entries.len() == v.nodes.len(),
        forall|k: int| 0 <= k < entries.len() ==> describes(v, k, #[trigger] entries[k]),
    ensures
        exists|k: int| 0 <= k < entries.len() && (#[trigger] entries[k]).is_current && entries[k].node_id == v.current,
        forall|j: int, k: int|
            0 <= j < entries.len() && 0 <= k < entries.len() && (#[trigger] entries[j]).is_current
                && (#[trigger] entries[k]).is_current ==> j == k,
        exists|k: int| 0 <= k < entries.len() && (#[trigger] entries[k]).is_entry && entries[k].node_id == v.start,
        forall|j: int, k: int|
            0 <= j < entries.len() && 0 <= k < entries.len() && (#[trigger] entries[j]).is_entry
                && (#[trigger] entries[k]).is_entry ==> j == k,
{
    let c = choose|i: int| 0 <= i < v.nodes.len() && #[trigger] v.nodes[i].id == v.current;
    assert(describes(v, c, entries[c]));
    let s = choose|i: int| 0 <= i < v.nodes.len() && #[trigger] v.nodes[i].id == v.start;
    assert(describes(v, s, entries[s]));
    assert forall|j: int, k: int|
        0 <= j < entries.len() && 0 <= k < entries.len() && (#[trigger] entries[j]).is_current
            && (#[trigger] entries[k]).is_current implies j == k by {
        assert(describes(v, j, entries[j]) && describes(v, k, entries[k]));
        lemma_unique_index(v.nodes, j, k);
    }
    assert forall|j: int, k: int|
        0 <= j < entries.len() && 0 <= k < entries.len() && (#[trigger] entries[j]).is_entry
            && (#[trigger] entries[k]).is_entry implies j == k by {
        assert(describes(v, j, entries[j]) && describes(v, k, entries[k]));
        lemma_unique_index(v.nodes, j, k);
    }
}

proof fn lemma_layout_counts_agree(a: ContractView, b: ContractView, nodes: Seq<NodeView>, depth: nat)
    requires
        a.nodes == b.nodes,
        a.start == b.start,
    ensures
        deepest(a, nodes) == deepest(b, nodes),
        count_at_depth(a, nodes, depth) == count_at_depth(b, nodes, depth),
    decreases nodes.len(),
{
    if nodes.len() > 0 {
        lemma_layout_counts_agree(a, b, nodes.drop_last(), depth);
    }
}

proof fn lemma_deepest_bounds(v: ContractView, nodes: Seq<NodeView>, k: int)
    requires
        0 <= k < nodes.len(),
    ensures
        v.depth(nodes[k].id) <= deepest(v, nodes),
    decreases nodes.len(),
{
    if k < nodes.len() - 1 {
        lemma_deepest_bounds(v, nodes.drop_last(), k);
        assert(nodes.drop_last()[k] == nodes[k]);
    }
}

proof fn lemma_count_grows(v: ContractView, nodes: Seq<NodeView>, i: int, depth: nat)
    requires
        0 <= i <= nodes.len(),
    ensures
        count_at_depth(v, nodes.take(i), depth) <= count_at_depth(v, nodes, depth),
    decreases nodes.len() - i,
{
    if i < nodes.len() {
        lemma_count_grows(v, nodes, i + 1, depth);
        assert(nodes.take(i + 1).drop_last() =~= nodes.take(i));
    } else {
        assert(nodes.take(i) =~= nodes);
    }
}

/// Where a node is drawn depends on the contract alone, never on how far
/// the player has got: two states of one contract place each node at the
/// same column and row. And the place is always on the map: a node's column
/// is at most the deepest one, and its row is one of those its column holds.
pub proof fn law_the_layout_stays_put(a: ContractView, b: ContractView, k: int, at_a: NodeProgress, at_b: NodeProgress)
    requires
        a.nodes == b.nodes,
        a.start == b.start,
        0 <= k < a.nodes.len(),
        describes(a, k, at_a),
        describes(b, k, at_b),
    ensures
        at_a.depth == at_b.depth,
        at_a.max_depth == at_b.max_depth,
        at_a.row == at_b.row,
        at_a.column_len == at_b.column_len,
        at_a.depth <= at_a.max_depth,
        at_a.row < at_a.column_len,
{
    let nodes = a.nodes;
    let depth = a.depth(nodes[k].id);
    lemma_layout_counts_agree(a, b, nodes, depth);
    lemma_layout_counts_agree(a, b, nodes.take(k), depth);
    lemma_deepest_bounds(a, nodes, k);
    lemma_count_grows(a, nodes, k + 1, depth);
    assert(nodes.take(k + 1).drop_last() =~= nodes.take(k));
    assert(nodes.take(k + 1).last() == nodes[k]);
}

/// A contract with no boss on it is a single open zone.
pub proof fn law_boss_free_contract_is_one_zone(v: ContractView, id: NodeId)
    requires
        forall|i: int| 0 <= i < v.nodes.len() ==> !((#[trigger] v.nodes[i]).encounter_type is Boss),
    ensures
        v.zone(id) == 0,
{
    assert(bosses_before(v.nodes, v.start, id) =~= Set::empty());
}

/// The entry sits at depth 0, so it is always in the first zone.
pub proof fn law_entry_is_in_the_first_zone(v: ContractView)
    requires
        v.wf(),
    ensures
        v.depth(v.start) == 0,
        v.zone(v.start) == 0,
{
    let g = v.nodes;
    let start = v.start;
    assert(route_from(g, start, seq![start]));
    let rank = choose|rank: spec_fn(NodeId) -> int| #[trigger] is_ranking(g, rank);
    assert forall|path: Seq<NodeId>| #[trigger] route_from(g, start, path) && path.last() == start implies path.len() <= 1 by {
        if path.len() > 1 {
            lemma_route_rank(g, rank, path, 0, path.len() - 1);
        }
    }
    assert(is_longest_depth(g, start, start, 0));
    lemma_longest_unique(g, start, start, 0);
    assert(bosses_before(g, start, start) =~= Set::empty());
}

// ---------------------------------------------------------------------------
// Generating a contract.
// ---------------------------------------------------------------------------

/// How a generated contract is shaped: a run of zones, each `zone_length`
/// columns of ordinary encounters followed by a single boss column.
#[derive(Clone, Copy, Debug, PartialEq, Eq)]
pub struct ContractShape {
    /// Zones on the contract, each ending in its own boss.
    pub zone_count: usize,
    /// Columns of ordinary encounters in a zone, before its boss.
    pub zone_length: usize,
    /// Fewest and most parallel routes a middle column can offer.
    pub min_width: usize,
    pub max_width: usize,
}

impl Default for ContractShape {
    /// Three zones of two encounter columns each: a ten-column contract.
    fn default() -> (shape: Self)
        ensures
            shape == (ContractShape { zone_count: 3, zone_length: 2, min_width: 2, max_width: 3 }),
    {
        ContractShape { zone_count: 3, zone_length: 2, min_width: 2, max_width: 3 }
    }
}

/// Columns from the entry to the final boss, counting both ends.
pub open spec fn shape_length(shape: ContractShape) -> int {
    1 + (if shape.zone_count < 1 { 1 } else { shape.zone_count as int }) * (shape.zone_length + 1)
}

pub open spec fn shape_min_width(shape: ContractShape) -> int {
    if shape.min_width < 1 { 1 } else { shape.min_width as int }
}

pub open spec fn shape_max_width(shape: ContractShape) -> int {
    if shape.max_width < shape_min_width(shape) { shape_min_width(shape) } else { shape.max_width as int }
}

/// A shape whose node count is sure to fit in a node id.
pub open spec fn shape_fits(shape: ContractShape) -> bool {
    &&& shape_length(shape) <= usize::MAX
    &&& shape_length(shape) * shape_max_width(shape) <= u32::MAX
}

/// Column `column` closes a zone with its boss.
pub open spec fn is_boss_column(shape: ContractShape, column: int) -> bool {
    column > 0 && column % (shape.zone_length + 1) == 0
}

impl ContractShape {
    /// Columns from the entry to the final boss, counting both ends: the
    /// entry, then each zone's encounters and the boss closing it.
    pub fn length(&self) -> (length: usize)
        requires
            shape_length(*self) <= usize::MAX,
        ensures
            length == shape_length(*self),
    {
        let zones = if self.zone_count < 1 { 1 } else { self.zone_count };
        assert(zones * (self.zone_length + 1) >= self.zone_length + 1) by (nonlinear_arith)
            requires
                zones >= 1,
        ;
        1 + zones * (self.zone_length + 1)
    }
}

/// The ids of `from` in order, copied.
fn copy_ids(from: &Vec<NodeId>) -> (copy: Vec<NodeId>)
    ensures
        copy@ == from@,
{
    let mut copy: Vec<NodeId> = Vec::new();
    let mut i: usize = 0;
    while i < from.len()
        invariant
            i <= from@.len(),
            copy@ == from@.take(i as int),
        decreases from@.len() - i,
    {
        copy.push(from[i]);
        proof {
            assert(from@.take(i + 1) =~= from@.take(i as int).push(from@[i as int]));
        }
        i += 1;
    }
    proof {
        assert(from@.take(from@.len() as int) =~= from@);
    }
    copy
}

/// Adds a link from node `from` to `to`, keeping each node's links in
/// increasing order.
fn add_link(links: &mut Vec<Vec<NodeId>>, from: usize, to: NodeId)
    requires
        from < old(links)@.len(),
        strictly_increasing(old(links)@[from as int]@),
    ensures
        final(links)@.len() == old(links)@.len(),
        strictly_increasing(final(links)@[from as int]@),
        forall|x: NodeId| #[trigger] final(links)@[from as int]@.contains(x) <==> (old(links)@[from as int]@.contains(x) || x == to),
        forall|i: int| 0 <= i < final(links)@.len() && i != from ==> #[trigger] final(links)@[i] == old(links)@[i],
{
    let mut updated = copy_ids(&links[from]);
    insert_sorted(&mut updated, to);
    links.set(from, updated);
}

/// The kind of encounter rolled for an ordinary node: mostly fights, with
/// quieter nodes mixed through so a route has some texture to it.
pub open spec fn rolled_type(roll: u8) -> EncounterType {
    if roll <= 54 {
        EncounterType::Combat
    } else if roll <= 74 {
        EncounterType::Event
    } else if roll <= 89 {
        EncounterType::Shop
    } else {
        EncounterType::Elite
    }
}

/// The kind of encounter a percentile roll of `roll` gives an ordinary node.
pub fn rolled_encounter_type(roll: u8) -> (encounter_type: EncounterType)
    ensures
        encounter_type == rolled_type(roll),
{
    if roll <= 54 {
        EncounterType::Combat
    } else if roll <= 74 {
        EncounterType::Event
    } else if roll <= 89 {
        EncounterType::Shop
    } else {
        EncounterType::Elite
    }
}

/// Rolls the kind of an ordinary node: a percentile roll from 0 to 99, read
/// by `rolled_encounter_type`.
fn roll_encounter_type(rng: &mut StdRng) -> (encounter_type: EncounterType)
    ensures
        exists|roll: u8| roll < 100 && encounter_type == rolled_type(roll),
{
    let roll = random_usize_in(rng, 0, 99) as u8;
    let encounter_type = rolled_encounter_type(roll);
    assert(roll < 100 && encounter_type == rolled_type(roll));
    encounter_type
}

/// Consecutive ids, column after column: column `c` holds the ids from
/// `first[c]` up to `first[c + 1]`.
spec fn columns_laid_out(columns: Seq<Vec<NodeId>>, first: Seq<int>) -> bool {
    &&& first.len() == columns.len() + 1
    &&& first[0] == 0
    &&& forall|c: int| 0 <= c < columns.len() ==> (#[trigger] columns[c])@.len() == first[c + 1] - first[c]
    &&& forall|c: int, d: int| 0 <= c < d <= columns.len() ==> #[trigger] first[c] < #[trigger] first[d]
    &&& forall|c: int, t: int| 0 <= c < columns.len() && 0 <= t < columns[c]@.len() ==> #[trigger] columns[c]@[t] == first[c] + t
}

/// Node `id` stands in column `c` of a layout whose columns begin at the ids
/// in `first`, its last entry closing the final column.
pub open spec fn in_column(first: Seq<int>, c: int, id: int) -> bool {
    0 <= c < first.len() - 1 && first[c] <= id < first[c + 1]
}

/// How many nodes column `c` holds.
pub open spec fn column_width(first: Seq<int>, c: int) -> int {
    first[c + 1] - first[c]
}

/// The entry column and every boss column hold a single node; the others
/// hold between the shape's fewest and most.
pub open spec fn width_fits(shape: ContractShape, c: int, width: int) -> bool {
    if c == 0 || is_boss_column(shape, c) {
        width == 1
    } else {
        shape_min_width(shape) <= width <= shape_max_width(shape)
    }
}

/// A roll of the encounter mix can come out as this type.
pub open spec fn is_rolled(encounter_type: EncounterType) -> bool {
    exists|roll: u8| roll < 100 && encounter_type == rolled_type(roll)
}

/// The type a generated node in column `c` carries: the entry and the
/// bosses are fixed by the shape, a node with nowhere to go stays a fight,
/// and the rest are rolled.
pub open spec fn generated_type_fits(shape: ContractShape, c: int, node: NodeView) -> bool {
    if c == 0 {
        node.encounter_type == EncounterType::Entry
    } else if is_boss_column(shape, c) {
        node.encounter_type == EncounterType::Boss
    } else if node.next.len() == 0 {
        node.encounter_type == EncounterType::Combat
    } else {
        is_rolled(node.encounter_type)
    }
}

/// Some node of the column before `c` links to `id`.
pub open spec fn linked_from_column(g: Seq<NodeView>, first: Seq<int>, c: int, id: int) -> bool {
    exists|j: int| in_column(first, c - 1, j) && #[trigger] g[j].next.contains(id as NodeId)
}

/// The ids of `ids` all stand in column `c`.
pub open spec fn all_in_column(ids: Seq<NodeId>, first: Seq<int>, c: int) -> bool {
    forall|k: int| 0 <= k < ids.len() ==> in_column(first, c, #[trigger] ids[k] as int)
}

/// `g` stands in the columns that `first` marks out, as `generate` lays a
/// contract out for `shape`: one column per step from the entry to the final
/// boss, links only from a column to the next, a way on from every node
/// before the last column and a way in to every node after the first.
pub open spec fn laid_out(g: Seq<NodeView>, shape: ContractShape, first: Seq<int>) -> bool {
    &&& first.len() == shape_length(shape) + 1
    &&& first[0] == 0
    &&& first.last() == g.len()
    &&& forall|c: int, d: int| 0 <= c < d < first.len() ==> #[trigger] first[c] < #[trigger] first[d]
    &&& forall|c: int| 0 <= c < first.len() - 1 ==> width_fits(shape, c, #[trigger] column_width(first, c))
    &&& forall|c: int, i: int| #[trigger] in_column(first, c, i) ==> all_in_column(g[i].next, first, c + 1)
    &&& forall|c: int, i: int| #[trigger] in_column(first, c, i) && c + 2 < first.len() ==> g[i].next.len() >= 1
    &&& forall|c: int, i: int| #[trigger] in_column(first, c, i) && c >= 1 ==> linked_from_column(g, first, c, i)
    &&& forall|c: int, i: int| #[trigger] in_column(first, c, i) ==> generated_type_fits(shape, c, g[i])
}

/// Another node of column `c` than `i` also leads to `j`.
pub open spec fn shares_link(g: Seq<NodeView>, first: Seq<int>, c: int, i: int, j: NodeId) -> bool {
    exists|k: int| in_column(first, c, k) && k != i && #[trigger] g[k].next.contains(j)
}

/// Every node of a generated contract picks one or two ways on of its own,
/// and is otherwise linked only to nodes that would have been left with no
/// way in: of the nodes it leads to, at most two are led to by another node
/// of its column too.
pub open spec fn few_shared_links(g: Seq<NodeView>, first: Seq<int>) -> bool {
    forall|c: int, i: int|
        #[trigger] in_column(first, c, i) ==> exists|onward: Seq<NodeId>|
            onward.len() <= 2 && forall|j: NodeId|
                #[trigger] g[i].next.contains(j) && shares_link(g, first, c, i, j) ==> onward.contains(j)
}

/// `shares_link`, over links still being laid.
spec fn shares_laid_link(links: Seq<Vec<NodeId>>, first: Seq<int>, c: int, i: int, j: NodeId) -> bool {
    exists|k: int| 0 <= k < links.len() && in_column(first, c, k) && k != i && #[trigger] links[k]@.contains(j)
}

/// The links of node `i`, of column `c`, that another node of the column
/// shares are among `onward`.
spec fn shared_among(links: Seq<Vec<NodeId>>, first: Seq<int>, c: int, i: int, onward: Seq<NodeId>) -> bool {
    forall|j: NodeId| #[trigger] links[i]@.contains(j) && shares_laid_link(links, first, c, i, j) ==> onward.contains(j)
}

/// Node `i` of column `c` shares at most two of its links.
spec fn few_shared_laid(links: Seq<Vec<NodeId>>, first: Seq<int>, c: int, i: int) -> bool {
    exists|onward: Seq<NodeId>| onward.len() <= 2 && #[trigger] shared_among(links, first, c, i, onward)
}

/// Whether a column shares few links depends on that column's links alone.
proof fn lemma_few_shared_kept(before: Seq<Vec<NodeId>>, after: Seq<Vec<NodeId>>, first: Seq<int>, c: int, i: int)
    requires
        before.len() == after.len(),
        0 <= i < before.len(),
        in_column(first, c, i),
        forall|k: int| 0 <= k < before.len() && in_column(first, c, k) ==> after[k] == before[k],
        few_shared_laid(before, first, c, i),
    ensures
        few_shared_laid(after, first, c, i),
{
    let onward = choose|onward: Seq<NodeId>| onward.len() <= 2 && #[trigger] shared_among(before, first, c, i, onward);
    assert forall|j: NodeId| #[trigger] after[i]@.contains(j) && shares_laid_link(after, first, c, i, j) implies onward.contains(j) by {
        let k = choose|k: int| 0 <= k < after.len() && in_column(first, c, k) && k != i && #[trigger] after[k]@.contains(j);
        assert(before[k]@.contains(j));
        assert(shares_laid_link(before, first, c, i, j));
    }
    assert(shared_among(after, first, c, i, onward));
}

/// Adding one id to a sorted list lengthens it by one at most.
proof fn lemma_one_more(before: Seq<NodeId>, after: Seq<NodeId>, to: NodeId)
    requires
        strictly_increasing(before),
        strictly_increasing(after),
        forall|x: NodeId| #[trigger] after.contains(x) <==> (before.contains(x) || x == to),
    ensures
        after.len() <= before.len() + 1,
{
    assert(before.no_duplicates()) by {
        assert forall|a: int, b: int| 0 <= a < before.len() && 0 <= b < before.len() && a != b implies before[a] != before[b] by {
            if a < b { assert(before[a] < before[b]); } else { assert(before[b] < before[a]); }
        }
    }
    assert(after.no_duplicates()) by {
        assert forall|a: int, b: int| 0 <= a < after.len() && 0 <= b < after.len() && a != b implies after[a] != after[b] by {
            if a < b { assert(after[a] < after[b]); } else { assert(after[b] < after[a]); }
        }
    }
    before.unique_seq_to_set();
    after.unique_seq_to_set();
    assert(after.to_set() =~= before.to_set().insert(to));
    vstd::seq_lib::seq_to_set_is_finite(before);
}

/// Linking a stranded node from one node of the column before keeps every
/// link that node shares among its picks: the stranded node had no other
/// way in, so the new link is shared with no one.
proof fn lemma_rescue_keeps_shared(
    before: Seq<Vec<NodeId>>,
    after: Seq<Vec<NodeId>>,
    onward: Seq<Vec<NodeId>>,
    first: Seq<int>,
    pair: int,
    node_id: NodeId,
    i: int,
)
    requires
        before.len() == after.len(),
        before.len() == onward.len(),
        0 <= i < before.len(),
        in_column(first, pair, i),
        shared_among(before, first, pair, i, onward[i]@),
        forall|k: int, x: NodeId| 0 <= k < before.len() && x != node_id ==> (#[trigger] after[k]@.contains(x) <==> before[k]@.contains(x)),
        (exists|k: int| 0 <= k < before.len() && in_column(first, pair, k) && #[trigger] before[k]@.contains(node_id)) ==> forall|k: int|
            0 <= k < before.len() ==> (#[trigger] after[k]@.contains(node_id) <==> before[k]@.contains(node_id)),
        forall|a: int, b: int|
            0 <= a < before.len() && 0 <= b < before.len() && in_column(first, pair, a) && in_column(first, pair, b)
                && #[trigger] after[a]@.contains(node_id) && #[trigger] after[b]@.contains(node_id) && !before[a]@.contains(node_id) ==> a == b,
    ensures
        shared_among(after, first, pair, i, onward[i]@),
{
    assert forall|j: NodeId| #[trigger] after[i]@.contains(j) && shares_laid_link(after, first, pair, i, j) implies onward[i]@.contains(j) by {
        let k = choose|k: int| 0 <= k < after.len() && in_column(first, pair, k) && k != i && #[trigger] after[k]@.contains(j);
        if j != node_id {
            assert(before[k]@.contains(j));
            assert(shares_laid_link(before, first, pair, i, j));
        } else {
            if exists|m: int| 0 <= m < before.len() && in_column(first, pair, m) && #[trigger] before[m]@.contains(node_id) {
                assert(before[k]@.contains(j));
                assert(before[i]@.contains(j));
                assert(shares_laid_link(before, first, pair, i, j));
            } else {
                assert(!before[i]@.contains(node_id));
                assert(i == k);
            }
        }
    }
}

/// Some node of the column before `c` has a link to `id` among `links`.
spec fn linked_from(links: Seq<Vec<NodeId>>, first: Seq<int>, c: int, id: int) -> bool {
    exists|j: int| 0 <= j < links.len() && in_column(first, c - 1, j) && #[trigger] links[j]@.contains(id as NodeId)
}

/// Every link in `before` is still in `after`.
spec fn links_grow(before: Seq<Vec<NodeId>>, after: Seq<Vec<NodeId>>) -> bool {
    &&& before.len() == after.len()
    &&& forall|i: int, x: NodeId| 0 <= i < before.len() && #[trigger] before[i]@.contains(x) ==> after[i]@.contains(x)
}

proof fn lemma_still_linked(before: Seq<Vec<NodeId>>, after: Seq<Vec<NodeId>>, first: Seq<int>)
    requires
        links_grow(before, after),
    ensures
        forall|c: int, id: int| linked_from(before, first, c, id) ==> #[trigger] linked_from(after, first, c, id),
{
    assert forall|c: int, id: int| linked_from(before, first, c, id) implies #[trigger] linked_from(after, first, c, id) by {
        let j = choose|j: int| 0 <= j < before.len() && in_column(first, c - 1, j) && #[trigger] before[j]@.contains(id as NodeId);
        assert(after[j]@.contains(id as NodeId));
    }
}

proof fn lemma_add_keeps_column(before: Seq<NodeId>, after: Seq<NodeId>, to: NodeId, first: Seq<int>, c: int)
    requires
        forall|x: NodeId| #[trigger] after.contains(x) <==> (before.contains(x) || x == to),
        all_in_column(before, first, c),
        in_column(first, c, to as int),
    ensures
        all_in_column(after, first, c),
{
    assert forall|k: int| 0 <= k < after.len() implies in_column(first, c, #[trigger] after[k] as int) by {
        assert(after.contains(after[k]));
        if before.contains(after[k]) {
            let kk = before.index_of(after[k]);
            assert(before[kk] == after[k]);
        }
    }
}

/// Ids fall into one column at most.
pub(crate) proof fn lemma_one_column(first: Seq<int>, c: int, d: int, id: int)
    requires
        forall|a: int, b: int| 0 <= a < b < first.len() ==> #[trigger] first[a] < #[trigger] first[b],
        in_column(first, c, id),
        in_column(first, d, id),
    ensures
        c == d,
{
    if c < d {
        if c + 1 < d {
            assert(first[c + 1] < first[d]);
        }
    } else if d < c {
        if d + 1 < c {
            assert(first[d + 1] < first[c]);
        }
    }
}

/// Every id from the first column's start to the last column's end stands
/// in some column.
pub(crate) proof fn lemma_some_column(first: Seq<int>, id: int) -> (c: int)
    requires
        first.len() >= 2,
        forall|a: int, b: int| 0 <= a < b < first.len() ==> #[trigger] first[a] < #[trigger] first[b],
        first[0] <= id < first.last(),
    ensures
        in_column(first, c, id),
    decreases first.len(),
{
    let n = first.len() - 1;
    if id >= first[n - 1] {
        n - 1
    } else {
        let shorter = first.drop_last();
        assert(first[0] < first[n - 1]);
        let c = lemma_some_column(shorter, id);
        assert(shorter[c] == first[c] && shorter[c + 1] == first[c + 1]);
        c
    }
}

/// Lays out the columns of a contract of `shape`, numbering nodes from 0 in
/// column order. Column 0 is the entry and every boss column holds a single
/// node: the fixed points of a run are not chosen between.
fn lay_out_columns(shape: ContractShape, rng: &mut StdRng) -> (laid: (Vec<Vec<NodeId>>, Ghost<Seq<int>>))
    requires
        shape_fits(shape),
    ensures
        laid.0@.len() == shape_length(shape),
        laid.0@.len() >= 2,
        columns_laid_out(laid.0@, laid.1@),
        laid.1@.last() <= u32::MAX,
        forall|c: int| 0 <= c < laid.0@.len() ==> width_fits(shape, c, #[trigger] column_width(laid.1@, c)),
{
    let length = shape.length();
    let length = if length < 2 { 2 } else { length };
    let min_width = if shape.min_width < 1 { 1 } else { shape.min_width };
    let max_width = if shape.max_width < min_width { min_width } else { shape.max_width };
    proof {
        let zones: int = if shape.zone_count < 1 { 1 } else { shape.zone_count as int };
        assert(zones * (shape.zone_length + 1) >= shape.zone_length + 1) by (nonlinear_arith)
            requires
                zones >= 1,
        ;
    }
    // Every `zone_length` columns of encounters are closed off by a boss
    // column; the last of them is the contract's target.
    let zone_stride = shape.zone_length + 1;
    let ghost widest = shape_max_width(shape);
    assert(length == shape_length(shape));
    assert(length * widest <= u32::MAX);

    let mut columns: Vec<Vec<NodeId>> = Vec::new();
    let mut next_id: NodeId = 0;
    let ghost mut first: Seq<int> = seq![0];
    let mut column_index: usize = 0;
    while column_index < length
        invariant
            shape_fits(shape),
            length == shape_length(shape),
            length * widest <= u32::MAX,
            widest == max_width,
            min_width == shape_min_width(shape),
            max_width == shape_max_width(shape),
            1 <= min_width <= max_width,
            zone_stride == shape.zone_length + 1,
            column_index <= length,
            columns@.len() == column_index,
            columns_laid_out(columns@, first),
            first[column_index as int] == next_id,
            next_id <= column_index * widest,
            forall|c: int| 0 <= c < column_index ==> width_fits(shape, c, #[trigger] column_width(first, c)),
        decreases length - column_index,
    {
        let width = if column_index == 0 || column_index % zone_stride == 0 {
            1
        } else {
            random_usize_in(rng, min_width, max_width)
        };
        let mut column: Vec<NodeId> = Vec::new();
        let mut t: usize = 0;
        proof {
            assert((column_index + 1) * widest == column_index * widest + widest) by (nonlinear_arith);
            assert((column_index + 1) * widest <= length * widest) by (nonlinear_arith)
                requires
                    column_index + 1 <= length,
                    widest >= 0,
            ;
        }
        while t < width
            invariant
                1 <= width <= widest,
                t <= width,
                column@.len() == t,
                forall|q: int| 0 <= q < t ==> #[trigger] column@[q] == first[column_index as int] + q,
                next_id == first[column_index as int] + t,
                first[column_index as int] + width <= u32::MAX,
            decreases width - t,
        {
            column.push(next_id);
            next_id += 1;
            t += 1;
        }
        columns.push(column);
        proof {
            let old_first = first;
            first = first.push(next_id as int);
            assert forall|c: int| 0 <= c < columns@.len() implies (#[trigger] columns@[c])@.len() == first[c + 1] - first[c] by {
                if c < column_index {
                    assert(first[c + 1] == old_first[c + 1]);
                }
            }
            assert forall|c: int, d: int| 0 <= c < d <= columns@.len() implies #[trigger] first[c] < #[trigger] first[d] by {
                if d <= column_index {
                    assert(first[c] == old_first[c] && first[d] == old_first[d]);
                } else {
                    assert(first[c] == old_first[c]);
                    if c < column_index {
                        assert(old_first[c] < old_first[column_index as int]);
                    }
                }
            }
            assert forall|c: int| 0 <= c < column_index + 1 implies width_fits(shape, c, #[trigger] column_width(first, c)) by {
                if c < column_index {
                    assert(first[c] == old_first[c] && first[c + 1] == old_first[c + 1]);
                    assert(column_width(first, c) == column_width(old_first, c));
                } else {
                    assert(column_width(first, c) == width);
                }
            }
        }
        column_index += 1;
    }
    (columns, Ghost(first))
}

/// Gives the node at `node_id` in column `pair` one or two links, to nodes
/// of the next column drawn in a shuffled order.
fn link_onward(
    links: &mut Vec<Vec<NodeId>>,
    node_id: NodeId,
    next: &Vec<NodeId>,
    Ghost(first): Ghost<Seq<int>>,
    Ghost(pair): Ghost<int>,
    rng: &mut StdRng,
)
    requires
        0 <= pair,
        pair + 2 < first.len(),
        node_id < old(links)@.len(),
        next@.len() >= 1,
        forall|t: int| 0 <= t < next@.len() ==> #[trigger] next@[t] == first[pair + 1] + t,
        next@.len() == first[pair + 2] - first[pair + 1],
        forall|i: int| 0 <= i < old(links)@.len() ==> strictly_increasing((#[trigger] old(links)@[i])@),
        old(links)@[node_id as int]@.len() == 0,
    ensures
        final(links)@.len() == old(links)@.len(),
        links_grow(old(links)@, final(links)@),
        forall|i: int| 0 <= i < old(links)@.len() && i != node_id ==> #[trigger] final(links)@[i] == old(links)@[i],
        forall|i: int| 0 <= i < final(links)@.len() ==> strictly_increasing((#[trigger] final(links)@[i])@),
        1 <= final(links)@[node_id as int]@.len() <= 2,
        all_in_column(final(links)@[node_id as int]@, first, pair + 1),
{
    let mut candidates = copy_ids(next);
    let ghost next_ids = candidates@;
    shuffle(&mut candidates, rng);
    proof {
        assert forall|q: int| 0 <= q < candidates@.len() implies in_column(first, pair + 1, #[trigger] candidates@[q] as int) by {
            let x = candidates@[q];
            candidates@.to_multiset_ensures();
            next_ids.to_multiset_ensures();
            assert(candidates@.contains(x));
            assert(candidates@.to_multiset().count(x) > 0);
            assert(next_ids.contains(x));
            let r = next_ids.index_of(x);
            assert(next_ids[r] == first[pair + 1] + r);
        }
    }
    let most = if candidates.len() < 2 { candidates.len() } else { 2 };
    let take = random_usize_in(rng, 1, most);
    let ghost start = links@;
    let mut q: usize = 0;
    while q < take
        invariant
            1 <= take <= candidates@.len(),
            q <= take,
            forall|r: int| 0 <= r < candidates@.len() ==> in_column(first, pair + 1, #[trigger] candidates@[r] as int),
            node_id < links@.len(),
            links@.len() == start.len(),
            links_grow(start, links@),
            forall|i: int| 0 <= i < start.len() && i != node_id ==> #[trigger] links@[i] == start[i],
            forall|i: int| 0 <= i < links@.len() ==> strictly_increasing((#[trigger] links@[i])@),
            all_in_column(links@[node_id as int]@, first, pair + 1),
            q >= 1 ==> links@[node_id as int]@.len() >= 1,
            links@[node_id as int]@.len() <= q,
            take <= 2,
        decreases take - q,
    {
        let ghost before = links@;
        add_link(links, node_id as usize, candidates[q]);
        proof {
            lemma_one_more(before[node_id as int]@, links@[node_id as int]@, candidates@[q as int]);
            lemma_add_keeps_column(before[node_id as int]@, links@[node_id as int]@, candidates@[q as int], first, pair + 1);
            assert(links@[node_id as int]@.contains(candidates@[q as int]));
            assert forall|i: int, x: NodeId| 0 <= i < start.len() && #[trigger] start[i]@.contains(x) implies links@[i]@.contains(x) by {
                assert(before[i]@.contains(x));
                if i == node_id {
                    assert(links@[node_id as int]@.contains(x));
                }
            }
        }
        q += 1;
    }
}

/// Links `node_id`, of column `pair + 1`, from a node of column `pair` drawn
/// at random, unless some node of that column already leads to it.
fn link_if_stranded(
    links: &mut Vec<Vec<NodeId>>,
    node_id: NodeId,
    current: &Vec<NodeId>,
    Ghost(first): Ghost<Seq<int>>,
    Ghost(pair): Ghost<int>,
    rng: &mut StdRng,
)
    requires
        0 <= pair,
        pair + 2 < first.len(),
        first[pair + 1] <= node_id < first[pair + 2],
        0 <= first[pair],
        first[pair + 1] <= old(links)@.len(),
        current@.len() >= 1,
        forall|t: int| 0 <= t < current@.len() ==> #[trigger] current@[t] == first[pair] + t,
        current@.len() == first[pair + 1] - first[pair],
        forall|i: int| 0 <= i < old(links)@.len() ==> strictly_increasing((#[trigger] old(links)@[i])@),
        forall|i: int| first[pair] <= i < first[pair + 1] ==> all_in_column((#[trigger] old(links)@[i])@, first, pair + 1),
    ensures
        final(links)@.len() == old(links)@.len(),
        links_grow(old(links)@, final(links)@),
        forall|i: int| 0 <= i < old(links)@.len() && !(first[pair] <= i < first[pair + 1]) ==> #[trigger] final(links)@[i] == old(links)@[i],
        forall|i: int| 0 <= i < final(links)@.len() ==> strictly_increasing((#[trigger] final(links)@[i])@),
        forall|i: int| first[pair] <= i < first[pair + 1] ==> all_in_column((#[trigger] final(links)@[i])@, first, pair + 1),
        linked_from(final(links)@, first, pair + 1, node_id as int),
        forall|k: int, x: NodeId|
            0 <= k < old(links)@.len() && x != node_id ==> (#[trigger] final(links)@[k]@.contains(x) <==> old(links)@[k]@.contains(
                x,
            )),
        (exists|k: int|
            0 <= k < old(links)@.len() && in_column(first, pair, k) && #[trigger] old(links)@[k]@.contains(node_id))
            ==> forall|k: int|
            0 <= k < old(links)@.len() ==> (#[trigger] final(links)@[k]@.contains(node_id) <==> old(links)@[k]@.contains(
                node_id,
            )),
        forall|a: int, b: int|
            0 <= a < old(links)@.len() && 0 <= b < old(links)@.len() && in_column(first, pair, a) && in_column(first, pair, b)
                && #[trigger] final(links)@[a]@.contains(node_id) && #[trigger] final(links)@[b]@.contains(node_id)
                && !old(links)@[a]@.contains(node_id) ==> a == b,
{
    let mut reached = false;
    let mut r: usize = 0;
    while r < current.len()
        invariant
            r <= current@.len(),
            forall|t: int| 0 <= t < current@.len() ==> #[trigger] current@[t] == first[pair] + t,
            current@.len() == first[pair + 1] - first[pair],
            pair + 2 < first.len(),
            0 <= pair,
            first[pair + 1] <= links@.len(),
            links@ == old(links)@,
            reached ==> linked_from(links@, first, pair + 1, node_id as int),
            reached ==> exists|k: int|
                0 <= k < links@.len() && in_column(first, pair, k) && #[trigger] links@[k]@.contains(node_id),
            !reached ==> forall|q: int| 0 <= q < r ==> !(#[trigger] links@[current@[q] as int])@.contains(node_id),
        decreases current@.len() - r,
    {
        let from = current[r];
        if contains_id(&links[from as usize], node_id) {
            reached = true;
            assert(in_column(first, pair, from as int));
            assert(links@[from as int]@.contains((node_id as int) as NodeId));
        }
        r += 1;
    }
    if !reached {
        let ghost before = links@;
        let pick = random_usize_in(rng, 0, current.len() - 1);
        let from = current[pick];
        add_link(links, from as usize, node_id);
        proof {
            assert forall|k: int| 0 <= k < before.len() && in_column(first, pair, k) implies !(#[trigger] before[k]@.contains(node_id)) by {
                let q = k - first[pair];
                assert(current@[q] == k);
            }
            assert(in_column(first, pair, from as int));
            assert(in_column(first, pair + 1, node_id as int));
            lemma_add_keeps_column(before[from as int]@, links@[from as int]@, node_id, first, pair + 1);
            assert(links@[from as int]@.contains((node_id as int) as NodeId));
            assert(linked_from(links@, first, pair + 1, node_id as int));
            assert forall|i: int, x: NodeId| 0 <= i < before.len() && #[trigger] before[i]@.contains(x) implies links@[i]@.contains(x) by {
                if i == from {
                    assert(links@[from as int]@.contains(x));
                }
            }
            assert forall|i: int| first[pair] <= i < first[pair + 1] implies all_in_column((#[trigger] links@[i])@, first, pair + 1) by {
                if i != from {
                    assert(0 <= i < links@.len());
                    assert(i != (from as usize) as int);
                    assert(links@[i] == before[i]);
                }
            }
        }
    }
}

/// Links each column to the next: every node gets one or two ways forward,
/// then any node of the next column nothing reached is wired up, so no
/// route is left stranded.
#[verifier::spinoff_prover]
#[verifier::rlimit(40)]
fn link_columns(columns: &Vec<Vec<NodeId>>, Ghost(first): Ghost<Seq<int>>, total: u32, rng: &mut StdRng) -> (links: Vec<Vec<NodeId>>)
    requires
        columns@.len() >= 2,
        columns_laid_out(columns@, first),
        first.last() == total,
    ensures
        links@.len() == total,
        forall|i: int| 0 <= i < total ==> strictly_increasing((#[trigger] links@[i])@),
        forall|c: int, i: int| #[trigger] in_column(first, c, i) ==> all_in_column(links@[i]@, first, c + 1),
        forall|c: int, i: int| #[trigger] in_column(first, c, i) && c + 2 < first.len() ==> links@[i]@.len() >= 1,
        forall|c: int, i: int| #[trigger] in_column(first, c, i) && c >= 1 ==> linked_from(links@, first, c, i),
        forall|c: int, i: int| #[trigger] in_column(first, c, i) ==> few_shared_laid(links@, first, c, i),
{
    let length = columns.len();
    let mut links: Vec<Vec<NodeId>> = Vec::new();
    while links.len() < total as usize
        invariant
            links@.len() <= total,
            forall|i: int| 0 <= i < links@.len() ==> (#[trigger] links@[i])@.len() == 0,
        decreases total - links@.len(),
    {
        links.push(Vec::new());
    }
    let mut pair: usize = 0;
    while pair + 1 < length
        invariant
            pair < length,
            length == columns@.len(),
            columns_laid_out(columns@, first),
            first[length as int] == total,
            links@.len() == total,
            forall|i: int| 0 <= i < total ==> strictly_increasing((#[trigger] links@[i])@),
            forall|c: int, i: int|
                #[trigger] in_column(first, c, i) && c < pair ==> links@[i]@.len() >= 1 && all_in_column(links@[i]@, first, c + 1),
            forall|i: int| first[pair as int] <= i < total ==> (#[trigger] links@[i])@.len() == 0,
            forall|c: int, i: int| #[trigger] in_column(first, c, i) && 1 <= c <= pair ==> linked_from(links@, first, c, i),
            forall|c: int, i: int| #[trigger] in_column(first, c, i) && c < pair ==> few_shared_laid(links@, first, c, i),
        decreases length - pair,
    {
        let ghost entering = links@;
        let current = &columns[pair];
        let next = &columns[pair + 1];
        assert(first[pair + 2] <= total) by {
            if pair + 2 < length {
                assert(first[pair + 2] < first[length as int]);
            }
        }
        let mut t: usize = 0;
        while t < current.len()
            invariant
                length == columns@.len(),
                pair + 1 < length,
                current == columns@[pair as int],
                next == columns@[pair + 1],
                columns_laid_out(columns@, first),
                first[pair + 2] <= total,
                first[length as int] == total,
                links@.len() == total,
                t <= current@.len(),
                forall|i: int| 0 <= i < total ==> strictly_increasing((#[trigger] links@[i])@),
                forall|c: int, i: int|
                    #[trigger] in_column(first, c, i) && c < pair ==> links@[i]@.len() >= 1 && all_in_column(links@[i]@, first, c + 1),
                forall|i: int|
                    first[pair as int] <= i < first[pair as int] + t ==> (#[trigger] links@[i])@.len() >= 1 && all_in_column(links@[i]@, first, pair + 1),
                forall|i: int| first[pair as int] + t <= i < total ==> (#[trigger] links@[i])@.len() == 0,
                forall|c: int, i: int| #[trigger] in_column(first, c, i) && 1 <= c <= pair ==> linked_from(links@, first, c, i),
                entering.len() == total,
                forall|i: int| 0 <= i < first[pair as int] ==> #[trigger] links@[i] == entering[i],
                forall|i: int| first[pair as int] <= i < first[pair as int] + t ==> (#[trigger] links@[i])@.len() <= 2,
            decreases current@.len() - t,
        {
            let ghost start = links@;
            let node_id = current[t];
            link_onward(&mut links, node_id, next, Ghost(first), Ghost(pair as int), rng);
            proof {
                assert(node_id == first[pair as int] + t);
                lemma_still_linked(start, links@, first);
                assert forall|c: int, i: int| #[trigger] in_column(first, c, i) && c < pair implies links@[i]@.len() >= 1 && all_in_column(links@[i]@, first, c + 1) by {
                    assert(i < first[pair as int]) by {
                        if c + 1 < pair {
                            assert(first[c + 1] < first[pair as int]);
                        }
                    }
                    assert(links@[i] == start[i]);
                }
            }
            t += 1;
        }
        let ghost onward = links@;
        proof {
            assert forall|i: int| first[pair as int] <= i < first[pair + 1] implies #[trigger] shared_among(links@, first, pair as int, i, onward[i]@) by {
            }
        }
        let mut t: usize = 0;
        while t < next.len()
            invariant
                length == columns@.len(),
                pair + 1 < length,
                current == columns@[pair as int],
                next == columns@[pair + 1],
                columns_laid_out(columns@, first),
                first[pair + 2] <= total,
                first[length as int] == total,
                links@.len() == total,
                t <= next@.len(),
                forall|i: int| 0 <= i < total ==> strictly_increasing((#[trigger] links@[i])@),
                forall|c: int, i: int|
                    #[trigger] in_column(first, c, i) && c <= pair ==> links@[i]@.len() >= 1 && all_in_column(links@[i]@, first, c + 1),
                forall|i: int| first[pair + 1] <= i < total ==> (#[trigger] links@[i])@.len() == 0,
                forall|c: int, i: int| #[trigger] in_column(first, c, i) && 1 <= c <= pair ==> linked_from(links@, first, c, i),
                forall|i: int| first[pair + 1] <= i < first[pair + 1] + t ==> #[trigger] linked_from(links@, first, pair + 1, i),
                entering.len() == total,
                onward.len() == total,
                forall|i: int| 0 <= i < first[pair as int] ==> #[trigger] links@[i] == entering[i],
                forall|i: int| first[pair as int] <= i < first[pair + 1] ==> (#[trigger] onward[i])@.len() <= 2,
                forall|i: int| first[pair as int] <= i < first[pair + 1] ==> #[trigger] shared_among(links@, first, pair as int, i, onward[i]@),
            decreases next@.len() - t,
        {
            let ghost before = links@;
            let node_id = next[t];
            proof {
                assert forall|i: int| first[pair as int] <= i < first[pair + 1] implies all_in_column((#[trigger] links@[i])@, first, pair + 1) by {
                    assert(in_column(first, pair as int, i));
                }
            }
            assert(0 <= first[pair as int]) by {
                if pair > 0 {
                    assert(first[0] < first[pair as int]);
                }
            }
            link_if_stranded(&mut links, node_id, current, Ghost(first), Ghost(pair as int), rng);
            proof {
                lemma_still_linked(before, links@, first);
                assert forall|i: int| first[pair as int] <= i < first[pair + 1] implies #[trigger] shared_among(links@, first, pair as int, i, onward[i]@) by {
                    assert(in_column(first, pair as int, i));
                    assert(shared_among(before, first, pair as int, i, onward[i]@));
                    lemma_rescue_keeps_shared(before, links@, onward, first, pair as int, node_id, i);
                }
                assert forall|c: int, i: int| #[trigger] in_column(first, c, i) && c <= pair implies links@[i]@.len() >= 1 && all_in_column(links@[i]@, first, c + 1) by {
                    if first[pair as int] <= i < first[pair + 1] {
                        lemma_one_column(first, c, pair as int, i);
                        assert(before[i]@.len() >= 1);
                        assert(before[i]@.contains(before[i]@[0]));
                        assert(links@[i]@.contains(before[i]@[0]));
                    } else {
                        assert(links@[i] == before[i]);
                    }
                }
            }
            t += 1;
        }
        proof {
            assert forall|c: int, i: int| #[trigger] in_column(first, c, i) && c < pair + 1 implies few_shared_laid(links@, first, c, i) by {
                assert(0 <= first[c]) by {
                    if c > 0 {
                        assert(first[0] < first[c]);
                    }
                }
                if c == pair {
                    assert(shared_among(links@, first, pair as int, i, onward[i]@));
                } else {
                    assert(first[c + 1] <= first[pair as int]) by {
                        if c + 1 < pair {
                            assert(first[c + 1] < first[pair as int]);
                        }
                    }
                    assert forall|k: int| 0 <= k < entering.len() && in_column(first, c, k) implies links@[k] == entering[k] by {}
                    lemma_few_shared_kept(entering, links@, first, c, i);
                }
            }
        }
        pair += 1;
    }
    proof {
        assert forall|c: int, i: int| #[trigger] in_column(first, c, i) implies few_shared_laid(links@, first, c, i) by {
            if c >= pair {
                if c > pair {
                    assert(first[pair as int] < first[c]);
                }
                assert(links@[i]@.len() == 0);
                assert(shared_among(links@, first, c, i, Seq::<NodeId>::empty()));
            }
        }
        assert forall|c: int, i: int| #[trigger] in_column(first, c, i) implies all_in_column(links@[i]@, first, c + 1) by {
            if c >= pair {
                if c > pair {
                    assert(first[pair as int] < first[c]);
                }
                assert(links@[i]@.len() == 0);
            }
        }
    }
    links
}

/// The nodes of the contract, in id order: the entry and the bosses fixed
/// by the shape, a node with nowhere to go left a fight, the rest rolled
/// from the encounter mix.
fn build_nodes(
    columns: &Vec<Vec<NodeId>>,
    links: &Vec<Vec<NodeId>>,
    Ghost(first): Ghost<Seq<int>>,
    shape: ContractShape,
    rng: &mut StdRng,
) -> (nodes: Vec<EncounterNode>)
    requires
        shape_fits(shape),
        columns_laid_out(columns@, first),
        links@.len() == first.last(),
    ensures
        nodes@.len() == links@.len(),
        forall|i: int| 0 <= i < nodes@.len() ==> (#[trigger] nodes@[i])@.id == i && nodes@[i]@.next == links@[i]@,
        forall|c: int, i: int| #[trigger] in_column(first, c, i) ==> generated_type_fits(shape, c, nodes@[i]@),
{
    proof {
        let zones: int = if shape.zone_count < 1 { 1 } else { shape.zone_count as int };
        assert(zones * (shape.zone_length + 1) >= shape.zone_length + 1) by (nonlinear_arith)
            requires
                zones >= 1,
        ;
    }
    let zone_stride = shape.zone_length + 1;
    let length = columns.len();
    let ghost total = links@.len();
    let mut nodes: Vec<EncounterNode> = Vec::new();
    let mut column_index: usize = 0;
    while column_index < length
        invariant
            length == columns@.len(),
            zone_stride == shape.zone_length + 1,
            zone_stride >= 1,
            columns_laid_out(columns@, first),
            first[length as int] == total,
            links@.len() == total,
            column_index <= length,
            nodes@.len() == first[column_index as int],
            forall|i: int| 0 <= i < nodes@.len() ==> (#[trigger] nodes@[i])@.id == i && nodes@[i]@.next == links@[i]@,
            forall|c: int, i: int| #[trigger] in_column(first, c, i) && i < nodes@.len() ==> generated_type_fits(shape, c, nodes@[i]@),
        decreases length - column_index,
    {
        let column = &columns[column_index];
        assert(first[column_index + 1] <= total) by {
            if column_index + 1 < length {
                assert(first[column_index + 1] < first[length as int]);
            }
        }
        let mut t: usize = 0;
        while t < column.len()
            invariant
                length == columns@.len(),
                zone_stride == shape.zone_length + 1,
                zone_stride >= 1,
                column_index < length,
                column == columns@[column_index as int],
                columns_laid_out(columns@, first),
                first[column_index + 1] <= total,
                links@.len() == total,
                t <= column@.len(),
                nodes@.len() == first[column_index as int] + t,
                forall|i: int| 0 <= i < nodes@.len() ==> (#[trigger] nodes@[i])@.id == i && nodes@[i]@.next == links@[i]@,
                forall|c: int, i: int| #[trigger] in_column(first, c, i) && i < nodes@.len() ==> generated_type_fits(shape, c, nodes@[i]@),
            decreases column@.len() - t,
        {
            let id = column[t];
            let next_nodes = copy_ids(&links[id as usize]);
            let encounter_type = if column_index == 0 {
                EncounterType::Entry
            } else if column_index % zone_stride == 0 {
                EncounterType::Boss
            } else if next_nodes.len() == 0 {
                EncounterType::Combat
            } else {
                roll_encounter_type(rng)
            };
            let ghost before = nodes@;
            nodes.push(EncounterNode::new(id, encounter_type, next_nodes));
            proof {
                assert(in_column(first, column_index as int, id as int));
                assert(generated_type_fits(shape, column_index as int, nodes@[id as int]@));
                assert forall|c: int, i: int| #[trigger] in_column(first, c, i) && i < nodes@.len() implies generated_type_fits(shape, c, nodes@[i]@) by {
                    if i == id {
                        lemma_one_column(first, c, column_index as int, i);
                    } else {
                        assert(nodes@[i] == before[i]);
                    }
                }
            }
            t += 1;
        }
        column_index += 1;
    }
    nodes
}

impl ContractMap {
    /// Builds a fresh contract, so no two runs follow the same route.
    ///
    /// Nodes are laid out in columns between a single entry and a final
    /// boss. Links only ever run to the next column, which keeps the graph
    /// acyclic by construction, and every node is given at least one way in
    /// and one way out, so whichever branch the player commits to still
    /// reaches the final boss.
    pub fn generate(shape: ContractShape, rng: &mut StdRng) -> (contract: Self)
        requires
            shape_fits(shape),
        ensures
            contract.wf(),
            contract@.start == 0,
            contract@.current == 0,
            contract@.locked.len() == 0,
            contract@.active is None,
            contract@.completed.len() == 0,
            contract@.unlocked_zones == 0,
            numbered_forward(contract@.nodes),
            exists|first: Seq<int>| laid_out(contract@.nodes, shape, first) && few_shared_links(contract@.nodes, first),
    {
        let (columns, Ghost(first)) = lay_out_columns(shape, rng);
        let length = columns.len();
        let last = &columns[length - 1];
        let total = last[last.len() - 1] + 1;
        assert(total == first.last()) by {
            assert(first[length - 1] < first[length as int]);
        }
        let links = link_columns(&columns, Ghost(first), total, rng);
        let nodes = build_nodes(&columns, &links, Ghost(first), shape, rng);
        proof {
            lemma_generated_graph(views(nodes@), nodes@, links@, shape, first);
        }
        let contract = Self::from_forward_nodes(nodes);
        proof {
            lemma_sorted_arrangement_unique(contract@.nodes, views(nodes@));
        }
        contract
    }
}

/// The few shared links laid for a generated contract carry over to its
/// nodes.
proof fn lemma_generated_few_shared(g: Seq<NodeView>, nodes: Seq<EncounterNode>, links: Seq<Vec<NodeId>>, first: Seq<int>)
    requires
        g == views(nodes),
        first.len() >= 2,
        first[0] == 0,
        forall|c: int, d: int| 0 <= c < d < first.len() ==> #[trigger] first[c] < #[trigger] first[d],
        links.len() == first.last(),
        nodes.len() == links.len(),
        forall|i: int| 0 <= i < nodes.len() ==> (#[trigger] nodes[i])@.id == i && nodes[i]@.next == links[i]@,
        forall|c: int, i: int| #[trigger] in_column(first, c, i) ==> few_shared_laid(links, first, c, i),
    ensures
        few_shared_links(g, first),
{
    let n = first.len() - 1;
    assert forall|c: int, i: int| #[trigger] in_column(first, c, i) implies exists|onward: Seq<NodeId>|
        onward.len() <= 2 && forall|j: NodeId|
            #[trigger] g[i].next.contains(j) && shares_link(g, first, c, i, j) ==> onward.contains(j) by {
        assert(few_shared_laid(links, first, c, i));
        let onward = choose|onward: Seq<NodeId>| onward.len() <= 2 && #[trigger] shared_among(links, first, c, i, onward);
        assert forall|j: NodeId| #[trigger] g[i].next.contains(j) && shares_link(g, first, c, i, j) implies onward.contains(j) by {
            let k = choose|k: int| in_column(first, c, k) && k != i && #[trigger] g[k].next.contains(j);
            assert(0 <= k < links.len()) by {
                if c > 0 {
                    assert(first[0] < first[c]);
                }
                if c + 1 < n {
                    assert(first[c + 1] < first[n]);
                }
            }
            assert(g[k] == nodes[k]@);
            assert(g[i] == nodes[i]@);
            assert(links[k]@.contains(j));
            assert(shares_laid_link(links, first, c, i, j));
        }
    }
}

proof fn lemma_generated_graph(
    g: Seq<NodeView>,
    nodes: Seq<EncounterNode>,
    links: Seq<Vec<NodeId>>,
    shape: ContractShape,
    first: Seq<int>,
)
    requires
        g == views(nodes),
        first.len() == shape_length(shape) + 1,
        first.len() >= 3,
        first[0] == 0,
        forall|c: int, d: int| 0 <= c < d < first.len() ==> #[trigger] first[c] < #[trigger] first[d],
        forall|c: int| 0 <= c < first.len() - 1 ==> width_fits(shape, c, #[trigger] column_width(first, c)),
        links.len() == first.last(),
        nodes.len() == links.len(),
        forall|i: int| 0 <= i < nodes.len() ==> (#[trigger] nodes[i])@.id == i && nodes[i]@.next == links[i]@,
        forall|i: int| 0 <= i < links.len() ==> strictly_increasing((#[trigger] links[i])@),
        forall|c: int, i: int| #[trigger] in_column(first, c, i) ==> all_in_column(links[i]@, first, c + 1),
        forall|c: int, i: int| #[trigger] in_column(first, c, i) && c + 2 < first.len() ==> links[i]@.len() >= 1,
        forall|c: int, i: int| #[trigger] in_column(first, c, i) && c >= 1 ==> linked_from(links, first, c, i),
        forall|c: int, i: int| #[trigger] in_column(first, c, i) ==> generated_type_fits(shape, c, nodes[i]@),
        forall|c: int, i: int| #[trigger] in_column(first, c, i) ==> few_shared_laid(links, first, c, i),
    ensures
        numbered_forward(g),
        g.len() > 0,
        laid_out(g, shape, first),
        few_shared_links(g, first),
{
    let n = first.len() - 1;
    assert forall|i: int| 0 <= i < g.len() implies (#[trigger] g[i]).id == i by {
        assert(nodes[i]@.id == i);
    }
    assert forall|i: int, k: int| 0 <= i < g.len() && 0 <= k < g[i].next.len() implies g[i].id < #[trigger] g[i].next[k] < g.len() by {
        assert(nodes[i]@.next == links[i]@);
        let c = lemma_some_column(first, i);
        assert(all_in_column(links[i]@, first, c + 1));
        assert(in_column(first, c + 1, links[i]@[k] as int));
        if c + 2 < first.len() - 1 {
            assert(first[c + 2] < first[n]);
        }
    }
    assert forall|i: int, a: int, b: int| 0 <= i < g.len() && 0 <= a < b < g[i].next.len() implies #[trigger] g[i].next[a] < #[trigger] g[i].next[b] by {
        assert(nodes[i]@.next == links[i]@);
        assert(strictly_increasing(links[i]@));
    }
    assert(g.len() > 0) by {
        assert(first[0] < first[n]);
    }
    assert forall|c: int, i: int| #[trigger] in_column(first, c, i) implies all_in_column(g[i].next, first, c + 1) by {
        assert(g[i] == nodes[i]@);
    }
    assert forall|c: int, i: int| #[trigger] in_column(first, c, i) && c + 2 < first.len() implies g[i].next.len() >= 1 by {
        assert(g[i] == nodes[i]@);
    }
    assert forall|c: int, i: int| #[trigger] in_column(first, c, i) && c >= 1 implies linked_from_column(g, first, c, i) by {
        assert(linked_from(links, first, c, i));
        let j = choose|j: int| 0 <= j < links.len() && in_column(first, c - 1, j) && #[trigger] links[j]@.contains(i as NodeId);
        assert(g[j] == nodes[j]@);
        assert(g[j].next.contains(i as NodeId));
    }
    assert forall|c: int, i: int| #[trigger] in_column(first, c, i) implies generated_type_fits(shape, c, g[i]) by {
        assert(g[i] == nodes[i]@);
    }
    lemma_generated_few_shared(g, nodes, links, first);
}

/// Along a route from the entry of a generated contract, the `k`th node
/// stands in column `k`.
proof fn lemma_route_columns(g: Seq<NodeView>, shape: ContractShape, first: Seq<int>, path: Seq<NodeId>)
    requires
        numbered_forward(g),
        laid_out(g, shape, first),
        route_from(g, 0, path),
    ensures
        forall|k: int| 0 <= k < path.len() ==> in_column(first, k, #[trigger] path[k] as int),
    decreases path.len(),
{
    assert(column_width(first, 0) == 1);
    if path.len() == 1 {
        assert(in_column(first, 0, path[0] as int));
    } else {
        let shorter = path.drop_last();
        assert(route_from(g, 0, shorter)) by {
            assert forall|i: int| 0 < i < shorter.len() implies is_edge(g, shorter[i - 1], #[trigger] shorter[i]) by {
                assert(is_edge(g, path[i - 1], path[i]));
            }
        }
        lemma_route_columns(g, shape, first, shorter);
        let n = path.len() - 1;
        assert(is_edge(g, path[n - 1], path[n]));
        let idx = choose|idx: int| 0 <= idx < g.len() && #[trigger] g[idx].id == path[n - 1] && g[idx].next.contains(path[n]);
        assert(in_column(first, n - 1, shorter[n - 1] as int));
        assert(idx == path[n - 1]);
        assert(in_column(first, n - 1, idx));
        assert(all_in_column(g[idx].next, first, n));
        let k = g[idx].next.index_of(path[n]);
        assert(in_column(first, n, g[idx].next[k] as int));
        assert forall|k: int| 0 <= k < path.len() implies in_column(first, k, #[trigger] path[k] as int) by {
            if k < n {
                assert(path[k] == shorter[k]);
            }
        }
    }
}

/// A route of `c + 1` nodes leads from the entry of a generated contract to
/// each node of column `c`.
proof fn lemma_route_to_column(g: Seq<NodeView>, shape: ContractShape, first: Seq<int>, c: int, i: int) -> (path: Seq<NodeId>)
    requires
        numbered_forward(g),
        laid_out(g, shape, first),
        in_column(first, c, i),
    ensures
        route_from(g, 0, path),
        path.len() == c + 1,
        path.last() == i,
    decreases c,
{
    if c == 0 {
        assert(column_width(first, 0) == 1);
        seq![i as NodeId]
    } else {
        assert(linked_from_column(g, first, c, i));
        let j = choose|j: int| in_column(first, c - 1, j) && #[trigger] g[j].next.contains(i as NodeId);
        let before = lemma_route_to_column(g, shape, first, c - 1, j);
        let path = before.push(i as NodeId);
        assert(0 <= j < g.len()) by {
            assert(first[0] <= first[c - 1]) by {
                if c - 1 > 0 {
                    assert(first[0] < first[c - 1]);
                }
            }
            assert(first[c] <= first.last()) by {
                if c < first.len() - 1 {
                    assert(first[c] < first[first.len() - 1]);
                }
            }
        }
        assert(is_edge(g, j as NodeId, i as NodeId)) by {
            assert(g[j].id == j);
        }
        assert forall|k: int| 0 < k < path.len() implies is_edge(g, path[k - 1], #[trigger] path[k]) by {
            if k < path.len() - 1 {
                assert(is_edge(g, before[k - 1], before[k]));
            }
        }
        path
    }
}

/// In a generated contract, the longest way from the entry to a node takes
/// one link per column: every node's depth is the column it stands in.
pub proof fn law_generated_depth_is_column(g: Seq<NodeView>, shape: ContractShape, first: Seq<int>, c: int, i: int)
    requires
        numbered_forward(g),
        laid_out(g, shape, first),
        in_column(first, c, i),
    ensures
        depth_of(g, 0, i as NodeId) == c,
{
    let path = lemma_route_to_column(g, shape, first, c, i);
    assert(route_from(g, 0, path) && path.last() == i as NodeId);
    assert(reaches(g, 0, i as NodeId));
    assert forall|p: Seq<NodeId>| #[trigger] route_from(g, 0, p) && p.last() == i as NodeId implies p.len() == c + 1 by {
        lemma_route_columns(g, shape, first, p);
        assert(in_column(first, p.len() - 1, p[p.len() - 1] as int));
        lemma_one_column(first, p.len() - 1, c, i);
    }
    assert(is_longest_depth(g, 0, i as NodeId, c as nat));
    let d = depth_of(g, 0, i as NodeId);
    assert(is_longest_depth(g, 0, i as NodeId, d));
    let q = choose|q: Seq<NodeId>| #[trigger] route_from(g, 0, q) && q.last() == i as NodeId && q.len() == d + 1;
    assert(q.len() == c + 1);
}

/// A generated contract is as long as its shape asks: the final boss sits at
/// the depth of the last column, and no node sits deeper.
pub proof fn law_generated_length(g: Seq<NodeView>, shape: ContractShape, first: Seq<int>)
    requires
        numbered_forward(g),
        laid_out(g, shape, first),
    ensures
        depth_of(g, 0, (g.len() - 1) as NodeId) == shape_length(shape) - 1,
        forall|i: int| 0 <= i < g.len() ==> depth_of(g, 0, #[trigger] g[i].id) <= shape_length(shape) - 1,
{
    let n = first.len() - 1;
    assert(first[n - 1] < first[n]);
    assert(in_column(first, n - 1, g.len() - 1));
    law_generated_depth_is_column(g, shape, first, n - 1, g.len() - 1);
    assert forall|i: int| 0 <= i < g.len() implies depth_of(g, 0, #[trigger] g[i].id) <= shape_length(shape) - 1 by {
        let c = lemma_some_column(first, i);
        law_generated_depth_is_column(g, shape, first, c, i);
        assert(g[i].id == i);
    }
}

/// Nothing strands a player on a generated contract: the only node with no
/// way on is the final boss, and every node but the entry has a way in.
pub proof fn law_generated_nothing_stranded(g: Seq<NodeView>, shape: ContractShape, first: Seq<int>, i: int)
    requires
        numbered_forward(g),
        laid_out(g, shape, first),
        0 <= i < g.len(),
    ensures
        g[i].next.len() == 0 <==> i == g.len() - 1,
        i == g.len() - 1 ==> g[i].encounter_type == EncounterType::Boss,
        i != 0 ==> exists|j: int| 0 <= j < g.len() && #[trigger] g[j].next.contains(i as NodeId),
{
    let n = first.len() - 1;
    let c = lemma_some_column(first, i);
    assert(first[n - 1] < first[n]);
    let zones: int = if shape.zone_count < 1 { 1 } else { shape.zone_count as int };
    assert(zones * (shape.zone_length + 1) > 0 && (zones * (shape.zone_length + 1)) % (shape.zone_length + 1) == 0)
        by (nonlinear_arith)
        requires
            shape.zone_length + 1 > 0,
            zones >= 1,
    ;
    assert(n - 1 == zones * (shape.zone_length + 1));
    assert(is_boss_column(shape, n - 1));
    if c < n - 1 {
        assert(g[i].next.len() >= 1);
        assert(i < first[n - 1]) by {
            if c + 1 < n - 1 {
                assert(first[c + 1] < first[n - 1]);
            }
        }
    } else {
        assert(c == n - 1);
        assert(column_width(first, n - 1) == 1);
        assert(i == g.len() - 1);
        if g[i].next.len() > 0 {
            assert(all_in_column(g[i].next, first, c + 1));
            assert(in_column(first, c + 1, g[i].next[0] as int));
        }
        assert(generated_type_fits(shape, c, g[i]));
    }
    if i != 0 {
        assert(c >= 1) by {
            if c == 0 {
                assert(column_width(first, 0) == 1);
            }
        }
        assert(linked_from_column(g, first, c, i));
        let j = choose|j: int| in_column(first, c - 1, j) && #[trigger] g[j].next.contains(i as NodeId);
        assert(0 <= j < g.len()) by {
            if c - 1 > 0 {
                assert(first[0] < first[c - 1]);
            }
            if c < n {
                assert(first[c] < first[n]);
            }
        }
    }
}

/// Two arrangements of the same nodes, both in increasing id order, are
/// the same arrangement.
proof fn lemma_sorted_arrangement_unique(a: Seq<NodeView>, b: Seq<NodeView>)
    requires
        same_nodes(a, b),
        ids_increasing(a),
        ids_increasing(b),
    ensures
        a == b,
    decreases a.len(),
{
    if a.len() == 0 {
        assert(a =~= b);
    } else {
        let n = a.len() - 1;
        // The node with the greatest id closes both arrangements.
        assert(b.contains(a[n]));
        let p = b.index_of(a[n]);
        assert(a.contains(b[n]));
        let q = a.index_of(b[n]);
        if p < n {
            assert(b[p].id < b[n].id);
            assert(a[q].id <= a[n].id) by {
                if q < n {
                    assert(a[q].id < a[n].id);
                }
            }
        }
        assert(p == n);
        let a2 = a.drop_last();
        let b2 = b.drop_last();
        assert forall|i: int| 0 <= i < a2.len() implies b2.contains(#[trigger] a2[i]) by {
            assert(b.contains(a[i]));
            let k = b.index_of(a[i]);
            assert(a[i].id < a[n].id);
            if k == n {
                assert(false);
            }
            assert(b2[k] == a2[i]);
        }
        assert forall|i: int| 0 <= i < b2.len() implies a2.contains(#[trigger] b2[i]) by {
            assert(a.contains(b[i]));
            let k = a.index_of(b[i]);
            assert(b[i].id < b[n].id);
            if k == n {
                assert(false);
            }
            assert(a2[k] == b2[i]);
        }
        lemma_sorted_arrangement_unique(a2, b2);
        assert(a =~= b2.push(b[n]));
        assert(b =~= b2.push(b[n]));
    }
}
} // verus!
