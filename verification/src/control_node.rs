//! The controller: it keeps the server nodes, the order in which they are
//! to be given connections, and picks the node for the next connection.

use vstd::prelude::*;
use vstd::string::StringExecFns;
use std::collections::VecDeque;
use crate::Async;
use crate::err::{LBError, error_detail};
use vstd::multiset::Multiset;
use crate::server_node::{NodeAddr, NodeMsg, NodeState, ServerNode};

verus! {

/// A value as the controller keeps it, under an address.
pub struct Keyed<V> {
    /// The address the value is kept under.
    pub addr: NodeAddr,
    /// The value.
    pub value: V,
}

/// The values of a list of entries, by the address each is kept under; a
/// later entry wins over an earlier one with the same address.
pub open spec fn entries_map<V>(s: Seq<Keyed<V>>) -> Map<NodeAddr, V>
    decreases s.len(),
{
    if s.len() == 0 {
        Map::empty()
    } else {
        entries_map(s.drop_last()).insert(s.last().addr, s.last().value)
    }
}

/// No address occurs twice among the entries.
pub open spec fn keys_distinct<V>(s: Seq<Keyed<V>>) -> bool {
    forall|i: int, j: int| 0 <= i < j < s.len() ==> s[i].addr != s[j].addr
}

/// The load of the node at `a`: the connection count its last reported
/// state gives, 0 when it has reported none.
pub open spec fn load_in(states: Map<NodeAddr, NodeState>, a: NodeAddr) -> int {
    if states.dom().contains(a) {
        states[a].count as int
    } else {
        0
    }
}

/// The addresses are in order of load, least loaded first.
pub open spec fn sorted_by_load(order: Seq<NodeAddr>, states: Map<NodeAddr, NodeState>) -> bool {
    forall|i: int, j: int| 0 <= i < j < order.len() ==> load_in(states, #[trigger] order[i]) <= load_in(states, #[trigger] order[j])
}

/// The addresses of `s` whose load is `v`, in the order they have in `s`.
pub open spec fn of_load(s: Seq<NodeAddr>, states: Map<NodeAddr, NodeState>, v: int) -> Seq<NodeAddr>
    decreases s.len(),
{
    if s.len() == 0 {
        Seq::empty()
    } else {
        of_load(s.drop_last(), states, v) + (if load_in(states, s.last()) == v { seq![s.last()] } else { Seq::empty() })
    }
}

/// The order `new` keeps the nodes of each load in the order they have in
/// `old`.
pub open spec fn keeps_order_within_loads(new: Seq<NodeAddr>, old: Seq<NodeAddr>, states: Map<NodeAddr, NodeState>) -> bool {
    forall|v: int| #[trigger] of_load(new, states, v) == of_load(old, states, v)
}

/// The connection count a node last reported, 0 when it reported none.
pub open spec fn reported_count(states: Map<NodeAddr, NodeState>, a: NodeAddr) -> int {
    if states.dom().contains(a) {
        states[a].count as int
    } else {
        0
    }
}

/// A node that reported fewer connections than another comes before it.
pub open spec fn fewer_first(order: Seq<NodeAddr>, states: Map<NodeAddr, NodeState>) -> bool {
    forall|i: int, j: int|
        0 <= i < order.len() && 0 <= j < order.len()
            && reported_count(states, #[trigger] order[i]) < reported_count(states, #[trigger] order[j])
            ==> i < j
}

proof fn lemma_of_load_append(a: Seq<NodeAddr>, b: Seq<NodeAddr>, states: Map<NodeAddr, NodeState>, v: int)
    ensures
        of_load(a + b, states, v) == of_load(a, states, v) + of_load(b, states, v),
    decreases b.len(),
{
    if b.len() == 0 {
        assert(a + b =~= a);
        assert(of_load(a, states, v) + of_load(b, states, v) =~= of_load(a, states, v));
    } else {
        lemma_of_load_append(a, b.drop_last(), states, v);
        assert((a + b).drop_last() =~= a + b.drop_last());
        assert((a + b).last() == b.last());
        assert(of_load(a + b, states, v) =~= of_load(a, states, v) + of_load(b, states, v));
    }
}

proof fn lemma_of_load_single(x: NodeAddr, states: Map<NodeAddr, NodeState>, v: int)
    ensures
        of_load(seq![x], states, v) == (if load_in(states, x) == v { seq![x] } else { Seq::<NodeAddr>::empty() }),
{
    assert(seq![x].drop_last() =~= Seq::<NodeAddr>::empty());
    assert(seq![x].last() == x);
    assert(of_load(Seq::<NodeAddr>::empty(), states, v) == Seq::<NodeAddr>::empty());
    assert(Seq::<NodeAddr>::empty() + seq![x] =~= seq![x]);
    assert(Seq::<NodeAddr>::empty() + Seq::<NodeAddr>::empty() =~= Seq::<NodeAddr>::empty());
    assert(of_load(seq![x], states, v) =~= (if load_in(states, x) == v { seq![x] } else { Seq::<NodeAddr>::empty() }));
}

proof fn lemma_of_load_none(s: Seq<NodeAddr>, states: Map<NodeAddr, NodeState>, v: int)
    requires
        forall|k: int| 0 <= k < s.len() ==> load_in(states, #[trigger] s[k]) != v,
    ensures
        of_load(s, states, v) == Seq::<NodeAddr>::empty(),
    decreases s.len(),
{
    if s.len() > 0 {
        lemma_of_load_none(s.drop_last(), states, v);
        assert(load_in(states, s[s.len() - 1]) != v);
        assert(of_load(s, states, v) =~= Seq::<NodeAddr>::empty());
    }
}

proof fn lemma_of_load_all(s: Seq<NodeAddr>, states: Map<NodeAddr, NodeState>, v: int)
    requires
        forall|k: int| 0 <= k < s.len() ==> load_in(states, #[trigger] s[k]) == v,
    ensures
        of_load(s, states, v) == s,
    decreases s.len(),
{
    if s.len() > 0 {
        lemma_of_load_all(s.drop_last(), states, v);
        assert(load_in(states, s[s.len() - 1]) == v);
        assert(of_load(s, states, v) =~= s);
    }
}

/// The error by which the controller says it has no node to offer.
pub open spec fn is_no_node_error(e: LBError) -> bool {
    e is InternalThrow && error_detail(e) == "No node found *fatal*."@
}

/// The error by which the controller says its message channel failed.
pub open spec fn is_poll_error(e: LBError) -> bool {
    e is InternalThrow && error_detail(e) == "Error in poll *Control fatal*."@
}

/// What polling the controller's channel from the nodes gave.
#[derive(Debug, Clone, Copy, PartialEq, Eq, Structural)]
pub enum RecvEvent {
    /// A message from a node.
    Message(NodeMsg),
    /// All senders are gone.
    Closed,
    /// Nothing has arrived yet.
    Pending,
    /// The channel failed.
    Failed,
}

/// The controller.
pub struct ControlNode<Rx, Tx, S> {
    /// Receiving end of msg from node.
    pub control_recv: Rx,
    /// All server nodes, each under the address it was added with.
    nodes_map: Vec<Keyed<ServerNode<Tx, S>>>,
    /// Node states as the nodes report them.
    node_states: Vec<Keyed<NodeState>>,
    /// The order in which nodes are to be given connections, by address.
    load_order: VecDeque<NodeAddr>,
    /// Stored msg from node.
    msg_from_node: Option<NodeMsg>,
}

proof fn lemma_entries_map_dom<V>(s: Seq<Keyed<V>>, a: NodeAddr)
    ensures
        entries_map(s).dom().contains(a) <==> exists|i: int| 0 <= i < s.len() && #[trigger] s[i].addr == a,
    decreases s.len(),
{
    if s.len() > 0 {
        lemma_entries_map_dom(s.drop_last(), a);
        if entries_map(s.drop_last()).dom().contains(a) {
            let i = choose|i: int| 0 <= i < s.drop_last().len() && #[trigger] s.drop_last()[i].addr == a;
            assert(s[i].addr == a);
        }
        if exists|i: int| 0 <= i < s.len() && #[trigger] s[i].addr == a {
            let i = choose|i: int| 0 <= i < s.len() && #[trigger] s[i].addr == a;
            if i < s.len() - 1 {
                assert(s.drop_last()[i].addr == a);
            }
        }
    }
}

proof fn lemma_entries_map_value<V>(s: Seq<Keyed<V>>, i: int)
    requires
        keys_distinct(s),
        0 <= i < s.len(),
    ensures
        entries_map(s).dom().contains(s[i].addr),
        entries_map(s)[s[i].addr] == s[i].value,
    decreases s.len(),
{
    if i < s.len() - 1 {
        let t = s.drop_last();
        assert(keys_distinct(t));
        assert(t[i] == s[i]);
        lemma_entries_map_value(t, i);
        assert(s[i].addr != s.last().addr);
    }
}

proof fn lemma_entries_map_update<V>(s: Seq<Keyed<V>>, i: int, node: V)
    requires
        keys_distinct(s),
        0 <= i < s.len(),
    ensures
        entries_map(s.update(i, Keyed { addr: s[i].addr, value: node }))
            == entries_map(s).insert(s[i].addr, node),
    decreases s.len(),
{
    let u = s.update(i, Keyed { addr: s[i].addr, value: node });
    if i == s.len() - 1 {
        assert(u.drop_last() =~= s.drop_last());
        lemma_entries_map_dom(s.drop_last(), s[i].addr);
        assert(entries_map(u) =~= entries_map(s).insert(s[i].addr, node));
    } else {
        let t = s.drop_last();
        assert(keys_distinct(t));
        assert(u.drop_last() =~= t.update(i, Keyed { addr: t[i].addr, value: node }));
        lemma_entries_map_update(t, i, node);
        assert(s[i].addr != s.last().addr);
        assert(entries_map(u) =~= entries_map(s).insert(s[i].addr, node));
    }
}

proof fn lemma_entries_map_push<V>(s: Seq<Keyed<V>>, e: Keyed<V>)
    ensures
        entries_map(s.push(e)) == entries_map(s).insert(e.addr, e.value),
{
    assert(s.push(e).drop_last() =~= s);
}

/// The index of the entry kept under `addr`, if there is one.
fn key_index<V>(v: &Vec<Keyed<V>>, addr: NodeAddr) -> (r: Option<usize>)
    ensures
        match r {
            Some(i) => i < v@.len() && v@[i as int].addr == addr,
            None => forall|j: int| 0 <= j < v@.len() ==> #[trigger] v@[j].addr != addr,
        },
{
    let mut i: usize = 0;
    while i < v.len()
        invariant
            i <= v@.len(),
            forall|j: int| 0 <= j < i ==> #[trigger] v@[j].addr != addr,
        decreases v@.len() - i,
    {
        if v[i].addr == addr {
            return Some(i);
        }
        i = i + 1;
    }
    None
}

/// Keeps `value` under `addr`, in place of any value kept there before.
fn put_keyed<V>(v: &mut Vec<Keyed<V>>, addr: NodeAddr, value: V)
    requires
        keys_distinct(old(v)@),
    ensures
        keys_distinct(final(v)@),
        entries_map(final(v)@) == entries_map(old(v)@).insert(addr, value),
{
    let ghost before = v@;
    match key_index(v, addr) {
        Some(i) => {
            v.set(i, Keyed { addr, value });
            proof {
                lemma_entries_map_update(before, i as int, value);
                assert(v@ == before.update(i as int, Keyed { addr: before[i as int].addr, value }));
            }
        },
        None => {
            v.push(Keyed { addr, value });
            proof {
                lemma_entries_map_push(before, Keyed { addr, value });
            }
        },
    }
}

/// Reordering the order, keeping each address as often as before, keeps
/// every address in it one that has its node.
proof fn lemma_sorted_keeps_members<V>(old_order: Seq<NodeAddr>, new_order: Seq<NodeAddr>, entries: Seq<Keyed<V>>)
    requires
        new_order.to_multiset() == old_order.to_multiset(),
        forall|k: int| 0 <= k < old_order.len() ==> #[trigger] entries_map(entries).dom().contains(old_order[k]),
    ensures
        forall|k: int| 0 <= k < new_order.len() ==> #[trigger] entries_map(entries).dom().contains(new_order[k]),
{
    broadcast use vstd::seq_lib::group_to_multiset_ensures;
    assert forall|k: int| 0 <= k < new_order.len() implies #[trigger] entries_map(entries).dom().contains(new_order[k]) by {
        let a = new_order[k];
        assert(new_order.contains(a));
        assert(new_order.to_multiset().count(a) > 0);
        assert(old_order.to_multiset().count(a) > 0);
        assert(old_order.contains(a));
        let j = choose|j: int| 0 <= j < old_order.len() && old_order[j] == a;
        assert(entries_map(entries).dom().contains(old_order[j]));
    }
}

impl<Rx, Tx, S> ControlNode<Rx, Tx, S> {
    /// The receiving end of the nodes' messages.
    pub closed spec fn receiver(&self) -> Rx {
        self.control_recv
    }

    /// The nodes, by the address each was added under.
    pub closed spec fn nodes(&self) -> Map<NodeAddr, ServerNode<Tx, S>> {
        entries_map(self.nodes_map@)
    }

    /// The states the nodes have reported, by the address of each node.
    pub closed spec fn states(&self) -> Map<NodeAddr, NodeState> {
        entries_map(self.node_states@)
    }

    /// The message from a node that the controller holds, if any.
    pub closed spec fn stored_msg(&self) -> Option<NodeMsg> {
        self.msg_from_node
    }

    /// The addresses in the order in which their nodes are to be given
    /// connections.
    pub closed spec fn order(&self) -> Seq<NodeAddr> {
        self.load_order@
    }

    /// The controller's invariant: no address is kept twice, among the
    /// nodes and among the states, and each address in the order has its
    /// node.
    pub closed spec fn wf(&self) -> bool {
        &&& keys_distinct(self.nodes_map@)
        &&& keys_distinct(self.node_states@)
        &&& forall|k: int| 0 <= k < self.load_order@.len() ==> #[trigger] entries_map(self.nodes_map@).dom().contains(self.load_order@[k])
    }

    /// The node that the next connection goes to: the node of the address
    /// at the front of the order, if there is one.
    pub open spec fn next_node(&self) -> Option<ServerNode<Tx, S>> {
        if self.order().len() > 0 && self.nodes().dom().contains(self.order()[0]) {
            Some(self.nodes()[self.order()[0]])
        } else {
            None
        }
    }

    /// A controller that receives the nodes' messages on `r`, with no node,
    /// no node state and no stored message.
    pub fn new(r: Rx) -> (c: ControlNode<Rx, Tx, S>)
        ensures
            c.wf(),
            c.receiver() == r,
            c.nodes() == Map::<NodeAddr, ServerNode<Tx, S>>::empty(),
            c.states() == Map::<NodeAddr, NodeState>::empty(),
            c.stored_msg() is None,
            c.order() == Seq::<NodeAddr>::empty(),
    {
        ControlNode {
            control_recv: r,
            nodes_map: Vec::new(),
            node_states: Vec::new(),
            load_order: VecDeque::new(),
            msg_from_node: None,
        }
    }

    /// Adds a node: its address goes to the front of the order, and the
    /// node replaces any node kept under the same address.
    pub fn add_node(&mut self, node: ServerNode<Tx, S>)
        requires
            old(self).wf(),
        ensures
            final(self).wf(),
            final(self).nodes() == old(self).nodes().insert(node.addr, node),
            final(self).order() == seq![node.addr] + old(self).order(),
            final(self).states() == old(self).states(),
            final(self).stored_msg() == old(self).stored_msg(),
            final(self).receiver() == old(self).receiver(),
    {
        let addr = node.addr;
        self.load_order.push_front(addr);
        put_keyed(&mut self.nodes_map, addr, node);
        proof {
            assert forall|k: int| 0 <= k < self.load_order@.len() implies #[trigger] entries_map(self.nodes_map@).dom().contains(self.load_order@[k]) by {
                if k > 0 {
                    assert(self.load_order@[k] == old(self).load_order@[k - 1]);
                }
            }
        }
    }

    /// Records the state that `msg` reports for its node, and sorts the
    /// order of the nodes by load, least loaded first.
    pub fn update(&mut self, msg: NodeMsg)
        requires
            old(self).wf(),
        ensures
            final(self).wf(),
            final(self).states() == old(self).states().insert(msg.id, NodeState { id: msg.id, count: msg.count }),
            final(self).nodes() == old(self).nodes(),
            sorted_by_load(final(self).order(), final(self).states()),
            fewer_first(final(self).order(), final(self).states()),
            final(self).order().to_multiset() == old(self).order().to_multiset(),
            keeps_order_within_loads(final(self).order(), old(self).order(), final(self).states()),
            final(self).stored_msg() == old(self).stored_msg(),
            final(self).receiver() == old(self).receiver(),
    {
        put_keyed(&mut self.node_states, msg.id, NodeState { id: msg.id, count: msg.count });
        self.sort_load_order();
        proof {
            law_less_loaded_comes_first(self.load_order@, entries_map(self.node_states@));
        }
    }

    /// Sorts the order of the nodes by load, least loaded first (nodes of
    /// equal load keep their places relative to each other); the same
    /// addresses stay in it, as often as before.
    fn sort_load_order(&mut self)
        requires
            old(self).wf(),
        ensures
            final(self).wf(),
            sorted_by_load(final(self).load_order@, entries_map(final(self).node_states@)),
            final(self).load_order@.to_multiset() == old(self).load_order@.to_multiset(),
            keeps_order_within_loads(final(self).load_order@, old(self).load_order@, entries_map(final(self).node_states@)),
            final(self).nodes_map@ == old(self).nodes_map@,
            final(self).node_states@ == old(self).node_states@,
            final(self).msg_from_node == old(self).msg_from_node,
            final(self).control_recv == old(self).control_recv,
    {
        broadcast use vstd::seq_lib::group_to_multiset_ensures;
        let ghost original = self.load_order@;
        let mut sorted: VecDeque<NodeAddr> = VecDeque::new();
        while self.load_order.len() > 0
            invariant
                old(self).wf(),
                original == old(self).load_order@,
                self.nodes_map@ == old(self).nodes_map@,
                self.node_states@ == old(self).node_states@,
                self.msg_from_node == old(self).msg_from_node,
                self.control_recv == old(self).control_recv,
                sorted_by_load(sorted@, entries_map(self.node_states@)),
                sorted@.to_multiset().add(self.load_order@.to_multiset()) == original.to_multiset(),
                forall|v: int| #[trigger] of_load(original, entries_map(self.node_states@), v)
                    == of_load(sorted@, entries_map(self.node_states@), v) + of_load(self.load_order@, entries_map(self.node_states@), v),
            decreases self.load_order@.len(),
        {
            let ghost rest = self.load_order@;
            let x = self.load_order.pop_front().unwrap();
            proof {
                assert(rest =~= self.load_order@.insert(0, x));
                vstd::seq_lib::to_multiset_insert(self.load_order@, 0, x);
            }
            let x_load = load_of(&self.node_states, &x);
            let p = insert_position(&sorted, x_load, &self.node_states);
            let ghost before = sorted@;
            sorted.insert(p, x);
            proof {
                let m = entries_map(self.node_states@);
                let rest2 = self.load_order@;
                assert(rest =~= seq![x] + rest2);
                assert(sorted@ =~= before.take(p as int) + seq![x] + before.skip(p as int));
                assert(before =~= before.take(p as int) + before.skip(p as int));
                assert forall|v: int| #[trigger] of_load(original, m, v)
                    == of_load(sorted@, m, v) + of_load(self.load_order@, m, v) by {
                    lemma_of_load_append(seq![x], rest2, m, v);
                    lemma_of_load_single(x, m, v);
                    lemma_of_load_append(before.take(p as int), before.skip(p as int), m, v);
                    lemma_of_load_append(before.take(p as int) + seq![x], before.skip(p as int), m, v);
                    lemma_of_load_append(before.take(p as int), seq![x], m, v);
                    if load_in(m, x) == v {
                        assert forall|k: int| 0 <= k < before.skip(p as int).len() implies load_in(m, #[trigger] before.skip(p as int)[k]) != v by {
                            assert(before.skip(p as int)[k] == before[p + k]);
                        }
                        lemma_of_load_none(before.skip(p as int), m, v);
                        assert(of_load(sorted@, m, v) =~= of_load(before, m, v) + seq![x]);
                        assert(of_load(rest, m, v) =~= seq![x] + of_load(rest2, m, v));
                        assert(of_load(original, m, v) =~= of_load(sorted@, m, v) + of_load(rest2, m, v));
                    } else {
                        assert(of_load(sorted@, m, v) =~= of_load(before, m, v));
                        assert(of_load(rest, m, v) =~= of_load(rest2, m, v));
                    }
                }
                lemma_insert_sorted(before, p as int, x, entries_map(self.node_states@));
                assert(sorted@ == before.insert(p as int, x));
                vstd::seq_lib::to_multiset_insert(before, p as int, x);
                assert(sorted@.to_multiset() == before.to_multiset().insert(x));
                assert(rest.to_multiset() == self.load_order@.to_multiset().insert(x));
                assert(sorted@.to_multiset().add(self.load_order@.to_multiset()) =~= original.to_multiset());
            }
        }
        proof {
            assert(self.load_order@.to_multiset() =~= Multiset::<NodeAddr>::empty());
            assert(sorted@.to_multiset() =~= original.to_multiset());
            assert forall|v: int| #[trigger] of_load(sorted@, entries_map(self.node_states@), v)
                == of_load(original, entries_map(self.node_states@), v) by {
                assert(of_load(self.load_order@, entries_map(self.node_states@), v) =~= Seq::<NodeAddr>::empty());
                assert(of_load(sorted@, entries_map(self.node_states@), v) + Seq::<NodeAddr>::empty()
                    =~= of_load(sorted@, entries_map(self.node_states@), v));
            }
            lemma_sorted_keeps_members(original, sorted@, self.nodes_map@);
        }
        self.load_order = sorted;
    }

    /// Returns the node for the next connection: the node of the address at
    /// the front of the order; then sorts the order by load. Fails when
    /// there is no node.
    pub fn find_node(&mut self) -> (r: Result<&mut ServerNode<Tx, S>, LBError>)
        requires
            old(self).wf(),
        ensures
            r is Ok <==> old(self).next_node() is Some,
            r is Ok <==> old(self).order().len() > 0,
            match r {
                Ok(n) => {
                    &&& old(self).next_node() == Some(*n)
                    &&& final(self).wf()
                    &&& final(self).nodes() == old(self).nodes().insert(old(self).order()[0], *final(n))
                    &&& sorted_by_load(final(self).order(), final(self).states())
                    &&& fewer_first(final(self).order(), final(self).states())
                    &&& final(self).order().to_multiset() == old(self).order().to_multiset()
                    &&& keeps_order_within_loads(final(self).order(), old(self).order(), final(self).states())
                    &&& ((forall|k: int| 0 <= k < old(self).order().len()
                        ==> load_in(old(self).states(), #[trigger] old(self).order()[k]) == load_in(old(self).states(), old(self).order()[0]))
                        ==> final(self).order() == old(self).order())
                    &&& final(self).states() == old(self).states()
                    &&& final(self).stored_msg() == old(self).stored_msg()
                    &&& final(self).receiver() == old(self).receiver()
                },
                Err(e) => is_no_node_error(e) && *final(self) == *old(self),
            },
    {
        let err = LBError::InternalThrow(String::from_str("No node found *fatal*."));
        if self.load_order.len() == 0 {
            return Err(err);
        }
        let addr = self.load_order[0];
        proof {
            assert(entries_map(self.nodes_map@).dom().contains(self.load_order@[0]));
            lemma_entries_map_dom(self.nodes_map@, addr);
        }
        let ghost order_before = self.load_order@;
        self.sort_load_order();
        proof {
            law_less_loaded_comes_first(self.load_order@, entries_map(self.node_states@));
            if forall|k: int| 0 <= k < order_before.len()
                ==> load_in(entries_map(self.node_states@), #[trigger] order_before[k]) == load_in(entries_map(self.node_states@), order_before[0]) {
                law_equal_loads_keep_order(order_before, self.load_order@, entries_map(self.node_states@));
            }
        }
        match key_index(&self.nodes_map, addr) {
            Some(i) => {
                let ghost before = self.nodes_map@;
                proof {
                    lemma_entries_map_value(before, i as int);
                }
                let entry = &mut self.nodes_map[i];
                let n = &mut entry.value;
                proof {
                    lemma_entries_map_update(before, i as int, *final(n));
                }
                Ok(n)
            },
            None => Err(err),
        }
    }

    /// What the controller makes of one poll of its channel from the nodes.
    pub fn poll_read_recv(&mut self, event: RecvEvent) -> (r: Result<Async<Option<()>>, LBError>)
        ensures
            *final(self) == *old(self),
            match event {
                RecvEvent::Message(_) => r == Ok::<Async<Option<()>>, LBError>(Async::Ready(Some(()))),
                RecvEvent::Closed => r == Ok::<Async<Option<()>>, LBError>(Async::Ready(None)),
                RecvEvent::Pending => r == Ok::<Async<Option<()>>, LBError>(Async::NotReady),
                RecvEvent::Failed => r matches Err(e) && is_poll_error(e),
            },
    {
        match event {
            RecvEvent::Message(_) => Ok(Async::Ready(Some(()))),
            RecvEvent::Closed => Ok(Async::Ready(None)),
            RecvEvent::Pending => Ok(Async::NotReady),
            RecvEvent::Failed => Err(LBError::InternalThrow(String::from_str("Error in poll *Control fatal*."))),
        }
    }
}

/// The load of the node at `a`, as the states `states` record it.
fn load_of(states: &Vec<Keyed<NodeState>>, a: &NodeAddr) -> (r: u8)
    requires
        keys_distinct(states@),
    ensures
        r as int == load_in(entries_map(states@), *a),
{
    match key_index(states, *a) {
        Some(i) => {
            proof {
                lemma_entries_map_value(states@, i as int);
            }
            states[i].value.count
        },
        None => {
            proof {
                lemma_entries_map_dom(states@, *a);
            }
            0
        },
    }
}

/// The position at which an address of load `x_load` goes into the order
/// `s`, sorted by load: after every address of load at most `x_load`.
fn insert_position(s: &VecDeque<NodeAddr>, x_load: u8, states: &Vec<Keyed<NodeState>>) -> (p: usize)
    requires
        keys_distinct(states@),
        sorted_by_load(s@, entries_map(states@)),
    ensures
        p <= s@.len(),
        forall|j: int| 0 <= j < p ==> load_in(entries_map(states@), #[trigger] s@[j]) <= x_load,
        forall|j: int| p <= j < s@.len() ==> load_in(entries_map(states@), #[trigger] s@[j]) > x_load,
{
    let ghost m = entries_map(states@);
    let mut i: usize = 0;
    while i < s.len()
        invariant
            i <= s@.len(),
            keys_distinct(states@),
            m == entries_map(states@),
            sorted_by_load(s@, m),
            forall|j: int| 0 <= j < i ==> load_in(m, #[trigger] s@[j]) <= x_load,
        decreases s@.len() - i,
    {
        if load_of(states, &s[i]) > x_load {
            proof {
                assert forall|j: int| i <= j < s@.len() implies load_in(m, #[trigger] s@[j]) > x_load by {
                    if i < j {
                        assert(load_in(m, s@[i as int]) <= load_in(m, s@[j]));
                    }
                }
            }
            return i;
        }
        i = i + 1;
    }
    i
}

/// Putting `x` where `insert_position` says keeps the order sorted by load.
proof fn lemma_insert_sorted(s: Seq<NodeAddr>, p: int, x: NodeAddr, m: Map<NodeAddr, NodeState>)
    requires
        sorted_by_load(s, m),
        0 <= p <= s.len(),
        forall|j: int| 0 <= j < p ==> load_in(m, #[trigger] s[j]) <= load_in(m, x),
        forall|j: int| p <= j < s.len() ==> load_in(m, #[trigger] s[j]) > load_in(m, x),
    ensures
        sorted_by_load(s.insert(p, x), m),
{
    let t = s.insert(p, x);
    assert forall|i: int, j: int| 0 <= i < j < t.len() implies load_in(m, #[trigger] t[i]) <= load_in(m, #[trigger] t[j]) by {
        if j == p {
            assert(t[i] == s[i]);
        } else if i == p {
            assert(t[j] == s[j - 1]);
        } else if i < p && j < p {
            assert(t[i] == s[i] && t[j] == s[j]);
        } else if i < p {
            assert(t[i] == s[i] && t[j] == s[j - 1]);
        } else {
            assert(t[i] == s[i - 1] && t[j] == s[j - 1]);
        }
    }
}

/// The next connection goes to the node added last: after `add_node(node)`
/// the node picked is `node`, whatever the controller held before.
pub proof fn law_find_after_add<Rx, Tx, S>(
    before: ControlNode<Rx, Tx, S>,
    after: ControlNode<Rx, Tx, S>,
    node: ServerNode<Tx, S>,
)
    requires
        after.nodes() == before.nodes().insert(node.addr, node),
        after.order() == seq![node.addr] + before.order(),
    ensures
        after.next_node() == Some(node),
{
}

/// Once the order has been sorted (by `find_node` or `update`), the next
/// connection goes to a least loaded node.
pub proof fn law_pick_after_sort_is_least_loaded<Rx, Tx, S>(c: ControlNode<Rx, Tx, S>)
    requires
        c.wf(),
        sorted_by_load(c.order(), c.states()),
        c.order().len() > 0,
    ensures
        c.next_node() == Some(c.nodes()[c.order()[0]]),
        forall|k: int| 0 <= k < c.order().len() ==> load_in(c.states(), c.order()[0]) <= load_in(c.states(), #[trigger] c.order()[k]),
{
    assert(c.nodes().dom().contains(c.order()[0]));
    assert forall|k: int| 0 <= k < c.order().len() implies load_in(c.states(), c.order()[0]) <= load_in(c.states(), #[trigger] c.order()[k]) by {
        if k > 0 {
            assert(load_in(c.states(), c.order()[0]) <= load_in(c.states(), c.order()[k]));
        }
    }
}

/// A controller with no node added has no node to offer.
pub proof fn law_no_node_when_empty<Rx, Tx, S>(c: ControlNode<Rx, Tx, S>)
    requires
        c.order() == Seq::<NodeAddr>::empty(),
    ensures
        c.next_node() is None,
{
}

/// The load a node is ordered by is exactly the connection count it last
/// reported, and 0 when it has reported none.
pub proof fn law_load_is_reported_count(states: Map<NodeAddr, NodeState>, a: NodeAddr)
    ensures
        load_in(states, a) == reported_count(states, a),
        states.dom().contains(a) ==> load_in(states, a) == states[a].count as int,
        !states.dom().contains(a) ==> load_in(states, a) == 0,
{
}

/// In an order sorted by load, a node that reported strictly fewer
/// connections comes strictly before one that reported more.
pub proof fn law_less_loaded_comes_first(order: Seq<NodeAddr>, states: Map<NodeAddr, NodeState>)
    requires
        sorted_by_load(order, states),
    ensures
        fewer_first(order, states),
{
    assert forall|i: int, j: int|
        0 <= i < order.len() && 0 <= j < order.len()
            && reported_count(states, #[trigger] order[i]) < reported_count(states, #[trigger] order[j])
        implies i < j by {
        if j < i {
            assert(load_in(states, order[j]) <= load_in(states, order[i]));
        }
    }
}

/// Re-sorting moves no node past another of the same load: where every
/// node of the order has the same load (in particular where no load has
/// been reported), an order re-sorted with the same nodes and each load's
/// nodes kept in their order is the order as it was.
pub proof fn law_equal_loads_keep_order(old: Seq<NodeAddr>, new: Seq<NodeAddr>, states: Map<NodeAddr, NodeState>)
    requires
        new.to_multiset() == old.to_multiset(),
        keeps_order_within_loads(new, old, states),
        forall|k: int| 0 <= k < old.len() ==> load_in(states, #[trigger] old[k]) == load_in(states, old[0]),
    ensures
        new == old,
{
    broadcast use vstd::seq_lib::group_to_multiset_ensures;
    if old.len() == 0 {
        vstd::seq_lib::to_multiset_len(new);
        vstd::seq_lib::to_multiset_len(old);
        assert(new.len() == 0);
        assert(new =~= old);
    } else {
        let v = load_in(states, old[0]);
        assert forall|k: int| 0 <= k < new.len() implies load_in(states, #[trigger] new[k]) == v by {
            let a = new[k];
            assert(new.contains(a));
            assert(new.to_multiset().count(a) > 0);
            assert(old.contains(a));
            let j = choose|j: int| 0 <= j < old.len() && old[j] == a;
            assert(load_in(states, old[j]) == v);
        }
        lemma_of_load_all(new, states, v);
        lemma_of_load_all(old, states, v);
        assert(of_load(new, states, v) == of_load(old, states, v));
    }
}

} // verus!
