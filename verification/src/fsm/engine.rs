use vstd::prelude::*;
use std::collections::HashMap;
use std::collections::HashSet;
use std::marker::PhantomData;
use vstd::std_specs::iter::IteratorSpec;
use crate::fsm::trace::{
    asked_in_turn,
    follows,
    state_entered,
    state_left,
    state_ticked,
    ticks_to,
    transitions_asked,
    Trace,
};
use crate::fsm::machine::{
    lemma_advanced,
    lemma_advanced_same_graph,
    lemma_same_graph_twice,
    lemma_with_payload,
    lemma_with_state,
    lemma_with_transition,
    lemma_without_links_twice,
    lemma_without_state,
    lemma_without_transition,
    Link,
    Machine,
    NodeView,
    StateId,
    TransitionId,
};

verus! {

broadcast use vstd::std_specs::hash::group_hash_axioms;

/// What a state of the user does when the machine comes to it, while the
/// machine rests on it, and when the machine leaves it. `tick` says whether
/// the state has finished.
///
/// Nothing is asked of these methods. What one of them does to the state and
/// to the context is known as far as the state says it: `enters`, `ticks`
/// and `exits` are the state's own account of its three methods, and a state
/// that gives no account leaves them as they are, true of every outcome.
pub trait State<C> {
    /// Whether a call of `enter` on this state, in the context `ctx`, may
    /// leave the state as `after` and the context as `ctx_after`.
    open spec fn enters(&self, ctx: C, after: &Self, ctx_after: C) -> bool {
        true
    }

    /// Whether a call of `tick` on this state, in the context `ctx`, may
    /// leave the state as `after` and the context as `ctx_after`, and say
    /// `finished`.
    open spec fn ticks(&self, ctx: C, after: &Self, ctx_after: C, finished: bool) -> bool {
        true
    }

    /// Whether a call of `exit` on this state, in the context `ctx`, may
    /// leave the state as `after` and the context as `ctx_after`.
    open spec fn exits(&self, ctx: C, after: &Self, ctx_after: C) -> bool {
        true
    }

    fn enter(&mut self, ctx: &mut C)
        ensures
            old(self).enters(*old(ctx), &*final(self), *final(ctx)),
    ;

    fn tick(&mut self, ctx: &mut C) -> (finished: bool)
        ensures
            old(self).ticks(*old(ctx), &*final(self), *final(ctx), finished),
    ;

    fn exit(&mut self, ctx: &mut C)
        ensures
            old(self).exits(*old(ctx), &*final(self), *final(ctx)),
    ;
}

/// When a transition of the user may be followed.
///
/// Nothing is asked of `satisfied`. Its answer, and what it does to the
/// context, is known as far as the transition says it: `answers` is the
/// transition's own account of `satisfied`, and a transition that gives no
/// account leaves it as it is, true of every outcome.
pub trait Transition<C, S: State<C>> {
    /// Whether a call of `satisfied` on this transition from `src` to `dst`,
    /// in the context `ctx`, may leave the context as `ctx_after` and give
    /// the answer `satisfied`.
    open spec fn answers(&self, ctx: C, src: &S, dst: &S, ctx_after: C, satisfied: bool) -> bool {
        true
    }

    fn satisfied(&self, ctx: &mut C, src: &S, dst: &S) -> (satisfied: bool)
        ensures
            self.answers(*old(ctx), src, dst, *final(ctx), satisfied),
    ;
}

/// `HashMap::get_mut`: the place of the value that the key has, if it has
/// one. What is written to the place is the key's value afterwards, and the
/// rest of the map stays.
#[verifier::external_body]
fn value_mut<'a, V>(map: &'a mut HashMap<u32, V>, key: u32) -> (place: Option<&'a mut V>)
    ensures
        match place {
            Some(value) => {
                &&& old(map)@.contains_key(key)
                &&& *value == old(map)@[key]
                &&& final(map)@ == old(map)@.insert(key, *final(value))
            },
            None => !old(map)@.contains_key(key) && final(map)@ == old(map)@,
        },
{
    map.get_mut(&key)
}

/// The handles with the numbers in `numbers`.
spec fn handles(numbers: Set<u32>) -> Set<TransitionId> {
    Set::new(|t: TransitionId| numbers.contains(t.0))
}

/// A node of the graph: a state of the user, and the handles of the
/// transitions that end and that start there.
pub struct Node<C, S: State<C>> {
    _ctx_type: PhantomData<C>,
    in_set: HashSet<u32>,
    out_set: HashSet<u32>,
    state: S,
}

impl<C, S: State<C>> Node<C, S> {
    pub closed spec fn view(&self) -> NodeView<S> {
        NodeView {
            state: self.state,
            in_set: Set::new(|t: TransitionId| self.in_set@.contains(t.0)),
            out_set: Set::new(|t: TransitionId| self.out_set@.contains(t.0)),
        }
    }

    /// A node that no transition touches.
    pub fn new(state: S) -> (node: Node<C, S>)
        ensures
            node@ == (NodeView { state, in_set: Set::empty(), out_set: Set::empty() }),
    {
        let node = Node {
            _ctx_type: PhantomData,
            in_set: HashSet::new(),
            out_set: HashSet::new(),
            state,
        };
        assert(node@.in_set =~= Set::empty());
        assert(node@.out_set =~= Set::empty());
        node
    }

    fn add_in(&mut self, id: TransitionId)
        ensures
            final(self)@ == (NodeView { in_set: old(self)@.in_set.insert(id), ..old(self)@ }),
    {
        self.in_set.insert(id.0);
        assert(self@.in_set =~= old(self)@.in_set.insert(id));
        assert(self@.out_set =~= old(self)@.out_set);
    }

    fn remove_in(&mut self, id: TransitionId)
        ensures
            final(self)@ == (NodeView { in_set: old(self)@.in_set.remove(id), ..old(self)@ }),
    {
        self.in_set.remove(&id.0);
        assert(self@.in_set =~= old(self)@.in_set.remove(id));
        assert(self@.out_set =~= old(self)@.out_set);
    }

    fn add_out(&mut self, id: TransitionId)
        ensures
            final(self)@ == (NodeView { out_set: old(self)@.out_set.insert(id), ..old(self)@ }),
    {
        self.out_set.insert(id.0);
        assert(self@.out_set =~= old(self)@.out_set.insert(id));
        assert(self@.in_set =~= old(self)@.in_set);
    }

    fn remove_out(&mut self, id: TransitionId)
        ensures
            final(self)@ == (NodeView { out_set: old(self)@.out_set.remove(id), ..old(self)@ }),
    {
        self.out_set.remove(&id.0);
        assert(self@.out_set =~= old(self)@.out_set.remove(id));
        assert(self@.in_set =~= old(self)@.in_set);
    }
}

/// An edge of the graph: a transition of the user, and the states it leads
/// from and to.
pub struct Edge<C, S: State<C>, T: Transition<C, S>> {
    _ctx_type: PhantomData<C>,
    _state_type: PhantomData<S>,
    src_id: StateId,
    dst_id: StateId,
    transition: T,
}

impl<C, S: State<C>, T: Transition<C, S>> Edge<C, S, T> {
    pub closed spec fn view(&self) -> Link<T> {
        Link { src: self.src_id, dst: self.dst_id, transition: self.transition }
    }

    pub fn new(src_id: StateId, dst_id: StateId, transition: T) -> (edge: Edge<C, S, T>)
        ensures
            edge@ == (Link { src: src_id, dst: dst_id, transition }),
    {
        Edge { _ctx_type: PhantomData, _state_type: PhantomData, src_id, dst_id, transition }
    }
}

/// A state machine: a graph of states and transitions, of which one state is
/// the current one. It starts on its entry state and is done once it comes
/// to its exit state.
pub struct Fsm<C, S: State<C>, T: Transition<C, S>> {
    _ctx_type: PhantomData<C>,
    node_map: HashMap<u32, Node<C, S>>,
    edge_map: HashMap<u32, Edge<C, S, T>>,
    entry_state_id: StateId,
    exit_state_id: StateId,
    exited: bool,
    curr_state_id: StateId,
    curr_state_finished: bool,
    state_id_counter: StateId,
    transition_id_counter: TransitionId,
}

impl<C, S: State<C>, T: Transition<C, S>> Fsm<C, S, T> {
    /// The nodes under their handles.
    spec fn nodes_of(map: Map<u32, Node<C, S>>) -> Map<StateId, NodeView<S>> {
        Map::new(|s: StateId| map.contains_key(s.0), |s: StateId| map[s.0]@)
    }

    /// The edges under their handles.
    spec fn links_of(map: Map<u32, Edge<C, S, T>>) -> Map<TransitionId, Link<T>> {
        Map::new(|t: TransitionId| map.contains_key(t.0), |t: TransitionId| map[t.0]@)
    }

    /// Putting a node with another state of the user in the place of a node
    /// replaces that state and nothing else.
    proof fn lemma_nodes_of_insert(map: Map<u32, Node<C, S>>, id: StateId, node: Node<C, S>)
        requires
            map.contains_key(id.0),
            node@.in_set == map[id.0]@.in_set,
            node@.out_set == map[id.0]@.out_set,
        ensures
            Self::nodes_of(map.insert(id.0, node)) == Self::nodes_of(map).insert(
                id,
                NodeView { state: node@.state, ..Self::nodes_of(map)[id] },
            ),
    {
        assert(Self::nodes_of(map.insert(id.0, node)) =~= Self::nodes_of(map).insert(
            id,
            NodeView { state: node@.state, ..Self::nodes_of(map)[id] },
        ));
    }

    pub closed spec fn view(&self) -> Machine<S, T> {
        Machine {
            nodes: Self::nodes_of(self.node_map@),
            links: Self::links_of(self.edge_map@),
            entry: self.entry_state_id,
            exit: self.exit_state_id,
            curr: self.curr_state_id,
            curr_finished: self.curr_state_finished,
            exited: self.exited,
            states_issued: self.state_id_counter.0 as nat,
            transitions_issued: self.transition_id_counter.0 as nat,
        }
    }

    /// The machine is well formed.
    pub open spec fn wf(&self) -> bool {
        self@.wf()
    }

    /// Whether the machine has a handle left for one more state.
    pub open spec fn has_room_for_state(&self) -> bool {
        self@.states_issued < u32::MAX
    }

    /// Whether the machine has a handle left for one more transition.
    pub open spec fn has_room_for_transition(&self) -> bool {
        self@.transitions_issued < u32::MAX
    }

    /// A machine of two states, the entry and the exit, that rests on the
    /// entry. The entry has not been entered: the first tick is its first
    /// call.
    pub fn new(entry_state: S, exit_state: S) -> (fsm: Fsm<C, S, T>)
        ensures
            fsm.wf(),
            fsm@.nodes.dom() == set![fsm@.entry, fsm@.exit],
            fsm@.nodes[fsm@.entry] == (NodeView {
                state: entry_state,
                in_set: Set::empty(),
                out_set: Set::empty(),
            }),
            fsm@.nodes[fsm@.exit] == (NodeView {
                state: exit_state,
                in_set: Set::empty(),
                out_set: Set::empty(),
            }),
            fsm@.links == Map::<TransitionId, Link<T>>::empty(),
            fsm@.entry.index() == 1,
            fsm@.exit.index() == 2,
            fsm@.curr == fsm@.entry,
            !fsm@.curr_finished,
            !fsm@.exited,
            fsm@.states_issued == 2,
            fsm@.transitions_issued == 0,
    {
        let mut node_map: HashMap<u32, Node<C, S>> = HashMap::new();
        node_map.insert(1, Node::new(entry_state));
        node_map.insert(2, Node::new(exit_state));
        let fsm = Fsm {
            _ctx_type: PhantomData,
            node_map,
            edge_map: HashMap::new(),
            entry_state_id: StateId(1),
            exit_state_id: StateId(2),
            exited: false,
            curr_state_id: StateId(1),
            curr_state_finished: false,
            state_id_counter: StateId(2),
            transition_id_counter: TransitionId(0),
        };
        proof {
            assert(fsm@.nodes.dom() =~= set![fsm@.entry, fsm@.exit]);
            assert(fsm@.links =~= Map::<TransitionId, Link<T>>::empty());
            fsm.entry_state_id.lemma_index();
            fsm.exit_state_id.lemma_index();
            assert forall|s: StateId| #[trigger] fsm@.nodes.contains_key(s) implies s.index()
                <= fsm@.states_issued by {
                s.lemma_index();
            }
        }
        fsm
    }

    pub fn entry_state_id(&self) -> (id: StateId)
        ensures
            id == self@.entry,
    {
        self.entry_state_id
    }

    pub fn exit_state_id(&self) -> (id: StateId)
        ensures
            id == self@.exit,
    {
        self.exit_state_id
    }

    pub fn curr_state_id(&self) -> (id: StateId)
        ensures
            id == self@.curr,
    {
        self.curr_state_id
    }

    /// Whether the current state has finished.
    pub fn curr_state_finished(&self) -> (finished: bool)
        ensures
            finished == self@.curr_finished,
    {
        self.curr_state_finished
    }

    /// Whether the machine has come to its exit state.
    pub fn exited(&self) -> (exited: bool)
        ensures
            exited == self@.exited,
    {
        self.exited
    }

    /// Whether the machine has a handle left for one more state.
    pub fn can_add_state(&self) -> (room: bool)
        ensures
            room == self.has_room_for_state(),
    {
        self.state_id_counter.0 < u32::MAX
    }

    /// Whether the machine has a handle left for one more transition.
    pub fn can_add_transition(&self) -> (room: bool)
        ensures
            room == self.has_room_for_transition(),
    {
        self.transition_id_counter.0 < u32::MAX
    }

    /// Whether the state is live.
    pub fn contains_state(&self, id: StateId) -> (live: bool)
        ensures
            live == self@.nodes.contains_key(id),
    {
        self.node_map.contains_key(&id.0)
    }

    /// Whether the transition is live.
    pub fn contains_transition(&self, id: TransitionId) -> (live: bool)
        ensures
            live == self@.links.contains_key(id),
    {
        self.edge_map.contains_key(&id.0)
    }

    /// The states that the transition leads from and to, if it is live.
    pub fn endpoints(&self, id: TransitionId) -> (ends: Option<(StateId, StateId)>)
        ensures
            ends == if self@.links.contains_key(id) {
                Some((self@.links[id].src, self@.links[id].dst))
            } else {
                None
            },
    {
        match self.edge_map.get(&id.0) {
            Some(edge) => Some((edge.src_id, edge.dst_id)),
            None => None,
        }
    }

    /// Whether the state is live and knows the transition as one that ends
    /// there.
    pub fn has_incoming(&self, state: StateId, id: TransitionId) -> (known: bool)
        ensures
            known == (self@.nodes.contains_key(state) && self@.nodes[state].in_set.contains(id)),
    {
        match self.node_map.get(&state.0) {
            Some(node) => node.in_set.contains(&id.0),
            None => false,
        }
    }

    /// Whether the state is live and knows the transition as one that starts
    /// there.
    pub fn has_outgoing(&self, state: StateId, id: TransitionId) -> (known: bool)
        ensures
            known == (self@.nodes.contains_key(state) && self@.nodes[state].out_set.contains(id)),
    {
        match self.node_map.get(&state.0) {
            Some(node) => node.out_set.contains(&id.0),
            None => false,
        }
    }

    /// Adds a state and gives its handle, which is the next number.
    pub fn add_state(&mut self, state: S) -> (id: StateId)
        requires
            old(self).wf(),
            old(self).has_room_for_state(),
        ensures
            final(self).wf(),
            id.index() == old(self)@.states_issued + 1,
            !old(self)@.nodes.contains_key(id),
            final(self)@ == old(self)@.with_state(id, state),
    {
        let id = StateId(self.state_id_counter.0 + 1);
        self.state_id_counter = id;
        self.node_map.insert(id.0, Node::new(state));
        proof {
            id.lemma_index();
            lemma_with_state(old(self)@, id, state);
            assert(self@.nodes =~= old(self)@.with_state(id, state).nodes);
            assert(self@.links =~= old(self)@.links);
        }
        id
    }

    /// The user's state of the current state.
    pub fn curr_state(&self) -> (state: &S)
        requires
            self.wf(),
        ensures
            *state == self@.nodes[self@.curr].state,
    {
        &self.curr_node().state
    }

    /// The place of the user's state of the current state.
    pub fn curr_state_mut(&mut self) -> (state: &mut S)
        requires
            old(self).wf(),
        ensures
            *state == old(self)@.nodes[old(self)@.curr].state,
            final(self)@ == old(self)@.with_payload(old(self)@.curr, *final(state)),
            final(self).wf(),
    {
        let curr: u32 = self.curr_state_id.0;
        let ghost before = self@;
        let ghost nodes = self.node_map@;
        proof {
            assert(before.nodes.contains_key(self.curr_state_id));
            assert forall|node: Node<C, S>|
                node@.in_set == nodes[curr]@.in_set && node@.out_set == nodes[curr]@.out_set implies #[trigger] Self::nodes_of(
                nodes.insert(curr, node),
            ) == before.with_payload(before.curr, node@.state).nodes by {
                Self::lemma_nodes_of_insert(nodes, before.curr, node);
            }
            assert forall|state: S| #[trigger] before.with_payload(before.curr, state).wf() by {
                lemma_with_payload(before, before.curr, state);
            }
        }
        let node = value_mut(&mut self.node_map, curr).unwrap();
        &mut node.state
    }

    fn curr_node(&self) -> (node: &Node<C, S>)
        requires
            self.wf(),
        ensures
            node@ == self@.nodes[self@.curr],
    {
        assert(self@.nodes.contains_key(self.curr_state_id));
        self.node_map.get(&self.curr_state_id.0).unwrap()
    }

    /// Adds a transition from `src_id` to `dst_id` and gives its handle,
    /// which is the next number. Where one of the two states is not live
    /// nothing is added.
    pub fn add_transition(&mut self, src_id: StateId, dst_id: StateId, transition: T) -> (id: Option<
        TransitionId,
    >)
        requires
            old(self).wf(),
            old(self).has_room_for_transition(),
        ensures
            final(self).wf(),
            match id {
                Some(id) => {
                    &&& old(self)@.nodes.contains_key(src_id)
                    &&& old(self)@.nodes.contains_key(dst_id)
                    &&& id.index() == old(self)@.transitions_issued + 1
                    &&& !old(self)@.links.contains_key(id)
                    &&& final(self)@ == old(self)@.with_transition(id, src_id, dst_id, transition)
                },
                None => {
                    &&& !(old(self)@.nodes.contains_key(src_id) && old(self)@.nodes.contains_key(
                        dst_id,
                    ))
                    &&& final(self)@ == old(self)@
                },
            },
    {
        if self.node_map.contains_key(&src_id.0) && self.node_map.contains_key(&dst_id.0) {
            let id = TransitionId(self.transition_id_counter.0 + 1);
            self.transition_id_counter = id;
            let src_node = value_mut(&mut self.node_map, src_id.0).unwrap();
            src_node.add_out(id);
            let dst_node = value_mut(&mut self.node_map, dst_id.0).unwrap();
            dst_node.add_in(id);
            self.edge_map.insert(id.0, Edge::new(src_id, dst_id, transition));
            proof {
                let want = old(self)@.with_transition(id, src_id, dst_id, transition);
                id.lemma_index();
                lemma_with_transition(old(self)@, id, src_id, dst_id, transition);
                assert(self@.nodes =~= want.nodes);
                assert(self@.links =~= want.links);
            }
            return Some(id);
        }
        None
    }

    /// Takes the transition out of the graph; the states it joined forget
    /// it. Where there is no such transition nothing changes.
    pub fn remove_transition(&mut self, id: TransitionId)
        requires
            old(self).wf(),
        ensures
            final(self).wf(),
            final(self)@ == old(self)@.without_transition(id),
    {
        proof {
            lemma_without_transition(old(self)@, id);
        }
        if let Some(edge) = self.edge_map.remove(&id.0) {
            assert(old(self)@.links.contains_key(id));
            let src_node = value_mut(&mut self.node_map, edge.src_id.0).unwrap();
            src_node.remove_out(id);
            let dst_node = value_mut(&mut self.node_map, edge.dst_id.0).unwrap();
            dst_node.remove_in(id);
            proof {
                let before = old(self)@;
                let want = before.without_transition(id);
                assert(self@.links =~= want.links);
                assert forall|s: StateId| #[trigger] want.nodes.contains_key(s) implies self@.nodes[s]
                    == want.nodes[s] by {
                    if before.nodes[s].out_set.contains(id) {
                        assert(before.links[id].src == s);
                    }
                    if before.nodes[s].in_set.contains(id) {
                        assert(before.links[id].dst == s);
                    }
                    assert(self@.nodes[s].in_set =~= want.nodes[s].in_set);
                    assert(self@.nodes[s].out_set =~= want.nodes[s].out_set);
                }
                assert(self@.nodes =~= want.nodes);
            }
        } else {
            assert(self.edge_map@ =~= old(self).edge_map@);
        }
    }

    /// The numbers in the set, in some order.
    fn numbers(set: &HashSet<u32>) -> (list: Vec<u32>)
        ensures
            list@.to_set() == set@,
    {
        let mut list: Vec<u32> = Vec::new();
        let ghost all = vstd::std_specs::hash::spec_hash_keys_iter(set).remaining();
        for t in it: set.iter()
            invariant
                it.seq() == all,
                all.unref().to_set() == set@,
                list@.len() == it.index(),
                forall|j: int| 0 <= j < it.index() ==> list@[j] == *all[j],
        {
            list.push(*t);
        }
        assert(list@ =~= all.unref());
        list
    }

    /// Takes the transitions with the numbers in `list` out of the graph.
    fn remove_transitions(&mut self, list: &Vec<u32>)
        requires
            old(self).wf(),
        ensures
            final(self).wf(),
            final(self)@ == old(self)@.without_links(handles(list@.to_set())),
    {
        let mut i: usize = 0;
        proof {
            assert(handles(list@.subrange(0, 0).to_set()) =~= Set::empty());
            lemma_without_transition(self@, TransitionId(0));
            assert(self@.without_links(Set::empty()).links =~= self@.links);
            assert forall|s: StateId| #[trigger] self@.nodes.contains_key(s) implies self@.without_links(
                Set::empty(),
            ).nodes[s] == self@.nodes[s] by {
                assert(self@.without_links(Set::empty()).nodes[s].in_set =~= self@.nodes[s].in_set);
                assert(self@.without_links(Set::empty()).nodes[s].out_set
                    =~= self@.nodes[s].out_set);
            }
            assert(self@.without_links(Set::empty()).nodes =~= self@.nodes);
        }
        while i < list.len()
            invariant
                i <= list@.len(),
                self.wf(),
                self@ == old(self)@.without_links(handles(list@.subrange(0, i as int).to_set())),
            decreases list@.len() - i,
        {
            let id = TransitionId(list[i]);
            let ghost done = handles(list@.subrange(0, i as int).to_set());
            self.remove_transition(id);
            proof {
                lemma_without_links_twice(old(self)@, done, set![id]);
                assert(list@.subrange(0, i + 1) =~= list@.subrange(0, i as int).push(list@[i as int]));
                assert(handles(list@.subrange(0, i + 1).to_set()) =~= done.union(set![id])) by {
                    assert forall|t: TransitionId|
                        handles(list@.subrange(0, i + 1).to_set()).contains(t) == done.union(
                            set![id],
                        ).contains(t) by {
                        let longer = list@.subrange(0, i + 1);
                        let shorter = list@.subrange(0, i as int);
                        if longer.contains(t.0) {
                            let j = choose|j: int| 0 <= j < longer.len() && longer[j] == t.0;
                            if j < i {
                                assert(shorter[j] == t.0);
                            }
                        }
                        if shorter.contains(t.0) {
                            let j = choose|j: int| 0 <= j < shorter.len() && shorter[j] == t.0;
                            assert(longer[j] == t.0);
                        }
                        if t == id {
                            assert(longer[i as int] == t.0);
                        }
                    }
                }
            }
            i = i + 1;
        }
        assert(list@.subrange(0, i as int) =~= list@);
    }

    /// Takes the state out of the graph, with every transition that starts
    /// or ends there. Where there is no such state nothing changes, and
    /// nothing changes where the machine rests on the state: the current
    /// state stays.
    pub fn remove_state(&mut self, id: StateId)
        requires
            old(self).wf(),
        ensures
            final(self).wf(),
            final(self)@ == old(self)@.without_state(id),
    {
        proof {
            lemma_without_state(old(self)@, id);
        }
        if id == self.curr_state_id {
            return;
        }
        let (arriving, leaving) = match self.node_map.get(&id.0) {
            Some(node) => (Self::numbers(&node.in_set), Self::numbers(&node.out_set)),
            None => {
                return;
            },
        };
        let ghost before = old(self)@;
        let ghost first = handles(arriving@.to_set());
        let ghost second = handles(leaving@.to_set());
        self.remove_transitions(&arriving);
        self.remove_transitions(&leaving);
        proof {
            lemma_without_links_twice(before, first, second);
            assert(first.union(second) =~= before.touching(id)) by {
                assert forall|t: TransitionId|
                    first.union(second).contains(t) == before.touching(id).contains(t) by {
                    if before.touching(id).contains(t) {
                        assert(before.links.contains_key(t));
                    }
                    if first.contains(t) {
                        assert(before.nodes[id].in_set.contains(t));
                    }
                    if second.contains(t) {
                        assert(before.nodes[id].out_set.contains(t));
                    }
                }
            }
        }
        self.node_map.remove(&id.0);
        proof {
            let want = before.without_state(id);
            assert(self@.nodes =~= want.nodes);
            assert(self@.links =~= want.links);
        }
    }

    /// The bookkeeping of one step, for a caller that has made the calls on
    /// the states and transitions itself. `finished` says whether the
    /// current state has finished in this step, `fired` which transition was
    /// found satisfied, if any.
    pub fn advance(&mut self, finished: bool, fired: Option<TransitionId>)
        requires
            old(self).wf(),
        ensures
            final(self).wf(),
            final(self)@ == old(self)@.advanced(finished, fired),
    {
        proof {
            lemma_advanced(old(self)@, finished, fired);
        }
        if self.exited {
            return;
        }
        if let Some(t) = fired {
            if self.curr_node().out_set.contains(&t.0) {
                assert(self@.nodes[self@.curr].out_set.contains(t));
                assert(self@.links.contains_key(t));
                let dst: StateId = self.edge_map.get(&t.0).unwrap().dst_id;
                self.curr_state_id = dst;
                self.curr_state_finished = false;
                self.exited = dst == self.exit_state_id;
                return;
            }
        }
        self.curr_state_finished = self.curr_state_finished || finished;
    }

    /// The first transition out of the current state that says it is
    /// satisfied, if one does. The transitions are asked one after the
    /// other, each at most once and in no particular order, until one says
    /// that it is satisfied or all have been asked.
    fn first_satisfied(&self, ctx: &mut C) -> (fired: Option<TransitionId>)
        requires
            self.wf(),
        ensures
            fired matches Some(t) ==> self@.nodes[self@.curr].out_set.contains(t),
            exists|asked: Seq<TransitionId>, contexts: Seq<C>|
                asked_in_turn(self@, *old(ctx), asked, contexts, fired, *final(ctx)),
    {
        let curr_node = self.curr_node();
        let ghost m = self@;
        let ghost first = *ctx;
        let ghost all = vstd::std_specs::hash::spec_hash_keys_iter(&curr_node.out_set).remaining();
        let ghost mut asked: Seq<TransitionId> = Seq::empty();
        let ghost mut contexts: Seq<C> = seq![*ctx];
        for t in it: curr_node.out_set.iter()
            invariant
                self.wf(),
                m == self@,
                curr_node@ == m.nodes[m.curr],
                it.seq() == all,
                all.unref().to_set() == curr_node.out_set@,
                all.no_duplicates(),
                asked.len() == it.index(),
                forall|j: int| 0 <= j < asked.len() ==> (#[trigger] asked[j]).0 == *all[j],
                contexts.len() == asked.len() + 1,
                first == *old(ctx),
                contexts[0] == first,
                contexts[asked.len() as int] == *ctx,
                forall|j: int|
                    0 <= j < asked.len() ==> m.links[#[trigger] asked[j]].transition.answers(
                        contexts[j],
                        &m.nodes[m.curr].state,
                        &m.nodes[m.links[asked[j]].dst].state,
                        contexts[j + 1],
                        false,
                    ),
        {
            let id = TransitionId(*t);
            proof {
                assert(all.unref()[it.index() as int] == *t);
                assert(curr_node.out_set@.contains(*t));
                assert(m.nodes[m.curr].out_set.contains(id));
                assert(m.links.contains_key(id));
                assert(m.nodes.contains_key(m.links[id].dst));
            }
            let edge = self.edge_map.get(t).unwrap();
            let dst_state = &self.node_map.get(&edge.dst_id.0).unwrap().state;
            let ghost earlier = asked;
            let ghost before = contexts;
            let satisfied = edge.transition.satisfied(ctx, &curr_node.state, dst_state);
            proof {
                asked = earlier.push(id);
                contexts = before.push(*ctx);
                assert forall|j: int| 0 <= j < asked.len() implies {
                    &&& m.nodes[m.curr].out_set.contains(#[trigger] asked[j])
                    &&& m.links[asked[j]].transition.answers(
                        contexts[j],
                        &m.nodes[m.curr].state,
                        &m.nodes[m.links[asked[j]].dst].state,
                        contexts[j + 1],
                        satisfied && j == asked.len() - 1,
                    )
                } by {
                    if j < earlier.len() {
                        assert(asked[j] == earlier[j]);
                        assert(contexts[j] == before[j]);
                        assert(contexts[j + 1] == before[j + 1]);
                        assert(all.unref()[j] == asked[j].0);
                        assert(curr_node.out_set@.contains(asked[j].0));
                    }
                }
            }
            if satisfied {
                proof {
                    assert forall|i: int, j: int|
                        0 <= i < asked.len() && 0 <= j < asked.len() && i != j implies asked[i]
                        != asked[j] by {
                        assert(asked[i].0 == *all[i]);
                        assert(asked[j].0 == *all[j]);
                    }
                    assert(asked_in_turn(m, first, asked, contexts, Some(id), *ctx));
                }
                return Some(id);
            }
        }
        proof {
            assert forall|i: int, j: int|
                0 <= i < asked.len() && 0 <= j < asked.len() && i != j implies asked[i]
                != asked[j] by {
                assert(asked[i].0 == *all[i]);
                assert(asked[j].0 == *all[j]);
            }
            assert forall|t: TransitionId|
                asked.to_set().contains(t) == m.nodes[m.curr].out_set.contains(t) by {
                if asked.to_set().contains(t) {
                    let j = choose|j: int| 0 <= j < asked.len() && asked[j] == t;
                    assert(all.unref()[j] == t.0);
                    assert(all.unref().contains(t.0));
                }
                if m.nodes[m.curr].out_set.contains(t) {
                    assert(all.unref().to_set().contains(t.0));
                    let j = choose|j: int| 0 <= j < all.unref().len() && all.unref()[j] == t.0;
                    assert(asked[j].0 == t.0);
                    assert(asked[j] == t);
                }
            }
            assert(asked.to_set() =~= m.nodes[m.curr].out_set);
            assert forall|j: int| 0 <= j < asked.len() implies m.nodes[m.curr].out_set.contains(
                #[trigger] asked[j],
            ) by {
                assert(asked.to_set().contains(asked[j]));
            }
            assert(asked_in_turn(m, first, asked, contexts, None, *ctx));
        }
        None
    }

    /// One step of the machine. A machine that has exited does nothing.
    /// Otherwise the current state is ticked unless it has finished; once
    /// it has finished, its transitions are asked, in no particular order,
    /// whether they are satisfied, and the first that is is followed: the
    /// current state is left, the state that the transition leads to is
    /// entered and becomes the current state, and the machine has exited if
    /// that state is the exit. No more than one transition is followed.
    pub fn tick(&mut self, ctx: &mut C)
        requires
            old(self).wf(),
        ensures
            final(self).wf(),
            ticks_to(old(self)@, *old(ctx), final(self)@, *final(ctx)),
            old(self)@.ticked_to(final(self)@),
            old(self)@.exited ==> *final(ctx) == *old(ctx),
    {
        if self.exited {
            return;
        }
        let ghost start = self@;
        let ghost start_ctx = *ctx;
        let mut finished: bool = self.curr_state_finished;
        if !finished {
            finished = self.curr_state_mut().tick(ctx);
        }
        let ghost ticked = self@;
        let ghost ticked_ctx = *ctx;
        proof {
            lemma_with_payload(start, start.curr, ticked.nodes[start.curr].state);
            assert(state_ticked(start, start_ctx, ticked, ticked_ctx, finished));
        }
        let fired: Option<TransitionId> = if finished {
            self.first_satisfied(ctx)
        } else {
            None
        };
        let ghost asked_ctx = *ctx;
        let ghost (asked, contexts) = if finished {
            choose|asked: Seq<TransitionId>, contexts: Seq<C>|
                asked_in_turn(ticked, ticked_ctx, asked, contexts, fired, asked_ctx)
        } else {
            (Seq::<TransitionId>::empty(), seq![ticked_ctx])
        };
        proof {
            assert(transitions_asked(
                ticked,
                ticked_ctx,
                finished,
                asked,
                contexts,
                fired,
                asked_ctx,
            ));
        }
        if fired.is_some() {
            self.curr_state_mut().exit(ctx);
        }
        let ghost left = self@;
        let ghost left_ctx = *ctx;
        proof {
            lemma_with_payload(ticked, ticked.curr, left.nodes[ticked.curr].state);
            lemma_same_graph_twice(start, ticked, left);
            lemma_advanced(left, finished, fired);
            lemma_advanced_same_graph(left, finished, fired);
            assert(state_left(ticked, asked_ctx, fired, left, left_ctx));
        }
        self.advance(finished, fired);
        let ghost moved = self@;
        if fired.is_some() {
            self.curr_state_mut().enter(ctx);
        }
        proof {
            let last = self@;
            lemma_with_payload(moved, moved.curr, last.nodes[moved.curr].state);
            lemma_same_graph_twice(start, left, moved);
            lemma_same_graph_twice(start, moved, last);
            if fired is Some {
                let t = fired->Some_0;
                assert(left.nodes[left.curr].out_set.contains(t));
                assert(start.nodes[start.curr].out_set.contains(t) && last.curr == start.links[t].dst
                    && !last.curr_finished && last.exited == (last.curr == start.exit));
            }
            assert(state_entered(moved, left_ctx, fired, last, *ctx));
            let trace = Trace {
                finished,
                ticked,
                ticked_ctx,
                asked,
                contexts,
                fired,
                asked_ctx,
                left,
                left_ctx,
                moved,
            };
            assert(follows(start, start_ctx, trace, last, *ctx));
        }
    }
}

} // verus!
