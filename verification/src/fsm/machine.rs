use vstd::prelude::*;

verus! {

/// The handle of a state: a number that the machine gave out once and never
/// gives out again.
#[derive(Debug, Clone, Copy, Hash, PartialEq, Eq, Structural)]
pub struct StateId(pub(crate) u32);

/// The handle of a transition: a number that the machine gave out once and
/// never gives out again.
#[derive(Debug, Clone, Copy, Hash, PartialEq, Eq, Structural)]
pub struct TransitionId(pub(crate) u32);

impl StateId {
    /// The number behind the handle.
    pub closed spec fn index(self) -> nat {
        self.0 as nat
    }

    /// The number behind the handle is the number it was made of.
    pub(crate) proof fn lemma_index(self)
        ensures
            self.index() == self.0,
    {
    }
}

impl TransitionId {
    /// The number behind the handle.
    pub closed spec fn index(self) -> nat {
        self.0 as nat
    }

    /// The number behind the handle is the number it was made of.
    pub(crate) proof fn lemma_index(self)
        ensures
            self.index() == self.0,
    {
    }
}

/// What a node of the graph holds: the user's state and the handles of the
/// transitions that end and that start at the node.
pub struct NodeView<S> {
    pub state: S,
    pub in_set: Set<TransitionId>,
    pub out_set: Set<TransitionId>,
}

/// What an edge of the graph holds: the states it leads from and to, and the
/// user's transition.
pub struct Link<T> {
    pub src: StateId,
    pub dst: StateId,
    pub transition: T,
}

/// What a state machine is: its graph, the three states it singles out, how
/// far the current state has got, and how many handles it has given out.
pub struct Machine<S, T> {
    pub nodes: Map<StateId, NodeView<S>>,
    pub links: Map<TransitionId, Link<T>>,
    pub entry: StateId,
    pub exit: StateId,
    pub curr: StateId,
    pub curr_finished: bool,
    pub exited: bool,
    pub states_issued: nat,
    pub transitions_issued: nat,
}

impl<S, T> Machine<S, T> {
    /// Every edge joins two live nodes that know of it, every node knows
    /// only of live edges that touch it, the current state is live, a
    /// machine that has exited rests on its exit state, entry and exit
    /// differ, and no handle in use is larger than the number given out.
    pub open spec fn wf(self) -> bool {
        &&& forall|t: TransitionId| #[trigger]
            self.links.contains_key(t) ==> {
                &&& self.nodes.contains_key(self.links[t].src)
                &&& self.nodes.contains_key(self.links[t].dst)
                &&& self.nodes[self.links[t].src].out_set.contains(t)
                &&& self.nodes[self.links[t].dst].in_set.contains(t)
            }
        &&& forall|s: StateId, t: TransitionId|
            self.nodes.contains_key(s) && #[trigger] self.nodes[s].out_set.contains(t) ==> {
                &&& self.links.contains_key(t)
                &&& self.links[t].src == s
            }
        &&& forall|s: StateId, t: TransitionId|
            self.nodes.contains_key(s) && #[trigger] self.nodes[s].in_set.contains(t) ==> {
                &&& self.links.contains_key(t)
                &&& self.links[t].dst == s
            }
        &&& self.nodes.contains_key(self.curr)
        &&& self.exited ==> self.curr == self.exit
        &&& self.entry != self.exit
        &&& forall|s: StateId| #[trigger] self.nodes.contains_key(s) ==> s.index() <= self.states_issued
        &&& forall|t: TransitionId| #[trigger]
            self.links.contains_key(t) ==> t.index() <= self.transitions_issued
    }

    /// The machine with one more state, under the handle `id`, that no edge
    /// touches yet.
    pub open spec fn with_state(self, id: StateId, state: S) -> Self {
        Machine {
            nodes: self.nodes.insert(
                id,
                NodeView { state, in_set: Set::empty(), out_set: Set::empty() },
            ),
            states_issued: self.states_issued + 1,
            ..self
        }
    }

    /// The machine with one more edge, under the handle `id`, from `src` to
    /// `dst`.
    pub open spec fn with_transition(
        self,
        id: TransitionId,
        src: StateId,
        dst: StateId,
        transition: T,
    ) -> Self {
        let leaving = NodeView { out_set: self.nodes[src].out_set.insert(id), ..self.nodes[src] };
        let nodes = self.nodes.insert(src, leaving);
        let arriving = NodeView { in_set: nodes[dst].in_set.insert(id), ..nodes[dst] };
        Machine {
            nodes: nodes.insert(dst, arriving),
            links: self.links.insert(id, Link { src, dst, transition }),
            transitions_issued: self.transitions_issued + 1,
            ..self
        }
    }

    /// The machine without the edges in `gone`: they leave the graph, and
    /// the nodes forget them.
    pub open spec fn without_links(self, gone: Set<TransitionId>) -> Self {
        Machine {
            nodes: Map::new(
                |s: StateId| self.nodes.contains_key(s),
                |s: StateId|
                    NodeView {
                        state: self.nodes[s].state,
                        in_set: self.nodes[s].in_set.difference(gone),
                        out_set: self.nodes[s].out_set.difference(gone),
                    },
            ),
            links: self.links.remove_keys(gone),
            ..self
        }
    }

    /// The machine without the edge `id`.
    pub open spec fn without_transition(self, id: TransitionId) -> Self {
        self.without_links(set![id])
    }

    /// The edges that start or end at the state `id`.
    pub open spec fn touching(self, id: StateId) -> Set<TransitionId> {
        Set::new(
            |t: TransitionId|
                self.links.contains_key(t) && (self.links[t].src == id || self.links[t].dst == id),
        )
    }

    /// Whether the state `id` can be taken out: it is live and the machine
    /// does not rest on it.
    pub open spec fn can_remove(self, id: StateId) -> bool {
        self.nodes.contains_key(id) && id != self.curr
    }

    /// The machine without the state `id` and without the edges that touch
    /// it. The current state stays: asked to take it out, the machine is
    /// left as it is.
    pub open spec fn without_state(self, id: StateId) -> Self {
        if self.can_remove(id) {
            let cut = self.without_links(self.touching(id));
            Machine { nodes: cut.nodes.remove(id), ..cut }
        } else {
            self
        }
    }

    /// The machine with the user's state of the node `id` replaced.
    pub open spec fn with_payload(self, id: StateId, state: S) -> Self {
        Machine { nodes: self.nodes.insert(id, NodeView { state, ..self.nodes[id] }), ..self }
    }

    /// Whether `fired` names a transition that leads out of the current
    /// state.
    pub open spec fn fires(self, fired: Option<TransitionId>) -> bool {
        fired matches Some(t) && self.nodes[self.curr].out_set.contains(t)
    }

    /// The machine after the bookkeeping of one step. `finished` says
    /// whether the current state has finished in this step, `fired` which of
    /// its transitions was found satisfied, if any. A machine that has
    /// exited stays as it is. With a transition out of the current state the
    /// machine moves to where the transition leads, starts that state
    /// afresh, and has exited if that state is the exit. Otherwise it stays,
    /// and the current state has finished if it had before or has now.
    pub open spec fn advanced(self, finished: bool, fired: Option<TransitionId>) -> Self {
        if self.exited {
            self
        } else if self.fires(fired) {
            let dst = self.links[fired->Some_0].dst;
            Machine { curr: dst, curr_finished: false, exited: dst == self.exit, ..self }
        } else {
            Machine { curr_finished: self.curr_finished || finished, ..self }
        }
    }

    /// Whether `next` has the graph of this machine: the same nodes with the
    /// same edges between them, the same entry and exit, the same handles
    /// given out. The users' states may differ.
    pub open spec fn same_graph(self, next: Self) -> bool {
        &&& next.links == self.links
        &&& next.nodes.dom() == self.nodes.dom()
        &&& forall|s: StateId| #[trigger]
            self.nodes.contains_key(s) ==> {
                &&& next.nodes[s].in_set == self.nodes[s].in_set
                &&& next.nodes[s].out_set == self.nodes[s].out_set
            }
        &&& next.entry == self.entry
        &&& next.exit == self.exit
        &&& next.states_issued == self.states_issued
        &&& next.transitions_issued == self.transitions_issued
    }

    /// Whether `next` can be this machine one tick later. A machine that has
    /// exited does not change. Otherwise the graph stays, and the machine
    /// either rests where it was, or has followed one transition out of the
    /// state it was in: it is then at the start of the state that the
    /// transition leads to, and has exited if that state is the exit. No
    /// user's state changes but that of the state it was in and that of the
    /// state it is in.
    pub open spec fn ticked_to(self, next: Self) -> bool {
        if self.exited {
            next == self
        } else {
            &&& self.same_graph(next)
            &&& forall|s: StateId|
                self.nodes.contains_key(s) && s != self.curr && s != next.curr
                    ==> #[trigger] next.nodes[s].state == self.nodes[s].state
            &&& {
                ||| {
                    &&& next.curr == self.curr
                    &&& !next.exited
                    &&& self.curr_finished ==> next.curr_finished
                }
                ||| exists|t: TransitionId|
                    {
                        &&& #[trigger] self.nodes[self.curr].out_set.contains(t)
                        &&& next.curr == self.links[t].dst
                        &&& !next.curr_finished
                        &&& next.exited == (next.curr == self.exit)
                    }
            }
        }
    }
}

/// Adding a state leaves every state that was there under its handle, with
/// what it held; the new handle was not in use before.
pub proof fn lemma_with_state<S, T>(m: Machine<S, T>, id: StateId, state: S)
    requires
        m.wf(),
        id.index() == m.states_issued + 1,
    ensures
        m.with_state(id, state).wf(),
        !m.nodes.contains_key(id),
        forall|s: StateId| #[trigger]
            m.nodes.contains_key(s) ==> m.with_state(id, state).nodes.contains_key(s) && m.with_state(
                id,
                state,
            ).nodes[s] == m.nodes[s],
{
    let n = m.with_state(id, state);
    if m.nodes.contains_key(id) {
        assert(id.index() <= m.states_issued);
    }
    assert forall|t: TransitionId| #[trigger] n.links.contains_key(t) implies {
        &&& n.nodes.contains_key(n.links[t].src)
        &&& n.nodes.contains_key(n.links[t].dst)
        &&& n.nodes[n.links[t].src].out_set.contains(t)
        &&& n.nodes[n.links[t].dst].in_set.contains(t)
    } by {
        assert(m.links.contains_key(t));
    }
}

/// Adding a transition between two live states keeps the machine well
/// formed.
pub proof fn lemma_with_transition<S, T>(
    m: Machine<S, T>,
    id: TransitionId,
    src: StateId,
    dst: StateId,
    transition: T,
)
    requires
        m.wf(),
        id.index() == m.transitions_issued + 1,
        m.nodes.contains_key(src),
        m.nodes.contains_key(dst),
    ensures
        m.with_transition(id, src, dst, transition).wf(),
        !m.links.contains_key(id),
{
    let n = m.with_transition(id, src, dst, transition);
    if m.links.contains_key(id) {
        assert(id.index() <= m.transitions_issued);
    }
    assert forall|t: TransitionId| #[trigger] n.links.contains_key(t) implies {
        &&& n.nodes.contains_key(n.links[t].src)
        &&& n.nodes.contains_key(n.links[t].dst)
        &&& n.nodes[n.links[t].src].out_set.contains(t)
        &&& n.nodes[n.links[t].dst].in_set.contains(t)
    } by {
        if t != id {
            assert(m.links.contains_key(t));
        }
    }
    assert forall|s: StateId, t: TransitionId|
        n.nodes.contains_key(s) && #[trigger] n.nodes[s].out_set.contains(t) implies {
        &&& n.links.contains_key(t)
        &&& n.links[t].src == s
    } by {
        if t != id {
            assert(m.nodes[s].out_set.contains(t));
        } else if s != src {
            assert(m.nodes[s].out_set.contains(t));
            assert(m.links.contains_key(id));
        }
    }
    assert forall|s: StateId, t: TransitionId|
        n.nodes.contains_key(s) && #[trigger] n.nodes[s].in_set.contains(t) implies {
        &&& n.links.contains_key(t)
        &&& n.links[t].dst == s
    } by {
        if t != id {
            assert(m.nodes[s].in_set.contains(t));
        } else if s != dst {
            assert(m.nodes[s].in_set.contains(t));
            assert(m.links.contains_key(id));
        }
    }
    assert forall|t: TransitionId| #[trigger] n.links.contains_key(t) implies t.index()
        <= n.transitions_issued by {
        if t != id {
            assert(m.links.contains_key(t));
        }
    }
}

/// Taking edges out keeps the machine well formed, and no node knows of an
/// edge that was taken out.
pub proof fn lemma_without_links<S, T>(m: Machine<S, T>, gone: Set<TransitionId>)
    requires
        m.wf(),
    ensures
        m.without_links(gone).wf(),
        forall|t: TransitionId| gone.contains(t) ==> !m.without_links(gone).links.contains_key(t),
        forall|s: StateId, t: TransitionId|
            #![trigger m.without_links(gone).nodes[s].out_set.contains(t)]
            #![trigger m.without_links(gone).nodes[s].in_set.contains(t)]
            m.without_links(gone).nodes.contains_key(s) && gone.contains(t) ==> {
                &&& !m.without_links(gone).nodes[s].in_set.contains(t)
                &&& !m.without_links(gone).nodes[s].out_set.contains(t)
            },
{
    let n = m.without_links(gone);
    assert forall|t: TransitionId| #[trigger] n.links.contains_key(t) implies {
        &&& n.nodes.contains_key(n.links[t].src)
        &&& n.nodes.contains_key(n.links[t].dst)
        &&& n.nodes[n.links[t].src].out_set.contains(t)
        &&& n.nodes[n.links[t].dst].in_set.contains(t)
    } by {
        assert(m.links.contains_key(t));
    }
    assert forall|s: StateId, t: TransitionId|
        n.nodes.contains_key(s) && #[trigger] n.nodes[s].out_set.contains(t) implies {
        &&& n.links.contains_key(t)
        &&& n.links[t].src == s
    } by {
        assert(m.nodes[s].out_set.contains(t));
    }
    assert forall|s: StateId, t: TransitionId|
        n.nodes.contains_key(s) && #[trigger] n.nodes[s].in_set.contains(t) implies {
        &&& n.links.contains_key(t)
        &&& n.links[t].dst == s
    } by {
        assert(m.nodes[s].in_set.contains(t));
    }
    assert forall|s: StateId| #[trigger] n.nodes.contains_key(s) implies s.index()
        <= n.states_issued by {
        assert(m.nodes.contains_key(s));
    }
    assert forall|t: TransitionId| #[trigger] n.links.contains_key(t) implies t.index()
        <= n.transitions_issued by {
        assert(m.links.contains_key(t));
    }
}

/// Once a transition is taken out, no node knows of it: its handle is in no
/// set of incoming or outgoing transitions, and the graph has no such edge.
pub proof fn lemma_without_transition<S, T>(m: Machine<S, T>, id: TransitionId)
    requires
        m.wf(),
    ensures
        m.without_transition(id).wf(),
        !m.without_transition(id).links.contains_key(id),
        forall|s: StateId| #[trigger]
            m.without_transition(id).nodes.contains_key(s) ==> {
                &&& !m.without_transition(id).nodes[s].in_set.contains(id)
                &&& !m.without_transition(id).nodes[s].out_set.contains(id)
            },
        !m.links.contains_key(id) ==> m.without_transition(id) == m,
{
    lemma_without_links(m, set![id]);
    let n = m.without_transition(id);
    assert forall|s: StateId| #[trigger] n.nodes.contains_key(s) implies {
        &&& !n.nodes[s].in_set.contains(id)
        &&& !n.nodes[s].out_set.contains(id)
    } by {
        assert(set![id].contains(id));
    }
    if !m.links.contains_key(id) {
        assert(n.links =~= m.links);
        assert forall|s: StateId| #[trigger] m.nodes.contains_key(s) implies n.nodes[s]
            == m.nodes[s] by {
            if m.nodes[s].in_set.contains(id) {
                assert(m.links.contains_key(id));
            }
            if m.nodes[s].out_set.contains(id) {
                assert(m.links.contains_key(id));
            }
            assert(n.nodes[s].in_set =~= m.nodes[s].in_set);
            assert(n.nodes[s].out_set =~= m.nodes[s].out_set);
        }
        assert(n.nodes =~= m.nodes);
    }
}

/// Adding a transition and taking it out again leaves the graph as it was;
/// only the handle is spent.
pub proof fn lemma_add_then_remove_transition<S, T>(
    m: Machine<S, T>,
    id: TransitionId,
    src: StateId,
    dst: StateId,
    transition: T,
)
    requires
        m.wf(),
        id.index() == m.transitions_issued + 1,
        m.nodes.contains_key(src),
        m.nodes.contains_key(dst),
    ensures
        m.with_transition(id, src, dst, transition).without_transition(id) == (Machine {
            transitions_issued: m.transitions_issued + 1,
            ..m
        }),
{
    lemma_with_transition(m, id, src, dst, transition);
    let added = m.with_transition(id, src, dst, transition);
    let back = added.without_transition(id);
    assert(back.links =~= m.links);
    assert forall|s: StateId| #[trigger] m.nodes.contains_key(s) implies back.nodes[s]
        == m.nodes[s] by {
        if m.nodes[s].in_set.contains(id) || m.nodes[s].out_set.contains(id) {
            assert(m.links.contains_key(id));
        }
        assert(back.nodes[s].in_set =~= m.nodes[s].in_set);
        assert(back.nodes[s].out_set =~= m.nodes[s].out_set);
    }
    assert(back.nodes =~= m.nodes);
}

/// Adding a state and taking it out again leaves the graph as it was; only
/// the handle is spent.
pub proof fn lemma_add_then_remove_state<S, T>(m: Machine<S, T>, id: StateId, state: S)
    requires
        m.wf(),
        id.index() == m.states_issued + 1,
    ensures
        m.with_state(id, state).without_state(id) == (Machine {
            states_issued: m.states_issued + 1,
            ..m
        }),
{
    lemma_with_state(m, id, state);
    let added = m.with_state(id, state);
    let back = added.without_state(id);
    assert(added.can_remove(id));
    assert forall|t: TransitionId| !added.touching(id).contains(t) by {
        if added.touching(id).contains(t) {
            assert(m.links.contains_key(t));
        }
    }
    assert(added.touching(id) =~= Set::empty());
    assert(back.links =~= m.links);
    assert forall|s: StateId| #[trigger] m.nodes.contains_key(s) implies back.nodes[s]
        == m.nodes[s] by {
        assert(back.nodes[s].in_set =~= m.nodes[s].in_set);
        assert(back.nodes[s].out_set =~= m.nodes[s].out_set);
    }
    assert(back.nodes =~= m.nodes);
}

/// Taking out edges in two steps is taking out all of them at once.
pub proof fn lemma_without_links_twice<S, T>(
    m: Machine<S, T>,
    first: Set<TransitionId>,
    second: Set<TransitionId>,
)
    ensures
        m.without_links(first).without_links(second) == m.without_links(first.union(second)),
{
    let a = m.without_links(first).without_links(second);
    let b = m.without_links(first.union(second));
    assert(a.links =~= b.links);
    assert forall|s: StateId| #[trigger] b.nodes.contains_key(s) implies a.nodes[s] == b.nodes[s] by {
        assert(a.nodes[s].in_set =~= b.nodes[s].in_set);
        assert(a.nodes[s].out_set =~= b.nodes[s].out_set);
    }
    assert(a.nodes =~= b.nodes);
}

/// Once a state is taken out, no edge of the graph leads from it or to it,
/// and the state itself is gone.
pub proof fn lemma_without_state<S, T>(m: Machine<S, T>, id: StateId)
    requires
        m.wf(),
    ensures
        m.without_state(id).wf(),
        m.can_remove(id) ==> !m.without_state(id).nodes.contains_key(id),
        m.can_remove(id) ==> forall|t: TransitionId| #[trigger]
            m.without_state(id).links.contains_key(t) ==> m.without_state(id).links[t].src != id
                && m.without_state(id).links[t].dst != id,
        forall|s: StateId|
            s != id && #[trigger] m.nodes.contains_key(s) ==> m.without_state(id).nodes.contains_key(
                s,
            ) && m.without_state(id).nodes[s].state == m.nodes[s].state,
{
    if m.can_remove(id) {
        let gone = m.touching(id);
        let cut = m.without_links(gone);
        lemma_without_links(m, gone);
        let n = m.without_state(id);
        assert forall|t: TransitionId| #[trigger] n.links.contains_key(t) implies n.links[t].src
            != id && n.links[t].dst != id by {
            assert(m.links.contains_key(t));
            assert(!gone.contains(t));
        }
        assert forall|t: TransitionId| #[trigger] n.links.contains_key(t) implies {
            &&& n.nodes.contains_key(n.links[t].src)
            &&& n.nodes.contains_key(n.links[t].dst)
            &&& n.nodes[n.links[t].src].out_set.contains(t)
            &&& n.nodes[n.links[t].dst].in_set.contains(t)
        } by {
            assert(cut.links.contains_key(t));
        }
        assert forall|s: StateId, t: TransitionId|
            n.nodes.contains_key(s) && #[trigger] n.nodes[s].out_set.contains(t) implies {
            &&& n.links.contains_key(t)
            &&& n.links[t].src == s
        } by {
            assert(cut.nodes[s].out_set.contains(t));
        }
        assert forall|s: StateId, t: TransitionId|
            n.nodes.contains_key(s) && #[trigger] n.nodes[s].in_set.contains(t) implies {
            &&& n.links.contains_key(t)
            &&& n.links[t].dst == s
        } by {
            assert(cut.nodes[s].in_set.contains(t));
        }
        assert forall|s: StateId| #[trigger] n.nodes.contains_key(s) implies s.index()
            <= n.states_issued by {
            assert(cut.nodes.contains_key(s));
        }
    }
}

/// The bookkeeping of a step keeps the machine well formed, and what it
/// makes of the machine is one tick later.
pub proof fn lemma_advanced<S, T>(m: Machine<S, T>, finished: bool, fired: Option<TransitionId>)
    requires
        m.wf(),
    ensures
        m.advanced(finished, fired).wf(),
        m.ticked_to(m.advanced(finished, fired)),
{
    let n = m.advanced(finished, fired);
    if !m.exited && m.fires(fired) {
        let t = fired->Some_0;
        assert(m.links.contains_key(t));
        assert(m.nodes[m.curr].out_set.contains(t) && n.curr == m.links[t].dst && !n.curr_finished
            && n.exited == (n.curr == m.exit));
    }
}

/// Replacing the user's state of a live node keeps the machine well formed
/// and its graph as it is.
pub proof fn lemma_with_payload<S, T>(m: Machine<S, T>, id: StateId, state: S)
    requires
        m.wf(),
        m.nodes.contains_key(id),
    ensures
        m.with_payload(id, state).wf(),
        m.same_graph(m.with_payload(id, state)),
        m.with_payload(id, state).curr == m.curr,
        m.with_payload(id, state).curr_finished == m.curr_finished,
        m.with_payload(id, state).exited == m.exited,
        forall|s: StateId|
            m.nodes.contains_key(s) && s != id ==> #[trigger] m.with_payload(id, state).nodes[s]
                == m.nodes[s],
{
    let n = m.with_payload(id, state);
    assert(n.nodes.dom() =~= m.nodes.dom());
    assert forall|t: TransitionId| #[trigger] n.links.contains_key(t) implies {
        &&& n.nodes.contains_key(n.links[t].src)
        &&& n.nodes.contains_key(n.links[t].dst)
        &&& n.nodes[n.links[t].src].out_set.contains(t)
        &&& n.nodes[n.links[t].dst].in_set.contains(t)
    } by {
        assert(m.links.contains_key(t));
    }
    assert forall|s: StateId, t: TransitionId|
        n.nodes.contains_key(s) && #[trigger] n.nodes[s].out_set.contains(t) implies {
        &&& n.links.contains_key(t)
        &&& n.links[t].src == s
    } by {
        assert(m.nodes[s].out_set.contains(t));
    }
    assert forall|s: StateId, t: TransitionId|
        n.nodes.contains_key(s) && #[trigger] n.nodes[s].in_set.contains(t) implies {
        &&& n.links.contains_key(t)
        &&& n.links[t].dst == s
    } by {
        assert(m.nodes[s].in_set.contains(t));
    }
    assert forall|s: StateId| #[trigger] n.nodes.contains_key(s) implies s.index()
        <= n.states_issued by {
        assert(m.nodes.contains_key(s));
    }
}

/// A graph that stays through two changes stays through both together.
pub proof fn lemma_same_graph_twice<S, T>(a: Machine<S, T>, b: Machine<S, T>, c: Machine<S, T>)
    requires
        a.same_graph(b),
        b.same_graph(c),
    ensures
        a.same_graph(c),
{
    assert forall|s: StateId| #[trigger] a.nodes.contains_key(s) implies {
        &&& c.nodes[s].in_set == a.nodes[s].in_set
        &&& c.nodes[s].out_set == a.nodes[s].out_set
    } by {
        assert(b.nodes.contains_key(s));
    }
}

/// The bookkeeping of a step leaves the graph as it is.
pub proof fn lemma_advanced_same_graph<S, T>(
    m: Machine<S, T>,
    finished: bool,
    fired: Option<TransitionId>,
)
    ensures
        m.same_graph(m.advanced(finished, fired)),
        m.advanced(finished, fired).nodes == m.nodes,
{
}

/// A machine that has exited stays as it is, tick after tick.
pub proof fn lemma_exited_machine_rests<S, T>(m: Machine<S, T>, next: Machine<S, T>)
    requires
        m.exited,
        m.ticked_to(next),
    ensures
        next == m,
{
}

/// In one tick a machine follows at most one transition: it is where it
/// was, or where one edge out of that state leads.
pub proof fn lemma_one_transition_a_tick<S, T>(m: Machine<S, T>, next: Machine<S, T>)
    requires
        m.wf(),
        m.ticked_to(next),
    ensures
        next.curr == m.curr || exists|t: TransitionId|
            #[trigger] m.links.contains_key(t) && m.links[t].src == m.curr && m.links[t].dst
                == next.curr,
{
    if !m.exited && next.curr != m.curr {
        let t = choose|t: TransitionId|
            {
                &&& #[trigger] m.nodes[m.curr].out_set.contains(t)
                &&& next.curr == m.links[t].dst
                &&& !next.curr_finished
                &&& next.exited == (next.curr == m.exit)
            };
        assert(m.links.contains_key(t) && m.links[t].src == m.curr);
    }
}

} // verus!
