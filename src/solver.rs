use vstd::multiset::Multiset;
use vstd::prelude::*;

use crate::game_state::{is_move_of, lemma_push_contains, move_op, step, DigitsError, GameState};
use crate::operation::{Operation, OperationType};

verus! {

/// The numbers left after taking the steps of `ops` in turn from the numbers `m`, or `None`
/// where one of them cannot be taken.
pub open spec fn run(m: Multiset<usize>, ops: Seq<Operation>) -> Option<Multiset<usize>>
    decreases ops.len(),
{
    if ops.len() == 0 {
        Some(m)
    } else {
        match run(m, ops.drop_last()) {
            Some(before) => step(before, ops.last()),
            None => None,
        }
    }
}

/// Some state of `nodes` holds exactly the numbers `v`.
pub open spec fn is_node<const N: usize>(nodes: Seq<GameState<N>>, v: Seq<usize>) -> bool {
    exists|i: int| 0 <= i < nodes.len() && #[trigger] nodes[i].values() == v
}

/// Every legal step from `st` leads to the numbers of some state of `nodes`.
pub open spec fn covers_steps<const N: usize>(nodes: Seq<GameState<N>>, st: GameState<N>) -> bool {
    forall|a: int, b: int, kind: OperationType|
        0 <= a < st.num_digits && 0 <= b < st.num_digits && a != b && #[trigger] move_op(
            st.values(),
            a,
            b,
            kind,
        ).is_legal() ==> exists|i: int|
            0 <= i < nodes.len() && nodes[i].num_digits + 1 == st.num_digits && step(
                st.contents(),
                move_op(st.values(), a, b, kind),
            ) == Some(#[trigger] nodes[i].contents())
}

/// Each state of `nodes` from index `from` up to `to` that does not hold `target` and leaves
/// more numbers than `best` has had every legal step from it followed.
pub open spec fn explored_range<const N: usize>(
    nodes: Seq<GameState<N>>,
    from: int,
    to: int,
    best: usize,
    target: usize,
) -> bool {
    forall|i: int|
        from <= i < to && !nodes[i].values().contains(target) && nodes[i].num_digits > best
            ==> covers_steps(nodes, #[trigger] nodes[i])
}

/// What `nodes` covers stays covered when more states are added behind.
proof fn lemma_covers_extend<const N: usize>(
    n1: Seq<GameState<N>>,
    n2: Seq<GameState<N>>,
    st: GameState<N>,
)
    requires
        covers_steps(n1, st),
        n1.len() <= n2.len(),
        forall|i: int| 0 <= i < n1.len() ==> n2[i] == n1[i],
    ensures
        covers_steps(n2, st),
{
    assert forall|a: int, b: int, kind: OperationType|
        0 <= a < st.num_digits && 0 <= b < st.num_digits && a != b && #[trigger] move_op(
            st.values(),
            a,
            b,
            kind,
        ).is_legal() implies exists|i: int|
        0 <= i < n2.len() && n2[i].num_digits + 1 == st.num_digits && step(
            st.contents(),
            move_op(st.values(), a, b, kind),
        ) == Some(#[trigger] n2[i].contents()) by {
        let i = choose|i: int|
            0 <= i < n1.len() && n1[i].num_digits + 1 == st.num_digits && step(
                st.contents(),
                move_op(st.values(), a, b, kind),
            ) == Some(#[trigger] n1[i].contents());
        assert(n2[i] == n1[i]);
    }
}

/// What `explored_range` says of `n1` holds of `n2`, which adds states behind, and of any
/// bound at least `best`.
proof fn lemma_explored_extend<const N: usize>(
    n1: Seq<GameState<N>>,
    n2: Seq<GameState<N>>,
    from: int,
    best: usize,
    best2: usize,
    target: usize,
)
    requires
        0 <= from,
        explored_range(n1, from, n1.len() as int, best, target),
        n1.len() <= n2.len(),
        forall|i: int| 0 <= i < n1.len() ==> n2[i] == n1[i],
        best <= best2,
    ensures
        explored_range(n2, from, n1.len() as int, best2, target),
{
    assert forall|i: int|
        from <= i < n1.len() && !n2[i].values().contains(target) && n2[i].num_digits
            > best2 implies covers_steps(n2, #[trigger] n2[i]) by {
        assert(n2[i] == n1[i]);
        assert(covers_steps(n1, n1[i]));
        lemma_covers_extend(n1, n2, n1[i]);
    }
}

/// Some single legal step from `st` leaves numbers among which is `target`.
pub open spec fn one_step_reaches<const N: usize>(st: GameState<N>, target: usize) -> bool {
    exists|a: int, b: int, kind: OperationType|
        0 <= a < st.num_digits && 0 <= b < st.num_digits && a != b && (#[trigger] step(
            st.contents(),
            move_op(st.values(), a, b, kind),
        ) matches Some(m) && m.count(target) > 0)
}

/// How many buckets the index of met states has.
pub const BUCKETS: usize = 4096;

/// The bucket of the index that holds states with the numbers `v`.
pub open spec fn bucket_spec(v: Seq<usize>) -> int
    decreases v.len(),
{
    if v.len() == 0 {
        0
    } else {
        (bucket_spec(v.drop_last()) * 31 + v.last() as int % BUCKETS as int) % BUCKETS as int
    }
}

/// The bucket of the index that holds states with the numbers of `state`.
fn bucket_of<const N: usize>(state: &GameState<N>) -> (r: usize)
    requires
        state.wf(),
    ensures
        r == bucket_spec(state.values()),
        r < BUCKETS,
{
    let mut h: usize = 0;
    let mut i: usize = 0;
    while i < state.num_digits
        invariant
            state.wf(),
            i <= state.num_digits,
            h == bucket_spec(state.values().take(i as int)),
            h < BUCKETS,
        decreases state.num_digits - i,
    {
        proof {
            let t = state.values().take(i as int + 1);
            assert(t.drop_last() =~= state.values().take(i as int));
            assert(t.last() == state.digits@[i as int]);
        }
        h = (h * 31 + state.digits[i] % BUCKETS) % BUCKETS;
        i = i + 1;
    }
    assert(state.values().take(i as int) =~= state.values());
    h
}

/// A copy of a list of steps.
fn copy_ops(ops: &Vec<Operation>) -> (r: Vec<Operation>)
    ensures
        r@ == ops@,
{
    let mut r: Vec<Operation> = Vec::new();
    let mut i: usize = 0;
    while i < ops.len()
        invariant
            i <= ops@.len(),
            r@ == ops@.take(i as int),
        decreases ops@.len() - i,
    {
        r.push(ops[i]);
        i = i + 1;
        assert(r@ =~= ops@.take(i as int));
    }
    assert(r@ =~= ops@);
    r
}

/// The edges of the search tree, as a directed graph of state indices.
#[verifier::external_body]
#[derive(Debug)]
pub struct StateGraph {
    graph: petgraph::graphmap::DiGraphMap<usize, ()>,
}

/// The edges of a graph of state indices.
pub uninterp spec fn graph_edges(g: StateGraph) -> Set<(usize, usize)>;

/// `p` leads from `start` to `goal` along `edges`.
pub open spec fn is_path(edges: Set<(usize, usize)>, p: Seq<usize>, start: usize, goal: usize) -> bool {
    &&& p.len() >= 1
    &&& p[0] == start
    &&& p.last() == goal
    &&& forall|j: int| 0 < j < p.len() ==> edges.contains((p[j - 1], #[trigger] p[j]))
}

/// Relies on `GraphMap::new`: a graph without nodes or edges.
#[verifier::external_body]
fn new_graph() -> (g: StateGraph)
    ensures
        graph_edges(g) == Set::<(usize, usize)>::empty(),
{
    StateGraph { graph: petgraph::graphmap::DiGraphMap::new() }
}

/// Relies on `GraphMap::add_edge`: the edge from `a` to `b` joins the graph.
#[verifier::external_body]
fn add_graph_edge(g: &mut StateGraph, a: usize, b: usize)
    ensures
        graph_edges(*final(g)) == graph_edges(*old(g)).insert((a, b)),
{
    g.graph.add_edge(a, b, ());
}

/// Whether `n` is the index `goal`.
fn is_goal(n: usize, goal: usize) -> (r: bool)
    ensures
        r == (n == goal),
{
    n == goal
}

/// The cost of following any edge: one step.
fn unit_cost<T>(_edge: T) -> (r: usize)
    ensures
        r == 1,
{
    1
}

/// The estimate of the steps left: none, so that the search is breadth first.
fn no_estimate(_n: usize) -> (r: usize)
    ensures
        r == 0,
{
    0
}

/// Relies on `petgraph::algo::astar`: with unit edge costs and a zero estimate it returns a
/// path from `start` to `goal` along the graph's edges, and finds one wherever one exists.
#[verifier::external_body]
fn shortest_path(g: &StateGraph, start: usize, goal: usize) -> (r: Option<Vec<usize>>)
    ensures
        r matches Some(p) ==> is_path(graph_edges(*g), p@, start, goal),
        (exists|p: Seq<usize>| is_path(graph_edges(*g), p, start, goal)) ==> r is Some,
{
    petgraph::algo::astar(&g.graph, start, |n| is_goal(n, goal), |e| unit_cost(e), |n| no_estimate(n))
        .map(|found| found.1)
}

/// A search for the shortest ways to reach a target number, and what it found.
///
/// The states met form a tree rooted at the initial state (`nodes[0]`): each later state is
/// entered once, from the state that first reached it (`parents[i]`), by the steps in
/// `edges[i]`; `state_graph` holds the same tree as a graph of state indices. `index`
/// files each state index under the bucket of its numbers, so that a state met before is
/// found quickly. `target_states` lists the states that hold the target and are reached with
/// the fewest steps met, which leave `best_solution_size` numbers.
#[derive(Debug)]
pub struct DigitsSolver<const N: usize> {
    pub nodes: Vec<GameState<N>>,
    pub parents: Vec<usize>,
    pub edges: Vec<Vec<Operation>>,
    pub target: usize,
    pub best_solution_size: usize,
    pub target_states: Vec<usize>,
    pub index: Vec<Vec<usize>>,
    pub state_graph: StateGraph,
}

impl<const N: usize> DigitsSolver<N> {
    /// The search tree and its records are consistent.
    pub open spec fn wf(&self) -> bool {
        let nodes = self.nodes@;
        &&& nodes.len() >= 1
        &&& self.parents@.len() == nodes.len()
        &&& self.edges@.len() == nodes.len()
        &&& forall|i: int| 0 <= i < nodes.len() ==> #[trigger] nodes[i].wf()
        &&& forall|i: int|
            0 < i < nodes.len() ==> {
                &&& self.parents@[i] < i
                &&& nodes[i].num_digits < nodes[0].num_digits
                &&& self.parents@[i] != 0 ==> !nodes[self.parents@[i] as int].values().contains(
                    self.target,
                )
                &&& self.edges@[i]@.len() > 0
                &&& forall|j: int|
                    0 <= j < self.edges@[i]@.len() ==> #[trigger] nodes[self.parents@[i] as int].leads_to(
                        &nodes[i],
                        self.edges@[i]@[j],
                    )
                &&& forall|j: int|
                    0 <= j < self.edges@[i]@.len() ==> (#[trigger] self.edges@[i]@[j]).num1
                        >= self.edges@[i]@[j].num2 && is_move_of(
                        nodes[self.parents@[i] as int].values(),
                        nodes[self.parents@[i] as int].num_digits as int,
                        self.edges@[i]@[j],
                    )
            }
        &&& forall|i1: int, i2: int|
            0 <= i1 < i2 < nodes.len() ==> nodes[i1].values() != nodes[i2].values()
        &&& self.index@.len() == BUCKETS
        &&& forall|b: int, j: int|
            0 <= b < BUCKETS && 0 <= j < self.index@[b]@.len() ==> {
                let i = #[trigger] self.index@[b]@[j] as int;
                &&& i < nodes.len()
                &&& bucket_spec(nodes[i].values()) == b
            }
        &&& forall|i: int|
            0 <= i < nodes.len() ==> self.index@[bucket_spec(
                #[trigger] nodes[i].values(),
            )]@.contains(i as usize)
        &&& forall|e: (usize, usize)|
            #[trigger] graph_edges(self.state_graph).contains(e) <==> (0 < e.1 < nodes.len()
                && self.parents@[e.1 as int] == e.0)
        &&& self.best_solution_size >= 1
        &&& self.target_states@.len() == 0 ==> self.best_solution_size == 1
        &&& forall|k1: int, k2: int|
            0 <= k1 < k2 < self.target_states@.len() ==> self.target_states@[k1]
                != self.target_states@[k2]
        &&& forall|k: int|
            0 <= k < self.target_states@.len() ==> {
                let t = #[trigger] self.target_states@[k] as int;
                &&& 0 < t < nodes.len()
                &&& nodes[t].values().contains(self.target)
                &&& nodes[t].num_digits == self.best_solution_size
            }
        &&& forall|i: int|
            0 < i < nodes.len() && #[trigger] nodes[i].values().contains(self.target) ==> {
                &&& nodes[i].num_digits <= self.best_solution_size
                &&& self.target_states@.len() > 0
                &&& nodes[i].num_digits == self.best_solution_size ==> self.target_states@.contains(
                    i as usize,
                )
            }
    }
}

impl<const N: usize> DigitsSolver<N> {
    /// The steps along `p`: for each state after the first, the first step of the edge that
    /// enters it.
    pub open spec fn ops_along(&self, p: Seq<usize>) -> Seq<Operation>
        decreases p.len(),
    {
        if p.len() <= 1 {
            seq![]
        } else {
            self.ops_along(p.drop_last()).push(self.edges@[p.last() as int]@[0])
        }
    }

    /// The states from the initial one to state `i`, each entered from the one before.
    pub open spec fn chain(&self, i: int) -> Seq<usize>
        decreases i,
    {
        if 0 < i < self.nodes@.len() && self.parents@[i] < i {
            self.chain(self.parents@[i] as int).push(i as usize)
        } else {
            seq![0usize]
        }
    }

    /// Every state met is reached from the initial state along the tree's edges.
    pub proof fn lemma_chain_is_path(&self, i: int)
        requires
            self.nodes@.len() <= usize::MAX,
            self.parents@.len() == self.nodes@.len(),
            forall|x: int| 0 < x < self.nodes@.len() ==> #[trigger] self.parents@[x] < x,
            forall|e: (usize, usize)|
                #[trigger] graph_edges(self.state_graph).contains(e) <==> (0 < e.1
                    < self.nodes@.len() && self.parents@[e.1 as int] == e.0),
            0 <= i < self.nodes@.len(),
        ensures
            is_path(graph_edges(self.state_graph), self.chain(i), 0, i as usize),
        decreases i,
    {
        if i > 0 {
            let p = self.parents@[i] as int;
            self.lemma_chain_is_path(p);
            let c = self.chain(i);
            assert(c.drop_last() == self.chain(p));
            assert(graph_edges(self.state_graph).contains((self.parents@[i], i as usize)));
            assert forall|j: int| 0 < j < c.len() implies graph_edges(self.state_graph).contains(
                (c[j - 1], #[trigger] c[j]),
            ) by {
                if j < c.len() - 1 {
                    assert(c[j] == self.chain(p)[j]);
                    assert(c[j - 1] == self.chain(p)[j - 1]);
                }
            }
        }
    }

    /// The steps along a path from the initial state lead to the numbers of its last state,
    /// one step for each number fewer, and every one of them is legal.
    #[verifier::rlimit(80)]
    pub proof fn lemma_path_run(&self, p: Seq<usize>, goal: usize)
        requires
            self.wf(),
            is_path(graph_edges(self.state_graph), p, 0, goal),
        ensures
            goal < self.nodes@.len(),
            run(self.nodes@[0].contents(), self.ops_along(p)) == Some(
                self.nodes@[goal as int].contents(),
            ),
            self.ops_along(p).len() + self.nodes@[goal as int].num_digits
                == self.nodes@[0].num_digits,
            forall|j: int|
                0 <= j < self.ops_along(p).len() ==> (#[trigger] self.ops_along(p)[j]).is_legal()
                    && self.ops_along(p)[j].num1 >= self.ops_along(p)[j].num2,
        decreases p.len(),
    {
        if p.len() <= 1 {
            assert(goal == 0);
        } else {
            let q = p.drop_last();
            let prev = q.last();
            assert(graph_edges(self.state_graph).contains((p[p.len() - 2], p[p.len() - 1])));
            assert(is_path(graph_edges(self.state_graph), q, 0, prev)) by {
                assert forall|j: int| 0 < j < q.len() implies graph_edges(
                    self.state_graph,
                ).contains((q[j - 1], #[trigger] q[j])) by {
                    assert(graph_edges(self.state_graph).contains((p[j - 1], p[j])));
                }
            }
            self.lemma_path_run(q, prev);
            assert(0 < goal < self.nodes@.len() && self.parents@[goal as int] == prev);
            let ops = self.ops_along(p);
            assert(ops.drop_last() =~= self.ops_along(q));
            assert(self.nodes@[prev as int].leads_to(
                &self.nodes@[goal as int],
                self.edges@[goal as int]@[0],
            ));
            assert(self.edges@[goal as int]@[0].num1 >= self.edges@[goal as int]@[0].num2);
            assert forall|j: int| 0 <= j < ops.len() implies (#[trigger] ops[j]).is_legal()
                && ops[j].num1 >= ops[j].num2 by {
                if j < ops.len() - 1 {
                    assert(ops[j] == self.ops_along(q)[j]);
                }
            }
        }
    }

    /// The index of the state met so far that holds the numbers of `state`, if any.
    fn find_node(&self, state: &GameState<N>) -> (r: Option<usize>)
        requires
            self.wf(),
            state.wf(),
        ensures
            r matches Some(i) ==> i < self.nodes@.len() && self.nodes@[i as int].values()
                == state.values(),
            r is None ==> forall|i: int|
                0 <= i < self.nodes@.len() ==> self.nodes@[i].values() != state.values(),
    {
        let b = bucket_of(state);
        let mut j: usize = 0;
        while j < self.index[b].len()
            invariant
                self.wf(),
                state.wf(),
                b == bucket_spec(state.values()),
                b < BUCKETS,
                j <= self.index@[b as int]@.len(),
                forall|x: int|
                    0 <= x < j ==> self.nodes@[self.index@[b as int]@[x] as int].values()
                        != state.values(),
            decreases self.index@[b as int]@.len() - j,
        {
            let i = self.index[b][j];
            assert(i < self.nodes@.len());
            if self.nodes[i].same_numbers(state) {
                return Some(i);
            }
            j = j + 1;
        }
        proof {
            assert forall|i: int| 0 <= i < self.nodes@.len() implies self.nodes@[i].values()
                != state.values() by {
                if self.nodes@[i].values() == state.values() {
                    assert(self.nodes@.len() == self.nodes.len());
                    assert(bucket_spec(self.nodes@[i].values()) == b);
                    assert(self.index@[bucket_spec(self.nodes@[i].values())]@.contains(i as usize));
                    assert(self.index@[b as int]@.contains(i as usize));
                    let x = choose|x: int|
                        0 <= x < self.index@[b as int]@.len() && self.index@[b as int]@[x]
                            == i as usize;
                    assert(self.nodes@[self.index@[b as int]@[x] as int].values()
                        != state.values());
                }
            }
        }
        None
    }

    /// Explores the states reachable from state `idx`, depth first, recording each state the
    /// first time it is met and each state that holds the target. A state that holds the
    /// target is not explored further, nor is one that leaves no more numbers than the best
    /// solution recorded.
    #[verifier::rlimit(60)]
    fn solve_state(&mut self, idx: usize)
        requires
            old(self).wf(),
            idx < old(self).nodes@.len(),
            old(self).best_solution_size < old(self).nodes@[idx as int].num_digits,
            idx == 0 || !old(self).nodes@[idx as int].values().contains(old(self).target),
        ensures
            final(self).best_solution_size == old(self).best_solution_size ==> {
                &&& final(self).target_states@.len() >= old(self).target_states@.len()
                &&& forall|k: int|
                    0 <= k < old(self).target_states@.len() ==> final(self).target_states@[k]
                        == old(self).target_states@[k]
            },
            final(self).wf(),
            forall|i: int|
                0 <= i < old(self).nodes@.len() ==> final(self).parents@[i] == old(
                    self,
                ).parents@[i] && final(self).edges@[i] == old(self).edges@[i],
            final(self).target == old(self).target,
            final(self).nodes@.len() >= old(self).nodes@.len(),
            forall|i: int|
                0 <= i < old(self).nodes@.len() ==> final(self).nodes@[i] == old(self).nodes@[i],
            forall|i: int|
                old(self).nodes@.len() <= i < final(self).nodes@.len()
                    ==> final(self).nodes@[i].num_digits < old(self).nodes@[idx as int].num_digits,
            old(self).best_solution_size <= final(self).best_solution_size,
            final(self).best_solution_size < old(self).nodes@[idx as int].num_digits,
            covers_steps(final(self).nodes@, old(self).nodes@[idx as int]),
            explored_range(
                final(self).nodes@,
                old(self).nodes@.len() as int,
                final(self).nodes@.len() as int,
                final(self).best_solution_size,
                final(self).target,
            ),
        decreases old(self).nodes@[idx as int].num_digits,
    {
        let transitions = self.nodes[idx].next_states();
        let ghost st = self.nodes@[idx as int];
        let ghost nodes0 = self.nodes@;
        let ghost best0 = self.best_solution_size;
        let mut k: usize = 0;
        while k < transitions.len()
            invariant
                self.wf(),
                self.target == old(self).target,
                idx < self.nodes@.len(),
                self.nodes@[idx as int] == st,
                st.wf(),
                nodes0 == old(self).nodes@,
                best0 == old(self).best_solution_size,
                idx == 0 || !st.values().contains(self.target),
                forall|x: int, j: int|
                    0 <= x < transitions@.len() && 0 <= j < transitions@[x].operations@.len()
                        ==> (#[trigger] transitions@[x].operations@[j]).num1
                        >= transitions@[x].operations@[j].num2 && is_move_of(
                        st.values(),
                        st.num_digits as int,
                        transitions@[x].operations@[j],
                    ),
                self.best_solution_size == best0 ==> {
                    &&& self.target_states@.len() >= old(self).target_states@.len()
                    &&& forall|kk: int|
                        0 <= kk < old(self).target_states@.len() ==> self.target_states@[kk]
                            == old(self).target_states@[kk]
                },
                forall|i: int|
                    0 <= i < nodes0.len() ==> self.parents@[i] == old(self).parents@[i]
                        && self.edges@[i] == old(self).edges@[i],
                self.nodes@.len() >= nodes0.len(),
                forall|i: int| 0 <= i < nodes0.len() ==> self.nodes@[i] == nodes0[i],
                forall|i: int|
                    nodes0.len() <= i < self.nodes@.len() ==> self.nodes@[i].num_digits
                        < st.num_digits,
                best0 <= self.best_solution_size < st.num_digits,
                k <= transitions@.len(),
                forall|x: int|
                    0 <= x < transitions@.len() ==> {
                        &&& transitions@[x].operations@.len() > 0
                        &&& forall|j: int|
                            0 <= j < transitions@[x].operations@.len() ==> #[trigger] st.leads_to(
                                &transitions@[x].state,
                                transitions@[x].operations@[j],
                            )
                    },
                forall|x: int|
                    0 <= x < k ==> is_node(self.nodes@, #[trigger] transitions@[x].state.values()),
                explored_range(
                    self.nodes@,
                    nodes0.len() as int,
                    self.nodes@.len() as int,
                    self.best_solution_size,
                    self.target,
                ),
            decreases transitions@.len() - k,
        {
            assert(st.leads_to(&transitions@[k as int].state, transitions@[k as int].operations@[0]));
            let ghost nodes_k = self.nodes@;
            let ghost best_k = self.best_solution_size;
            let next = transitions[k].state.copy_state();
            match self.find_node(&next) {
                Some(i) => {
                    assert(self.nodes@[i as int].values() == transitions@[k as int].state.values());
                    assert(is_node(self.nodes@, transitions@[k as int].state.values()));
                },
                None => {
                    let ops = copy_ops(&transitions[k].operations);
                    let next_num = next.num_digits;
                    let b = bucket_of(&next);
                    let ghost before = *self;
                    self.nodes.push(next);
                    self.parents.push(idx);
                    self.edges.push(ops);
                    let new_idx = self.nodes.len() - 1;
                    self.index[b].push(new_idx);
                    add_graph_edge(&mut self.state_graph, idx, new_idx);
                    proof {
                        assert forall|i: int| 0 <= i < before.nodes@.len() implies self.nodes@[i]
                            == before.nodes@[i] && self.parents@[i] == before.parents@[i]
                            && self.edges@[i] == before.edges@[i] by {}
                        let tr = transitions@[k as int];
                        let n = new_idx as int;
                        assert forall|e: (usize, usize)|
                            #[trigger] graph_edges(self.state_graph).contains(e) <==> (0 < e.1
                                < self.nodes@.len() && self.parents@[e.1 as int] == e.0) by {
                            if e.1 < before.nodes@.len() {
                                assert(graph_edges(before.state_graph).contains(e) <==> (0 < e.1
                                    < before.nodes@.len() && before.parents@[e.1 as int] == e.0));
                            }
                        }
                        assert(self.nodes@[n].values() == tr.state.values());
                        assert(self.nodes@[n].contents() == tr.state.contents());
                        assert(self.nodes@[n].wf());
                        assert(self.nodes@[0] == before.nodes@[0]);
                        assert(st.leads_to(&tr.state, tr.operations@[0]));
                        assert(before.wf());
                        if idx > 0 {
                            assert(before.parents@[idx as int] < idx);
                            assert(before.nodes@[idx as int].num_digits
                                < before.nodes@[0].num_digits);
                        }
                        assert(self.nodes@[n].num_digits < self.nodes@[0].num_digits);
                        assert(self.edges@[n]@ == tr.operations@);
                        assert forall|j: int| 0 <= j < self.edges@[n]@.len() implies #[trigger]
                            self.nodes@[self.parents@[n] as int].leads_to(
                            &self.nodes@[n],
                            self.edges@[n]@[j],
                        ) by {
                            assert(st.leads_to(&tr.state, tr.operations@[j]));
                        }
                        assert forall|i1: int, i2: int|
                            0 <= i1 < i2 < self.nodes@.len() implies self.nodes@[i1].values()
                            != self.nodes@[i2].values() by {
                            if i2 == n {
                                assert(before.nodes@[i1].values() != next.values());
                            }
                        }
                        assert forall|bb: int, j: int|
                            0 <= bb < BUCKETS && 0 <= j < self.index@[bb]@.len() implies {
                            let i = #[trigger] self.index@[bb]@[j] as int;
                            &&& i < self.nodes@.len()
                            &&& bucket_spec(self.nodes@[i].values()) == bb
                        } by {
                            if bb == b && j == before.index@[bb]@.len() {
                            } else {
                                let i = before.index@[bb]@[j] as int;
                                assert(i < before.nodes@.len());
                            }
                        }
                        assert forall|i: int| 0 <= i < self.nodes@.len() implies self.index@[
                            bucket_spec(#[trigger] self.nodes@[i].values())
                        ]@.contains(i as usize) by {
                            let bi = bucket_spec(self.nodes@[i].values());
                            if i == n {
                                assert(self.index@[b as int]@.last() == n as usize);
                            } else {
                                assert(before.index@[bi]@.contains(i as usize));
                                let x = choose|x: int|
                                    0 <= x < before.index@[bi]@.len() && before.index@[bi]@[x]
                                        == i as usize;
                                assert(self.index@[bi]@[x] == i as usize);
                            }
                        }
                    }
                    let ghost nodes_n = self.nodes@;
                    let ghost n = new_idx as int;
                    if self.nodes[new_idx].contains_value(self.target) {
                        if self.best_solution_size < next_num {
                            self.best_solution_size = next_num;
                            self.target_states = Vec::new();
                        }
                        let ghost ts_before = self.target_states@;
                        self.target_states.push(new_idx);
                        proof {
                            lemma_push_contains(ts_before, new_idx);
                            assert(self.target_states@[ts_before.len() as int] == new_idx);
                        }
                        assert(self.wf());
                    } else {
                        assert(self.wf());
                        if next_num > self.best_solution_size {
                            self.solve_state(new_idx);
                        }
                    }
                    proof {
                        assert(explored_range(
                            self.nodes@,
                            n,
                            self.nodes@.len() as int,
                            self.best_solution_size,
                            self.target,
                        )) by {
                            assert(self.nodes@[n] == nodes_n[n]);
                        }
                        lemma_explored_extend(
                            nodes_k,
                            self.nodes@,
                            nodes0.len() as int,
                            best_k,
                            self.best_solution_size,
                            self.target,
                        );
                    }
                    assert(self.nodes@[new_idx as int].values() == transitions@[k as int].state.values());
                },
            }
            proof {
                assert(explored_range(
                    self.nodes@,
                    nodes0.len() as int,
                    self.nodes@.len() as int,
                    self.best_solution_size,
                    self.target,
                ));
                assert(is_node(self.nodes@, transitions@[k as int].state.values()));
                assert forall|x: int| 0 <= x < k implies is_node(
                    self.nodes@,
                    #[trigger] transitions@[x].state.values(),
                ) by {
                    let i = choose|i: int|
                        0 <= i < nodes_k.len() && #[trigger] nodes_k[i].values()
                            == transitions@[x].state.values();
                    assert(self.nodes@[i] == nodes_k[i]);
                }
            }
            k = k + 1;
        }
        proof {
            assert forall|a: int, b: int, kind: OperationType|
                0 <= a < st.num_digits && 0 <= b < st.num_digits && a != b
                    && #[trigger] move_op(st.values(), a, b, kind).is_legal() implies exists|i: int|
                0 <= i < self.nodes@.len() && self.nodes@[i].num_digits + 1 == st.num_digits
                    && step(st.contents(), move_op(st.values(), a, b, kind)) == Some(
                    #[trigger] self.nodes@[i].contents(),
                ) by {
                let op = move_op(st.values(), a, b, kind);
                let x = choose|x: int|
                    0 <= x < transitions@.len() && transitions@[x].operations@.contains(op);
                let j = choose|j: int|
                    0 <= j < transitions@[x].operations@.len() && transitions@[x].operations@[j] == op;
                assert(st.leads_to(&transitions@[x].state, transitions@[x].operations@[j]));
                assert(is_node(self.nodes@, transitions@[x].state.values()));
                let i = choose|i: int|
                    0 <= i < self.nodes@.len() && #[trigger] self.nodes@[i].values()
                        == transitions@[x].state.values();
                assert(self.nodes@[i].contents() == transitions@[x].state.contents());
                assert(self.nodes@[i].wf());
                assert(self.nodes@[i].values().len() == self.nodes@[i].num_digits);
                assert(transitions@[x].state.values().len() == transitions@[x].state.num_digits);
            }
        }
    }

    /// Searches for the shortest ways to reach `target` from the numbers of `digits`, or fails
    /// where they are more than `N`.
    ///
    /// Every state reachable in one step is met, and every legal step is followed from each
    /// state met that does not hold the target and leaves more numbers than the best solution
    /// found. Where a state reachable in one step holds the target, the solutions found take
    /// a single step. With fewer than two numbers nothing is found, even where the one number
    /// is the target.
    pub fn solve(target: usize, digits: Vec<usize>) -> (r: Result<DigitsSolver<N>, DigitsError>)
        ensures
            r is Ok <==> digits@.len() <= N,
            r matches Err(e) ==> e == DigitsError::TooManyDigits,
            r matches Ok(s) ==> {
                &&& s.wf()
                &&& s.target == target
                &&& s.nodes@[0].built_from(digits@)
                &&& covers_steps(s.nodes@, s.nodes@[0])
                &&& explored_range(
                    s.nodes@,
                    1,
                    s.nodes@.len() as int,
                    s.best_solution_size,
                    target,
                )
                &&& one_step_reaches(s.nodes@[0], target) ==> {
                    &&& s.target_states@.len() > 0
                    &&& s.best_solution_size + 1 == digits@.len()
                }
                &&& digits@.len() <= 1 ==> s.target_states@.len() == 0
            },
    {
        let ghost d = digits@;
        let initial = match GameState::<N>::new(digits) {
            Ok(st) => st,
            Err(e) => {
                return Err(e);
            },
        };
        let mut nodes: Vec<GameState<N>> = Vec::new();
        nodes.push(initial);
        let mut parents: Vec<usize> = Vec::new();
        parents.push(0);
        let mut edges: Vec<Vec<Operation>> = Vec::new();
        edges.push(Vec::new());
        let mut index: Vec<Vec<usize>> = Vec::new();
        while index.len() < BUCKETS
            invariant
                index@.len() <= BUCKETS,
                forall|b: int| 0 <= b < index@.len() ==> index@[b]@.len() == 0,
            decreases BUCKETS - index@.len(),
        {
            index.push(Vec::new());
        }
        let b = bucket_of(&nodes[0]);
        index[b].push(0);
        let mut solver = DigitsSolver {
            nodes,
            parents,
            edges,
            target,
            best_solution_size: 1,
            target_states: Vec::new(),
            index,
            state_graph: new_graph(),
        };
        proof {
            assert(solver.index@[b as int]@ == seq![0usize]);
            assert(solver.index@[b as int]@[0] == 0usize);
        }
        let ghost st = solver.nodes@[0];
        if solver.nodes[0].num_digits > 1 {
            solver.solve_state(0);
        }
        proof {
            let s = solver;
            if one_step_reaches(st, target) {
                let (a, b, kind) = choose|a: int, b: int, kind: OperationType|
                    0 <= a < st.num_digits && 0 <= b < st.num_digits && a != b && (#[trigger] step(
                        st.contents(),
                        move_op(st.values(), a, b, kind),
                    ) matches Some(m) && m.count(target) > 0);
                let op = move_op(st.values(), a, b, kind);
                assert(op.is_legal());
                let i = choose|i: int|
                    0 <= i < s.nodes@.len() && s.nodes@[i].num_digits + 1 == st.num_digits
                        && step(st.contents(), op) == Some(#[trigger] s.nodes@[i].contents());
                broadcast use vstd::seq_lib::group_to_multiset_ensures;

                assert(s.nodes@[i].values().contains(target));
                assert(i != 0);
                assert(s.target_states@.len() > 0);
                let t = s.target_states@[0] as int;
                assert(0 < t < s.nodes@.len());
            }
            if s.target_states@.len() > 0 {
                let t = s.target_states@[0] as int;
                assert(0 < t < s.nodes@.len());
            }
        }
        Ok(solver)
    }

    /// The steps along `path`: for each state after the first, the first step of the edge
    /// that enters it.
    fn ops_along_path(&self, path: &Vec<usize>, goal: Ghost<usize>) -> (r: Vec<Operation>)
        requires
            self.wf(),
            is_path(graph_edges(self.state_graph), path@, 0, goal@),
        ensures
            r@ == self.ops_along(path@),
    {
        assert(self.nodes@.len() == self.nodes.len());
        let mut r: Vec<Operation> = Vec::new();
        let mut i: usize = 1;
        proof {
            assert(path@.take(1) =~= seq![path@[0]]);
        }
        while i < path.len()
            invariant
                self.wf(),
                is_path(graph_edges(self.state_graph), path@, 0, goal@),
                1 <= i <= path@.len(),
                r@ == self.ops_along(path@.take(i as int)),
            decreases path@.len() - i,
        {
            let ghost t = path@.take(i as int + 1);
            proof {
                assert(graph_edges(self.state_graph).contains((path@[i - 1], path@[i as int])));
                assert(t.drop_last() =~= path@.take(i as int));
                assert(t.last() == path@[i as int]);
            }
            let node = path[i];
            r.push(self.edges[node][0]);
            i = i + 1;
        }
        assert(path@.take(i as int) =~= path@);
        r
    }

    /// The steps of each solution found, one sequence per recorded target state in the order
    /// of recording: along a shortest path from the initial state to that state, the first
    /// step of each edge, in the order in which they are taken.
    #[verifier::rlimit(40)]
    pub fn get_solutions(&self) -> (r: Vec<Vec<Operation>>)
        requires
            self.wf(),
        ensures
            r@.len() == self.target_states@.len(),
            forall|k: int|
                0 <= k < r@.len() ==> {
                    &&& exists|p: Seq<usize>|
                        is_path(graph_edges(self.state_graph), p, 0, self.target_states@[k])
                            && #[trigger] self.ops_along(p) == r@[k]@
                    &&& #[trigger] r@[k]@.len() + self.best_solution_size
                        == self.nodes@[0].num_digits
                    &&& run(self.nodes@[0].contents(), r@[k]@) == Some(
                        self.nodes@[self.target_states@[k] as int].contents(),
                    )
                    &&& self.nodes@[self.target_states@[k] as int].contents().count(self.target)
                        > 0
                    &&& forall|j: int|
                        0 <= j < r@[k]@.len() ==> (#[trigger] r@[k]@[j]).is_legal() && r@[k]@[j].num1
                            >= r@[k]@[j].num2
                },
    {
        let mut solutions: Vec<Vec<Operation>> = Vec::new();
        let mut k: usize = 0;
        while k < self.target_states.len()
            invariant
                self.wf(),
                k <= self.target_states@.len(),
                solutions@.len() == k,
                forall|x: int|
                    0 <= x < k ==> {
                        &&& exists|p: Seq<usize>|
                            is_path(graph_edges(self.state_graph), p, 0, self.target_states@[x])
                                && #[trigger] self.ops_along(p) == solutions@[x]@
                        &&& #[trigger] solutions@[x]@.len() + self.best_solution_size
                            == self.nodes@[0].num_digits
                        &&& run(self.nodes@[0].contents(), solutions@[x]@) == Some(
                            self.nodes@[self.target_states@[x] as int].contents(),
                        )
                        &&& self.nodes@[self.target_states@[x] as int].contents().count(
                            self.target,
                        ) > 0
                        &&& forall|j: int|
                            0 <= j < solutions@[x]@.len() ==> (
                            #[trigger] solutions@[x]@[j]).is_legal() && solutions@[x]@[j].num1
                                >= solutions@[x]@[j].num2
                    },
            decreases self.target_states@.len() - k,
        {
            let t = self.target_states[k];
            proof {
                assert(self.nodes@.len() == self.nodes.len());
                self.lemma_chain_is_path(t as int);
                broadcast use vstd::seq_lib::group_to_multiset_ensures;

                assert(self.nodes@[t as int].values().contains(self.target));
            }
            match shortest_path(&self.state_graph, 0, t) {
                Some(path) => {
                    let ops = self.ops_along_path(&path, Ghost(t));
                    proof {
                        self.lemma_path_run(path@, t);
                        assert(is_path(graph_edges(self.state_graph), path@, 0, self.target_states@[k as int]));
                        assert(self.ops_along(path@) == ops@);
                    }
                    solutions.push(ops);
                },
                None => {},
            }
            k = k + 1;
        }
        solutions
    }
}

} // verus!
