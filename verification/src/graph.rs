use vstd::prelude::*;

use std::collections::HashSet;

use crate::config::Config;

verus! {

broadcast use vstd::std_specs::hash::group_hash_axioms;

/// One variable of the computational graph, as the scheduling of
/// reverse-mode differentiation sees it: its generation and, when a
/// function produced it, the variables that function took as inputs.
pub struct GraphNode {
    generation: usize,
    creator: Option<Vec<usize>>,
}

/// The computational graph. Variables are numbered in the order they were
/// created; a function call creates its output after all of its inputs.
pub struct Graph {
    nodes: Vec<GraphNode>,
}

/// The model of a variable: its generation and the inputs of its creator.
pub type NodeModel = (usize, Option<Seq<usize>>);

impl View for Graph {
    type V = Seq<NodeModel>;

    closed spec fn view(&self) -> Seq<NodeModel> {
        Seq::new(
            self.nodes@.len(),
            |i: int|
                (
                    self.nodes@[i].generation,
                    match self.nodes@[i].creator {
                        Some(v) => Some(v@),
                        None => None,
                    },
                ),
        )
    }
}

/// Generation of variable `i`.
pub open spec fn generation_of(g: Seq<NodeModel>, i: int) -> int {
    g[i].0 as int
}

/// Whether a function produced variable `u` and took `v` among its inputs:
/// reverse-mode differentiation sends a gradient from `u` to `v`.
pub open spec fn feeds(g: Seq<NodeModel>, u: int, v: int) -> bool {
    &&& 0 <= u < g.len()
    &&& g[u].1 is Some
    &&& g[u].1.unwrap().contains(v as usize)
}

/// `p` walks from variable to creator input, step by step.
pub open spec fn is_path(g: Seq<NodeModel>, p: Seq<usize>) -> bool {
    &&& p.len() > 0
    &&& forall|k: int| 0 <= k < p.len() ==> (#[trigger] p[k]) < g.len()
    &&& forall|k: int| 0 <= k < p.len() - 1 ==> #[trigger] feeds(g, p[k] as int, p[k + 1] as int)
}

/// Variable `v` lies upstream of `from`: a gradient sent back from `from`
/// reaches `v`.
pub open spec fn reachable(g: Seq<NodeModel>, from: usize, v: usize) -> bool {
    exists|p: Seq<usize>| #[trigger] is_path(g, p) && p[0] == from && p.last() == v
}

/// The largest generation among the given variables (0 for none).
pub open spec fn max_generation(g: Seq<NodeModel>, ins: Seq<usize>) -> int
    decreases ins.len(),
{
    if ins.len() == 0 {
        0
    } else {
        let m = max_generation(g, ins.drop_last());
        let last = generation_of(g, ins.last() as int);
        if m >= last {
            m
        } else {
            last
        }
    }
}

/// Well-formedness: every creator input was created before its output and
/// has a strictly smaller generation; generations stay within the node count.
pub open spec fn graph_wf(g: Seq<NodeModel>) -> bool {
    forall|i: int|
        0 <= i < g.len() ==> {
            &&& generation_of(g, i) <= i + 1
            &&& (#[trigger] g[i]).1 is Some ==> forall|k: int|
                0 <= k < g[i].1.unwrap().len() ==> {
                    &&& (#[trigger] g[i].1.unwrap()[k]) < i
                    &&& generation_of(g, g[i].1.unwrap()[k] as int) < generation_of(g, i)
                }
        }
}

/// The inputs of the creator of variable `v` (none when no function
/// produced it).
pub open spec fn creator_inputs(g: Seq<NodeModel>, v: int) -> Seq<usize> {
    match g[v].1 {
        Some(ins) => ins,
        None => Seq::empty(),
    }
}

/// `met` followed by the variables of `ins` not met before, in the order of
/// `ins`, each once.
pub open spec fn discover(ins: Seq<usize>, met: Seq<usize>) -> Seq<usize>
    decreases ins.len(),
{
    if ins.len() == 0 {
        met
    } else {
        let s = discover(ins.drop_last(), met);
        if s.contains(ins.last()) {
            s
        } else {
            s.push(ins.last())
        }
    }
}

/// The variables met, in the order they were first met, when reverse-mode
/// differentiation starts at `output` and has processed the variables of
/// `done` in that order: `output`, then the creator inputs of each processed
/// variable the first time they turn up.
pub open spec fn discovered(g: Seq<NodeModel>, output: usize, done: Seq<usize>) -> Seq<usize>
    decreases done.len(),
{
    if done.len() == 0 {
        seq![output]
    } else {
        discover(creator_inputs(g, done.last() as int), discovered(g, output, done.drop_last()))
    }
}

/// Variable `k` of `order` is, among the variables met and not yet
/// processed before it, one of the largest generation, and among those of
/// that generation the one met last.
pub open spec fn picked_next(g: Seq<NodeModel>, output: usize, order: Seq<usize>, k: int) -> bool {
    let done = order.take(k);
    let met = discovered(g, output, done);
    exists|p: int|
        0 <= p < met.len() && #[trigger] met[p] == order[k] && forall|q: int|
            0 <= q < met.len() && !done.contains(#[trigger] met[q]) ==> (generation_of(g, met[q] as int) < generation_of(
                g,
                order[k] as int,
            ) || (generation_of(g, met[q] as int) == generation_of(g, order[k] as int) && q <= p))
}

/// Taking variable `j` of the queue, one of the largest generation and the
/// last queued among those of its generation, follows the rule of
/// `picked_next`, and the rule keeps holding for the variables processed
/// before.
proof fn lemma_pick_step(
    g: Seq<NodeModel>,
    output: usize,
    o0: Seq<usize>,
    q0: Seq<usize>,
    met: Seq<usize>,
    qpos: Seq<int>,
    j: int,
)
    requires
        met == discovered(g, output, o0),
        met.no_duplicates(),
        forall|x: usize| #[trigger] (o0 + q0).contains(x) <==> met.contains(x),
        qpos.len() == q0.len(),
        forall|a: int| 0 <= a < qpos.len() ==> 0 <= #[trigger] qpos[a] < met.len() && met[qpos[a]] == q0[a],
        forall|a: int, b: int| 0 <= a < b < qpos.len() ==> #[trigger] qpos[a] < #[trigger] qpos[b],
        0 <= j < q0.len(),
        forall|k: int| 0 <= k < q0.len() ==> generation_of(g, #[trigger] q0[k] as int) <= generation_of(g, q0[j] as int),
        forall|k: int| j < k < q0.len() ==> generation_of(g, #[trigger] q0[k] as int) < generation_of(g, q0[j] as int),
        forall|k: int| 0 <= k < o0.len() ==> #[trigger] picked_next(g, output, o0, k),
    ensures
        forall|k: int| 0 <= k <= o0.len() ==> #[trigger] picked_next(g, output, o0.push(q0[j]), k),
{
    let order = o0.push(q0[j]);
    let v = q0[j];
    let p = qpos[j];
    let all0 = o0 + q0;
    assert forall|k: int| 0 <= k <= o0.len() implies #[trigger] picked_next(g, output, order, k) by {
        if k < o0.len() {
            assert(order.take(k) =~= o0.take(k));
            assert(order[k] == o0[k]);
            assert(picked_next(g, output, o0, k));
        } else {
            assert(order.take(k) =~= o0);
            assert(order[k] == v);
            assert forall|q: int| 0 <= q < met.len() && !o0.contains(#[trigger] met[q]) implies (generation_of(
                g,
                met[q] as int,
            ) < generation_of(g, v as int) || (generation_of(g, met[q] as int) == generation_of(g, v as int) && q
                <= p)) by {
                let x = met[q];
                assert(met.contains(x));
                assert(all0.contains(x));
                let k2 = choose|k2: int| 0 <= k2 < all0.len() && all0[k2] == x;
                if k2 < o0.len() {
                    assert(o0[k2] == x);
                    assert(o0.contains(x));
                }
                let a = k2 - o0.len();
                assert(q0[a] == x);
                assert(met[qpos[a]] == x);
                assert(qpos[a] == q);
                if a < j {
                    assert(qpos[a] < qpos[j]);
                }
            }
            assert(met[p] == v);
        }
    }
}

/// The largest generation among some variables is at least each of theirs
/// and is the generation of one of them (0 when there are none).
pub proof fn lemma_max_generation_bounds(g: Seq<NodeModel>, ins: Seq<usize>)
    ensures
        max_generation(g, ins) >= 0,
        forall|k: int| 0 <= k < ins.len() ==> generation_of(g, #[trigger] ins[k] as int) <= max_generation(g, ins),
        ins.len() > 0 ==> exists|k: int| 0 <= k < ins.len() && generation_of(g, #[trigger] ins[k] as int) == max_generation(g, ins),
        ins.len() == 0 ==> max_generation(g, ins) == 0,
    decreases ins.len(),
{
    if ins.len() > 0 {
        let rest = ins.drop_last();
        lemma_max_generation_bounds(g, rest);
        assert forall|k: int| 0 <= k < ins.len() implies generation_of(g, #[trigger] ins[k] as int) <= max_generation(g, ins) by {
            if k < ins.len() - 1 {
                assert(ins[k] == rest[k]);
            }
        }
        if rest.len() > 0 && max_generation(g, rest) >= generation_of(g, ins.last() as int) {
            let k = choose|k: int| 0 <= k < rest.len() && generation_of(g, #[trigger] rest[k] as int) == max_generation(g, rest);
            assert(ins[k] == rest[k]);
        } else {
            assert(ins[ins.len() - 1] == ins.last());
        }
    }
}

proof fn lemma_closed_path_prefix(g: Seq<NodeModel>, t: Seq<usize>, p: Seq<usize>, k: int)
    requires
        is_path(g, p),
        0 <= k < p.len(),
        t.contains(p[0]),
        forall|u: int, x: int| t.contains(u as usize) && 0 <= u && feeds(g, u, x) ==> t.contains(x as usize),
    ensures
        t.contains(p[k]),
    decreases k,
{
    if k > 0 {
        lemma_closed_path_prefix(g, t, p, k - 1);
        let j = k - 1;
        assert(feeds(g, p[j] as int, p[j + 1] as int));
    }
}

/// If a set holds `from` and is closed under `feeds`, it holds everything
/// reachable from `from`.
proof fn lemma_closed_contains_reachable(g: Seq<NodeModel>, from: usize, t: Seq<usize>, v: usize)
    requires
        t.contains(from),
        forall|u: int, x: int| t.contains(u as usize) && 0 <= u && feeds(g, u, x) ==> t.contains(x as usize),
        reachable(g, from, v),
    ensures
        t.contains(v),
{
    let p = choose|p: Seq<usize>| #[trigger] is_path(g, p) && p[0] == from && p.last() == v;
    lemma_closed_path_prefix(g, t, p, p.len() - 1);
}

proof fn lemma_unique_bounded_len(s: Seq<usize>, n: usize)
    requires
        s.no_duplicates(),
        forall|k: int| 0 <= k < s.len() ==> (#[trigger] s[k]) < n,
    ensures
        s.len() <= n,
{
    let f = |x: usize| x as int;
    let t = s.map_values(f);
    assert(vstd::relations::injective(f));
    s.lemma_no_duplicates_injective(f);
    t.unique_seq_to_set();
    vstd::set_lib::lemma_int_range(0, n as int);
    assert forall|x: int| t.to_set().contains(x) implies vstd::set_lib::set_int_range(0, n as int).contains(x) by {
        let k = choose|k: int| 0 <= k < t.len() && t[k] == x;
        assert(s[k] < n);
    }
    vstd::set_lib::lemma_len_subset(t.to_set(), vstd::set_lib::set_int_range(0, n as int));
}

impl Graph {
    /// An empty graph.
    pub fn new() -> (g: Graph)
        ensures
            g@ == Seq::<NodeModel>::empty(),
            graph_wf(g@),
    {
        let g = Graph { nodes: Vec::new() };
        assert(g@ =~= Seq::<NodeModel>::empty());
        g
    }

    /// Number of variables.
    pub fn len(&self) -> (n: usize)
        ensures
            n == self@.len(),
    {
        self.nodes.len()
    }

    /// Generation of variable `i`.
    pub fn generation(&self, i: usize) -> (r: usize)
        requires
            i < self@.len(),
        ensures
            r == self@[i as int].0,
    {
        self.nodes[i].generation
    }

    /// Whether a function produced variable `i`.
    pub fn has_creator(&self, i: usize) -> (r: bool)
        requires
            i < self@.len(),
        ensures
            r == self@[i as int].1 is Some,
    {
        self.nodes[i].creator.is_some()
    }

    /// Number of inputs of the creator of variable `i` (0 when no function
    /// produced it).
    pub fn input_count(&self, i: usize) -> (r: usize)
        requires
            i < self@.len(),
        ensures
            r == creator_inputs(self@, i as int).len(),
    {
        match &self.nodes[i].creator {
            Some(ins) => ins.len(),
            None => 0,
        }
    }

    /// Input `k` of the creator of variable `i`.
    pub fn input(&self, i: usize, k: usize) -> (r: usize)
        requires
            i < self@.len(),
            k < creator_inputs(self@, i as int).len(),
        ensures
            r == creator_inputs(self@, i as int)[k as int],
    {
        match &self.nodes[i].creator {
            Some(ins) => ins[k],
            None => 0,
        }
    }

    /// A new variable that no function produced: generation 0, no creator.
    pub fn new_variable(&mut self) -> (id: usize)
        requires
            graph_wf(old(self)@),
        ensures
            id == old(self)@.len(),
            final(self)@ == old(self)@.push((0usize, None)),
            graph_wf(final(self)@),
    {
        let id = self.nodes.len();
        self.nodes.push(GraphNode { generation: 0, creator: None });
        assert(self@ =~= old(self)@.push((0usize, None)));
        id
    }

    /// Records a function call on `inputs`. The output's generation is one
    /// more than the largest input generation, and the inputs become its
    /// creator's inputs; with back-propagation disabled the output is a plain
    /// variable of generation 0.
    pub fn call(&mut self, config: &Config, inputs: Vec<usize>) -> (out: usize)
        requires
            graph_wf(old(self)@),
            old(self)@.len() < usize::MAX,
            forall|k: int| 0 <= k < inputs@.len() ==> (#[trigger] inputs@[k]) < old(self)@.len(),
        ensures
            out == old(self)@.len(),
            graph_wf(final(self)@),
            final(self)@ == old(self)@.push(
                if config@ {
                    ((max_generation(old(self)@, inputs@) + 1) as usize, Some(inputs@))
                } else {
                    (0usize, None)
                },
            ),
    {
        let ghost g0 = self@;
        let out = self.nodes.len();
        if config.enable_backprop() {
            let mut m: usize = 0;
            let mut k: usize = 0;
            while k < inputs.len()
                invariant
                    g0 == self@,
                    graph_wf(g0),
                    k <= inputs@.len(),
                    out == g0.len(),
                    forall|j: int| 0 <= j < inputs@.len() ==> (#[trigger] inputs@[j]) < g0.len(),
                    m == max_generation(g0, inputs@.subrange(0, k as int)),
                    m <= out,
                decreases inputs@.len() - k,
            {
                let x = inputs[k];
                let gx = self.nodes[x].generation;
                assert(g0[x as int].0 <= x + 1);
                assert(inputs@.subrange(0, k as int + 1).drop_last() =~= inputs@.subrange(0, k as int));
                if gx > m {
                    m = gx;
                }
                k = k + 1;
            }
            assert(inputs@.subrange(0, inputs@.len() as int) =~= inputs@);
            proof {
                lemma_max_generation_bounds(g0, inputs@);
            }
            let ghost ins = inputs@;
            self.nodes.push(GraphNode { generation: m + 1, creator: Some(inputs) });
            assert(self@ =~= g0.push(((m + 1) as usize, Some(ins))));
        } else {
            self.nodes.push(GraphNode { generation: 0, creator: None });
            assert(self@ =~= g0.push((0usize, None)));
        }
        out
    }

    /// Index in `queue` of the variable processed next: the largest
    /// generation, and among equals the one queued last.
    fn pick_next(&self, queue: &Vec<usize>) -> (j: usize)
        requires
            queue@.len() > 0,
            forall|k: int| 0 <= k < queue@.len() ==> (#[trigger] queue@[k]) < self@.len(),
        ensures
            j < queue@.len(),
            forall|k: int| 0 <= k < queue@.len() ==> generation_of(self@, #[trigger] queue@[k] as int) <= generation_of(self@, queue@[j as int] as int),
            forall|k: int| j < k < queue@.len() ==> generation_of(self@, #[trigger] queue@[k] as int) < generation_of(self@, queue@[j as int] as int),
    {
        let mut j: usize = 0;
        let mut k: usize = 1;
        while k < queue.len()
            invariant
                1 <= k <= queue@.len(),
                j < k,
                forall|i: int| 0 <= i < queue@.len() ==> (#[trigger] queue@[i]) < self@.len(),
                forall|i: int| 0 <= i < k ==> generation_of(self@, #[trigger] queue@[i] as int) <= generation_of(self@, queue@[j as int] as int),
                forall|i: int| j < i < k ==> generation_of(self@, #[trigger] queue@[i] as int) < generation_of(self@, queue@[j as int] as int),
            decreases queue@.len() - k,
        {
            if self.nodes[queue[k]].generation >= self.nodes[queue[j]].generation {
                j = k;
            }
            k = k + 1;
        }
        j
    }

    /// The order in which `backward` from `output` processes variables: it
    /// keeps a queue of variables whose gradient is being accumulated, always
    /// takes the one of largest generation next (among equals the one queued
    /// last), and queues each creator input the first time it is met.
    ///
    /// Every variable upstream of `output` is processed exactly once, nothing
    /// else is, and generations never increase along the order: a variable is
    /// processed only after every variable that sends it a gradient.
    pub fn backward_order(&self, output: usize) -> (order: Vec<usize>)
        requires
            graph_wf(self@),
            output < self@.len(),
        ensures
            order@.len() > 0,
            order@[0] == output,
            order@.no_duplicates(),
            forall|v: usize| #[trigger] order@.contains(v) <==> (v < self@.len() && reachable(self@, output, v)),
            forall|i: int, j: int|
                0 <= i < j < order@.len() ==> generation_of(self@, #[trigger] order@[j] as int) <= generation_of(self@, #[trigger] order@[i] as int),
            forall|k: int| 0 <= k < order@.len() ==> #[trigger] picked_next(self@, output, order@, k),
    {
        let ghost g = self@;
        let n = self.nodes.len();
        let mut seen: HashSet<usize> = HashSet::new();
        let mut queue: Vec<usize> = Vec::new();
        let mut order: Vec<usize> = Vec::new();
        seen.insert(output);
        queue.push(output);
        let ghost mut met: Seq<usize> = seq![output];
        let ghost mut qpos: Seq<int> = seq![0int];
        proof {
            assert(discovered(g, output, order@) == met);
            assert(order@ + queue@ =~= seq![output]);
            assert forall|x: usize| #[trigger] seen@.contains(x) <==> (order@ + queue@).contains(x) by {
                if x == output {
                    assert((order@ + queue@)[0] == x);
                }
            }
            let p = seq![output];
            assert(is_path(g, p));
        }
        while queue.len() > 0
            invariant
                g == self@,
                graph_wf(g),
                n == g.len(),
                output < n,
                forall|x: usize| #![trigger seen@.contains(x)] #![trigger (order@ + queue@).contains(x)] seen@.contains(x) <==> (order@ + queue@).contains(x),
                forall|k: int| 0 <= k < (order@ + queue@).len() ==> (#[trigger] (order@ + queue@)[k]) < n,
                (order@ + queue@).no_duplicates(),
                order@.len() + queue@.len() <= n,
                order@.len() == 0 ==> queue@ == seq![output],
                order@.len() > 0 ==> order@[0] == output,
                forall|a: int, b: int|
                    0 <= a < b < order@.len() ==> generation_of(g, #[trigger] order@[b] as int) <= generation_of(g, #[trigger] order@[a] as int),
                order@.len() > 0 ==> forall|k: int| 0 <= k < queue@.len() ==> generation_of(g, #[trigger] queue@[k] as int) <= generation_of(g, order@.last() as int),
                forall|u: int, x: int| #![trigger order@.contains(u as usize), feeds(g, u, x)] order@.contains(u as usize) && 0 <= u && feeds(g, u, x) ==> (order@ + queue@).contains(x as usize),
                forall|x: usize| #[trigger] (order@ + queue@).contains(x) ==> reachable(g, output, x),
                met == discovered(g, output, order@),
                met.no_duplicates(),
                forall|x: usize| #[trigger] (order@ + queue@).contains(x) <==> met.contains(x),
                qpos.len() == queue@.len(),
                forall|a: int| 0 <= a < qpos.len() ==> 0 <= #[trigger] qpos[a] < met.len() && met[qpos[a]] == queue@[a],
                forall|a: int, b: int| 0 <= a < b < qpos.len() ==> #[trigger] qpos[a] < #[trigger] qpos[b],
                forall|k: int| 0 <= k < order@.len() ==> #[trigger] picked_next(g, output, order@, k),
            decreases 2 * n - 2 * order@.len() - queue@.len(),
        {
            let ghost all0 = order@ + queue@;
            let ghost q0 = queue@;
            let ghost o0 = order@;
            proof {
                assert forall|k: int| 0 <= k < queue@.len() implies (#[trigger] queue@[k]) < self@.len() by {
                    assert((order@ + queue@)[order@.len() + k] == queue@[k]);
                }
            }
            let j = self.pick_next(&queue);
            proof {
                lemma_pick_step(g, output, o0, q0, met, qpos, j as int);
            }
            let ghost qpos0 = qpos;
            let v = queue.remove(j);
            order.push(v);
            proof {
                qpos = qpos0.remove(j as int);
                assert(v == q0[j as int]);
                assert(order@ =~= o0.push(q0[j as int]));
                assert forall|a: int| 0 <= a < qpos.len() implies 0 <= #[trigger] qpos[a] < met.len() && met[qpos[a]] == queue@[a] by {
                    if a < j {
                        assert(qpos[a] == qpos0[a]);
                    } else {
                        assert(qpos[a] == qpos0[a + 1]);
                    }
                }
                assert forall|a: int, b: int| 0 <= a < b < qpos.len() implies #[trigger] qpos[a] < #[trigger] qpos[b] by {
                    let a0 = if a < j { a } else { a + 1 };
                    let b0 = if b < j { b } else { b + 1 };
                    assert(qpos[a] == qpos0[a0]);
                    assert(qpos[b] == qpos0[b0]);
                    assert(qpos0[a0] < qpos0[b0]);
                }
                assert(queue@ =~= q0.remove(j as int));
                // the same variables, in another arrangement
                assert forall|x: usize| #[trigger] (order@ + queue@).contains(x) <==> all0.contains(x) by {
                    if (order@ + queue@).contains(x) {
                        let k = choose|k: int| 0 <= k < (order@ + queue@).len() && (order@ + queue@)[k] == x;
                        if k < o0.len() {
                            assert(all0[k] == x);
                        } else if k == o0.len() {
                            assert(all0[o0.len() + j] == x);
                        } else if k - o0.len() - 1 < j {
                            assert(all0[k - 1] == x);
                        } else {
                            assert(all0[k] == x);
                        }
                    }
                    if all0.contains(x) {
                        let k = choose|k: int| 0 <= k < all0.len() && all0[k] == x;
                        if k < o0.len() {
                            assert((order@ + queue@)[k] == x);
                        } else if k - o0.len() < j {
                            assert((order@ + queue@)[k + 1] == x);
                        } else if k - o0.len() == j {
                            assert((order@ + queue@)[o0.len() as int] == x);
                        } else {
                            assert((order@ + queue@)[k] == x);
                        }
                    }
                }
                assert((order@ + queue@).len() == all0.len());
                assert forall|a: int, b: int| 0 <= a < b < (order@ + queue@).len() implies (order@ + queue@)[a] != (order@ + queue@)[b] by {
                    let s = order@ + queue@;
                    let pos = |k: int|
                        if k < o0.len() {
                            k
                        } else if k == o0.len() {
                            o0.len() + j
                        } else if k - o0.len() - 1 < j {
                            k - 1
                        } else {
                            k
                        };
                    assert(s[a] == all0[pos(a)]);
                    assert(s[b] == all0[pos(b)]);
                }
                assert forall|k: int| 0 <= k < (order@ + queue@).len() implies (#[trigger] (order@ + queue@)[k]) < n by {
                    assert((order@ + queue@).contains((order@ + queue@)[k]));
                    let k2 = choose|k2: int| 0 <= k2 < all0.len() && all0[k2] == (order@ + queue@)[k];
                }
                assert forall|a: int, b: int|
                    0 <= a < b < order@.len() implies generation_of(g, #[trigger] order@[b] as int) <= generation_of(g, #[trigger] order@[a] as int) by {
                    if b == order@.len() - 1 && o0.len() > 0 {
                        assert(order@[b] == q0[j as int]);
                        assert(generation_of(g, q0[j as int] as int) <= generation_of(g, o0.last() as int));
                        assert(o0.last() == o0[o0.len() - 1]);
                        assert(order@[o0.len() - 1] == o0[o0.len() - 1]);
                        if a < o0.len() - 1 {
                            assert(order@[a] == o0[a]);
                        }
                    } else {
                        assert(order@[a] == o0[a]);
                        assert(order@[b] == o0[b]);
                    }
                }
                assert forall|k: int| 0 <= k < queue@.len() implies generation_of(g, #[trigger] queue@[k] as int) <= generation_of(g, order@.last() as int) by {
                    if k < j {
                        assert(queue@[k] == q0[k]);
                    } else {
                        assert(queue@[k] == q0[k + 1]);
                    }
                }
                assert forall|u: int, x: int| #![trigger order@.contains(u as usize), feeds(g, u, x)] order@.contains(u as usize) && 0 <= u && feeds(g, u, x) && u != v as int implies (order@ + queue@).contains(x as usize) by {
                    let k = choose|k: int| 0 <= k < order@.len() && order@[k] == u as usize;
                    if k < o0.len() {
                        assert(o0[k] == u as usize);
                        assert(o0.contains(u as usize));
                    }
                }
                assert(all0.contains(v)) by {
                    assert(all0[o0.len() + j] == v);
                }
                assert(order@.len() > 0 && order@[0] == output) by {
                    if o0.len() == 0 {
                        assert(q0 == seq![output]);
                    } else {
                        assert(order@[0] == o0[0]);
                    }
                }
            }
            match &self.nodes[v].creator {
                Some(inputs) => {
                    let ghost ins = inputs@;
                    let ghost met0 = met;
                    assert(g[v as int].1 == Some(ins));
                    let mut t: usize = 0;
                    proof {
                        assert(ins.take(0) =~= Seq::<usize>::empty());
                    }
                    while t < inputs.len()
                        invariant
                            g == self@,
                            graph_wf(g),
                            n == g.len(),
                            output < n,
                            v < n,
                            inputs@ == ins,
                            g[v as int].1 == Some(ins),
                            t <= ins.len(),
                            order@.len() > 0,
                            order@.last() == v,
                            order@[0] == output,
                            forall|x: usize| #![trigger seen@.contains(x)] #![trigger (order@ + queue@).contains(x)] seen@.contains(x) <==> (order@ + queue@).contains(x),
                            forall|k: int| 0 <= k < (order@ + queue@).len() ==> (#[trigger] (order@ + queue@)[k]) < n,
                            (order@ + queue@).no_duplicates(),
                            order@.len() + queue@.len() <= n,
                            forall|a: int, b: int|
                                0 <= a < b < order@.len() ==> generation_of(g, #[trigger] order@[b] as int) <= generation_of(g, #[trigger] order@[a] as int),
                            forall|k: int| 0 <= k < queue@.len() ==> generation_of(g, #[trigger] queue@[k] as int) <= generation_of(g, order@.last() as int),
                            forall|u: int, x: int| #![trigger order@.contains(u as usize), feeds(g, u, x)] order@.contains(u as usize) && 0 <= u && feeds(g, u, x) && u != v as int ==> (order@ + queue@).contains(x as usize),
                            forall|k: int| 0 <= k < t ==> (order@ + queue@).contains(#[trigger] ins[k]),
                            forall|x: usize| #[trigger] (order@ + queue@).contains(x) ==> reachable(g, output, x),
                            2 * n - 2 * order@.len() - queue@.len() < 2 * n - 2 * o0.len() - q0.len(),
                            met0 == discovered(g, output, o0),
                            order@ == o0.push(v),
                            met == discover(ins.take(t as int), met0),
                            met.no_duplicates(),
                            forall|x: usize| #[trigger] (order@ + queue@).contains(x) <==> met.contains(x),
                            qpos.len() == queue@.len(),
                            forall|a: int| 0 <= a < qpos.len() ==> 0 <= #[trigger] qpos[a] < met.len() && met[qpos[a]] == queue@[a],
                            forall|a: int, b: int| 0 <= a < b < qpos.len() ==> #[trigger] qpos[a] < #[trigger] qpos[b],
                            forall|k: int| 0 <= k < order@.len() ==> #[trigger] picked_next(g, output, order@, k),
                        decreases ins.len() - t,
                    {
                        let x = inputs[t];
                        assert(g[v as int].1.unwrap() == ins);
                        assert(g[v as int].1.unwrap()[t as int] < v);
                        assert(generation_of(g, g[v as int].1.unwrap()[t as int] as int) < generation_of(g, v as int));
                        proof {
                            assert(ins.take(t as int + 1).drop_last() =~= ins.take(t as int));
                            assert(ins.take(t as int + 1).last() == x);
                            assert(discover(ins.take(t as int + 1), met0) == (if met.contains(x) {
                                met
                            } else {
                                met.push(x)
                            }));
                        }
                        proof {
                            assert(x < n);
                            assert(seen@.contains(x) <==> (order@ + queue@).contains(x));
                            assert((order@ + queue@).contains(x) <==> met.contains(x));
                        }
                        if !seen.contains(&x) {
                            let ghost s0 = order@ + queue@;
                            let ghost qpos1 = qpos;
                            let ghost met1 = met;
                            queue.push(x);
                            seen.insert(x);
                            proof {
                                met = met1.push(x);
                                qpos = qpos1.push(met1.len() as int);
                                assert(!met1.contains(x));
                                assert forall|a: int| 0 <= a < qpos.len() implies 0 <= #[trigger] qpos[a] < met.len() && met[qpos[a]] == queue@[a] by {
                                    if a < qpos1.len() {
                                        assert(qpos[a] == qpos1[a]);
                                        assert(met[qpos1[a]] == met1[qpos1[a]]);
                                    }
                                }
                                assert forall|a: int, b: int| 0 <= a < b < qpos.len() implies #[trigger] qpos[a] < #[trigger] qpos[b] by {
                                    if b < qpos1.len() {
                                        assert(qpos1[a] < qpos1[b]);
                                    } else {
                                        assert(qpos[a] == qpos1[a]);
                                    }
                                }
                                assert(met.no_duplicates()) by {
                                    assert forall|a: int, b: int| 0 <= a < b < met.len() implies met[a] != met[b] by {
                                        if b == met1.len() {
                                            assert(met1.contains(met[a]));
                                        }
                                    }
                                }
                                assert(order@ + queue@ =~= s0.push(x));
                                assert(!s0.contains(x));
                                assert forall|y: usize| #[trigger] (order@ + queue@).contains(y) <==> (s0.contains(y) || y == x) by {
                                    if (order@ + queue@).contains(y) {
                                        let k = choose|k: int| 0 <= k < (order@ + queue@).len() && (order@ + queue@)[k] == y;
                                        if k < s0.len() {
                                            assert(s0[k] == y);
                                        }
                                    }
                                    if s0.contains(y) {
                                        let k = choose|k: int| 0 <= k < s0.len() && s0[k] == y;
                                        assert((order@ + queue@)[k] == y);
                                    }
                                    if y == x {
                                        assert((order@ + queue@)[s0.len() as int] == y);
                                    }
                                }
                                assert((order@ + queue@).no_duplicates()) by {
                                    assert forall|a: int, b: int| 0 <= a < b < (order@ + queue@).len() implies (order@ + queue@)[a] != (order@ + queue@)[b] by {
                                        if b == s0.len() {
                                            assert(s0[a] == (order@ + queue@)[a]);
                                        } else {
                                            assert(s0[a] == (order@ + queue@)[a]);
                                            assert(s0[b] == (order@ + queue@)[b]);
                                        }
                                    }
                                }
                                lemma_unique_bounded_len(order@ + queue@, n);
                                // generation of the new queue entry is below v's
                                assert(generation_of(g, x as int) < generation_of(g, v as int));
                                assert forall|k: int| 0 <= k < queue@.len() implies generation_of(g, #[trigger] queue@[k] as int) <= generation_of(g, order@.last() as int) by {
                                    if k < queue@.len() - 1 {
                                        assert(queue@[k] == (queue@.drop_last())[k]);
                                    }
                                }
                                // x is reachable: extend a path to v by one step
                                assert(reachable(g, output, x)) by {
                                    assert((order@ + queue@).contains(v)) by {
                                        assert((order@ + queue@)[order@.len() - 1] == v);
                                    }
                                    assert(s0.contains(v));
                                    let p = choose|p: Seq<usize>| #[trigger] is_path(g, p) && p[0] == output && p.last() == v;
                                    let p2 = p.push(x);
                                    assert(feeds(g, v as int, x as int)) by {
                                        assert(ins[t as int] == x);
                                    }
                                    assert forall|k: int| 0 <= k < p2.len() - 1 implies #[trigger] feeds(g, p2[k] as int, p2[k + 1] as int) by {
                                        if k < p.len() - 1 {
                                            assert(feeds(g, p[k] as int, p[k + 1] as int));
                                        }
                                    }
                                    assert(is_path(g, p2));
                                }
                                assert forall|k: int| 0 <= k < (order@ + queue@).len() implies (#[trigger] (order@ + queue@)[k]) < n by {
                                    if k < s0.len() {
                                        assert(s0[k] == (order@ + queue@)[k]);
                                    }
                                }
                                assert forall|y: usize| #[trigger] (order@ + queue@).contains(y) <==> met.contains(y) by {
                                    if met.contains(y) && y != x {
                                        let k = choose|k: int| 0 <= k < met.len() && met[k] == y;
                                        assert(met1[k] == y);
                                        assert(met1.contains(y));
                                    }
                                    if met1.contains(y) {
                                        let k = choose|k: int| 0 <= k < met1.len() && met1[k] == y;
                                        assert(met[k] == y);
                                    }
                                    if y == x {
                                        assert(met[met1.len() as int] == y);
                                    }
                                }
                            }
                        }
                        t = t + 1;
                    }
                    proof {
                        assert(ins.take(ins.len() as int) =~= ins);
                        assert(order@.drop_last() =~= o0);
                        assert(creator_inputs(g, v as int) == ins);
                        assert(met == discovered(g, output, order@));
                        assert forall|u: int, x: int| #![trigger order@.contains(u as usize), feeds(g, u, x)] order@.contains(u as usize) && 0 <= u && feeds(g, u, x) implies (order@ + queue@).contains(x as usize) by {
                            if u == v as int {
                                let k = choose|k: int| 0 <= k < ins.len() && ins[k] == x as usize;
                            }
                        }
                    }
                },
                None => {
                    proof {
                        assert forall|u: int, x: int| #![trigger order@.contains(u as usize), feeds(g, u, x)] order@.contains(u as usize) && 0 <= u && feeds(g, u, x) implies (order@ + queue@).contains(x as usize) by {
                        }
                        assert(order@.drop_last() =~= o0);
                        assert(creator_inputs(g, v as int) =~= Seq::<usize>::empty());
                        assert(met == discovered(g, output, order@));
                    }
                },
            }
        }
        proof {
            assert(order@ + queue@ =~= order@);
            assert forall|v: usize| #[trigger] order@.contains(v) <==> (v < self@.len() && reachable(self@, output, v)) by {
                if v < self@.len() && reachable(self@, output, v) {
                    lemma_closed_contains_reachable(g, output, order@, v);
                }
                if order@.contains(v) {
                    let k = choose|k: int| 0 <= k < order@.len() && order@[k] == v;
                    assert((order@ + queue@)[k] == v);
                }
            }
        }
        order
    }
}

/// In an order that never raises the generation, a variable comes only after
/// every variable that sends it a gradient: when `order[j]` is an input of
/// the creator of `order[i]`, then `i < j`. So by the time a variable is
/// processed, all gradient contributions to it have been added.
pub proof fn lemma_consumers_first(g: Seq<NodeModel>, order: Seq<usize>, i: int, j: int)
    requires
        graph_wf(g),
        forall|k: int| 0 <= k < order.len() ==> (#[trigger] order[k]) < g.len(),
        forall|a: int, b: int|
            0 <= a < b < order.len() ==> generation_of(g, #[trigger] order[b] as int) <= generation_of(g, #[trigger] order[a] as int),
        0 <= i < order.len(),
        0 <= j < order.len(),
        feeds(g, order[i] as int, order[j] as int),
    ensures
        i < j,
{
    let u = order[i] as int;
    let v = order[j];
    let ins = g[u].1.unwrap();
    let k = choose|k: int| 0 <= k < ins.len() && ins[k] == v;
    assert(g[u].1 is Some);
    assert(ins[k] < u);
    assert(generation_of(g, ins[k] as int) < generation_of(g, u));
    if j <= i {
        if j < i {
            assert(generation_of(g, order[i] as int) <= generation_of(g, order[j] as int));
        }
    }
}

/// What reverse-mode differentiation from `output` does besides adding up
/// gradients: whether it first gives the output a gradient of ones, the
/// order in which it processes variables, and for each processed variable
/// whether its gradient is dropped once it has been passed on.
pub struct BackwardPlan {
    pub seed_output: bool,
    pub order: Vec<usize>,
    pub clear: Vec<bool>,
}

/// `order` is the order in which differentiation from `output` processes
/// variables: it starts at `output`, holds every variable upstream of it
/// once and nothing else, never raises the generation, and each variable is,
/// among those met and not yet processed, one of the largest generation and
/// among those the one met last.
pub open spec fn processing_order(g: Seq<NodeModel>, output: usize, order: Seq<usize>) -> bool {
    &&& order.len() > 0
    &&& order[0] == output
    &&& order.no_duplicates()
    &&& forall|v: usize| #[trigger] order.contains(v) <==> (v < g.len() && reachable(g, output, v))
    &&& forall|i: int, j: int|
        0 <= i < j < order.len() ==> generation_of(g, #[trigger] order[j] as int) <= generation_of(g, #[trigger] order[i] as int)
    &&& forall|k: int| 0 <= k < order.len() ==> #[trigger] picked_next(g, output, order, k)
}

impl Graph {
    /// The bookkeeping of differentiating from `output`: the output is seeded
    /// with ones when it has no gradient yet; the variables are processed in
    /// `backward_order`; unless `retain_grad` is set, every processed variable
    /// that a function produced drops its gradient after passing it on, while
    /// variables no function produced keep theirs.
    pub fn backward_plan(&self, output: usize, output_has_grad: bool, retain_grad: bool) -> (p: BackwardPlan)
        requires
            graph_wf(self@),
            output < self@.len(),
        ensures
            p.seed_output == !output_has_grad,
            processing_order(self@, output, p.order@),
            p.clear@.len() == p.order@.len(),
            forall|k: int| 0 <= k < p.clear@.len() ==> #[trigger] p.clear@[k] == (!retain_grad && self@[p.order@[k] as int].1 is Some),
    {
        let order = self.backward_order(output);
        proof {
            assert forall|i: int| 0 <= i < order@.len() implies (#[trigger] order@[i]) < self@.len() by {
                assert(order@.contains(order@[i]));
            }
        }
        let mut clear: Vec<bool> = Vec::new();
        let mut k: usize = 0;
        while k < order.len()
            invariant
                k <= order@.len(),
                clear@.len() == k,
                forall|i: int| 0 <= i < order@.len() ==> (#[trigger] order@[i]) < self@.len(),
                forall|i: int| 0 <= i < k ==> #[trigger] clear@[i] == (!retain_grad && self@[order@[i] as int].1 is Some),
            decreases order@.len() - k,
        {
            let c = !retain_grad && self.has_creator(order[k]);
            clear.push(c);
            k = k + 1;
        }
        BackwardPlan { seed_output: !output_has_grad, order, clear }
    }
}

/// Dropping a gradient is safe: once a processed variable has dropped its
/// gradient, no variable processed after it sends it any more gradient.
pub proof fn lemma_cleared_gradients_stay_final(g: Seq<NodeModel>, output: usize, order: Seq<usize>, k: int, m: int)
    requires
        graph_wf(g),
        processing_order(g, output, order),
        0 <= k < m < order.len(),
    ensures
        !feeds(g, order[m] as int, order[k] as int),
{
    assert forall|i: int| 0 <= i < order.len() implies (#[trigger] order[i]) < g.len() by {
        assert(order.contains(order[i]));
    }
    if feeds(g, order[m] as int, order[k] as int) {
        lemma_consumers_first(g, order, m, k);
    }
}

} // verus!
