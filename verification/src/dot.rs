use vstd::prelude::*;

use vstd::string::StringExecFns;

use std::collections::HashSet;

use crate::graph::{creator_inputs, graph_wf, Graph, NodeModel};

verus! {

broadcast use vstd::std_specs::hash::group_hash_axioms;

/// The character of decimal digit `d`.
pub open spec fn digit_char(d: int) -> char {
    if d == 0 {
        '0'
    } else if d == 1 {
        '1'
    } else if d == 2 {
        '2'
    } else if d == 3 {
        '3'
    } else if d == 4 {
        '4'
    } else if d == 5 {
        '5'
    } else if d == 6 {
        '6'
    } else if d == 7 {
        '7'
    } else if d == 8 {
        '8'
    } else {
        '9'
    }
}

/// The decimal numeral of `n`, without leading zeros.
pub open spec fn decimal(n: nat) -> Seq<char>
    decreases n,
{
    if n < 10 {
        seq![digit_char(n as int)]
    } else {
        decimal(n / 10).push(digit_char((n % 10) as int))
    }
}

/// The value of a string of decimal digits, read most significant first.
pub open spec fn digits_value(s: Seq<char>) -> int
    decreases s.len(),
{
    if s.len() == 0 {
        0
    } else {
        digits_value(s.drop_last()) * 10 + (s.last() as int - '0' as int)
    }
}

/// The numeral of `n` is a string of decimal digits that reads back as `n`,
/// and it starts with a zero only when it is `0` itself.
pub proof fn lemma_decimal_reads_back(n: nat)
    ensures
        decimal(n).len() >= 1,
        forall|i: int| 0 <= i < decimal(n).len() ==> '0' <= #[trigger] decimal(n)[i] <= '9',
        digits_value(decimal(n)) == n,
        decimal(n)[0] == '0' ==> n == 0,
    decreases n,
{
    if n < 10 {
        assert(decimal(n).drop_last() =~= Seq::<char>::empty());
        assert(digit_char(n as int) as int - '0' as int == n);
        assert(digits_value(decimal(n)) == digits_value(Seq::<char>::empty()) * 10 + (digit_char(n as int) as int - '0' as int));
    } else {
        lemma_decimal_reads_back(n / 10);
        let d = n % 10;
        assert(decimal(n).drop_last() =~= decimal(n / 10));
        assert(digit_char(d as int) as int - '0' as int == d);
        assert(digits_value(decimal(n)) == digits_value(decimal(n / 10)) * 10 + d);
        assert(n == (n / 10) * 10 + d);
        assert forall|i: int| 0 <= i < decimal(n).len() implies '0' <= #[trigger] decimal(n)[i] <= '9' by {
            if i < decimal(n).len() - 1 {
                assert(decimal(n)[i] == decimal(n / 10)[i]);
            }
        }
    }
}

fn digit_str(d: usize) -> (s: &'static str)
    requires
        d < 10,
    ensures
        s@ == seq![digit_char(d as int)],
{
    if d == 0 {
        proof {
            reveal_strlit("0");
        }
        "0"
    } else if d == 1 {
        proof {
            reveal_strlit("1");
        }
        "1"
    } else if d == 2 {
        proof {
            reveal_strlit("2");
        }
        "2"
    } else if d == 3 {
        proof {
            reveal_strlit("3");
        }
        "3"
    } else if d == 4 {
        proof {
            reveal_strlit("4");
        }
        "4"
    } else if d == 5 {
        proof {
            reveal_strlit("5");
        }
        "5"
    } else if d == 6 {
        proof {
            reveal_strlit("6");
        }
        "6"
    } else if d == 7 {
        proof {
            reveal_strlit("7");
        }
        "7"
    } else if d == 8 {
        proof {
            reveal_strlit("8");
        }
        "8"
    } else {
        proof {
            reveal_strlit("9");
        }
        "9"
    }
}

/// Appends the decimal numeral of `n` to `s`.
pub fn push_decimal(s: &mut String, n: usize)
    ensures
        final(s)@ == old(s)@ + decimal(n as nat),
    decreases n,
{
    if n >= 10 {
        push_decimal(s, n / 10);
    }
    s.append(digit_str(n % 10));
    proof {
        if n < 10 {
            assert(n % 10 == n);
        }
    }
}

/// The text after the numeral in the DOT line of a function node.
pub open spec fn func_suffix() -> Seq<char> {
    "\", color=lightblue, style=filled, shape=box]\n"@
}

/// The text after the numeral in the DOT line of a variable node.
pub open spec fn var_suffix() -> Seq<char> {
    "\", color=orange, style=filled]\n"@
}

/// The DOT line of a function node: the node `func_id`, labelled `label`,
/// drawn as a light blue box.
pub fn dot_func(func_id: usize, label: &str) -> (s: String)
    ensures
        s@ == decimal(func_id as nat) + " [label=\""@ + label@ + func_suffix(),
{
    let mut s = String::new();
    push_decimal(&mut s, func_id);
    s.append(" [label=\"");
    s.append(label);
    s.append("\", color=lightblue, style=filled, shape=box]\n");
    assert(s@ =~= decimal(func_id as nat) + " [label=\""@ + label@ + func_suffix());
    s
}

/// `(d1, d2, …)`, the dimensions separated by `", "`; `()` for none.
pub open spec fn shape_text(shape: Seq<usize>) -> Seq<char> {
    "("@ + joined_dims(shape, shape.len() as int) + ")"@
}

/// The first `k` dimensions, separated by `", "`.
pub open spec fn joined_dims(shape: Seq<usize>, k: int) -> Seq<char>
    decreases k,
{
    if k <= 0 {
        Seq::empty()
    } else if k == 1 {
        decimal(shape[0] as nat)
    } else {
        joined_dims(shape, k - 1) + ", "@ + decimal(shape[k - 1] as nat)
    }
}

/// The dimensions of a shape written out and separated: the first as its
/// numeral, every later one as `", "` followed by its numeral.
pub open spec fn listed_dims(shape: Seq<usize>, k: int) -> Seq<Seq<char>> {
    Seq::new(
        k as nat,
        |i: int|
            if i == 0 {
                decimal(shape[0] as nat)
            } else {
                ", "@ + decimal(shape[i] as nat)
            },
    )
}

/// The first `k` dimensions of a shape in text are their decimal numerals
/// in order, joined by `", "`: the pieces of `listed_dims` laid end to end.
pub proof fn lemma_joined_dims_lists_numerals(shape: Seq<usize>, k: int)
    requires
        0 <= k <= shape.len(),
    ensures
        joined_dims(shape, k) == listed_dims(shape, k).flatten(),
    decreases k,
{
    let l = listed_dims(shape, k);
    l.lemma_flatten_and_flatten_alt_are_equivalent();
    if k == 0 {
        assert(l =~= Seq::<Seq<char>>::empty());
    } else {
        lemma_joined_dims_lists_numerals(shape, k - 1);
        let p = listed_dims(shape, k - 1);
        p.lemma_flatten_and_flatten_alt_are_equivalent();
        assert(l.drop_last() =~= p);
        if k == 1 {
            assert(p =~= Seq::<Seq<char>>::empty());
            assert(joined_dims(shape, 0) =~= Seq::<char>::empty());
            assert(l.flatten_alt() =~= decimal(shape[0] as nat));
        } else {
            assert(l.flatten_alt() =~= p.flatten_alt() + (", "@ + decimal(shape[k - 1] as nat)));
            assert(joined_dims(shape, k) =~= joined_dims(shape, k - 1) + (", "@ + decimal(shape[k - 1] as nat)));
        }
    }
}

/// The label of a variable node: its name, followed in verbose mode by a
/// space and its shape.
pub open spec fn var_label(name: Seq<char>, shape: Seq<usize>, verbose: bool) -> Seq<char> {
    if verbose {
        name + " "@ + shape_text(shape)
    } else {
        name
    }
}

/// The DOT line of a variable node: the node `id`, labelled by `name` (and,
/// in verbose mode, its shape), drawn in orange.
pub fn dot_var(id: usize, name: &str, shape: &Vec<usize>, verbose: bool) -> (s: String)
    ensures
        s@ == decimal(id as nat) + " [label=\""@ + var_label(name@, shape@, verbose) + var_suffix(),
{
    let mut s = String::new();
    push_decimal(&mut s, id);
    s.append(" [label=\"");
    s.append(name);
    if verbose {
        s.append(" ");
        s.append("(");
        let mut k: usize = 0;
        while k < shape.len()
            invariant
                k <= shape@.len(),
                s@ == decimal(id as nat) + " [label=\""@ + name@ + " "@ + "("@ + joined_dims(shape@, k as int),
            decreases shape@.len() - k,
        {
            if k > 0 {
                s.append(", ");
            }
            push_decimal(&mut s, shape[k]);
            k = k + 1;
        }
        s.append(")");
        assert(s@ =~= decimal(id as nat) + " [label=\""@ + var_label(name@, shape@, verbose));
    }
    s.append("\", color=orange, style=filled]\n");
    assert(s@ =~= decimal(id as nat) + " [label=\""@ + var_label(name@, shape@, verbose) + var_suffix());
    s
}


/// The DOT line of an edge from node `a` to node `b`.
pub open spec fn edge_line(a: nat, b: nat) -> Seq<char> {
    decimal(a) + " -> "@ + decimal(b) + "\n"@
}

/// The DOT line of every variable, indexed by variable.
pub open spec fn var_lines(names: Seq<String>, shapes: Seq<Vec<usize>>, verbose: bool) -> Seq<Seq<char>> {
    Seq::new(
        names.len(),
        |x: int| decimal(x as nat) + " [label=\""@ + var_label(names[x]@, shapes[x]@, verbose) + var_suffix(),
    )
}

/// The state of the walk that draws a graph: the stack of variables still to
/// visit, which variables have been met, and the text written so far.
pub type DotState = (Seq<usize>, Set<usize>, Seq<char>);

/// Meeting the first `k` inputs of the function drawn as node `fid`: an input
/// met for the first time is drawn, marked and stacked; every input gets an
/// edge into the function.
pub open spec fn dot_inputs(ins: Seq<usize>, k: int, fid: nat, vlines: Seq<Seq<char>>, st: DotState) -> DotState
    decreases k,
{
    if k <= 0 {
        st
    } else {
        let s = dot_inputs(ins, k - 1, fid, vlines, st);
        let x = ins[k - 1];
        if s.1.contains(x) {
            (s.0, s.1, s.2 + edge_line(x as nat, fid))
        } else {
            (s.0.push(x), s.1.insert(x), s.2 + vlines[x as int] + edge_line(x as nat, fid))
        }
    }
}

/// One step of the walk: the variable on top of the stack is taken off; when
/// a function produced it, the function (node `n + v` for variable `v` of a
/// graph of `n` variables, labelled `flabels[v]`) is drawn with its edge to
/// the variable, and then its inputs are met. An empty stack stays as it is.
pub open spec fn dot_step(g: Seq<NodeModel>, vlines: Seq<Seq<char>>, flabels: Seq<String>, st: DotState) -> DotState {
    if st.0.len() == 0 {
        st
    } else {
        let v = st.0.last();
        let stack = st.0.drop_last();
        match g[v as int].1 {
            None => (stack, st.1, st.2),
            Some(ins) => {
                let fid = (g.len() + v) as nat;
                dot_inputs(
                    ins,
                    ins.len() as int,
                    fid,
                    vlines,
                    (stack, st.1, st.2 + decimal(fid) + " [label=\""@ + flabels[v as int]@ + func_suffix() + edge_line(fid, v as nat)),
                )
            }
        }
    }
}

/// The walk after `k` steps.
pub open spec fn dot_walk(g: Seq<NodeModel>, vlines: Seq<Seq<char>>, flabels: Seq<String>, st: DotState, k: nat) -> DotState
    decreases k,
{
    if k == 0 {
        st
    } else {
        dot_step(g, vlines, flabels, dot_walk(g, vlines, flabels, st, (k - 1) as nat))
    }
}

/// The walk's start from `output`: only the output is stacked and met, and
/// the text holds the graph's header and the output's line.
pub open spec fn dot_start(n: nat, output: usize, vlines: Seq<Seq<char>>) -> DotState {
    (seq![output], set![output], "digraph g {\n"@ + vlines[output as int])
}

/// Once the stack is empty the walk stays where it is, so the text at the
/// first empty stack is the text at every later one.
pub proof fn lemma_dot_walk_rests(
    g: Seq<NodeModel>,
    vlines: Seq<Seq<char>>,
    flabels: Seq<String>,
    st: DotState,
    k: nat,
    j: nat,
)
    requires
        dot_walk(g, vlines, flabels, st, k).0.len() == 0,
        k <= j,
    ensures
        dot_walk(g, vlines, flabels, st, j) == dot_walk(g, vlines, flabels, st, k),
    decreases j,
{
    if j > k {
        lemma_dot_walk_rests(g, vlines, flabels, st, k, (j - 1) as nat);
    }
}

/// A set of variables of a graph of `n` variables holds at most `n`.
proof fn lemma_variable_set_bound(seen: Set<usize>, n: usize)
    requires
        forall|x: usize| #[trigger] seen.contains(x) ==> x < n,
    ensures
        seen.finite(),
        seen.len() <= n,
{
    let all = Set::<usize>::range(0, n);
    <usize as vstd::set_lib::FiniteRange>::range_properties(0, n);
    assert(seen.subset_of(all));
    vstd::set_lib::lemma_len_subset(seen, all);
}

/// The Graphviz text of the computational graph upstream of `output`.
///
/// The walk starts from the output and repeatedly takes the variable on top
/// of its stack; for a variable that a function produced it draws the
/// function (node `n + v` for variable `v`, `n` the number of variables,
/// labelled `labels[v]`) and the edge to the variable, then, input by input,
/// draws an input met for the first time and stacks it, and adds the edge
/// from the input to the function. Variable `x` is node `x`, drawn by
/// `dot_var` with `names[x]` and `shapes[x]`. A function has one output, so
/// each is drawn once, when its output is visited.
pub fn get_dot_graph(
    graph: &Graph,
    output: usize,
    names: &Vec<String>,
    shapes: &Vec<Vec<usize>>,
    labels: &Vec<String>,
    verbose: bool,
) -> (s: String)
    requires
        graph_wf(graph@),
        output < graph@.len(),
        graph@.len() + graph@.len() <= usize::MAX,
        names@.len() == graph@.len(),
        shapes@.len() == graph@.len(),
        labels@.len() == graph@.len(),
    ensures
        exists|k: nat|
            {
                let st = #[trigger] dot_walk(
                    graph@,
                    var_lines(names@, shapes@, verbose),
                    labels@,
                    dot_start(graph@.len(), output, var_lines(names@, shapes@, verbose)),
                    k,
                );
                st.0.len() == 0 && s@ == st.2 + "}\n"@
            },
{
    let ghost g = graph@;
    let ghost vlines = var_lines(names@, shapes@, verbose);
    let ghost start = dot_start(g.len(), output, vlines);
    let n = graph.len();
    let mut seen: HashSet<usize> = HashSet::new();
    seen.insert(output);
    let mut txt = String::new();
    txt.append("digraph g {\n");
    let line = dot_var(output, names[output].as_str(), &shapes[output], verbose);
    txt.append(line.as_str());
    let mut stack: Vec<usize> = Vec::new();
    stack.push(output);
    let ghost mut steps: nat = 0;
    let ghost mut cnt: nat = 1;
    proof {
        assert(seen@ =~= start.1);
        assert(seen@ =~= Set::<usize>::empty().insert(output));
        assert(stack@ =~= start.0);
        assert(txt@ =~= start.2);
    }
    while stack.len() > 0
        invariant
            g == graph@,
            graph_wf(g),
            n == g.len(),
            n + n <= usize::MAX,
            output < n,
            names@.len() == n,
            shapes@.len() == n,
            labels@.len() == n,
            vlines == var_lines(names@, shapes@, verbose),
            start == dot_start(g.len(), output, vlines),
            forall|x: usize| #[trigger] seen@.contains(x) ==> x < n,
            forall|k: int| 0 <= k < stack@.len() ==> (#[trigger] stack@[k]) < n,
            dot_walk(g, vlines, labels@, start, steps).0 == stack@,
            dot_walk(g, vlines, labels@, start, steps).1 == seen@,
            dot_walk(g, vlines, labels@, start, steps).2 == txt@,
            cnt == seen@.len(),
        decreases 2 * (n - cnt) + stack@.len(),
    {
        proof {
            lemma_variable_set_bound(seen@, n);
        }
        let ghost before = dot_walk(g, vlines, labels@, start, steps);
        let ghost measure0 = 2 * (n - cnt) + stack@.len();
        let v = stack.pop().unwrap();
        proof {
            assert(stack@ =~= before.0.drop_last());
        }
        if graph.has_creator(v) {
            let fid = n + v;
            let fline = dot_func(fid, labels[v].as_str());
            txt.append(fline.as_str());
            push_decimal(&mut txt, fid);
            txt.append(" -> ");
            push_decimal(&mut txt, v);
            txt.append("\n");
            let ghost ins = creator_inputs(g, v as int);
            let ghost st0: DotState = (stack@, seen@, txt@);
            proof {
                assert(txt@ =~= before.2 + decimal(fid as nat) + " [label=\""@ + labels@[v as int]@ + func_suffix() + edge_line(fid as nat, v as nat));
            }
            let m = graph.input_count(v);
            let mut k: usize = 0;
            while k < m
                invariant
                    g == graph@,
                    graph_wf(g),
                    n == g.len(),
                    v < n,
                    fid == n + v,
                    m == ins.len(),
                    ins == creator_inputs(g, v as int),
                    g[v as int].1 is Some,
                    k <= m,
                    names@.len() == n,
                    shapes@.len() == n,
                    vlines == var_lines(names@, shapes@, verbose),
                    forall|y: usize| #[trigger] seen@.contains(y) ==> y < n,
                    forall|j: int| 0 <= j < stack@.len() ==> (#[trigger] stack@[j]) < n,
                    dot_inputs(ins, k as int, fid as nat, vlines, st0).0 == stack@,
                    dot_inputs(ins, k as int, fid as nat, vlines, st0).1 == seen@,
                    dot_inputs(ins, k as int, fid as nat, vlines, st0).2 == txt@,
                    cnt == seen@.len(),
                    cnt <= n,
                    2 * (n - cnt) + stack@.len() < measure0,
                decreases m - k,
            {
                let x = graph.input(v, k);
                proof {
                    assert(g[v as int].1.unwrap()[k as int] == x);
                    assert(x < v);
                }
                let ghost s0 = (stack@, seen@, txt@);
                if seen.contains(&x) {
                    push_decimal(&mut txt, x);
                    txt.append(" -> ");
                    push_decimal(&mut txt, fid);
                    txt.append("\n");
                    proof {
                        assert(txt@ =~= s0.2 + edge_line(x as nat, fid as nat));
                    }
                } else {
                    proof {
                        lemma_variable_set_bound(seen@, n);
                        lemma_variable_set_bound(seen@.insert(x), n);
                        cnt = cnt + 1;
                    }
                    seen.insert(x);
                    let xline = dot_var(x, names[x].as_str(), &shapes[x], verbose);
                    txt.append(xline.as_str());
                    push_decimal(&mut txt, x);
                    txt.append(" -> ");
                    push_decimal(&mut txt, fid);
                    txt.append("\n");
                    stack.push(x);
                    proof {
                        assert(xline@ == vlines[x as int]);
                        assert(txt@ =~= s0.2 + vlines[x as int] + edge_line(x as nat, fid as nat));
                    }
                }
                k = k + 1;
            }
        }
        proof {
            steps = steps + 1;
        }
    }
    txt.append("}\n");
    txt
}

} // verus!
