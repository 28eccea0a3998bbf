//! Orders the nodes of a scene graph so that every node comes after the
//! node it hangs from.
use vstd::prelude::*;

use crate::arena::ArenaId;
use crate::types::NodeParent;

verus! {

/// The slot numbers of a list of handles.
pub open spec fn slots_of<N>(s: Seq<ArenaId<N>>) -> Seq<usize> {
    s.map_values(|i: ArenaId<N>| i@)
}

/// The slot numbers of the nodes listed in `nodes`.
pub open spec fn node_slots<N>(nodes: Seq<(ArenaId<N>, NodeParent<N>)>) -> Seq<usize> {
    nodes.map_values(|e: (ArenaId<N>, NodeParent<N>)| e.0@)
}

/// A node hanging from a scene or from nothing starts a tree.
pub open spec fn is_root<N>(p: NodeParent<N>) -> bool {
    p is Scene || p is Orphan
}

/// The node hangs from node `x`.
pub open spec fn hangs_from<N>(p: NodeParent<N>, x: usize) -> bool {
    p matches NodeParent::Node(q) && q@ == x
}

/// No node is listed twice.
pub open spec fn distinct_nodes<N>(nodes: Seq<(ArenaId<N>, NodeParent<N>)>) -> bool {
    forall|a: int, b: int| 0 <= a < b < nodes.len() ==> (#[trigger] nodes[a]).0@ != (#[trigger] nodes[b]).0@
}

/// `out` lists each node reachable from a tree start exactly once, and
/// every node after the node it hangs from.
pub open spec fn topo_sorted<N>(nodes: Seq<(ArenaId<N>, NodeParent<N>)>, out: Seq<usize>) -> bool {
    &&& out.no_duplicates()
    &&& forall|k: int| 0 <= k < out.len() ==> node_slots(nodes).contains(#[trigger] out[k])
    &&& forall|k: int, j: int|
        0 <= k < out.len() && 0 <= j < nodes.len() && (#[trigger] nodes[j]).0@ == #[trigger] out[k]
            && nodes[j].1 is Node ==> exists|k2: int| 0 <= k2 < k && out[k2] == nodes[j].1->Node_0@
    &&& forall|j: int| 0 <= j < nodes.len() && is_root((#[trigger] nodes[j]).1) ==> out.contains(nodes[j].0@)
    &&& forall|j: int|
        0 <= j < nodes.len() && (#[trigger] nodes[j]).1 is Node && out.contains(nodes[j].1->Node_0@)
            ==> out.contains(nodes[j].0@)
}

/// The tree starts among the first `j` nodes, in listing order.
pub open spec fn roots_of<N>(nodes: Seq<(ArenaId<N>, NodeParent<N>)>, j: int) -> Seq<usize>
    decreases j,
{
    if j <= 0 {
        Seq::empty()
    } else if is_root(nodes[j - 1].1) {
        roots_of(nodes, j - 1).push(nodes[j - 1].0@)
    } else {
        roots_of(nodes, j - 1)
    }
}

/// The nodes among the first `j` that hang from `x`, in listing order.
pub open spec fn children_of<N>(nodes: Seq<(ArenaId<N>, NodeParent<N>)>, x: usize, j: int) -> Seq<usize>
    decreases j,
{
    if j <= 0 {
        Seq::empty()
    } else if hangs_from(nodes[j - 1].1, x) {
        children_of(nodes, x, j - 1).push(nodes[j - 1].0@)
    } else {
        children_of(nodes, x, j - 1)
    }
}

/// A depth-first walk with a stack, for at most `steps` steps: the node on
/// top of the stack is output and replaced by its children in listing
/// order, so the last listed child is visited first.
pub open spec fn dfs_walk<N>(nodes: Seq<(ArenaId<N>, NodeParent<N>)>, stack: Seq<usize>, steps: nat) -> Seq<usize>
    decreases steps,
{
    if steps == 0 || stack.len() == 0 {
        Seq::empty()
    } else {
        let x = stack.last();
        seq![x] + dfs_walk(nodes, stack.drop_last() + children_of(nodes, x, nodes.len() as int), (steps - 1) as nat)
    }
}

/// The children found among the first `j` nodes are listed there.
pub(crate) proof fn lemma_children_of<N>(nodes: Seq<(ArenaId<N>, NodeParent<N>)>, x: usize, j: int)
    requires
        0 <= j <= nodes.len(),
    ensures
        forall|k: int|
            0 <= k < children_of(nodes, x, j).len() ==> exists|j2: int|
                0 <= j2 < j && nodes[j2].0@ == #[trigger] children_of(nodes, x, j)[k] && hangs_from(
                    nodes[j2].1,
                    x,
                ),
    decreases j,
{
    if j > 0 {
        lemma_children_of(nodes, x, j - 1);
        let prev = children_of(nodes, x, j - 1);
        let cur = children_of(nodes, x, j);
        assert forall|k: int| 0 <= k < cur.len() implies exists|j2: int|
            0 <= j2 < j && nodes[j2].0@ == #[trigger] cur[k] && hangs_from(nodes[j2].1, x) by {
            if k < prev.len() {
                assert(cur[k] == prev[k]);
                let j2 = choose|j2: int|
                    0 <= j2 < j - 1 && nodes[j2].0@ == prev[k] && hangs_from(nodes[j2].1, x);
                assert(0 <= j2 < j);
            } else {
                assert(cur.len() != prev.len());
                assert(hangs_from(nodes[j - 1].1, x));
                assert(cur[k] == nodes[j - 1].0@);
                assert(0 <= j - 1 < j && nodes[j - 1].0@ == cur[k] && hangs_from(nodes[j - 1].1, x));
            }
        }
    }
}

/// The tree starts found among the first `j` nodes are listed there.
proof fn lemma_roots_of<N>(nodes: Seq<(ArenaId<N>, NodeParent<N>)>, j: int)
    requires
        0 <= j <= nodes.len(),
    ensures
        forall|k: int|
            0 <= k < roots_of(nodes, j).len() ==> exists|j2: int|
                0 <= j2 < j && nodes[j2].0@ == #[trigger] roots_of(nodes, j)[k] && is_root(nodes[j2].1),
    decreases j,
{
    if j > 0 {
        lemma_roots_of(nodes, j - 1);
        let prev = roots_of(nodes, j - 1);
        let cur = roots_of(nodes, j);
        assert forall|k: int| 0 <= k < cur.len() implies exists|j2: int|
            0 <= j2 < j && nodes[j2].0@ == #[trigger] cur[k] && is_root(nodes[j2].1) by {
            if k < prev.len() {
                assert(cur[k] == prev[k]);
                let j2 = choose|j2: int| 0 <= j2 < j - 1 && nodes[j2].0@ == prev[k] && is_root(nodes[j2].1);
                assert(0 <= j2 < j);
            } else {
                assert(cur.len() != prev.len());
                assert(is_root(nodes[j - 1].1));
                assert(cur[k] == nodes[j - 1].0@);
                assert(0 <= j - 1 < j && nodes[j - 1].0@ == cur[k] && is_root(nodes[j - 1].1));
            }
        }
    }
}

/// A list without repeats drawn from `universe` is no longer than it.
pub(crate) proof fn lemma_distinct_within(s: Seq<usize>, universe: Seq<usize>)
    requires
        s.no_duplicates(),
        forall|k: int| 0 <= k < s.len() ==> universe.contains(#[trigger] s[k]),
    ensures
        s.len() <= universe.len(),
{
    s.unique_seq_to_set();
    universe.lemma_cardinality_of_set();
    assert(s.to_set().subset_of(universe.to_set())) by {
        assert forall|e: usize| s.to_set().contains(e) implies universe.to_set().contains(e) by {
            let k = choose|k: int| 0 <= k < s.len() && s[k] == e;
            assert(universe.contains(s[k]));
        }
    }
    vstd::set_lib::lemma_len_subset(s.to_set(), universe.to_set());
}

/// Moving the last element of the second list to the end of the first
/// keeps both the absence of repeats and the listed elements.
proof fn lemma_move_last(a: Seq<usize>, b: Seq<usize>, x: usize)
    requires
        (a + b.push(x)).no_duplicates(),
    ensures
        (a.push(x) + b).no_duplicates(),
        forall|e: usize| (a.push(x) + b).contains(e) <==> (a + b.push(x)).contains(e),
{
    let p = a + b.push(x);
    let q = a.push(x) + b;
    let f = |i: int| if i < a.len() { i } else if i == a.len() { p.len() - 1 } else { i - 1 };
    assert forall|i: int| 0 <= i < q.len() implies #[trigger] q[i] == p[f(i)] by {}
    assert forall|i: int, j: int| 0 <= i < j < q.len() implies q[i] != q[j] by {
        assert(q[i] == p[f(i)] && q[j] == p[f(j)]);
        assert(f(i) != f(j));
    }
    assert forall|e: usize| q.contains(e) <==> p.contains(e) by {
        if q.contains(e) {
            let i = choose|i: int| 0 <= i < q.len() && q[i] == e;
            assert(p[f(i)] == e);
        }
        if p.contains(e) {
            let i = choose|i: int| 0 <= i < p.len() && p[i] == e;
            let g = if i < a.len() { i } else if i == p.len() - 1 { a.len() as int } else { i + 1 };
            assert(q[g] == e);
        }
    }
}

/// Appends to `sorted_nodes` the nodes of `nodes` that hang, directly or
/// not, from a scene or from nothing, each after the node it hangs from.
/// `nodes` lists each node once, with what it hangs from, in slot order.
/// The walk is depth first: tree starts are taken last listed first, and
/// the children of a node likewise.
pub fn topo_sort_nodes<N>(
    nodes: &Vec<(ArenaId<N>, NodeParent<N>)>,
    sorted_nodes: &mut Vec<ArenaId<N>>,
)
    requires
        distinct_nodes(nodes@),
    ensures
        final(sorted_nodes)@.len() >= old(sorted_nodes)@.len(),
        final(sorted_nodes)@.subrange(0, old(sorted_nodes)@.len() as int) == old(sorted_nodes)@,
        topo_sorted(
            nodes@,
            slots_of(final(sorted_nodes)@.subrange(old(sorted_nodes)@.len() as int, final(sorted_nodes)@.len() as int)),
        ),
        slots_of(final(sorted_nodes)@.subrange(old(sorted_nodes)@.len() as int, final(sorted_nodes)@.len() as int))
            == dfs_walk(nodes@, roots_of(nodes@, nodes@.len() as int), nodes@.len()),
{
    let n = nodes.len();
    let ghost ns = nodes@;
    let ghost u = node_slots(ns);
    let mut stack: Vec<ArenaId<N>> = Vec::new();
    let mut j: usize = 0;
    while j < n
        invariant
            n == ns.len(),
            ns == nodes@,
            u == node_slots(ns),
            distinct_nodes(ns),
            0 <= j <= n,
            slots_of(stack@).no_duplicates(),
            forall|j2: int| 0 <= j2 < j && is_root((#[trigger] ns[j2]).1) ==> slots_of(stack@).contains(ns[j2].0@),
            slots_of(stack@) == roots_of(ns, j as int),
        decreases n - j,
    {
        let ghost before = stack@;
        match &nodes[j].1 {
            NodeParent::Node(_) => {},
            _ => {
                proof {
                    lemma_roots_of(ns, j as int);
                    assert forall|t: int| 0 <= t < before.len() implies before[t]@ != ns[j as int].0@ by {
                        assert(slots_of(before)[t] == roots_of(ns, j as int)[t]);
                        let j2 = choose|j2: int|
                            0 <= j2 < j && ns[j2].0@ == roots_of(ns, j as int)[t] && is_root(ns[j2].1);
                        assert(ns[j2].0@ != ns[j as int].0@);
                    }
                }
                stack.push(nodes[j].0);
                proof {
                    assert(slots_of(stack@) =~= slots_of(before).push(ns[j as int].0@));
                    assert(roots_of(ns, j + 1) == roots_of(ns, j as int).push(ns[j as int].0@));
                    assert(slots_of(stack@)[before.len() as int] == ns[j as int].0@);
                    assert forall|j2: int| 0 <= j2 <= j && is_root((#[trigger] ns[j2]).1) implies slots_of(
                        stack@,
                    ).contains(ns[j2].0@) by {
                        if j2 < j {
                            let t = choose|t: int| 0 <= t < before.len() && slots_of(before)[t] == ns[j2].0@;
                            assert(slots_of(stack@)[t] == ns[j2].0@);
                        }
                    }
                }
            },
        }
        j = j + 1;
    }
    let ghost old_sorted = sorted_nodes@;
    let ghost total = dfs_walk(ns, roots_of(ns, n as int), n as nat);
    let ghost mut outv: Seq<ArenaId<N>> = Seq::empty();
    proof {
        assert(sorted_nodes@ =~= old_sorted + outv);
        assert(slots_of(outv) + slots_of(stack@) =~= slots_of(stack@));
        assert(slots_of(outv) + dfs_walk(ns, slots_of(stack@), n as nat) =~= dfs_walk(ns, slots_of(stack@), n as nat));
        lemma_roots_of(ns, n as int);
        assert forall|e: usize| (slots_of(outv) + slots_of(stack@)).contains(e) implies u.contains(e) by {
            let t = choose|t: int| 0 <= t < stack@.len() && slots_of(stack@)[t] == e;
            assert(slots_of(stack@)[t] == roots_of(ns, n as int)[t]);
            let j2 = choose|j2: int| 0 <= j2 < n && ns[j2].0@ == roots_of(ns, n as int)[t] && is_root(ns[j2].1);
            assert(u[j2] == e);
        }
        assert forall|t: int, j2: int|
            0 <= t < stack@.len() && 0 <= j2 < n && (#[trigger] ns[j2]).0@ == #[trigger] stack@[t]@
                && ns[j2].1 is Node implies slots_of(outv).contains(ns[j2].1->Node_0@) by {
            assert(slots_of(stack@)[t] == roots_of(ns, n as int)[t]);
            let j3 = choose|j3: int| 0 <= j3 < n && ns[j3].0@ == roots_of(ns, n as int)[t] && is_root(ns[j3].1);
            if j3 < j2 {
                assert(ns[j3].0@ != ns[j2].0@);
            } else if j2 < j3 {
                assert(ns[j2].0@ != ns[j3].0@);
            }
        }
    }
    while stack.len() > 0
        invariant
            n == ns.len(),
            ns == nodes@,
            u == node_slots(ns),
            distinct_nodes(ns),
            sorted_nodes@ == old_sorted + outv,
            (slots_of(outv) + slots_of(stack@)).no_duplicates(),
            forall|e: usize| (slots_of(outv) + slots_of(stack@)).contains(e) ==> u.contains(e),
            forall|t: int, j2: int|
                0 <= t < stack@.len() && 0 <= j2 < n && (#[trigger] ns[j2]).0@ == #[trigger] stack@[t]@
                    && ns[j2].1 is Node ==> slots_of(outv).contains(ns[j2].1->Node_0@),
            forall|k: int, j2: int|
                0 <= k < outv.len() && 0 <= j2 < n && (#[trigger] ns[j2]).0@ == #[trigger] outv[k]@
                    && ns[j2].1 is Node ==> exists|k2: int| 0 <= k2 < k && outv[k2]@ == ns[j2].1->Node_0@,
            forall|j2: int|
                0 <= j2 < n && is_root((#[trigger] ns[j2]).1) ==> (slots_of(outv) + slots_of(
                    stack@,
                )).contains(ns[j2].0@),
            forall|j2: int|
                0 <= j2 < n && (#[trigger] ns[j2]).1 is Node && slots_of(outv).contains(
                    ns[j2].1->Node_0@,
                ) ==> (slots_of(outv) + slots_of(stack@)).contains(ns[j2].0@),
            outv.len() <= n,
            total == dfs_walk(ns, roots_of(ns, n as int), n as nat),
            slots_of(outv) + dfs_walk(ns, slots_of(stack@), (n - outv.len()) as nat) == total,
        decreases n - outv.len(),
    {
        proof {
            lemma_distinct_within(slots_of(outv) + slots_of(stack@), u);
        }
        let ghost before_stack = stack@;
        let ghost before_out = outv;
        let ghost f = (n - outv.len()) as nat;
        let x = stack.pop().unwrap();
        sorted_nodes.push(x);
        proof {
            outv = outv.push(x);
            assert(sorted_nodes@ =~= old_sorted + outv);
            assert(before_stack =~= stack@.push(x));
            assert(slots_of(before_stack) =~= slots_of(stack@).push(x@));
            assert(slots_of(outv) =~= slots_of(before_out).push(x@));
            lemma_move_last(slots_of(before_out), slots_of(stack@), x@);
            // The node just output has its parent output before it.
            assert forall|k: int, j2: int|
                0 <= k < outv.len() && 0 <= j2 < n && (#[trigger] ns[j2]).0@ == #[trigger] outv[k]@
                    && ns[j2].1 is Node implies exists|k2: int| 0 <= k2 < k && outv[k2]@ == ns[j2].1->Node_0@ by {
                if k < before_out.len() {
                    assert(outv[k] == before_out[k]);
                    let k2 = choose|k2: int| 0 <= k2 < k && before_out[k2]@ == ns[j2].1->Node_0@;
                    assert(outv[k2] == before_out[k2]);
                } else {
                    assert(before_stack[before_stack.len() - 1] == x);
                    assert(slots_of(before_out).contains(ns[j2].1->Node_0@));
                    let k2 = choose|k2: int| 0 <= k2 < before_out.len() && slots_of(before_out)[k2] == ns[j2].1->Node_0@;
                    assert(outv[k2] == before_out[k2]);
                }
            }
        }
        let ghost s0 = stack@;
        proof {
            assert forall|t: int, j2: int|
                0 <= t < stack@.len() && 0 <= j2 < n && (#[trigger] ns[j2]).0@ == #[trigger] stack@[t]@
                    && ns[j2].1 is Node implies slots_of(outv).contains(ns[j2].1->Node_0@) by {
                assert(before_stack[t] == stack@[t]);
                let k = choose|k: int| 0 <= k < before_out.len() && slots_of(before_out)[k] == ns[j2].1->Node_0@;
                assert(slots_of(outv)[k] == slots_of(before_out)[k]);
            }
        }
        let mut j: usize = 0;
        while j < n
            invariant
                n == ns.len(),
                ns == nodes@,
                u == node_slots(ns),
                distinct_nodes(ns),
                0 <= j <= n,
                sorted_nodes@ == old_sorted + outv,
                outv == before_out.push(x),
                before_stack == s0.push(x),
                (slots_of(before_out) + slots_of(before_stack)).no_duplicates(),
                forall|t: int, j2: int|
                    0 <= t < before_stack.len() && 0 <= j2 < n && (#[trigger] ns[j2]).0@
                        == #[trigger] before_stack[t]@ && ns[j2].1 is Node ==> slots_of(before_out).contains(
                        ns[j2].1->Node_0@,
                    ),
                forall|k: int, j2: int|
                    0 <= k < before_out.len() && 0 <= j2 < n && (#[trigger] ns[j2]).0@
                        == #[trigger] before_out[k]@ && ns[j2].1 is Node ==> exists|k2: int|
                        0 <= k2 < k && before_out[k2]@ == ns[j2].1->Node_0@,
                stack@.len() >= s0.len(),
                stack@.subrange(0, s0.len() as int) == s0,
                forall|j2: int|
                    0 <= j2 < j && hangs_from((#[trigger] ns[j2]).1, x@) ==> slots_of(stack@).contains(
                        ns[j2].0@,
                    ),
                slots_of(stack@) == slots_of(s0) + children_of(ns, x@, j as int),
                (slots_of(outv) + slots_of(stack@)).no_duplicates(),
                forall|e: usize| (slots_of(outv) + slots_of(stack@)).contains(e) ==> u.contains(e),
                forall|e: usize| (slots_of(outv) + slots_of(s0)).contains(e) ==> (slots_of(outv) + slots_of(stack@)).contains(e),
                forall|t: int, j2: int|
                    0 <= t < stack@.len() && 0 <= j2 < n && (#[trigger] ns[j2]).0@ == #[trigger] stack@[t]@
                        && ns[j2].1 is Node ==> slots_of(outv).contains(ns[j2].1->Node_0@),
            decreases n - j,
        {
            let ghost before = stack@;
            let is_child = match &nodes[j].1 {
                NodeParent::Node(p) => p.index() == x.index(),
                _ => false,
            };
            if is_child {
                proof {
                    let c = ns[j as int].0@;
                    assert(hangs_from(ns[j as int].1, x@));
                    assert((slots_of(before_out) + slots_of(before_stack))[(before_out.len() + s0.len()) as int]
                        == x@);
                    // `c` is new: had it been listed, its parent `x` would already be output.
                    assert(!(slots_of(outv) + slots_of(before)).contains(c)) by {
                        if (slots_of(outv) + slots_of(before)).contains(c) {
                            let i = choose|i: int|
                                0 <= i < (slots_of(outv) + slots_of(before)).len() && (slots_of(outv)
                                    + slots_of(before))[i] == c;
                            if i < outv.len() {
                                if i < before_out.len() {
                                    assert(before_out[i]@ == c);
                                    let k2 = choose|k2: int| 0 <= k2 < i && before_out[k2]@ == x@;
                                    assert((slots_of(before_out) + slots_of(before_stack))[k2] == x@);
                                } else {
                                    assert(c == x@);
                                    assert(before_stack[s0.len() as int]@ == c);
                                    assert(slots_of(before_out).contains(x@));
                                    let k = choose|k: int| 0 <= k < before_out.len() && slots_of(
                                        before_out,
                                    )[k] == x@;
                                    assert((slots_of(before_out) + slots_of(before_stack))[k] == x@);
                                }
                            } else {
                                let t = i - outv.len();
                                if t < s0.len() {
                                    assert(before[t] == s0[t]);
                                    assert(before_stack[t] == s0[t]);
                                    assert(before_stack[t]@ == c);
                                    assert(slots_of(before_out).contains(x@));
                                    let k = choose|k: int| 0 <= k < before_out.len() && slots_of(
                                        before_out,
                                    )[k] == x@;
                                    assert((slots_of(before_out) + slots_of(before_stack))[k] == x@);
                                } else {
                                    lemma_children_of(ns, x@, j as int);
                                    let ch = children_of(ns, x@, j as int);
                                    assert(slots_of(before)[t] == ch[t - s0.len()]);
                                    let j2 = choose|j2: int|
                                        0 <= j2 < j && ns[j2].0@ == ch[t - s0.len()] && hangs_from(ns[j2].1, x@);
                                    assert(ns[j2].0@ != ns[j as int].0@);
                                }
                            }
                        }
                    }
                }
                stack.push(nodes[j].0);
                proof {
                    let c = ns[j as int].0@;
                    assert(slots_of(stack@) =~= slots_of(before).push(c));
                    assert(slots_of(outv) + slots_of(stack@) =~= (slots_of(outv) + slots_of(before)).push(
                        c,
                    ));
                    assert(u[j as int] == c);
                    assert(children_of(ns, x@, j + 1) == children_of(ns, x@, j as int).push(c));
                    assert(slots_of(stack@) =~= slots_of(s0) + children_of(ns, x@, j + 1));
                    assert(stack@.subrange(0, s0.len() as int) =~= before.subrange(0, s0.len() as int));
                    assert forall|j2: int| 0 <= j2 <= j && hangs_from((#[trigger] ns[j2]).1, x@) implies slots_of(
                        stack@,
                    ).contains(ns[j2].0@) by {
                        if j2 < j {
                            let t = choose|t: int| 0 <= t < before.len() && slots_of(before)[t] == ns[j2].0@;
                            assert(slots_of(stack@)[t] == ns[j2].0@);
                        } else {
                            assert(slots_of(stack@)[before.len() as int] == c);
                        }
                    }
                    assert forall|e: usize| (slots_of(outv) + slots_of(s0)).contains(e) implies (slots_of(outv)
                        + slots_of(stack@)).contains(e) by {
                        let i = choose|i: int| 0 <= i < (slots_of(outv) + slots_of(before)).len() && (slots_of(outv) + slots_of(before))[i] == e;
                        assert((slots_of(outv) + slots_of(stack@))[i] == e);
                    }
                    assert forall|t: int, j2: int|
                        0 <= t < stack@.len() && 0 <= j2 < n && (#[trigger] ns[j2]).0@ == #[trigger] stack@[t]@
                            && ns[j2].1 is Node implies slots_of(outv).contains(ns[j2].1->Node_0@) by {
                        if t < before.len() {
                            assert(stack@[t] == before[t]);
                        } else {
                            if j2 != j {
                                assert(ns[j2].0@ != ns[j as int].0@);
                            }
                            assert(slots_of(outv)[before_out.len() as int] == x@);
                        }
                    }
                }
            }
            proof {
                if !is_child {
                    assert(!hangs_from(ns[j as int].1, x@));
                    assert(children_of(ns, x@, j + 1) == children_of(ns, x@, j as int));
                }
            }
            j = j + 1;
        }
        proof {
            assert(slots_of(s0) + children_of(ns, x@, 0) =~= slots_of(s0));
            assert(slots_of(before_stack).drop_last() =~= slots_of(s0));
            assert(slots_of(before_stack).last() == x@);
            assert(f >= 1);
            assert(dfs_walk(ns, slots_of(before_stack), f) == seq![x@] + dfs_walk(ns, slots_of(s0) + children_of(ns, x@, n as int), (f - 1) as nat));
            assert(slots_of(outv) + dfs_walk(ns, slots_of(stack@), (n - outv.len()) as nat) =~= slots_of(before_out) + dfs_walk(ns, slots_of(before_stack), f));
            assert forall|j2: int|
                0 <= j2 < n && is_root((#[trigger] ns[j2]).1) implies (slots_of(outv) + slots_of(stack@)).contains(ns[j2].0@) by {
                assert((slots_of(before_out) + slots_of(before_stack)).contains(ns[j2].0@));
            }
            assert forall|j2: int|
                0 <= j2 < n && (#[trigger] ns[j2]).1 is Node && slots_of(outv).contains(ns[j2].1->Node_0@)
                    implies (slots_of(outv) + slots_of(stack@)).contains(ns[j2].0@) by {
                let p = ns[j2].1->Node_0@;
                if p == x@ {
                    assert(hangs_from(ns[j2].1, x@));
                    let t = choose|t: int| 0 <= t < stack@.len() && slots_of(stack@)[t] == ns[j2].0@;
                    assert((slots_of(outv) + slots_of(stack@))[outv.len() + t] == ns[j2].0@);
                } else {
                    let k = choose|k: int| 0 <= k < outv.len() && slots_of(outv)[k] == p;
                    assert(k < before_out.len());
                    assert(slots_of(before_out)[k] == p);
                    assert((slots_of(before_out) + slots_of(before_stack)).contains(ns[j2].0@));
                }
            }
        }
    }
    proof {
        let out = slots_of(outv);
        assert(sorted_nodes@.subrange(old_sorted.len() as int, sorted_nodes@.len() as int) =~= outv);
        assert(sorted_nodes@.subrange(0, old_sorted.len() as int) =~= old_sorted);
        assert(out + slots_of(stack@) =~= out);
        assert(out + dfs_walk(ns, slots_of(stack@), (n - outv.len()) as nat) =~= out);
        assert forall|k: int| 0 <= k < out.len() implies u.contains(#[trigger] out[k]) by {
            assert((out + slots_of(stack@))[k] == out[k]);
        }
        assert forall|k: int, j2: int|
            0 <= k < out.len() && 0 <= j2 < ns.len() && (#[trigger] ns[j2]).0@ == #[trigger] out[k]
                && ns[j2].1 is Node implies exists|k2: int| 0 <= k2 < k && out[k2] == ns[j2].1->Node_0@ by {
            assert(outv[k]@ == out[k]);
            let k2 = choose|k2: int| 0 <= k2 < k && outv[k2]@ == ns[j2].1->Node_0@;
            assert(out[k2] == outv[k2]@);
        }
    }
}

} // verus!
