//! Deep copies in a scene graph: which nodes a copy of a node and its
//! children consists of, in the order they are made, and what each copy
//! hangs from.
use vstd::prelude::*;

use crate::arena::{Arena, ArenaId};
use crate::types::{NodeParent, Scene};
use crate::utility::{
    children_of, distinct_nodes, hangs_from, lemma_children_of, lemma_distinct_within, node_slots,
};

verus! {

/// The slot that listed node `x` hangs from, looking at the first `j`
/// entries; `None` if it is not listed there or hangs from no node.
pub open spec fn parent_slot<N>(nodes: Seq<(ArenaId<N>, NodeParent<N>)>, x: usize, j: int) -> Option<usize>
    decreases j,
{
    if j <= 0 {
        None
    } else if nodes[j - 1].0@ == x {
        match nodes[j - 1].1 {
            NodeParent::Node(p) => Some(p@),
            _ => None,
        }
    } else {
        parent_slot(nodes, x, j - 1)
    }
}

/// The node `d` steps above `x`, each step going to the node the current
/// one hangs from; `None` once a step finds no such node.
pub open spec fn ancestor<N>(nodes: Seq<(ArenaId<N>, NodeParent<N>)>, x: usize, d: nat) -> Option<usize>
    decreases d,
{
    if d == 0 {
        Some(x)
    } else {
        match parent_slot(nodes, x, nodes.len() as int) {
            Some(p) => ancestor(nodes, p, (d - 1) as nat),
            None => None,
        }
    }
}

/// Going up from `x` leads back to `x`.
pub open spec fn on_parent_loop<N>(nodes: Seq<(ArenaId<N>, NodeParent<N>)>, x: usize) -> bool {
    exists|d: nat| 1 <= d <= nodes.len() && #[trigger] ancestor(nodes, x, d) == Some(x)
}

/// A copy plan as plain values: each entry is the node to copy and the
/// position of the copy it hangs from, `-1` for the first copy.
pub open spec fn plan_view<N>(plan: Seq<(ArenaId<N>, Option<usize>)>) -> Seq<(usize, int)> {
    plan.map_values(
        |e: (ArenaId<N>, Option<usize>)|
            (
                e.0@,
                match e.1 {
                    Some(p) => p as int,
                    None => -1,
                },
            ),
    )
}

/// The nodes a plan copies, in order.
pub open spec fn plan_nodes(plan: Seq<(usize, int)>) -> Seq<usize> {
    plan.map_values(|e: (usize, int)| e.0)
}

/// A stack of pending copies as plain values: the node copied and the
/// position of its copy.
pub open spec fn stack_view<N>(stack: Seq<(ArenaId<N>, usize)>) -> Seq<(usize, int)> {
    stack.map_values(|e: (ArenaId<N>, usize)| (e.0@, e.1 as int))
}

/// The positions of the copies whose children are still to be copied.
pub open spec fn pending(stack: Seq<(usize, int)>) -> Seq<int> {
    stack.map_values(|e: (usize, int)| e.1)
}

/// Copying with a stack, for at most `steps` steps: the copy on top of the
/// stack is taken off, and each node that hangs from the node it copies, in
/// listing order, gets a copy hanging from it, put on the stack in turn.
pub open spec fn clone_steps<N>(
    nodes: Seq<(ArenaId<N>, NodeParent<N>)>,
    stack: Seq<(usize, int)>,
    plan: Seq<(usize, int)>,
    steps: nat,
) -> Seq<(usize, int)>
    decreases steps,
{
    if steps == 0 || stack.len() == 0 {
        plan
    } else {
        let top = stack.last();
        let kids = children_of(nodes, top.0, nodes.len() as int);
        clone_steps(
            nodes,
            stack.drop_last() + kids.map(|i: int, k: usize| (k, plan.len() + i)),
            plan + kids.map(|i: int, k: usize| (k, top.1)),
            (steps - 1) as nat,
        )
    }
}

/// The copies a deep copy of `root` makes, in order: first `root`'s own,
/// hanging from nothing, then those made by [`clone_steps`].
pub open spec fn clone_plan<N>(nodes: Seq<(ArenaId<N>, NodeParent<N>)>, root: usize) -> Seq<(usize, int)> {
    clone_steps(nodes, seq![(root, 0int)], seq![(root, -1int)], nodes.len())
}

/// With each node listed once, the parent found for a listed node is the
/// one its entry names.
proof fn lemma_parent_slot<N>(nodes: Seq<(ArenaId<N>, NodeParent<N>)>, j: int, m: int)
    requires
        distinct_nodes(nodes),
        0 <= j < m <= nodes.len(),
    ensures
        parent_slot(nodes, nodes[j].0@, m) == (match nodes[j].1 {
            NodeParent::Node(p) => Some(p@),
            _ => None::<usize>,
        }),
    decreases m,
{
    if m - 1 != j {
        assert(nodes[j].0@ != nodes[m - 1].0@);
        lemma_parent_slot(nodes, j, m - 1);
    }
}


/// The plan `pv` so far is sound: it starts with `root`, copies each node
/// once, only listed nodes, each after the copy of the node it hangs from,
/// and `depths` gives for each copied node how many steps up `root` is.
#[verifier::opaque]
spec fn plan_sound<N>(
    nodes: Seq<(ArenaId<N>, NodeParent<N>)>,
    root: usize,
    pv: Seq<(usize, int)>,
    depths: Seq<nat>,
) -> bool {
    &&& pv.len() >= 1
    &&& pv[0] == (root, -1int)
    &&& plan_nodes(pv).no_duplicates()
    &&& forall|i: int| 0 <= i < pv.len() ==> node_slots(nodes).contains(#[trigger] pv[i].0)
    &&& forall|i: int|
        0 < i < pv.len() ==> 0 <= (#[trigger] pv[i]).1 < i && parent_slot(nodes, pv[i].0, nodes.len() as int)
            == Some(pv[pv[i].1].0)
    &&& depths.len() == pv.len()
    &&& forall|i: int|
        0 <= i < pv.len() ==> #[trigger] depths[i] <= i && ancestor(nodes, pv[i].0, depths[i]) == Some(root)
}

/// The stack `sv` holds copies of the plan whose children are still to be
/// copied, each once, and no copy hangs from one of them.
#[verifier::opaque]
spec fn stack_sound(pv: Seq<(usize, int)>, sv: Seq<(usize, int)>) -> bool {
    &&& forall|t: int| 0 <= t < sv.len() ==> 0 <= (#[trigger] sv[t]).1 < pv.len() && pv[sv[t].1].0 == sv[t].0
    &&& pending(sv).no_duplicates()
    &&& forall|i: int| 0 < i < pv.len() ==> !pending(sv).contains((#[trigger] pv[i]).1)
}

/// Every node hanging from a copied node whose children are done, other
/// than the copy at position `skip`, is copied too.
#[verifier::opaque]
spec fn plan_closed<N>(
    nodes: Seq<(ArenaId<N>, NodeParent<N>)>,
    pv: Seq<(usize, int)>,
    sv: Seq<(usize, int)>,
    skip: int,
) -> bool {
    forall|i: int, j: int|
        0 <= i < pv.len() && 0 <= j < nodes.len() && hangs_from((#[trigger] nodes[j]).1, (#[trigger] pv[i]).0)
            && !pending(sv).contains(i) && i != skip ==> plan_nodes(pv).contains(nodes[j].0@)
}

/// The nodes among the first `j` that hang from `x` are copied.
#[verifier::opaque]
spec fn kids_copied<N>(nodes: Seq<(ArenaId<N>, NodeParent<N>)>, pv: Seq<(usize, int)>, x: usize, j: int) -> bool {
    forall|j2: int| 0 <= j2 < j && hangs_from((#[trigger] nodes[j2]).1, x) ==> plan_nodes(pv).contains(nodes[j2].0@)
}

/// A sound plan copies no more nodes than are listed.
proof fn lemma_plan_len<N>(nodes: Seq<(ArenaId<N>, NodeParent<N>)>, root: usize, pv: Seq<(usize, int)>, depths: Seq<nat>)
    requires
        plan_sound(nodes, root, pv, depths),
    ensures
        pv.len() <= nodes.len(),
{
    reveal(plan_sound);
    assert forall|k: int| 0 <= k < plan_nodes(pv).len() implies node_slots(nodes).contains(
        #[trigger] plan_nodes(pv)[k],
    ) by {
        assert(plan_nodes(pv)[k] == pv[k].0);
    }
    lemma_distinct_within(plan_nodes(pv), node_slots(nodes));
}

/// Taking the copy at position `q` of `x` off the stack keeps the stack
/// sound, leaves `q` off it, and leaves the plan closed but for `q`.
proof fn lemma_take_top<N>(
    nodes: Seq<(ArenaId<N>, NodeParent<N>)>,
    pv: Seq<(usize, int)>,
    sv: Seq<(usize, int)>,
    x: usize,
    q: int,
)
    requires
        stack_sound(pv, sv),
        plan_closed(nodes, pv, sv, -1),
        sv.len() >= 1,
        sv.last() == (x, q),
    ensures
        stack_sound(pv, sv.drop_last()),
        !pending(sv.drop_last()).contains(q),
        plan_closed(nodes, pv, sv.drop_last(), q),
        pending(sv).contains(q),
        0 <= q < pv.len(),
        pv[q].0 == x,
{
    reveal(stack_sound);
    reveal(plan_closed);
    let pb = pending(sv);
    let pa = pending(sv.drop_last());
    assert(pb[pb.len() - 1] == q);
    assert(sv[sv.len() - 1] == (x, q));
    assert forall|t: int| 0 <= t < pa.len() implies #[trigger] pa[t] == pb[t] by {}
    assert forall|t1: int, t2: int| 0 <= t1 < t2 < pa.len() implies pa[t1] != pa[t2] by {
        assert(pa[t1] == pb[t1] && pa[t2] == pb[t2]);
    }
    assert(!pa.contains(q)) by {
        if pa.contains(q) {
            let t = choose|t: int| 0 <= t < pa.len() && pa[t] == q;
            assert(pb[t] == pb[pb.len() - 1]);
        }
    }
    assert forall|i: int| 0 < i < pv.len() implies !pa.contains((#[trigger] pv[i]).1) by {
        if pa.contains(pv[i].1) {
            let t = choose|t: int| 0 <= t < pa.len() && pa[t] == pv[i].1;
            assert(pb[t] == pa[t]);
        }
    }
    assert forall|t: int| 0 <= t < sv.drop_last().len() implies 0 <= (#[trigger] sv.drop_last()[t]).1 < pv.len()
        && pv[sv.drop_last()[t].1].0 == sv.drop_last()[t].0 by {
        assert(sv.drop_last()[t] == sv[t]);
    }
    assert forall|i: int, j: int|
        0 <= i < pv.len() && 0 <= j < nodes.len() && hangs_from((#[trigger] nodes[j]).1, (#[trigger] pv[i]).0)
            && !pa.contains(i) && i != q implies plan_nodes(pv).contains(nodes[j].0@) by {
        if pb.contains(i) {
            let t = choose|t: int| 0 <= t < pb.len() && pb[t] == i;
            if t < pa.len() {
                assert(pa[t] == i);
            }
        }
    }
    assert(pb.contains(q));
}

/// Copying `nodes[j]`, which hangs from `x`, whose copy is at position `q`,
/// keeps the plan and the stack sound: the node has no copy yet.
proof fn lemma_copy_child<N>(
    nodes: Seq<(ArenaId<N>, NodeParent<N>)>,
    root: usize,
    pv_b: Seq<(usize, int)>,
    sv_b: Seq<(usize, int)>,
    depths_b: Seq<nat>,
    x: usize,
    q: int,
    j: int,
    pv: Seq<(usize, int)>,
    sv: Seq<(usize, int)>,
    depths: Seq<nat>,
)
    requires
        distinct_nodes(nodes),
        !on_parent_loop(nodes, root),
        0 <= j < nodes.len(),
        hangs_from(nodes[j].1, x),
        plan_sound(nodes, root, pv_b, depths_b),
        stack_sound(pv_b, sv_b),
        pending(sv_b).contains(q),
        0 <= q < pv_b.len(),
        pv_b[q].0 == x,
        pv == pv_b + children_of(nodes, x, j).map(|i: int, k: usize| (k, q)),
        depths.subrange(0, pv_b.len() as int) == depths_b,
        plan_sound(nodes, root, pv, depths),
        stack_sound(pv, sv),
        !pending(sv).contains(q),
        plan_closed(nodes, pv, sv, q),
        kids_copied(nodes, pv, x, j),
    ensures
        plan_sound(nodes, root, pv.push((nodes[j].0@, q)), depths.push(depths_b[q] + 1)),
        stack_sound(pv.push((nodes[j].0@, q)), sv.push((nodes[j].0@, pv.len() as int))),
        !pending(sv.push((nodes[j].0@, pv.len() as int))).contains(q),
        plan_closed(nodes, pv.push((nodes[j].0@, q)), sv.push((nodes[j].0@, pv.len() as int)), q),
        kids_copied(nodes, pv.push((nodes[j].0@, q)), x, j + 1),
{
    reveal(plan_sound);
    reveal(stack_sound);
    reveal(plan_closed);
    reveal(kids_copied);
    lemma_plan_len(nodes, root, pv_b, depths_b);
    let k = nodes[j].0@;
    let kids = children_of(nodes, x, j);
    let pn = plan_nodes(pv);
    let pv2 = pv.push((k, q));
    let sv2 = sv.push((k, pv.len() as int));
    let d2 = depths.push(depths_b[q] + 1);
    lemma_parent_slot(nodes, j, nodes.len() as int);
    assert(parent_slot(nodes, k, nodes.len() as int) == Some(x));
    assert(depths_b[q] == depths[q]);
    assert(ancestor(nodes, k, depths_b[q] + 1) == Some(root));
    assert(node_slots(nodes)[j] == k);
    // `k` has no copy yet.
    assert(!pn.contains(k)) by {
        if pn.contains(k) {
            let i = choose|i: int| 0 <= i < pn.len() && pn[i] == k;
            assert(pn[i] == pv[i].0);
            if i == 0 {
                let d = (depths_b[q] + 1) as nat;
                assert(ancestor(nodes, root, d) == Some(root));
                assert(1 <= d <= nodes.len());
                assert(on_parent_loop(nodes, root));
            } else if i < pv_b.len() {
                let p = pv[i].1;
                assert(pv[i] == pv_b[i]);
                assert(pv[p] == pv_b[p]);
                assert(plan_nodes(pv_b)[p] == plan_nodes(pv_b)[q]);
                assert(p == q);
            } else {
                lemma_children_of(nodes, x, j);
                assert(pv[i] == (kids[i - pv_b.len()], q));
                let j2 = choose|j2: int|
                    0 <= j2 < j && nodes[j2].0@ == #[trigger] kids[i - pv_b.len()] && hangs_from(nodes[j2].1, x);
                assert(nodes[j2].0@ != nodes[j].0@);
            }
        }
    }
    assert(plan_nodes(pv2) =~= pn.push(k));
    assert(pending(sv2) =~= pending(sv).push(pv.len() as int));
    assert forall|t: int| 0 <= t < sv.len() implies (#[trigger] pending(sv)[t]) < pv.len() by {
        assert(pending(sv)[t] == sv[t].1);
    }
    assert forall|i: int| 0 < i < pv2.len() implies !pending(sv2).contains((#[trigger] pv2[i]).1) by {
        if i < pv.len() {
            assert(pv2[i] == pv[i]);
        }
    }
    assert forall|t: int| 0 <= t < sv2.len() implies 0 <= (#[trigger] sv2[t]).1 < pv2.len() && pv2[sv2[t].1].0
        == sv2[t].0 by {
        if t < sv.len() {
            assert(sv2[t] == sv[t]);
        }
    }
    assert forall|i: int| 0 < i < pv2.len() implies 0 <= (#[trigger] pv2[i]).1 < i && parent_slot(
        nodes,
        pv2[i].0,
        nodes.len() as int,
    ) == Some(pv2[pv2[i].1].0) by {
        if i < pv.len() {
            assert(pv2[i] == pv[i]);
        }
    }
    assert forall|i: int| 0 <= i < pv2.len() implies #[trigger] d2[i] <= i && ancestor(nodes, pv2[i].0, d2[i])
        == Some(root) by {
        if i < pv.len() {
            assert(pv2[i] == pv[i]);
        }
    }
    assert forall|i: int| 0 <= i < pv2.len() implies node_slots(nodes).contains(#[trigger] pv2[i].0) by {
        if i < pv.len() {
            assert(pv2[i] == pv[i]);
        }
    }
    assert forall|i: int, j2: int|
        0 <= i < pv2.len() && 0 <= j2 < nodes.len() && hangs_from((#[trigger] nodes[j2]).1, (#[trigger] pv2[i]).0)
            && !pending(sv2).contains(i) && i != q implies plan_nodes(pv2).contains(nodes[j2].0@) by {
        if i < pv.len() {
            assert(pv2[i] == pv[i]);
            if pending(sv).contains(i) {
                let t = choose|t: int| 0 <= t < pending(sv).len() && pending(sv)[t] == i;
                assert(pending(sv2)[t] == i);
            }
            let t2 = choose|t2: int| 0 <= t2 < pn.len() && pn[t2] == nodes[j2].0@;
            assert(plan_nodes(pv2)[t2] == nodes[j2].0@);
        } else {
            assert(pending(sv2)[pending(sv2).len() - 1] == i);
        }
    }
    assert forall|j2: int| 0 <= j2 < j + 1 && hangs_from((#[trigger] nodes[j2]).1, x) implies plan_nodes(
        pv2,
    ).contains(nodes[j2].0@) by {
        if j2 == j {
            assert(plan_nodes(pv2)[pn.len() as int] == k);
        } else {
            let t2 = choose|t2: int| 0 <= t2 < pn.len() && pn[t2] == nodes[j2].0@;
            assert(plan_nodes(pv2)[t2] == nodes[j2].0@);
        }
    }
}

/// Once every node hanging from `x` has been looked at, the plan is closed
/// again.
proof fn lemma_kids_done<N>(
    nodes: Seq<(ArenaId<N>, NodeParent<N>)>,
    pv: Seq<(usize, int)>,
    sv: Seq<(usize, int)>,
    x: usize,
    q: int,
)
    requires
        plan_closed(nodes, pv, sv, q),
        kids_copied(nodes, pv, x, nodes.len() as int),
        0 <= q < pv.len(),
        pv[q].0 == x,
    ensures
        plan_closed(nodes, pv, sv, -1),
{
    reveal(plan_closed);
    reveal(kids_copied);
}

/// The copies that a deep copy of node `node_id` and of everything that
/// hangs from it, directly or not, makes, in the order they are made, each
/// with the position of the copy it hangs from (`None` for the copy of
/// `node_id` itself, which hangs from nothing). `nodes` lists each node once,
/// with what it hangs from, in slot order. The copy of a node is followed by
/// the copies of its children, in listing order; then the copies are
/// revisited last made first, so the subtree of the last child is copied
/// before that of the child before it.
pub fn clone_node_plan<N>(nodes: &Vec<(ArenaId<N>, NodeParent<N>)>, node_id: ArenaId<N>) -> (r: Vec<(ArenaId<N>, Option<usize>)>)
    requires
        distinct_nodes(nodes@),
        node_slots(nodes@).contains(node_id@),
        !on_parent_loop(nodes@, node_id@),
    ensures
        plan_view(r@) == clone_plan(nodes@, node_id@),
        r@.len() >= 1,
        r@[0].0 == node_id && r@[0].1 is None,
        plan_nodes(plan_view(r@)).no_duplicates(),
        forall|i: int|
            0 < i < r@.len() ==> ((#[trigger] r@[i]).1 matches Some(p) && p < i && parent_slot(
                nodes@,
                r@[i].0@,
                nodes@.len() as int,
            ) == Some(r@[p as int].0@)),
        forall|i: int, j: int|
            0 <= i < r@.len() && 0 <= j < nodes@.len() && hangs_from((#[trigger] nodes@[j]).1, (#[trigger] r@[i]).0@)
                ==> plan_nodes(plan_view(r@)).contains(nodes@[j].0@),
{
    let n = nodes.len();
    let ghost ns = nodes@;
    let ghost root = node_id@;
    let mut plan: Vec<(ArenaId<N>, Option<usize>)> = Vec::new();
    plan.push((node_id, None));
    let mut stack: Vec<(ArenaId<N>, usize)> = Vec::new();
    stack.push((node_id, 0));
    let ghost mut depths: Seq<nat> = seq![0nat];
    proof {
        reveal(plan_sound);
        reveal(stack_sound);
        reveal(plan_closed);
        assert(plan_view(plan@) =~= seq![(root, -1int)]);
        assert(stack_view(stack@) =~= seq![(root, 0int)]);
        assert(pending(stack_view(stack@)) =~= seq![0int]);
        assert(pending(stack_view(stack@))[0] == 0);
        assert(plan_nodes(plan_view(plan@)) =~= seq![root]);
        assert(ancestor(ns, root, 0) == Some(root));
    }
    while stack.len() > 0
        invariant
            n == ns.len(),
            ns == nodes@,
            root == node_id@,
            distinct_nodes(ns),
            !on_parent_loop(ns, root),
            plan@.len() >= 1,
            plan@[0].0 == node_id && plan@[0].1 is None,
            plan_sound(ns, root, plan_view(plan@), depths),
            depths.len() == plan@.len(),
            stack_sound(plan_view(plan@), stack_view(stack@)),
            plan_closed(ns, plan_view(plan@), stack_view(stack@), -1),
            clone_steps(ns, stack_view(stack@), plan_view(plan@), (n + stack@.len() - plan@.len()) as nat)
                == clone_plan(ns, root),
            plan@.len() <= n,
        decreases n + stack@.len() - plan@.len(),
    {
        let ghost pv_b = plan_view(plan@);
        let ghost sv_b = stack_view(stack@);
        let ghost depths_b = depths;
        let ghost plan_b = plan@;
        let ghost stack_b = stack@;
        let (x, q) = stack.pop().unwrap();
        proof {
            assert(stack_b == stack@.push((x, q)));
            assert(sv_b =~= stack_view(stack@).push((x@, q as int)));
            assert(sv_b.drop_last() == stack_view(stack@));
            lemma_take_top(ns, pv_b, sv_b, x@, q as int);
            assert(plan_view(plan@) =~= pv_b + children_of(ns, x@, 0).map(|i: int, k: usize| (k, q as int)));
            assert(stack_view(stack@) =~= sv_b.drop_last() + children_of(ns, x@, 0).map(
                |i: int, k: usize| (k, pv_b.len() + i),
            ));
            assert(depths.subrange(0, pv_b.len() as int) =~= depths_b);
            reveal(kids_copied);
        }
        let mut j: usize = 0;
        while j < n
            invariant
                n == ns.len(),
                ns == nodes@,
                root == node_id@,
                distinct_nodes(ns),
                !on_parent_loop(ns, root),
                0 <= j <= n,
                pv_b.len() <= n,
                pv_b.len() == plan_b.len(),
                0 <= q < pv_b.len(),
                pv_b[q as int].0 == x@,
                plan_sound(ns, root, pv_b, depths_b),
                stack_sound(pv_b, sv_b),
                pending(sv_b).contains(q as int),
                plan@.len() >= 1,
                plan@[0].0 == node_id && plan@[0].1 is None,
                plan_view(plan@) == pv_b + children_of(ns, x@, j as int).map(|i: int, k: usize| (k, q as int)),
                stack_view(stack@) == sv_b.drop_last() + children_of(ns, x@, j as int).map(
                    |i: int, k: usize| (k, pv_b.len() + i),
                ),
                depths.subrange(0, pv_b.len() as int) == depths_b,
                depths.len() == plan@.len(),
                plan_sound(ns, root, plan_view(plan@), depths),
                stack_sound(plan_view(plan@), stack_view(stack@)),
                !pending(stack_view(stack@)).contains(q as int),
                plan_closed(ns, plan_view(plan@), stack_view(stack@), q as int),
                kids_copied(ns, plan_view(plan@), x@, j as int),
            decreases n - j,
        {
            let is_child = match &nodes[j].1 {
                NodeParent::Node(p) => p.index() == x.index(),
                _ => false,
            };
            let ghost kids = children_of(ns, x@, j as int);
            if is_child {
                let ghost pv_a = plan_view(plan@);
                let ghost sv_a = stack_view(stack@);
                proof {
                    assert(hangs_from(ns[j as int].1, x@));
                    lemma_copy_child(ns, root, pv_b, sv_b, depths_b, x@, q as int, j as int, pv_a, sv_a, depths);
                }
                plan.push((nodes[j].0, Some(q)));
                let pos = plan.len() - 1;
                stack.push((nodes[j].0, pos));
                proof {
                    depths = depths.push(depths_b[q as int] + 1);
                    let k = ns[j as int].0@;
                    assert(children_of(ns, x@, j + 1) == kids.push(k));
                    assert(plan_view(plan@) =~= pv_a.push((k, q as int)));
                    assert(stack_view(stack@) =~= sv_a.push((k, pv_a.len() as int)));
                    assert(plan_view(plan@) =~= pv_b + children_of(ns, x@, j + 1).map(
                        |i: int, k: usize| (k, q as int),
                    ));
                    assert(stack_view(stack@) =~= sv_b.drop_last() + children_of(ns, x@, j + 1).map(
                        |i: int, k: usize| (k, pv_b.len() + i),
                    ));
                    assert(depths.subrange(0, pv_b.len() as int) =~= depths_b);
                }
            } else {
                proof {
                    assert(!hangs_from(ns[j as int].1, x@));
                    assert(children_of(ns, x@, j + 1) == kids);
                    reveal(kids_copied);
                }
            }
            j = j + 1;
        }
        proof {
            let kids = children_of(ns, x@, n as int);
            let f = (n + stack_b.len() - plan_b.len()) as nat;
            lemma_kids_done(ns, plan_view(plan@), stack_view(stack@), x@, q as int);
            lemma_plan_len(ns, root, plan_view(plan@), depths);
            assert(sv_b.last() == (x@, q as int));
            assert(clone_steps(ns, sv_b, pv_b, f) == clone_steps(
                ns,
                sv_b.drop_last() + kids.map(|i: int, k: usize| (k, pv_b.len() + i)),
                pv_b + kids.map(|i: int, k: usize| (k, q as int)),
                (f - 1) as nat,
            ));
            assert(plan@.len() == plan_b.len() + kids.len());
            assert(stack@.len() == stack_b.len() - 1 + kids.len());
        }
    }
    proof {
        reveal(plan_sound);
        reveal(plan_closed);
        let pv = plan_view(plan@);
        assert(stack_view(stack@) =~= Seq::<(usize, int)>::empty());
        assert(pending(stack_view(stack@)) =~= Seq::<int>::empty());
        assert forall|i: int| 0 < i < plan@.len() implies ((#[trigger] plan@[i]).1 matches Some(p) && p < i
            && parent_slot(ns, plan@[i].0@, n as int) == Some(plan@[p as int].0@)) by {
            assert(pv[i].1 >= 0);
            assert(pv[pv[i].1].0 == plan@[pv[i].1].0@);
        }
        assert forall|i: int, j: int|
            0 <= i < plan@.len() && 0 <= j < n && hangs_from((#[trigger] ns[j]).1, (#[trigger] plan@[i]).0@)
                implies plan_nodes(pv).contains(ns[j].0@) by {
            assert(pv[i].0 == plan@[i].0@);
        }
    }
    plan
}

/// One more step up from `x` goes from the node `d` steps up to the node it
/// hangs from.
proof fn lemma_ancestor_step<N>(nodes: Seq<(ArenaId<N>, NodeParent<N>)>, x: usize, d: nat)
    ensures
        ancestor(nodes, x, d + 1) == (match ancestor(nodes, x, d) {
            Some(y) => parent_slot(nodes, y, nodes.len() as int),
            None => None,
        }),
    decreases d,
{
    match parent_slot(nodes, x, nodes.len() as int) {
        Some(p) => {
            assert(ancestor(nodes, x, d + 1) == ancestor(nodes, p, d));
            if d > 0 {
                lemma_ancestor_step(nodes, p, (d - 1) as nat);
                assert(ancestor(nodes, x, d) == ancestor(nodes, p, (d - 1) as nat));
            } else {
                assert(ancestor(nodes, p, 0) == Some(p));
            }
        },
        None => {},
    }
}

/// Once a step up finds nothing, so do all further steps.
proof fn lemma_ancestor_none<N>(nodes: Seq<(ArenaId<N>, NodeParent<N>)>, x: usize, d: nat, e: nat)
    requires
        ancestor(nodes, x, d) is None,
        d <= e,
    ensures
        ancestor(nodes, x, e) is None,
    decreases e - d,
{
    if d < e {
        lemma_ancestor_step(nodes, x, d);
        lemma_ancestor_none(nodes, x, (d + 1) as nat, e);
    }
}

/// The slot that node `x` hangs from, if it is listed and hangs from a node.
fn parent_of<N>(nodes: &Vec<(ArenaId<N>, NodeParent<N>)>, x: usize) -> (r: Option<usize>)
    ensures
        r == parent_slot(nodes@, x, nodes@.len() as int),
{
    let mut j = nodes.len();
    while j > 0
        invariant
            j <= nodes@.len(),
            parent_slot(nodes@, x, nodes@.len() as int) == parent_slot(nodes@, x, j as int),
        decreases j,
    {
        if nodes[j - 1].0.index() == x {
            return match &nodes[j - 1].1 {
                NodeParent::Node(p) => Some(p.index()),
                _ => None,
            };
        }
        j = j - 1;
    }
    None
}

/// Whether going up from node `node_id`, each step to the node the current
/// one hangs from, leads back to `node_id`; a deep copy of such a node would
/// never end.
pub fn in_parent_loop<N>(nodes: &Vec<(ArenaId<N>, NodeParent<N>)>, node_id: ArenaId<N>) -> (r: bool)
    ensures
        r == on_parent_loop(nodes@, node_id@),
{
    let n = nodes.len();
    let ghost ns = nodes@;
    let x = node_id.index();
    let mut cur = x;
    let mut d: usize = 0;
    while d < n
        invariant
            n == ns.len(),
            ns == nodes@,
            x == node_id@,
            0 <= d <= n,
            ancestor(ns, x, d as nat) == Some(cur),
            forall|e: nat| 1 <= e <= d ==> #[trigger] ancestor(ns, x, e) != Some(x),
        decreases n - d,
    {
        proof {
            lemma_ancestor_step(ns, x, d as nat);
        }
        match parent_of(nodes, cur) {
            Some(p) => {
                d = d + 1;
                cur = p;
                if cur == x {
                    proof {
                        assert(ancestor(ns, x, d as nat) == Some(x));
                    }
                    return true;
                }
            },
            None => {
                proof {
                    assert forall|e: nat| 1 <= e <= ns.len() implies #[trigger] ancestor(ns, x, e) != Some(x) by {
                        if e > d {
                            lemma_ancestor_none(ns, x, (d + 1) as nat, e);
                        }
                    }
                }
                return false;
            },
        }
    }
    false
}

/// What the last entry of listed node `x` among the first `j` hangs from.
pub open spec fn entry_parent<N>(nodes: Seq<(ArenaId<N>, NodeParent<N>)>, x: usize, j: int) -> Option<NodeParent<N>>
    decreases j,
{
    if j <= 0 {
        None
    } else if nodes[j - 1].0@ == x {
        Some(nodes[j - 1].1)
    } else {
        entry_parent(nodes, x, j - 1)
    }
}

/// The scene that `x` hangs from, directly or through nodes, found within
/// `steps` steps up; `None` if the way up ends at a node that hangs from
/// nothing or is not listed, or takes longer.
pub open spec fn scene_above<N>(nodes: Seq<(ArenaId<N>, NodeParent<N>)>, x: usize, steps: nat) -> Option<usize>
    decreases steps,
{
    if steps == 0 {
        None
    } else {
        match entry_parent(nodes, x, nodes.len() as int) {
            Some(NodeParent::Scene(s)) => Some(s@),
            Some(NodeParent::Node(p)) => scene_above(nodes, p@, (steps - 1) as nat),
            _ => None,
        }
    }
}

fn entry_parent_of<N>(nodes: &Vec<(ArenaId<N>, NodeParent<N>)>, x: usize) -> (r: Option<NodeParent<N>>)
    ensures
        r == entry_parent(nodes@, x, nodes@.len() as int),
{
    let mut j = nodes.len();
    while j > 0
        invariant
            j <= nodes@.len(),
            entry_parent(nodes@, x, nodes@.len() as int) == entry_parent(nodes@, x, j as int),
        decreases j,
    {
        if nodes[j - 1].0.index() == x {
            return Some(nodes[j - 1].1);
        }
        j = j - 1;
    }
    None
}

/// The scene that node `node_id` belongs to: the scene it hangs from,
/// directly or through the nodes above it, taking at most as many steps up
/// as there are listed nodes. A scene returned is the one that the first
/// entry on the way up not hanging from a node hangs from, and whenever
/// the way up reaches such an entry within those steps, its scene is
/// returned.
pub fn node_scene<N>(nodes: &Vec<(ArenaId<N>, NodeParent<N>)>, node_id: ArenaId<N>) -> (r: Option<ArenaId<Scene>>)
    ensures
        match r {
            Some(s) => scene_above(nodes@, node_id@, nodes@.len()) == Some(s@),
            None => scene_above(nodes@, node_id@, nodes@.len()) is None,
        },
        r matches Some(s) ==> exists|d: nat|
            d < nodes@.len() && node_chain(nodes@, node_id@, d) && (#[trigger] ancestor(nodes@, node_id@, d) matches Some(
                y,
            ) && entry_parent(nodes@, y, nodes@.len() as int) matches Some(NodeParent::Scene(t)) && t@ == s@),
        forall|d: nat|
            d < nodes@.len() ==> (node_chain(nodes@, node_id@, d) ==> (#[trigger] ancestor(nodes@, node_id@, d) matches Some(
                y,
            ) ==> (entry_parent(nodes@, y, nodes@.len() as int) matches Some(NodeParent::Scene(t)) ==> (r matches Some(s)
                && s@ == t@)))),
{
    let r = walk_to_scene(nodes, node_id);
    proof {
        let ns = nodes@;
        let x = node_id@;
        law_scene_above_found(ns, x, ns.len());
        assert forall|d: nat|
            d < ns.len() ==> (node_chain(ns, x, d) ==> (#[trigger] ancestor(ns, x, d) matches Some(y) ==> (entry_parent(
                ns,
                y,
                ns.len() as int,
            ) matches Some(NodeParent::Scene(t)) ==> (r matches Some(s) && s@ == t@)))) by {
            if d < ns.len() && node_chain(ns, x, d) && ancestor(ns, x, d) is Some {
                let y = ancestor(ns, x, d)->Some_0;
                if let Some(NodeParent::Scene(t)) = entry_parent(ns, y, ns.len() as int) {
                    law_scene_above_reached(ns, x, ns.len(), d, t);
                }
            }
        }
    }
    r
}

/// Walks up from `node_id` for the scene it belongs to.
fn walk_to_scene<N>(nodes: &Vec<(ArenaId<N>, NodeParent<N>)>, node_id: ArenaId<N>) -> (r: Option<ArenaId<Scene>>)
    ensures
        match r {
            Some(s) => scene_above(nodes@, node_id@, nodes@.len()) == Some(s@),
            None => scene_above(nodes@, node_id@, nodes@.len()) is None,
        },
{
    let n = nodes.len();
    let mut cur = node_id.index();
    let mut d: usize = 0;
    while d < n
        invariant
            n == nodes@.len(),
            0 <= d <= n,
            scene_above(nodes@, node_id@, n as nat) == scene_above(nodes@, cur, (n - d) as nat),
        decreases n - d,
    {
        match entry_parent_of(nodes, cur) {
            Some(NodeParent::Scene(s)) => {
                return Some(s);
            },
            Some(NodeParent::Node(p)) => {
                cur = p.index();
            },
            _ => {
                return None;
            },
        }
        d = d + 1;
    }
    None
}

/// The slot that the `k`-th of a run of inserts into `a` fills: the freed
/// slots, most recently freed first, then new slots at the end.
pub open spec fn fill_slot<T>(a: Arena<T>, k: int) -> int {
    let fl = a.free_list();
    if k < fl.len() {
        fl[fl.len() - 1 - k] as int
    } else {
        a@.len() + k - fl.len()
    }
}

/// What copy `k` of a plan hangs from: the copy its plan entry names, or
/// nothing for the first.
pub open spec fn copy_parent<N>(plan: Seq<(ArenaId<N>, Option<usize>)>, copies: Seq<ArenaId<N>>, k: int) -> NodeParent<N> {
    match plan[k].1 {
        Some(p) => NodeParent::Node(copies[p as int]),
        None => NodeParent::Orphan,
    }
}

/// Each copy hangs from the copy of the node its original's entry names,
/// never from another copy; the first copy hangs from nothing.
pub proof fn law_copy_parent<N>(plan: Seq<(ArenaId<N>, Option<usize>)>, copies: Seq<ArenaId<N>>, k: int)
    ensures
        plan[k].1 matches Some(p) ==> copy_parent(plan, copies, k) == NodeParent::Node(copies[p as int]),
        plan[k].1 is None ==> copy_parent(plan, copies, k) == NodeParent::<N>::Orphan,
{
}

/// Carries out a copy plan such as [`clone_node_plan`] makes: for each
/// entry in turn, the node it names is cloned, given the parent the entry
/// names through `reparent`, and inserted. Returns the handles of the
/// copies, in plan order; they take the arena's freed slots, most recently
/// freed first, then new slots at the end, and no other slot changes.
pub fn apply_clone_plan<N: Clone, F: Fn(N, NodeParent<N>) -> N>(
    nodes: &mut Arena<N>,
    plan: &Vec<(ArenaId<N>, Option<usize>)>,
    reparent: F,
) -> (copies: Vec<ArenaId<N>>)
    requires
        old(nodes).wf(),
        forall|k: int| 0 <= k < plan@.len() ==> old(nodes).slot((#[trigger] plan@[k]).0@ as int) is Some,
        forall|k: int| 0 <= k < plan@.len() ==> ((#[trigger] plan@[k]).1 matches Some(p) ==> p < k),
        forall|n: N, p: NodeParent<N>| call_requires(reparent, (n, p)),
    ensures
        final(nodes).wf(),
        copies@.len() == plan@.len(),
        final(nodes).reserved() == old(nodes).reserved(),
        forall|k: int| 0 <= k < plan@.len() ==> (#[trigger] copies@[k])@ == fill_slot(*old(nodes), k),
        forall|k: int|
            0 <= k < plan@.len() ==> (final(nodes).slot((#[trigger] copies@[k])@ as int) matches Some(x) && exists|c: N|
                cloned(old(nodes).slot(plan@[k].0@ as int)->Some_0, c) && call_ensures(
                    reparent,
                    (c, copy_parent(plan@, copies@, k)),
                    x,
                )),
        forall|k: int|
            0 <= k < plan@.len() ==> (final(nodes).slot((#[trigger] copies@[k])@ as int) matches Some(x) && exists|c: N|
                cloned(old(nodes).slot(plan@[k].0@ as int)->Some_0, c) && call_ensures(
                    reparent,
                    (
                        c,
                        match plan@[k].1 {
                            Some(p) => NodeParent::Node(copies@[p as int]),
                            None => NodeParent::Orphan,
                        },
                    ),
                    x,
                )),
        forall|i: int|
            0 <= i < old(nodes)@.len() && (forall|k: int| 0 <= k < plan@.len() ==> fill_slot(*old(nodes), k) != i)
                ==> #[trigger] final(nodes)@[i] == old(nodes)@[i],
        final(nodes)@.len() == if plan@.len() > old(nodes).free_list().len() {
            old(nodes)@.len() + plan@.len() - old(nodes).free_list().len()
        } else {
            old(nodes)@.len() as int
        },
{
    let ghost a0 = *nodes;
    let ghost fl = a0.free_list();
    let mut copies: Vec<ArenaId<N>> = Vec::new();
    let mut k: usize = 0;
    while k < plan.len()
        invariant
            a0 == *old(nodes),
            fl == a0.free_list(),
            a0.wf(),
            nodes.wf(),
            0 <= k <= plan@.len(),
            copies@.len() == k,
            nodes.reserved() == a0.reserved(),
            forall|k2: int| 0 <= k2 < plan@.len() ==> a0.slot((#[trigger] plan@[k2]).0@ as int) is Some,
            forall|k2: int| 0 <= k2 < plan@.len() ==> ((#[trigger] plan@[k2]).1 matches Some(p) ==> p < k2),
            forall|n: N, p: NodeParent<N>| call_requires(reparent, (n, p)),
            nodes.free_list() == fl.subrange(0, fl.len() - (if k < fl.len() { k as int } else { fl.len() as int })),
            nodes@.len() == if k > fl.len() { a0@.len() + k - fl.len() } else { a0@.len() as int },
            forall|j: int| 0 <= j < k ==> (#[trigger] copies@[j])@ == fill_slot(a0, j),
            forall|j: int|
                0 <= j < k ==> (nodes.slot((#[trigger] copies@[j])@ as int) matches Some(x) && exists|c: N|
                    cloned(a0.slot(plan@[j].0@ as int)->Some_0, c) && call_ensures(
                        reparent,
                        (c, copy_parent(plan@, copies@, j)),
                        x,
                    )),
            forall|i: int|
                0 <= i < a0@.len() && (forall|j: int| 0 <= j < k ==> fill_slot(a0, j) != i) ==> #[trigger] nodes@[i]
                    == a0@[i],
        decreases plan@.len() - k,
    {
        let source = plan[k].0;
        let parent_pos = plan[k].1;
        proof {
            lemma_fill_slot_fresh(a0, k as int);
            assert(a0.slot(plan@[k as int].0@ as int) is Some);
            let i = source@ as int;
            assert forall|j: int| 0 <= j < k implies fill_slot(a0, j) != i by {
                lemma_fill_slot_fresh(a0, j);
            }
            assert(nodes@[i] == a0@[i]);
        }
        let item = match nodes.get(&source) {
            Some(x) => x.clone(),
            None => {
                proof {
                    assert(false);
                }
                return copies;
            },
        };
        let p = match parent_pos {
            Some(pi) => NodeParent::Node(copies[pi]),
            None => NodeParent::Orphan,
        };
        let ghost copies_before = copies@;
        let ghost before = *nodes;
        let copy = reparent(item, p);
        let id = nodes.insert(copy);
        copies.push(id);
        proof {
            lemma_fill_slot_distinct(a0, k as int);
            assert(id@ == before.next_slot());
            if k < fl.len() {
                let sub = fl.subrange(0, fl.len() - k);
                assert(before.free_list() == sub);
                assert(sub.last() == fl[fl.len() - 1 - k]);
            } else {
                assert(before.free_list().len() == 0);
                assert(before@.len() == a0@.len() + k - fl.len());
                before.lemma_len_bound();
            }
            assert(id@ == fill_slot(a0, k as int));
            assert forall|j: int| 0 <= j < k implies copy_parent(plan@, copies@, j) == copy_parent(plan@, copies_before, j) by {
                assert(copies@[j] == copies_before[j]);
                if plan@[j].1 is Some {
                    let pj = plan@[j].1->Some_0;
                    assert(copies@[pj as int] == copies_before[pj as int]);
                }
            }
            assert(copy_parent(plan@, copies@, k as int) == p);
            if k < fl.len() {
                assert(fl.subrange(0, fl.len() - k).drop_last() =~= fl.subrange(0, fl.len() - (k + 1)));
            }
            assert forall|j: int| 0 <= j < k + 1 implies (nodes.slot((#[trigger] copies@[j])@ as int) matches Some(x)
                && exists|c: N| cloned(a0.slot(plan@[j].0@ as int)->Some_0, c) && call_ensures(
                    reparent,
                    (c, copy_parent(plan@, copies@, j)),
                    x,
                )) by {
                if j < k {
                    assert(copies@[j] == copies_before[j]);
                    assert(fill_slot(a0, j) != fill_slot(a0, k as int));
                    assert(nodes.slot(fill_slot(a0, j)) == before.slot(fill_slot(a0, j)));
                } else {
                    assert(nodes.slot(id@ as int) == Some(copy));
                    assert(cloned(a0.slot(plan@[j].0@ as int)->Some_0, item));
                }
            }
            assert forall|i: int|
                0 <= i < a0@.len() && (forall|j: int| 0 <= j < k + 1 ==> fill_slot(a0, j) != i) implies #[trigger] nodes@[i]
                    == a0@[i] by {
                assert(fill_slot(a0, k as int) != i);
                assert(before@[i] == a0@[i]);
            }
        }
        k = k + 1;
    }
    proof {
        assert forall|j: int| 0 <= j < plan@.len() implies copy_parent(plan@, copies@, j) == match plan@[j].1 {
            Some(p) => NodeParent::Node(copies@[p as int]),
            None => NodeParent::<N>::Orphan,
        } by {
            law_copy_parent(plan@, copies@, j);
        }
    }
    copies
}

/// The slot a run of inserts fills is empty or new.
proof fn lemma_fill_slot_fresh<T>(a: Arena<T>, k: int)
    requires
        a.wf(),
        0 <= k,
    ensures
        fill_slot(a, k) >= a@.len() || a@[fill_slot(a, k)] is None,
        fill_slot(a, k) >= 0,
{
    let fl = a.free_list();
    if k < fl.len() {
        assert(fl[fl.len() - 1 - k] < a@.len());
    }
}

/// A run of inserts fills a different slot each time.
proof fn lemma_fill_slot_distinct<T>(a: Arena<T>, k: int)
    requires
        a.wf(),
        0 <= k,
    ensures
        forall|j: int| 0 <= j < k ==> fill_slot(a, j) != fill_slot(a, k),
{
    let fl = a.free_list();
    assert forall|j: int| 0 <= j < k implies fill_slot(a, j) != fill_slot(a, k) by {
        if k < fl.len() {
            assert(fl[fl.len() - 1 - j] != fl[fl.len() - 1 - k]);
        } else if j < fl.len() {
            assert(fl[fl.len() - 1 - j] < a@.len());
        }
    }
}

/// The parent slot of a listed node is the node its entry hangs from.
proof fn lemma_parent_slot_entry<N>(nodes: Seq<(ArenaId<N>, NodeParent<N>)>, x: usize, j: int)
    ensures
        parent_slot(nodes, x, j) == match entry_parent(nodes, x, j) {
            Some(NodeParent::Node(p)) => Some(p@),
            _ => None::<usize>,
        },
    decreases j,
{
    if j > 0 && nodes[j - 1].0@ != x {
        lemma_parent_slot_entry(nodes, x, j - 1);
    }
}

/// Going up `d` nodes from `x` passes only entries that hang from nodes.
pub open spec fn node_chain<N>(nodes: Seq<(ArenaId<N>, NodeParent<N>)>, x: usize, d: nat) -> bool {
    forall|e: nat|
        e < d ==> (#[trigger] ancestor(nodes, x, e) matches Some(y) && entry_parent(nodes, y, nodes.len() as int)
            matches Some(NodeParent::Node(q)))
}

/// A scene found above `x` is the scene that the first entry on the way up
/// that does not hang from a node hangs from: going up `d` steps passes
/// only entries hanging from nodes and reaches an entry hanging from that
/// scene.
pub proof fn law_scene_above_found<N>(nodes: Seq<(ArenaId<N>, NodeParent<N>)>, x: usize, steps: nat)
    ensures
        scene_above(nodes, x, steps) matches Some(v) ==> exists|d: nat|
            d < steps && node_chain(nodes, x, d) && (#[trigger] ancestor(nodes, x, d) matches Some(y) && entry_parent(
                nodes,
                y,
                nodes.len() as int,
            ) matches Some(NodeParent::Scene(t)) && t@ == v),
    decreases steps,
{
    if steps > 0 {
        lemma_parent_slot_entry(nodes, x, nodes.len() as int);
        match entry_parent(nodes, x, nodes.len() as int) {
            Some(NodeParent::Scene(t)) => {
                assert(node_chain(nodes, x, 0));
                assert(ancestor(nodes, x, 0) == Some(x));
            },
            Some(NodeParent::Node(p)) => {
                law_scene_above_found(nodes, p@, (steps - 1) as nat);
                if scene_above(nodes, x, steps) is Some {
                    let d = choose|d: nat|
                        d < steps - 1 && node_chain(nodes, p@, d) && (#[trigger] ancestor(nodes, p@, d) matches Some(y)
                            && entry_parent(nodes, y, nodes.len() as int) matches Some(NodeParent::Scene(t)) && t@
                            == scene_above(nodes, x, steps)->Some_0);
                    assert(ancestor(nodes, x, d + 1) == ancestor(nodes, p@, d));
                    assert forall|e: nat| e < d + 1 implies (#[trigger] ancestor(nodes, x, e) matches Some(y)
                        && entry_parent(nodes, y, nodes.len() as int) matches Some(NodeParent::Node(q))) by {
                        if e > 0 {
                            assert(ancestor(nodes, x, e) == ancestor(nodes, p@, (e - 1) as nat));
                            assert(ancestor(nodes, p@, (e - 1) as nat) matches Some(y) && entry_parent(
                                nodes,
                                y,
                                nodes.len() as int,
                            ) matches Some(NodeParent::Node(q)));
                        } else {
                            assert(ancestor(nodes, x, 0) == Some(x));
                        }
                    }
                    assert(node_chain(nodes, x, d + 1));
                }
            },
            _ => {},
        }
    }
}

/// Conversely, when going up `d` steps from `x` passes only entries that
/// hang from nodes and reaches one hanging from scene `t`, and `d` is within
/// the steps allowed, that scene is the one found.
pub proof fn law_scene_above_reached<N>(
    nodes: Seq<(ArenaId<N>, NodeParent<N>)>,
    x: usize,
    steps: nat,
    d: nat,
    t: ArenaId<Scene>,
)
    requires
        d < steps,
        node_chain(nodes, x, d),
        ancestor(nodes, x, d) matches Some(y) && entry_parent(nodes, y, nodes.len() as int) == Some(
            NodeParent::<N>::Scene(t),
        ),
    ensures
        scene_above(nodes, x, steps) == Some(t@),
    decreases d,
{
    lemma_parent_slot_entry(nodes, x, nodes.len() as int);
    if d == 0 {
        assert(ancestor(nodes, x, 0) == Some(x));
    } else {
        assert(ancestor(nodes, x, 0) == Some(x));
        let p = entry_parent(nodes, x, nodes.len() as int)->Some_0->Node_0;
        assert forall|e: nat| e < (d - 1) as nat implies (#[trigger] ancestor(nodes, p@, e) matches Some(y)
            && entry_parent(nodes, y, nodes.len() as int) matches Some(NodeParent::Node(q))) by {
            assert(ancestor(nodes, x, e + 1) == ancestor(nodes, p@, e));
            assert(ancestor(nodes, x, e + 1) matches Some(y) && entry_parent(nodes, y, nodes.len() as int) matches Some(
                NodeParent::Node(q),
            ));
        }
        assert(ancestor(nodes, x, d) == ancestor(nodes, p@, (d - 1) as nat));
        law_scene_above_reached(nodes, p@, (steps - 1) as nat, (d - 1) as nat, t);
    }
}

} // verus!
