//! The logical history: states linked to their parents by inner hash.
//!
//! A `StateGraph` holds the states that have been loaded so far, each with its
//! parents' inner hashes (or none, when the state could not be decoded because
//! its content failed the integrity check). The walk from a state finds every
//! state reachable through parent links; it is what the ratchet and the fetch
//! path are built on.
use vstd::prelude::*;

use crate::bytes::{bytes_eq, copy_bytes};
use crate::model::{ids_view, opt_pack_view, PackRef};
use crate::wire::WirePack;

verus! {

broadcast use vstd::seq::group_seq_axioms;

/// A loaded state: its inner hash, its parents' inner hashes when it could be
/// decoded, and the pack that the configured namespace holds in it.
pub struct StateNode {
    pub sha256: Vec<u8>,
    pub parents: Option<Vec<Vec<u8>>>,
    pub pack: Option<PackRef>,
}

pub struct StateGraph {
    pub nodes: Vec<StateNode>,
}

/// No two nodes share an inner hash.
pub open spec fn distinct_hashes(g: Seq<StateNode>) -> bool {
    forall|i: int, j: int|
        0 <= i < g.len() && 0 <= j < g.len() && i != j ==> (#[trigger] g[i]).sha256@ != (
        #[trigger] g[j]).sha256@
}

/// `b` is among the parents of the decoded state `n`.
pub open spec fn has_parent(n: StateNode, b: Seq<u8>) -> bool {
    match n.parents {
        Some(ps) => ids_view(ps@).contains(b),
        None => false,
    }
}

pub open spec fn blocked(stop: Option<Seq<u8>>, h: Seq<u8>) -> bool {
    stop == Some(h)
}

/// `b` is a parent of the state `a`, and the walk may go on from `a`.
pub open spec fn edge(g: Seq<StateNode>, stop: Option<Seq<u8>>, a: Seq<u8>, b: Seq<u8>) -> bool {
    &&& !blocked(stop, a)
    &&& exists|i: int|
        0 <= i < g.len() && (#[trigger] g[i]).sha256@ == a && has_parent(g[i], b)
}

pub open spec fn is_path(g: Seq<StateNode>, stop: Option<Seq<u8>>, p: Seq<Seq<u8>>) -> bool {
    p.len() >= 1 && forall|i: int| 0 <= i < p.len() - 1 ==> #[trigger] edge(g, stop, p[i], p[i + 1])
}

/// `b` can be reached from `a` through zero or more parent links.
pub open spec fn reaches(g: Seq<StateNode>, stop: Option<Seq<u8>>, a: Seq<u8>, b: Seq<u8>) -> bool {
    exists|p: Seq<Seq<u8>>| #[trigger] is_path(g, stop, p) && p[0] == a && p.last() == b
}

pub proof fn lemma_reaches_refl(g: Seq<StateNode>, stop: Option<Seq<u8>>, a: Seq<u8>)
    ensures
        reaches(g, stop, a, a),
{
    let p = seq![a];
    assert(is_path(g, stop, p));
}

pub proof fn lemma_reaches_step(g: Seq<StateNode>, stop: Option<Seq<u8>>, a: Seq<u8>, b: Seq<u8>, c: Seq<u8>)
    requires
        reaches(g, stop, a, b),
        edge(g, stop, b, c),
    ensures
        reaches(g, stop, a, c),
{
    let p = choose|p: Seq<Seq<u8>>| #[trigger] is_path(g, stop, p) && p[0] == a && p.last() == b;
    let q = p.push(c);
    assert forall|i: int| 0 <= i < q.len() - 1 implies #[trigger] edge(g, stop, q[i], q[i + 1]) by {
        if i < p.len() - 1 {
            assert(q[i] == p[i] && q[i + 1] == p[i + 1]);
        }
    }
    assert(is_path(g, stop, q));
}

/// A set that holds `a` and is closed under parent links holds all that `a`
/// reaches.
pub proof fn lemma_closed_holds_reachable(
    g: Seq<StateNode>,
    stop: Option<Seq<u8>>,
    s: Set<Seq<u8>>,
    a: Seq<u8>,
    b: Seq<u8>,
)
    requires
        s.contains(a),
        forall|x: Seq<u8>, y: Seq<u8>| s.contains(x) && #[trigger] edge(g, stop, x, y) ==> s.contains(y),
        reaches(g, stop, a, b),
    ensures
        s.contains(b),
{
    let p = choose|p: Seq<Seq<u8>>| #[trigger] is_path(g, stop, p) && p[0] == a && p.last() == b;
    lemma_path_in_closed(g, stop, s, p, p.len() - 1);
}

proof fn lemma_path_in_closed(g: Seq<StateNode>, stop: Option<Seq<u8>>, s: Set<Seq<u8>>, p: Seq<Seq<u8>>, k: int)
    requires
        is_path(g, stop, p),
        s.contains(p[0]),
        0 <= k < p.len(),
        forall|x: Seq<u8>, y: Seq<u8>| s.contains(x) && #[trigger] edge(g, stop, x, y) ==> s.contains(y),
    ensures
        s.contains(p[k]),
    decreases k,
{
    if k > 0 {
        lemma_path_in_closed(g, stop, s, p, k - 1);
        let m = k - 1;
        assert(edge(g, stop, p[m], p[m + 1]));
    }
}

/// Number of `true` entries.
pub open spec fn count_true(s: Seq<bool>) -> nat
    decreases s.len(),
{
    if s.len() == 0 {
        0
    } else {
        count_true(s.drop_last()) + if s.last() {
            1nat
        } else {
            0nat
        }
    }
}

pub proof fn lemma_count_true_bound(s: Seq<bool>)
    ensures
        count_true(s) <= s.len(),
    decreases s.len(),
{
    if s.len() > 0 {
        lemma_count_true_bound(s.drop_last());
    }
}

pub proof fn lemma_count_true_set(s: Seq<bool>, i: int)
    requires
        0 <= i < s.len(),
        !s[i],
    ensures
        count_true(s.update(i, true)) == count_true(s) + 1,
    decreases s.len(),
{
    if i == s.len() - 1 {
        assert(s.update(i, true).drop_last() =~= s.drop_last());
    } else {
        assert(s.update(i, true).drop_last() =~= s.drop_last().update(i, true));
        lemma_count_true_set(s.drop_last(), i);
    }
}

/// The index of the state whose inner hash is `h`, if the graph has one.
pub open spec fn node_index(g: Seq<StateNode>, h: Seq<u8>) -> Option<int> {
    if exists|j: int| 0 <= j < g.len() && (#[trigger] g[j]).sha256@ == h {
        Some(choose|j: int| 0 <= j < g.len() && (#[trigger] g[j]).sha256@ == h)
    } else {
        None
    }
}

pub proof fn lemma_node_index(g: Seq<StateNode>, j: int)
    requires
        distinct_hashes(g),
        0 <= j < g.len(),
    ensures
        node_index(g, g[j].sha256@) == Some(j),
{
    let h = g[j].sha256@;
    assert(exists|k: int| 0 <= k < g.len() && (#[trigger] g[k]).sha256@ == h);
    let c = choose|k: int| 0 <= k < g.len() && (#[trigger] g[k]).sha256@ == h;
    if c != j {
        assert(g[c].sha256@ != g[j].sha256@);
    }
}

/// The states a depth-first walk visits, in order, given the hashes still to
/// visit (`stack`, the next one last) and the states already visited
/// (`marked`). The parents of a visited state are taken in stored order, so
/// the last parent is visited first; a walk does not go on past `stop`.
pub open spec fn dfs_order(g: Seq<StateNode>, stop: Option<Seq<u8>>, stack: Seq<Seq<u8>>, marked: Seq<bool>) -> Seq<usize>
    decreases g.len() - count_true(marked), stack.len(),
    when marked.len() == g.len()
    via dfs_order_decreases
{
    if stack.len() == 0 {
        Seq::empty()
    } else {
        let h = stack.last();
        let rest = stack.drop_last();
        match node_index(g, h) {
            Some(j) => if !marked[j] {
                let next = if !blocked(stop, h) && g[j].parents is Some {
                    rest + ids_view(g[j].parents->Some_0@)
                } else {
                    rest
                };
                seq![j as usize] + dfs_order(g, stop, next, marked.update(j, true))
            } else {
                dfs_order(g, stop, rest, marked)
            },
            None => dfs_order(g, stop, rest, marked),
        }
    }
}

#[via_fn]
proof fn dfs_order_decreases(g: Seq<StateNode>, stop: Option<Seq<u8>>, stack: Seq<Seq<u8>>, marked: Seq<bool>) {
    lemma_count_true_bound(marked);
    if stack.len() > 0 {
        if let Some(j) = node_index(g, stack.last()) {
            if !marked[j] {
                lemma_count_true_set(marked, j);
                lemma_count_true_bound(marked.update(j, true));
            }
        }
    }
}

/// The order in which the walk from `root` visits the loaded states.
pub open spec fn walk_order(g: Seq<StateNode>, root: Seq<u8>, stop: Option<Seq<u8>>) -> Seq<usize> {
    dfs_order(g, stop, seq![root], Seq::new(g.len(), |i: int| false))
}

/// The first node whose inner hash is `h`.
pub fn find_node(g: &StateGraph, h: &[u8]) -> (r: Option<usize>)
    ensures
        r matches Some(j) ==> j < g.nodes@.len() && g.nodes@[j as int].sha256@ == h@,
        r is None ==> forall|j: int| 0 <= j < g.nodes@.len() ==> (#[trigger] g.nodes@[j]).sha256@ != h@,
{
    let mut i: usize = 0;
    while i < g.nodes.len()
        invariant
            0 <= i <= g.nodes@.len(),
            forall|j: int| 0 <= j < i ==> (#[trigger] g.nodes@[j]).sha256@ != h@,
        decreases g.nodes@.len() - i,
    {
        if bytes_eq(g.nodes[i].sha256.as_slice(), h) {
            return Some(i);
        }
        i = i + 1;
    }
    None
}

/// Whether `h` is one of `s`.
pub fn contains_bytes(s: &Vec<Vec<u8>>, h: &[u8]) -> (r: bool)
    ensures
        r == ids_view(s@).contains(h@),
{
    let mut i: usize = 0;
    while i < s.len()
        invariant
            0 <= i <= s@.len(),
            forall|j: int| 0 <= j < i ==> ids_view(s@)[j] != h@,
        decreases s@.len() - i,
    {
        if bytes_eq(s[i].as_slice(), h) {
            assert(ids_view(s@)[i as int] == h@);
            return true;
        }
        i = i + 1;
    }
    false
}

/// What a walk from a state finds.
pub struct Walk {
    /// The loaded states reached, as node indices, in the order visited.
    pub order: Vec<usize>,
    /// The inner hashes reached that no loaded state has.
    pub pending: Vec<Vec<u8>>,
}

impl StateGraph {
    pub open spec fn wf(&self) -> bool {
        distinct_hashes(self.nodes@)
    }

    /// A graph with no states.
    pub fn new() -> (r: StateGraph)
        ensures
            r.wf(),
            r.nodes@.len() == 0,
    {
        StateGraph { nodes: Vec::new() }
    }

    /// Adds a state unless one with the same inner hash is there already;
    /// says whether it was added.
    pub fn add(&mut self, node: StateNode) -> (r: bool)
        requires
            old(self).wf(),
        ensures
            final(self).wf(),
            r == forall|j: int| 0 <= j < old(self).nodes@.len() ==> (#[trigger] old(self).nodes@[j]).sha256@
                != node.sha256@,
            r ==> final(self).nodes@ == old(self).nodes@.push(node),
            !r ==> final(self).nodes@ == old(self).nodes@,
    {
        match find_node(self, node.sha256.as_slice()) {
            Some(_) => false,
            None => {
                self.nodes.push(node);
                true
            },
        }
    }

    /// Walks parent links from `root`, not going on from `stop`.
    pub fn walk(&self, root: &[u8], stop: Option<&[u8]>) -> (r: Walk)
        requires
            self.wf(),
        ensures
            forall|j: int| 0 <= j < self.nodes@.len() ==> (r.order@.contains(j as usize) <==> reaches(
                self.nodes@,
                opt_view(stop),
                root@,
                #[trigger] self.nodes@[j].sha256@,
            )),
            forall|k: int| 0 <= k < r.order@.len() ==> #[trigger] r.order@[k] < self.nodes@.len(),
            r.order@.no_duplicates(),
            r.order@ == walk_order(self.nodes@, root@, opt_view(stop)),
            ids_view(r.pending@).no_duplicates(),
            forall|h: Seq<u8>| #[trigger] ids_view(r.pending@).contains(h) <==> (reaches(
                self.nodes@,
                opt_view(stop),
                root@,
                h,
            ) && forall|j: int| 0 <= j < self.nodes@.len() ==> (#[trigger] self.nodes@[j]).sha256@ != h),
    {
        let ghost g = self.nodes@;
        let ghost st = opt_view(stop);
        let n = self.nodes.len();
        let mut marked: Vec<bool> = Vec::new();
        let mut i: usize = 0;
        while i < n
            invariant
                0 <= i <= n,
                n == g.len(),
                marked@.len() == i,
                forall|j: int| 0 <= j < i ==> !marked@[j],
            decreases n - i,
        {
            marked.push(false);
            i = i + 1;
        }
        proof {
            assert(count_true(marked@) == 0) by {
                let mut k: int = 0;
                assert forall|m: int| 0 <= m <= marked@.len() implies count_true(#[trigger] marked@.take(m)) == 0 by {
                    lemma_count_zero(marked@, m);
                }
                assert(marked@.take(marked@.len() as int) =~= marked@);
            }
        }
        let mut count: usize = 0;
        let mut order: Vec<usize> = Vec::new();
        let mut pending: Vec<Vec<u8>> = Vec::new();
        let mut stack: Vec<Vec<u8>> = Vec::new();
        stack.push(copy_bytes(root));
        let ghost full = walk_order(g, root@, st);
        proof {
            lemma_reaches_refl(g, st, root@);
            assert(ids_view(stack@)[0] == root@);
            assert(marked@ =~= Seq::new(g.len(), |i: int| false));
            assert(ids_view(stack@) =~= seq![root@]);
            assert(order@ + full =~= full);
        }
        while stack.len() > 0
            invariant
                g == self.nodes@,
                st == opt_view(stop),
                distinct_hashes(g),
                n == g.len(),
                marked@.len() == n,
                count == count_true(marked@),
                forall|j: int| 0 <= j < n ==> (#[trigger] marked@[j] <==> order@.contains(j as usize)),
                forall|k: int| 0 <= k < order@.len() ==> #[trigger] order@[k] < n,
                order@.no_duplicates(),
                ids_view(pending@).no_duplicates(),
                full == walk_order(g, root@, st),
                order@ + dfs_order(g, st, ids_view(stack@), marked@) == full,
                // everything seen is reachable
                forall|h: Seq<u8>| #[trigger] ids_view(stack@).contains(h) ==> reaches(g, st, root@, h),
                forall|j: int| 0 <= j < n && #[trigger] marked@[j] ==> reaches(g, st, root@, g[j].sha256@),
                forall|h: Seq<u8>| #[trigger] ids_view(pending@).contains(h) ==> reaches(g, st, root@, h)
                    && forall|j: int| 0 <= j < n ==> (#[trigger] g[j]).sha256@ != h,
                // nothing reachable is lost
                ids_view(stack@).contains(root@) || settled(g, marked@, ids_view(pending@), root@),
                forall|x: Seq<u8>, y: Seq<u8>|
                    settled(g, marked@, ids_view(pending@), x) && #[trigger] edge(g, st, x, y) ==> ids_view(
                        stack@,
                    ).contains(y) || settled(g, marked@, ids_view(pending@), y),
            decreases n - count, stack@.len(),
        {
            let ghost old_stack = ids_view(stack@);
            let ghost old_marked = marked@;
            let ghost old_pending = ids_view(pending@);
            let h = stack.pop().unwrap();
            proof {
                assert(old_stack =~= ids_view(stack@).push(h@));
                assert(old_stack.drop_last() =~= ids_view(stack@));
                assert(old_stack.contains(h@)) by {
                    assert(old_stack[old_stack.len() - 1] == h@);
                }
                lemma_count_true_bound(marked@);
            }
            match find_node(self, h.as_slice()) {
                Some(j) => {
                    if !marked[j] {
                        proof {
                            lemma_count_true_set(marked@, j as int);
                            lemma_count_true_bound(marked@.update(j as int, true));
                            assert(!marked@[j as int]);
                            assert(!order@.contains(j));
                        }
                        marked.set(j, true);
                        count = count + 1;
                        let ghost old_order = order@;
                        order.push(j);
                        proof {
                            assert forall|m: int| 0 <= m < n implies (#[trigger] marked@[m] <==> order@.contains(
                                m as usize,
                            )) by {
                                if m != j {
                                    assert(marked@[m] == old_marked[m]);
                                    if order@.contains(m as usize) {
                                        let k = choose|k: int| 0 <= k < order@.len() && order@[k] == m as usize;
                                        assert(k < old_order.len());
                                        assert(old_order[k] == m as usize);
                                    }
                                    if old_order.contains(m as usize) {
                                        let k = choose|k: int| 0 <= k < old_order.len() && old_order[k] == m as usize;
                                        assert(order@[k] == m as usize);
                                    }
                                } else {
                                    assert(order@[order@.len() - 1] == j);
                                }
                            }
                            assert(reaches(g, st, root@, h@));
                        }
                        let go_on = match stop {
                            Some(s) => !bytes_eq(s, h.as_slice()),
                            None => true,
                        };
                        if go_on {
                            match &self.nodes[j].parents {
                                Some(ps) => {
                                    let mut k: usize = 0;
                                    let ghost base = ids_view(stack@);
                                    while k < ps.len()
                                        invariant
                                            0 <= k <= ps@.len(),
                                            ids_view(stack@) == base + ids_view(ps@).take(k as int),
                                        decreases ps@.len() - k,
                                    {
                                        let c = copy_bytes(ps[k].as_slice());
                                        let ghost prev = stack@;
                                        stack.push(c);
                                        assert(ids_view(stack@) =~= ids_view(prev).push(ids_view(ps@)[k as int]));
                                        assert(ids_view(ps@).take(k as int + 1) =~= ids_view(ps@).take(k as int).push(
                                            ids_view(ps@)[k as int],
                                        ));
                                        k = k + 1;
                                    }
                                    assert(ids_view(ps@).take(ps@.len() as int) =~= ids_view(ps@));
                                },
                                None => {},
                            }
                        }
                        proof {
                            lemma_walk_mark(g, st, root@, old_stack, ids_view(stack@), old_marked, marked@,
                                old_pending, j as int, h@, go_on);
                            lemma_node_index(g, j as int);
                            assert(go_on == !blocked(st, h@));
                            let next = if !blocked(st, h@) && g[j as int].parents is Some {
                                old_stack.drop_last() + ids_view(g[j as int].parents->Some_0@)
                            } else {
                                old_stack.drop_last()
                            };
                            assert(ids_view(stack@) == next);
                            assert(dfs_order(g, st, old_stack, old_marked) == seq![j] + dfs_order(
                                g,
                                st,
                                next,
                                old_marked.update(j as int, true),
                            ));
                            assert(order@ =~= old_order + seq![j]);
                            assert(order@ + dfs_order(g, st, ids_view(stack@), marked@) =~= old_order + (seq![j]
                                + dfs_order(g, st, next, old_marked.update(j as int, true))));
                        }
                    } else {
                        proof {
                            lemma_walk_skip(g, st, root@, old_stack, ids_view(stack@), marked@, old_pending, h@);
                            lemma_node_index(g, j as int);
                            assert(dfs_order(g, st, old_stack, marked@) == dfs_order(g, st, old_stack.drop_last(), marked@));
                        }
                    }
                },
                None => {
                    proof {
                        assert(node_index(g, h@) is None);
                        assert(dfs_order(g, st, old_stack, marked@) == dfs_order(g, st, old_stack.drop_last(), marked@));
                    }
                    if !contains_bytes(&pending, h.as_slice()) {
                        let ghost hv = h@;
                        pending.push(h);
                        proof {
                            assert(ids_view(pending@) =~= old_pending.push(hv));
                            assert forall|a: int, b: int|
                                0 <= a < ids_view(pending@).len() && 0 <= b < ids_view(pending@).len() && a != b
                                    implies ids_view(pending@)[a] != ids_view(pending@)[b] by {
                                if a == old_pending.len() {
                                    assert(old_pending[b] == ids_view(pending@)[b]);
                                } else if b == old_pending.len() {
                                    assert(old_pending[a] == ids_view(pending@)[a]);
                                } else {
                                    assert(old_pending[a] == ids_view(pending@)[a]);
                                    assert(old_pending[b] == ids_view(pending@)[b]);
                                }
                            }
                            assert forall|x: Seq<u8>| #[trigger] ids_view(pending@).contains(x) implies reaches(
                                g,
                                st,
                                root@,
                                x,
                            ) && forall|m: int| 0 <= m < n ==> (#[trigger] g[m]).sha256@ != x by {
                                let k = choose|k: int| 0 <= k < ids_view(pending@).len() && ids_view(pending@)[k] == x;
                                if k < old_pending.len() {
                                    assert(old_pending[k] == x);
                                    assert(old_pending.contains(x));
                                }
                            }
                            lemma_walk_pending(g, st, root@, old_stack, ids_view(stack@), marked@, old_pending,
                                hv);
                        }
                    } else {
                        proof {
                            lemma_walk_skip(g, st, root@, old_stack, ids_view(stack@), marked@, old_pending, h@);
                        }
                    }
                },
            }
        }
        proof {
            let s = Set::new(|x: Seq<u8>| settled(g, marked@, ids_view(pending@), x));
            assert forall|x: Seq<u8>, y: Seq<u8>| s.contains(x) && #[trigger] edge(g, st, x, y) implies s.contains(y) by {
                assert(!ids_view(stack@).contains(y));
            }
            assert forall|j: int| 0 <= j < n implies (order@.contains(j as usize) <==> reaches(
                g,
                st,
                root@,
                #[trigger] g[j].sha256@,
            )) by {
                assert(marked@[j] <==> order@.contains(j as usize));
                if reaches(g, st, root@, g[j].sha256@) {
                    lemma_closed_holds_reachable(g, st, s, root@, g[j].sha256@);
                    assert(settled(g, marked@, ids_view(pending@), g[j].sha256@));
                    if ids_view(pending@).contains(g[j].sha256@) {
                        assert(g[j].sha256@ != g[j].sha256@);
                    }
                    let m = choose|m: int| 0 <= m < g.len() && marked@[m] && (#[trigger] g[m]).sha256@ == g[j].sha256@;
                    if m != j {
                        assert(g[m].sha256@ != g[j].sha256@);
                    }
                }
            }
            assert forall|h: Seq<u8>|
                reaches(g, st, root@, h) && (forall|j: int| 0 <= j < n ==> (#[trigger] g[j]).sha256@ != h)
                implies #[trigger] ids_view(pending@).contains(h) by {
                lemma_closed_holds_reachable(g, st, s, root@, h);
            }
        }
        Walk { order, pending }
    }
}

pub open spec fn opt_view(o: Option<&[u8]>) -> Option<Seq<u8>> {
    match o {
        Some(s) => Some(s@),
        None => None,
    }
}

/// `h` has been dealt with: a marked state has it, or it is known to be missing.
pub open spec fn settled(g: Seq<StateNode>, marked: Seq<bool>, pending: Seq<Seq<u8>>, h: Seq<u8>) -> bool {
    (exists|m: int| 0 <= m < g.len() && marked[m] && (#[trigger] g[m]).sha256@ == h) || pending.contains(h)
}

proof fn lemma_count_zero(s: Seq<bool>, m: int)
    requires
        0 <= m <= s.len(),
        forall|j: int| 0 <= j < s.len() ==> !s[j],
    ensures
        count_true(s.take(m)) == 0,
    decreases m,
{
    if m > 0 {
        assert(s.take(m).drop_last() =~= s.take(m - 1));
        lemma_count_zero(s, m - 1);
    }
}

proof fn lemma_walk_skip(
    g: Seq<StateNode>,
    st: Option<Seq<u8>>,
    root: Seq<u8>,
    old_stack: Seq<Seq<u8>>,
    stack: Seq<Seq<u8>>,
    marked: Seq<bool>,
    pending: Seq<Seq<u8>>,
    h: Seq<u8>,
)
    requires
        old_stack == stack.push(h),
        settled(g, marked, pending, h),
        old_stack.contains(root) || settled(g, marked, pending, root),
        forall|x: Seq<u8>| #[trigger] old_stack.contains(x) ==> reaches(g, st, root, x),
        forall|x: Seq<u8>, y: Seq<u8>|
            settled(g, marked, pending, x) && #[trigger] edge(g, st, x, y) ==> old_stack.contains(y)
                || settled(g, marked, pending, y),
    ensures
        stack.contains(root) || settled(g, marked, pending, root),
        forall|x: Seq<u8>| #[trigger] stack.contains(x) ==> reaches(g, st, root, x),
        forall|x: Seq<u8>, y: Seq<u8>|
            settled(g, marked, pending, x) && #[trigger] edge(g, st, x, y) ==> stack.contains(y)
                || settled(g, marked, pending, y),
{
    assert forall|x: Seq<u8>| #[trigger] stack.contains(x) implies old_stack.contains(x) by {
        let k = choose|k: int| 0 <= k < stack.len() && stack[k] == x;
        assert(old_stack[k] == x);
    }
    assert forall|y: Seq<u8>| #[trigger] old_stack.contains(y) implies stack.contains(y) || y == h by {
        let k = choose|k: int| 0 <= k < old_stack.len() && old_stack[k] == y;
        if k < stack.len() {
            assert(stack[k] == y);
        }
    }
}

proof fn lemma_walk_pending(
    g: Seq<StateNode>,
    st: Option<Seq<u8>>,
    root: Seq<u8>,
    old_stack: Seq<Seq<u8>>,
    stack: Seq<Seq<u8>>,
    marked: Seq<bool>,
    old_pending: Seq<Seq<u8>>,
    h: Seq<u8>,
)
    requires
        old_stack == stack.push(h),
        forall|j: int| 0 <= j < g.len() ==> (#[trigger] g[j]).sha256@ != h,
        old_stack.contains(root) || settled(g, marked, old_pending, root),
        forall|x: Seq<u8>| #[trigger] old_stack.contains(x) ==> reaches(g, st, root, x),
        forall|x: Seq<u8>, y: Seq<u8>|
            settled(g, marked, old_pending, x) && #[trigger] edge(g, st, x, y) ==> old_stack.contains(y)
                || settled(g, marked, old_pending, y),
    ensures
        stack.contains(root) || settled(g, marked, old_pending.push(h), root),
        forall|x: Seq<u8>| #[trigger] stack.contains(x) ==> reaches(g, st, root, x),
        forall|x: Seq<u8>, y: Seq<u8>|
            settled(g, marked, old_pending.push(h), x) && #[trigger] edge(g, st, x, y) ==> stack.contains(y)
                || settled(g, marked, old_pending.push(h), y),
{
    let p2 = old_pending.push(h);
    assert(p2[p2.len() - 1] == h);
    assert forall|x: Seq<u8>| settled(g, marked, old_pending, x) implies settled(g, marked, p2, x) by {
        if old_pending.contains(x) {
            let k = choose|k: int| 0 <= k < old_pending.len() && old_pending[k] == x;
            assert(p2[k] == x);
        }
    }
    assert forall|x: Seq<u8>| settled(g, marked, p2, x) implies settled(g, marked, old_pending, x) || x == h by {
        if p2.contains(x) {
            let k = choose|k: int| 0 <= k < p2.len() && p2[k] == x;
            if k < old_pending.len() {
                assert(old_pending[k] == x);
            }
        }
    }
    assert forall|x: Seq<u8>| #[trigger] stack.contains(x) implies old_stack.contains(x) by {
        let k = choose|k: int| 0 <= k < stack.len() && stack[k] == x;
        assert(old_stack[k] == x);
    }
    assert forall|y: Seq<u8>| #[trigger] old_stack.contains(y) implies stack.contains(y) || y == h by {
        let k = choose|k: int| 0 <= k < old_stack.len() && old_stack[k] == y;
        if k < stack.len() {
            assert(stack[k] == y);
        }
    }
    assert forall|x: Seq<u8>, y: Seq<u8>|
        settled(g, marked, p2, x) && #[trigger] edge(g, st, x, y) implies stack.contains(y) || settled(
        g,
        marked,
        p2,
        y,
    ) by {
        if x == h {
            let i = choose|i: int|
                0 <= i < g.len() && (#[trigger] g[i]).sha256@ == x && has_parent(g[i], y);
            assert(g[i].sha256@ != h);
        }
    }
}

proof fn lemma_walk_mark(
    g: Seq<StateNode>,
    st: Option<Seq<u8>>,
    root: Seq<u8>,
    old_stack: Seq<Seq<u8>>,
    stack: Seq<Seq<u8>>,
    old_marked: Seq<bool>,
    marked: Seq<bool>,
    pending: Seq<Seq<u8>>,
    j: int,
    h: Seq<u8>,
    go_on: bool,
)
    requires
        distinct_hashes(g),
        0 <= j < g.len(),
        g[j].sha256@ == h,
        old_marked.len() == g.len(),
        marked == old_marked.update(j, true),
        go_on == !blocked(st, h),
        reaches(g, st, root, h),
        go_on && g[j].parents is Some ==> stack == old_stack.drop_last() + ids_view(g[j].parents->Some_0@),
        !(go_on && g[j].parents is Some) ==> stack == old_stack.drop_last(),
        old_stack.len() > 0 && old_stack.last() == h,
        old_stack.contains(root) || settled(g, old_marked, pending, root),
        forall|x: Seq<u8>| #[trigger] old_stack.contains(x) ==> reaches(g, st, root, x),
        forall|x: Seq<u8>, y: Seq<u8>|
            settled(g, old_marked, pending, x) && #[trigger] edge(g, st, x, y) ==> old_stack.contains(y)
                || settled(g, old_marked, pending, y),
    ensures
        stack.contains(root) || settled(g, marked, pending, root),
        forall|x: Seq<u8>| #[trigger] stack.contains(x) ==> reaches(g, st, root, x),
        forall|x: Seq<u8>, y: Seq<u8>|
            settled(g, marked, pending, x) && #[trigger] edge(g, st, x, y) ==> stack.contains(y)
                || settled(g, marked, pending, y),
{
    let base = old_stack.drop_last();
    assert(old_stack =~= base.push(h));
    assert forall|x: Seq<u8>| settled(g, old_marked, pending, x) implies settled(g, marked, pending, x) by {
        if !pending.contains(x) {
            let m = choose|m: int| 0 <= m < g.len() && old_marked[m] && (#[trigger] g[m]).sha256@ == x;
            assert(marked[m]);
        }
    }
    assert(settled(g, marked, pending, h)) by {
        assert(marked[j]);
    }
    assert forall|x: Seq<u8>| #[trigger] base.contains(x) implies stack.contains(x) by {
        let k = choose|k: int| 0 <= k < base.len() && base[k] == x;
        assert(stack[k] == x);
    }
    assert forall|y: Seq<u8>| #[trigger] old_stack.contains(y) implies base.contains(y) || y == h by {
        let k = choose|k: int| 0 <= k < old_stack.len() && old_stack[k] == y;
        if k < base.len() {
            assert(base[k] == y);
        }
    }
    assert forall|x: Seq<u8>| #[trigger] stack.contains(x) implies reaches(g, st, root, x) by {
        let k = choose|k: int| 0 <= k < stack.len() && stack[k] == x;
        if k < base.len() {
            assert(base[k] == x);
            assert(old_stack.contains(x)) by {
                assert(old_stack[k] == x);
            }
        } else {
            let ps = g[j].parents->Some_0;
            assert(ids_view(ps@)[k - base.len()] == x);
            assert(ids_view(ps@).contains(x));
            assert(edge(g, st, h, x));
            lemma_reaches_step(g, st, root, h, x);
        }
    }
    assert forall|x: Seq<u8>, y: Seq<u8>|
        settled(g, marked, pending, x) && #[trigger] edge(g, st, x, y) implies stack.contains(y) || settled(
        g,
        marked,
        pending,
        y,
    ) by {
        if settled(g, old_marked, pending, x) {
            if old_stack.contains(y) && !settled(g, marked, pending, y) {
                assert(base.contains(y) || y == h);
            }
        } else {
            // x is the newly marked state
            let m = choose|m: int| 0 <= m < g.len() && marked[m] && (#[trigger] g[m]).sha256@ == x;
            if m != j {
                assert(old_marked[m]);
            }
            assert(m == j);
            let i = choose|i: int|
                0 <= i < g.len() && (#[trigger] g[i]).sha256@ == x && has_parent(g[i], y);
            assert(i == j);
            let ps = g[j].parents->Some_0;
            let k = choose|k: int| 0 <= k < ids_view(ps@).len() && ids_view(ps@)[k] == y;
            assert(stack[base.len() + k] == y);
        }
    }
}

/// The candidate state has no logical path back to the state known locally.
#[derive(Debug, Clone, Copy, PartialEq, Eq)]
pub enum RatchetError {
    RatchetError,
}

/// What to do with the tracking ref, given the state known locally and the
/// candidate state fetched from the backend.
#[derive(Debug, Clone, Copy, PartialEq, Eq)]
pub enum Reconcile {
    /// Neither exists.
    Empty,
    /// Nothing is known locally: adopt the candidate.
    Adopt,
    /// The backend holds nothing: delete the tracking ref.
    Drop,
    /// The candidate descends from the local state: advance to it.
    Advance,
}

/// Whether `current` can be reached from `future` through parent links (a
/// state reaches itself). States that could not be decoded have no parents.
pub fn valid_path_exists(g: &StateGraph, current: &[u8], future: &[u8]) -> (r: bool)
    requires
        g.wf(),
    ensures
        r == reaches(g.nodes@, None, future@, current@),
{
    if bytes_eq(current, future) {
        proof {
            lemma_reaches_refl(g.nodes@, None, future@);
        }
        return true;
    }
    let w = g.walk(future, None);
    assert(opt_view(None) == None::<Seq<u8>>);
    match find_node(g, current) {
        Some(j) => {
            proof {
                assert(w.order@.contains((j as int) as usize) <==> reaches(
                    g.nodes@,
                    None,
                    future@,
                    g.nodes@[j as int].sha256@,
                ));
            }
            let mut k: usize = 0;
            while k < w.order.len()
                invariant
                    0 <= k <= w.order@.len(),
                    forall|m: int| 0 <= m < k ==> w.order@[m] != j,
                    j < g.nodes@.len(),
                    g.nodes@[j as int].sha256@ == current@,
                    w.order@.contains((j as int) as usize) <==> reaches(
                        g.nodes@,
                        None,
                        future@,
                        g.nodes@[j as int].sha256@,
                    ),
                decreases w.order@.len() - k,
            {
                if w.order[k] == j {
                    proof {
                        assert(w.order@[k as int] == j);
                        assert(w.order@.contains(j));
                        assert(g.nodes@[j as int].sha256@ == current@);
                        assert(w.order@.contains((j as int) as usize) <==> reaches(
                            g.nodes@,
                            None,
                            future@,
                            g.nodes@[j as int].sha256@,
                        ));
                    }
                    return true;
                }
                k = k + 1;
            }
            proof {
                assert(!w.order@.contains(j));
                assert(g.nodes@[j as int].sha256@ == current@);
                assert(w.order@.contains((j as int) as usize) <==> reaches(
                    g.nodes@,
                    None,
                    future@,
                    g.nodes@[j as int].sha256@,
                ));
            }
            false
        },
        None => contains_bytes(&w.pending, current),
    }
}

/// The inner hashes reachable from `future` (not going on past `stop`) that
/// the graph does not hold yet, each once: the states still to be loaded
/// before the graph answers for `future`.
pub fn missing_states(g: &StateGraph, future: &[u8], stop: Option<&[u8]>) -> (r: Vec<Vec<u8>>)
    requires
        g.wf(),
    ensures
        forall|h: Seq<u8>| #[trigger] ids_view(r@).contains(h) <==> (reaches(g.nodes@, opt_view(stop), future@, h)
            && forall|j: int| 0 <= j < g.nodes@.len() ==> (#[trigger] g.nodes@[j]).sha256@ != h),
        ids_view(r@).no_duplicates(),
{
    let w = g.walk(future, stop);
    w.pending
}

/// The ratchet: a candidate state is adopted only where the local state can
/// be reached from it through parent links.
pub fn ratchet(g: &StateGraph, current: Option<&[u8]>, future: Option<&[u8]>) -> (r: Result<Reconcile, RatchetError>)
    requires
        g.wf(),
    ensures
        current is None && future is None ==> r == Ok::<Reconcile, RatchetError>(Reconcile::Empty),
        current is None && future is Some ==> r == Ok::<Reconcile, RatchetError>(Reconcile::Adopt),
        current is Some && future is None ==> r == Ok::<Reconcile, RatchetError>(Reconcile::Drop),
        current is Some && future is Some ==> (r == Ok::<Reconcile, RatchetError>(Reconcile::Advance)
            || r == Err::<Reconcile, RatchetError>(RatchetError::RatchetError)),
        current is Some && future is Some ==> (r is Ok <==> reaches(
            g.nodes@,
            None,
            future->Some_0@,
            current->Some_0@,
        )),
{
    match current {
        None => match future {
            None => Ok(Reconcile::Empty),
            Some(_) => Ok(Reconcile::Adopt),
        },
        Some(c) => match future {
            None => Ok(Reconcile::Drop),
            Some(f) => {
                if valid_path_exists(g, c, f) {
                    Ok(Reconcile::Advance)
                } else {
                    Err(RatchetError::RatchetError)
                }
            },
        },
    }
}

/// Why the packs along a history could not be listed.
#[derive(Debug, Clone, Copy, PartialEq, Eq)]
pub enum HistoryError {
    /// A state on the path could not be decoded.
    Undecodable,
    /// A state on the path has not been loaded.
    Missing,
}

/// A state on the walk from `root` that is not the basis.
pub open spec fn on_history(g: Seq<StateNode>, root: Seq<u8>, basis: Option<Seq<u8>>, j: int) -> bool {
    0 <= j < g.len() && reaches(g, basis, root, g[j].sha256@) && !blocked(basis, g[j].sha256@)
}

/// Every listed pack is the pack of a state on the history.
pub open spec fn packs_from_history(g: Seq<StateNode>, root: Seq<u8>, basis: Option<Seq<u8>>, v: Seq<PackRef>) -> bool {
    forall|k: int| #![trigger v[k]] 0 <= k < v.len() ==> exists|j: int| #[trigger] on_history(g, root, basis, j)
        && opt_pack_view(g[j].pack) == Some(v[k]@)
}

/// The pack of every state on the history is listed.
pub open spec fn history_packs_listed(g: Seq<StateNode>, root: Seq<u8>, basis: Option<Seq<u8>>, v: Seq<PackRef>) -> bool {
    forall|j: int| #[trigger] on_history(g, root, basis, j) && g[j].pack is Some ==> exists|k: int| 0 <= k < v.len()
        && Some(#[trigger] v[k]@) == opt_pack_view(g[j].pack)
}

/// The packs of the states in `order`, in that order, leaving out the basis
/// and states that hold no pack.
pub open spec fn packs_along(g: Seq<StateNode>, order: Seq<usize>, basis: Option<Seq<u8>>) -> Seq<WirePack>
    decreases order.len(),
{
    if order.len() == 0 {
        Seq::empty()
    } else {
        let rest = packs_along(g, order.drop_last(), basis);
        let j = order.last() as int;
        if blocked(basis, g[j].sha256@) {
            rest
        } else {
            match g[j].pack {
                Some(p) => rest.push(p@),
                None => rest,
            }
        }
    }
}

pub open spec fn packs_view(v: Seq<PackRef>) -> Seq<WirePack> {
    v.map_values(|p: PackRef| p@)
}

/// The packs of every state from `root` back to the basis (which is neither
/// listed nor gone past), in the order the walk visits them: newest first.
#[verifier::rlimit(60)]
pub fn materialize_ordered_pack_list(g: &StateGraph, root: &[u8], basis: Option<&[u8]>) -> (r: Result<Vec<PackRef>, HistoryError>)
    requires
        g.wf(),
    ensures
        r matches Ok(v) ==> packs_view(v@) == packs_along(
            g.nodes@,
            walk_order(g.nodes@, root@, opt_view(basis)),
            opt_view(basis),
        ),
        walk_order(g.nodes@, root@, opt_view(basis)).no_duplicates(),
        r matches Ok(v) ==> packs_from_history(g.nodes@, root@, opt_view(basis), v@),
        r matches Ok(v) ==> history_packs_listed(g.nodes@, root@, opt_view(basis), v@),
        r is Err <==> (exists|j: int| #[trigger] on_history(g.nodes@, root@, opt_view(basis), j) && g.nodes@[j].parents is None)
            || (exists|h: Seq<u8>| #[trigger] reaches(g.nodes@, opt_view(basis), root@, h) && forall|j: int| 0 <= j < g.nodes@.len()
            ==> (#[trigger] g.nodes@[j]).sha256@ != h),
{
    let ghost gs = g.nodes@;
    let ghost b = opt_view(basis);
    let nn = g.nodes.len();
    let w = g.walk(root, basis);
    if w.pending.len() > 0 {
        proof {
            assert(ids_view(w.pending@).contains(ids_view(w.pending@)[0]));
        }
        return Err(HistoryError::Missing);
    }
    proof {
        assert forall|h: Seq<u8>| #[trigger] reaches(gs, b, root@, h) implies exists|j: int| 0 <= j < gs.len() && (#[trigger] gs[j]).sha256@ == h by {
            if forall|j: int| 0 <= j < gs.len() ==> (#[trigger] gs[j]).sha256@ != h {
                assert(ids_view(w.pending@).contains(h));
            }
        }
    }
    let mut out: Vec<PackRef> = Vec::new();
    let mut k: usize = 0;
    while k < w.order.len()
        invariant
            gs == g.nodes@,
            b == opt_view(basis),
            0 <= k <= w.order@.len(),
            forall|m: int| 0 <= m < w.order@.len() ==> #[trigger] w.order@[m] < gs.len(),
            forall|j: int| 0 <= j < gs.len() ==> (w.order@.contains(j as usize) <==> reaches(gs, b, root@, #[trigger] gs[j].sha256@)),
            forall|m: int| 0 <= m < k ==> !(on_history(gs, root@, b, #[trigger] w.order@[m] as int) && gs[w.order@[m] as int].parents is None),
            packs_from_history(gs, root@, b, out@),
            w.order@ == walk_order(gs, root@, b),
            w.order@.no_duplicates(),
            packs_view(out@) == packs_along(gs, w.order@.take(k as int), b),
            forall|m: int| 0 <= m < k && on_history(gs, root@, b, #[trigger] w.order@[m] as int) && gs[w.order@[m] as int].pack is Some
                ==> exists|i: int| 0 <= i < out@.len() && Some(#[trigger] out@[i]@) == opt_pack_view(gs[w.order@[m] as int].pack),
        decreases w.order@.len() - k,
    {
        let j = w.order[k];
        let is_basis = match basis {
            Some(s) => bytes_eq(s, g.nodes[j].sha256.as_slice()),
            None => false,
        };
        proof {
            assert(w.order@.contains(j));
            assert(reaches(gs, b, root@, gs[j as int].sha256@));
        }
        if !is_basis {
            if g.nodes[j].parents.is_none() {
                proof {
                    assert(on_history(gs, root@, b, j as int));
                }
                return Err(HistoryError::Undecodable);
            }
            match &g.nodes[j].pack {
                Some(p) => {
                    let c = p.copy();
                    let ghost prev = out@;
                    out.push(c);
                    proof {
                        assert(on_history(gs, root@, b, j as int));
                        assert forall|i: int| #![trigger out@[i]] 0 <= i < out@.len() implies exists|jj: int| #[trigger] on_history(gs, root@, b, jj)
                            && opt_pack_view(gs[jj].pack) == Some(out@[i]@) by {
                            if i < prev.len() {
                                assert(out@[i] == prev[i]);
                                assert(prev[i] == prev[i]);
                            } else {
                                assert(on_history(gs, root@, b, j as int));
                            }
                        }
                        assert(packs_from_history(gs, root@, b, out@));
                        assert(packs_view(out@) =~= packs_view(prev).push(p@));
                        assert forall|m: int| 0 <= m < k + 1 && on_history(gs, root@, b, #[trigger] w.order@[m] as int)
                            && gs[w.order@[m] as int].pack is Some implies exists|i: int| 0 <= i < out@.len()
                            && Some(#[trigger] out@[i]@) == opt_pack_view(gs[w.order@[m] as int].pack) by {
                            if m < k {
                                let i = choose|i: int| 0 <= i < prev.len() && Some(#[trigger] prev[i]@) == opt_pack_view(gs[w.order@[m] as int].pack);
                                assert(out@[i] == prev[i]);
                            } else {
                                assert(out@[prev.len() as int] == c);
                            }
                        }
                    }
                },
                None => {},
            }
        }
        proof {
            let t = w.order@.take(k as int + 1);
            assert(t.drop_last() =~= w.order@.take(k as int));
            assert(t.last() == j);
            assert(is_basis == blocked(b, gs[j as int].sha256@));
        }
        k = k + 1;
    }
    assert(w.order@.take(w.order@.len() as int) =~= w.order@);
    proof {
        assert forall|j: int| #[trigger] on_history(gs, root@, b, j) && gs[j].pack is Some implies exists|i: int|
            0 <= i < out@.len() && Some(#[trigger] out@[i]@) == opt_pack_view(gs[j].pack) by {
            assert(gs.len() == nn);
            assert(w.order@.contains(j as usize));
            let m = choose|m: int| 0 <= m < w.order@.len() && w.order@[m] == j as usize;
            assert(w.order@[m] as int == j);
            assert(on_history(gs, root@, b, w.order@[m] as int));
        }
        assert forall|j: int| #[trigger] on_history(gs, root@, b, j) implies gs[j].parents is Some by {
            assert(gs.len() == nn);
            assert(w.order@.contains(j as usize));
            let m = choose|m: int| 0 <= m < w.order@.len() && w.order@[m] == j as usize;
            assert(w.order@[m] as int == j);
            assert(on_history(gs, root@, b, w.order@[m] as int));
        }
        assert(packs_from_history(g.nodes@, root@, opt_view(basis), out@));
        assert(history_packs_listed(gs, root@, b, out@));
    }
    Ok(out)
}

} // verus!
