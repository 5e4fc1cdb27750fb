//! The mesh-network graph snapshot the algorithms consume, and the
//! connectivity notions their contracts are stated in: a set of nodes is
//! "closed" when no edge crosses its boundary, and two nodes are connected
//! exactly when no closed set separates them.

use vstd::prelude::*;

verus! {

/// An undirected weighted link between two nodes, named by their indices.
#[derive(Clone, Copy)]
pub struct Edge {
    pub u: usize,
    pub v: usize,
    pub weight: u64,
}

/// A snapshot of the mesh network: `node_count` nodes named `0..node_count`,
/// undirected weighted edges, and one (possibly empty) ordered sequence of
/// historical samples per node.
pub struct Graph {
    pub node_count: usize,
    pub edges: Vec<Edge>,
    pub histories: Vec<Vec<i32>>,
}

impl Graph {
    /// Every edge endpoint names an existing node, and there is one sample
    /// history per node.
    pub open spec fn well_formed(&self) -> bool {
        &&& forall|i: int|
            0 <= i < self.edges@.len() ==> (#[trigger] self.edges@[i]).u < self.node_count
                && self.edges@[i].v < self.node_count
        &&& self.histories@.len() == self.node_count
    }

    /// Runtime check of `well_formed`, for callers that receive a snapshot
    /// from outside.
    pub fn check_well_formed(&self) -> (r: bool)
        ensures
            r == self.well_formed(),
    {
        if self.histories.len() != self.node_count {
            return false;
        }
        let n = self.edges.len();
        let mut i: usize = 0;
        while i < n
            invariant
                n == self.edges@.len(),
                i <= n,
                self.histories@.len() == self.node_count,
                forall|j: int|
                    0 <= j < i ==> (#[trigger] self.edges@[j]).u < self.node_count
                        && self.edges@[j].v < self.node_count,
            decreases n - i,
        {
            let e = &self.edges[i];
            if e.u >= self.node_count || e.v >= self.node_count {
                return false;
            }
            i += 1;
        }
        true
    }
}

/// Whether this edge joins the two given nodes, in either orientation.
pub open spec fn links(e: Edge, a: int, b: int) -> bool {
    (e.u == a && e.v == b) || (e.u == b && e.v == a)
}

/// A node an edge joins to `v`, other than `v` itself.
pub open spec fn is_neighbor(es: Seq<Edge>, v: int, w: int) -> bool {
    w != v && exists|j: int| 0 <= j < es.len() && links(#[trigger] es[j], v, w)
}

/// A node whose removal disconnects some pair of nodes that the full graph
/// connects.
pub open spec fn is_articulation(es: Seq<Edge>, n: int, v: int) -> bool {
    exists|x: int, y: int|
        0 <= x < n && 0 <= y < n && x != v && y != v && connected(es, Set::empty(), x, y)
            && !connected(es, Set::empty().insert(v), x, y)
}

/// The set of indices a boolean mask marks.
pub open spec fn marks_set(m: Seq<bool>) -> Set<int> {
    Set::new(|i: int| 0 <= i < m.len() && m[i])
}

/// No edge whose endpoints both avoid `excl` crosses between `s` and its
/// complement.
pub open spec fn sep_closed(es: Seq<Edge>, excl: Set<int>, s: Set<int>) -> bool {
    forall|i: int|
        0 <= i < es.len() && !excl.contains((#[trigger] es[i]).u as int) && !excl.contains(
            es[i].v as int,
        ) ==> (s.contains(es[i].u as int) <==> s.contains(es[i].v as int))
}

/// Two nodes are connected while avoiding the nodes of `excl` exactly when
/// both avoid `excl` and no closed set separates them.
pub open spec fn connected(es: Seq<Edge>, excl: Set<int>, a: int, b: int) -> bool {
    &&& !excl.contains(a)
    &&& !excl.contains(b)
    &&& forall|s: Set<int>| #[trigger] sep_closed(es, excl, s) && s.contains(a) ==> s.contains(b)
}

/// Connectivity without exclusions, between all pairs that matter to the
/// global minimum cut: the graph is disconnected when some pair of nodes
/// has a closed set between them.
pub open spec fn graph_connected(es: Seq<Edge>, n: int) -> bool {
    forall|a: int, b: int| 0 <= a < n && 0 <= b < n ==> connected(es, Set::empty(), a, b)
}

/// How many entries of a boolean sequence are set.
pub open spec fn count_true(s: Seq<bool>) -> nat
    decreases s.len(),
{
    if s.len() == 0 {
        0
    } else {
        count_true(s.drop_last()) + if s.last() {
            1nat
        } else {
            0nat
        }
    }
}

proof fn lemma_count_true_le(s: Seq<bool>)
    ensures
        count_true(s) <= s.len(),
    decreases s.len(),
{
    if s.len() > 0 {
        lemma_count_true_le(s.drop_last());
    }
}

proof fn lemma_count_true_zero(s: Seq<bool>)
    requires
        forall|i: int| 0 <= i < s.len() ==> !s[i],
    ensures
        count_true(s) == 0,
    decreases s.len(),
{
    if s.len() > 0 {
        lemma_count_true_zero(s.drop_last());
    }
}

proof fn lemma_count_true_update(s: Seq<bool>, i: int)
    requires
        0 <= i < s.len(),
        !s[i],
    ensures
        count_true(s.update(i, true)) == count_true(s) + 1,
    decreases s.len(),
{
    let t = s.update(i, true);
    if i == s.len() - 1 {
        assert(t.drop_last() =~= s.drop_last());
    } else {
        assert(t.drop_last() =~= s.drop_last().update(i, true));
        lemma_count_true_update(s.drop_last(), i);
    }
}

/// Builds a boolean mask of the given length, all entries alike.
pub fn bool_mask(n: usize, val: bool) -> (r: Vec<bool>)
    ensures
        r@.len() == n,
        forall|i: int| 0 <= i < n ==> r@[i] == val,
{
    let mut r: Vec<bool> = Vec::new();
    let mut i: usize = 0;
    while i < n
        invariant
            i <= n,
            r@.len() == i,
            forall|j: int| 0 <= j < i ==> r@[j] == val,
        decreases n - i,
    {
        r.push(val);
        i += 1;
    }
    r
}

/// Marks every node connected to `start` while avoiding the nodes that
/// `excl` marks, by propagating along edges until a fixed point: the marked
/// set is then closed, and it is contained in every closed set holding
/// `start`, which pins it to the connectivity relation exactly.
pub fn reach_from(g: &Graph, excl: &Vec<bool>, start: usize) -> (marks: Vec<bool>)
    requires
        g.well_formed(),
        excl@.len() == g.node_count,
        start < g.node_count,
        !excl@[start as int],
    ensures
        marks@.len() == g.node_count,
        marks@[start as int],
        forall|w: int|
            0 <= w < g.node_count ==> (marks@[w] <==> connected(
                g.edges@,
                marks_set(excl@),
                start as int,
                w,
            )),
        sep_closed(g.edges@, marks_set(excl@), marks_set(marks@)),
{
    let n = g.node_count;
    let ghost es = g.edges@;
    let ghost ex = marks_set(excl@);
    let mut marks = bool_mask(n, false);
    proof {
        lemma_count_true_zero(marks@);
        lemma_count_true_update(marks@, start as int);
    }
    marks[start] = true;
    let mut num_marked: usize = 1;
    loop
        invariant
            n == g.node_count,
            es == g.edges@,
            ex == marks_set(excl@),
            g.well_formed(),
            excl@.len() == n,
            start < n,
            !excl@[start as int],
            marks@.len() == n,
            marks@[start as int],
            num_marked == count_true(marks@),
            num_marked <= n,
            forall|w: int| 0 <= w < n && #[trigger] marks@[w] ==> !ex.contains(w),
            forall|s: Set<int>|
                #[trigger] sep_closed(es, ex, s) && s.contains(start as int) ==> mask_in_set(
                    marks@,
                    s,
                ),
        ensures
            marks@.len() == n,
            marks@[start as int],
            forall|w: int| 0 <= w < n && #[trigger] marks@[w] ==> !ex.contains(w),
            forall|s: Set<int>|
                #[trigger] sep_closed(es, ex, s) && s.contains(start as int) ==> mask_in_set(
                    marks@,
                    s,
                ),
            sep_closed(es, ex, marks_set(marks@)),
        decreases n - num_marked,
    {
        let ghost count0 = num_marked;
        let mut changed = false;
        let m = g.edges.len();
        let mut j: usize = 0;
        while j < m
            invariant
                n == g.node_count,
                es == g.edges@,
                ex == marks_set(excl@),
                g.well_formed(),
                excl@.len() == n,
                start < n,
                !excl@[start as int],
                m == es.len(),
                j <= m,
                marks@.len() == n,
                marks@[start as int],
                num_marked == count_true(marks@),
                num_marked <= n,
                count0 <= num_marked,
                changed ==> count0 < num_marked,
                forall|w: int| 0 <= w < n && #[trigger] marks@[w] ==> !ex.contains(w),
                forall|s: Set<int>|
                    #[trigger] sep_closed(es, ex, s) && s.contains(start as int) ==> mask_in_set(
                        marks@,
                        s,
                    ),
                !changed ==> forall|jj: int|
                    0 <= jj < j && !ex.contains((#[trigger] es[jj]).u as int) && !ex.contains(
                        es[jj].v as int,
                    ) ==> (marks@[es[jj].u as int] <==> marks@[es[jj].v as int]),
            decreases m - j,
        {
            let e = &g.edges[j];
            let eu_excl = excl[e.u];
            let ev_excl = excl[e.v];
            if !eu_excl && !ev_excl {
                let mu = marks[e.u];
                let mv = marks[e.v];
                if mu && !mv {
                    proof {
                        lemma_count_true_update(marks@, e.v as int);
                        lemma_count_true_le(marks@.update(e.v as int, true));
                        assert forall|s: Set<int>|
                            #[trigger] sep_closed(es, ex, s) && s.contains(start as int)
                            implies mask_in_set(marks@.update(e.v as int, true), s) by {
                            assert(mask_in_set(marks@, s));
                            assert(s.contains(e.u as int));
                        }
                    }
                    marks[e.v] = true;
                    num_marked += 1;
                    changed = true;
                } else if mv && !mu {
                    proof {
                        lemma_count_true_update(marks@, e.u as int);
                        lemma_count_true_le(marks@.update(e.u as int, true));
                        assert forall|s: Set<int>|
                            #[trigger] sep_closed(es, ex, s) && s.contains(start as int)
                            implies mask_in_set(marks@.update(e.u as int, true), s) by {
                            assert(mask_in_set(marks@, s));
                            assert(s.contains(e.v as int));
                        }
                    }
                    marks[e.u] = true;
                    num_marked += 1;
                    changed = true;
                }
            }
            j += 1;
        }
        if !changed {
            proof {
                assert forall|i: int|
                    0 <= i < es.len() && !ex.contains((#[trigger] es[i]).u as int) && !ex.contains(
                        es[i].v as int,
                    ) implies (marks_set(marks@).contains(es[i].u as int) <==> marks_set(
                    marks@,
                ).contains(es[i].v as int)) by {
                    assert(marks@[es[i].u as int] <==> marks@[es[i].v as int]);
                }
            }
            break ;
        }
    }
    proof {
        let ms = marks_set(marks@);
        assert forall|w: int| 0 <= w < n implies (marks@[w] <==> connected(
            es,
            ex,
            start as int,
            w,
        )) by {
            if marks@[w] {
                assert(!ex.contains(w));
                assert forall|s: Set<int>|
                    #[trigger] sep_closed(es, ex, s) && s.contains(start as int) implies s.contains(
                    w,
                ) by {
                    assert(mask_in_set(marks@, s));
                }
            } else {
                assert(sep_closed(es, ex, ms) && ms.contains(start as int));
                if connected(es, ex, start as int, w) {
                    assert(ms.contains(w));
                }
            }
        }
    }
    marks
}

/// Every index the mask marks belongs to `s`.
pub open spec fn mask_in_set(m: Seq<bool>, s: Set<int>) -> bool {
    forall|w: int| 0 <= w < m.len() && #[trigger] m[w] ==> s.contains(w)
}

/// Whether this edge crosses the boundary of the side a mask picks out.
pub open spec fn crossing(e: Edge, side: Seq<bool>) -> bool {
    side[e.u as int] != side[e.v as int]
}

/// Total weight of the edges that cross the boundary of `side`.
pub open spec fn cut_weight(es: Seq<Edge>, side: Seq<bool>) -> int
    decreases es.len(),
{
    if es.len() == 0 {
        0
    } else {
        cut_weight(es.drop_last(), side) + if crossing(es.last(), side) {
            es.last().weight as int
        } else {
            0
        }
    }
}

/// Connectivity is symmetric: the complement of a closed set is closed.
pub proof fn lemma_connected_sym(es: Seq<Edge>, excl: Set<int>, a: int, b: int)
    requires
        connected(es, excl, a, b),
    ensures
        connected(es, excl, b, a),
{
    assert forall|s: Set<int>| #[trigger] sep_closed(es, excl, s) && s.contains(b) implies s.contains(
        a,
    ) by {
        if !s.contains(a) {
            let c = s.complement();
            assert(sep_closed(es, excl, c)) by {
                assert forall|i: int|
                    0 <= i < es.len() && !excl.contains((#[trigger] es[i]).u as int)
                        && !excl.contains(es[i].v as int) implies (c.contains(es[i].u as int) <==> c.contains(
                    es[i].v as int,
                )) by {
                    assert(s.contains(es[i].u as int) <==> s.contains(es[i].v as int));
                }
            }
            assert(c.contains(a));
            assert(c.contains(b));
            assert(false);
        }
    }
}

/// Connectivity is transitive.
pub proof fn lemma_connected_trans(es: Seq<Edge>, excl: Set<int>, a: int, b: int, c: int)
    requires
        connected(es, excl, a, b),
        connected(es, excl, b, c),
    ensures
        connected(es, excl, a, c),
{
    assert forall|s: Set<int>| #[trigger] sep_closed(es, excl, s) && s.contains(a) implies s.contains(
        c,
    ) by {
        assert(s.contains(b));
    }
}

/// One synchronous spread step: the set plus every node an edge joins to it.
pub open spec fn step_set(es: Seq<Edge>, s: Set<int>) -> Set<int> {
    s.union(
        Set::new(
            |w: int|
                exists|i: int|
                    0 <= i < es.len() && (((#[trigger] es[i]).u as int == w && s.contains(
                        es[i].v as int,
                    )) || (es[i].v as int == w && s.contains(es[i].u as int))),
        ),
    )
}

/// The nodes reached from `s` within `t` spread steps.
pub open spec fn spread(es: Seq<Edge>, s: Set<int>, t: nat) -> Set<int>
    decreases t,
{
    if t == 0 {
        s
    } else {
        step_set(es, spread(es, s, (t - 1) as nat))
    }
}

/// How many of the first `n` node indices the set holds.
pub open spec fn set_count_upto(s: Set<int>, n: nat) -> nat
    decreases n,
{
    if n == 0 {
        0
    } else {
        set_count_upto(s, (n - 1) as nat) + if s.contains(n - 1) {
            1nat
        } else {
            0nat
        }
    }
}

/// A set no edge leaves, holding one node and missing another, shows the
/// graph disconnected.
pub proof fn lemma_split_not_connected(es: Seq<Edge>, n: int, s: Set<int>, x: int, y: int)
    requires
        0 <= x < n,
        0 <= y < n,
        sep_closed(es, Set::empty(), s),
        s.contains(x),
        !s.contains(y),
    ensures
        !graph_connected(es, n),
{
    if graph_connected(es, n) {
        assert(connected(es, Set::empty(), x, y));
        assert(s.contains(y));
    }
}

/// A closed side has cut weight zero: no edge crosses it.
pub proof fn lemma_closed_cut_zero(es: Seq<Edge>, side: Seq<bool>)
    requires
        forall|i: int|
            0 <= i < es.len() ==> (#[trigger] es[i]).u < side.len() && es[i].v < side.len(),
        sep_closed(es, Set::<int>::empty(), marks_set(side)),
    ensures
        cut_weight(es, side) == 0,
    decreases es.len(),
{
    if es.len() > 0 {
        let pre = es.drop_last();
        assert forall|i: int|
            0 <= i < pre.len() && !Set::<int>::empty().contains((#[trigger] pre[i]).u as int)
                && !Set::<int>::empty().contains(pre[i].v as int) implies (marks_set(
            side,
        ).contains(pre[i].u as int) <==> marks_set(side).contains(pre[i].v as int)) by {
            assert(pre[i] == es[i]);
            assert(marks_set(side).contains(es[i].u as int) <==> marks_set(side).contains(
                es[i].v as int,
            ));
        }
        lemma_closed_cut_zero(pre, side);
        let e = es.last();
        assert(marks_set(side).contains(e.u as int) <==> marks_set(side).contains(e.v as int));
        assert(!crossing(e, side));
    }
}

} // verus!
