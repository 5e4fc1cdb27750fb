//! The five graph algorithms the engine can dispatch: articulation points,
//! global minimum cut, diffusion centrality, most similar timeline and
//! predicted state. Each is a pure function from a graph snapshot (and its
//! parameter bag, where one is needed) to a typed outcome or a typed error.

use vstd::prelude::*;

verus! {

use crate::graph::{
    Graph,
    Edge,
    connected,
    sep_closed,
    marks_set,
    cut_weight,
    crossing,
    graph_connected,
    reach_from,
    bool_mask,
    links,
    is_neighbor,
    is_articulation,
    step_set,
    spread,
    set_count_upto,
    lemma_closed_cut_zero,
    lemma_connected_sym,
    lemma_connected_trans,
};
use crate::params::{Params, ParamView};

/// Why one algorithm's run failed. An error is always confined to its own
/// kind's slot of the report.
#[derive(Clone, Copy, PartialEq, Eq, Structural, Debug)]
pub enum AlgoError {
    /// A required parameter is absent from the bag or holds another shape.
    MissingParameter,
    /// The graph has no nodes, or a shape the algorithm cannot operate on.
    InvalidGraph,
    /// The nodes lack the temporal samples the algorithm requires.
    InsufficientHistory,
}

/// Addition on `u128` that pins at the top instead of overflowing; the
/// aggregate weights it feeds stay far below the pin for any real snapshot.
fn sat_add_u128(a: u128, b: u128) -> (r: u128)
    ensures
        r as int == if a + b <= u128::MAX as int {
            a + b
        } else {
            u128::MAX as int
        },
{
    if a <= u128::MAX - b {
        a + b
    } else {
        u128::MAX
    }
}

/// Builds a row of zero weights.
fn zero_row(n: usize) -> (r: Vec<u128>)
    ensures
        r@.len() == n,
{
    let mut r: Vec<u128> = Vec::new();
    let mut i: usize = 0;
    while i < n
        invariant
            i <= n,
            r@.len() == i,
        decreases n - i,
    {
        r.push(0);
        i += 1;
    }
    r
}

/// Sums the weights of the edges that cross the boundary of `side`, exactly.
fn compute_cut_weight(g: &Graph, side: &Vec<bool>) -> (r: u128)
    requires
        g.well_formed(),
        side@.len() == g.node_count,
    ensures
        r as int == cut_weight(g.edges@, side@),
{
    let m = g.edges.len();
    let mut acc: u128 = 0;
    let mut j: usize = 0;
    while j < m
        invariant
            g.well_formed(),
            side@.len() == g.node_count,
            m == g.edges@.len(),
            j <= m,
            acc as int == cut_weight(g.edges@.take(j as int), side@),
            acc as int <= j * 0xffff_ffff_ffff_ffffint,
        decreases m - j,
    {
        let e = &g.edges[j];
        proof {
            assert(g.edges@.take(j + 1).drop_last() =~= g.edges@.take(j as int));
            assert(g.edges@.take(j + 1).last() == g.edges@[j as int]);
        }
        let su = side[e.u];
        let sv = side[e.v];
        if su != sv {
            acc = acc + e.weight as u128;
        }
        j += 1;
    }
    proof {
        assert(g.edges@.take(m as int) =~= g.edges@);
    }
    acc
}

/// Marks the neighbors of `v`: every node some edge joins to `v`, besides
/// `v` itself.
fn neighbor_mask(g: &Graph, v: usize) -> (nbrs: Vec<bool>)
    requires
        g.well_formed(),
        v < g.node_count,
    ensures
        nbrs@.len() == g.node_count,
        forall|w: int|
            0 <= w < g.node_count ==> (nbrs@[w] <==> is_neighbor(g.edges@, v as int, w)),
{
    let n = g.node_count;
    let ghost es = g.edges@;
    let mut nbrs = bool_mask(n, false);
    let m = g.edges.len();
    let mut j: usize = 0;
    while j < m
        invariant
            g.well_formed(),
            es == g.edges@,
            v < n,
            n == g.node_count,
            m == es.len(),
            j <= m,
            nbrs@.len() == n,
            forall|w: int|
                0 <= w < n ==> (nbrs@[w] <==> (w != v && exists|jj: int|
                    0 <= jj < j && links(#[trigger] es[jj], v as int, w))),
        decreases m - j,
    {
        let e = &g.edges[j];
        if e.u == v && e.v != v {
            proof {
                assert(links(es[j as int], v as int, e.v as int));
            }
            nbrs[e.v] = true;
        } else if e.v == v && e.u != v {
            proof {
                assert(links(es[j as int], v as int, e.u as int));
            }
            nbrs[e.u] = true;
        }
        proof {
            assert forall|w: int| 0 <= w < n implies (nbrs@[w] <==> (w != v && exists|jj: int|
                0 <= jj < j + 1 && links(#[trigger] es[jj], v as int, w))) by {
                if nbrs@[w] {
                } else {
                    if w != v && exists|jj: int|
                        0 <= jj < j + 1 && links(#[trigger] es[jj], v as int, w) {
                        let jj = choose|jj: int|
                            0 <= jj < j + 1 && links(#[trigger] es[jj], v as int, w);
                        assert(jj == j);
                        assert(false);
                    }
                }
            }
        }
        j += 1;
    }
    nbrs
}

/// Decides whether removing `v` disconnects two nodes the full graph
/// connects, by testing whether every neighbor of `v` stays connected to the
/// first neighbor once `v` is avoided.
fn is_articulation_node(g: &Graph, v: usize) -> (r: bool)
    requires
        g.well_formed(),
        v < g.node_count,
    ensures
        r == is_articulation(g.edges@, g.node_count as int, v as int),
{
    let n = g.node_count;
    let ghost es = g.edges@;
    let ghost sv = Set::empty().insert(v as int);
    let nbrs = neighbor_mask(g, v);
    let mut u0: usize = n;
    let mut i: usize = 0;
    while i < n
        invariant
            i <= n,
            u0 <= n,
            n == g.node_count,
            nbrs@.len() == n,
            u0 == n ==> forall|w: int| 0 <= w < i ==> !nbrs@[w],
            u0 < n ==> nbrs@[u0 as int],
        decreases n - i,
    {
        if u0 == n && nbrs[i] {
            u0 = i;
        }
        i += 1;
    }
    if u0 == n {
        // `v` has no neighbor: avoiding it closes nothing new, so no pair
        // the full graph connects comes apart.
        proof {
            assert forall|x: int, y: int|
                0 <= x < n && 0 <= y < n && x != v && y != v && connected(es, Set::empty(), x, y)
                implies connected(es, sv, x, y) by {
                assert forall|s: Set<int>| #[trigger] sep_closed(es, sv, s) && s.contains(x)
                    implies s.contains(y) by {
                    assert(sep_closed(es, Set::empty(), s)) by {
                        assert forall|k: int| 0 <= k < es.len() implies (s.contains(
                            (#[trigger] es[k]).u as int,
                        ) <==> s.contains(es[k].v as int)) by {
                            let p = es[k].u as int;
                            let q = es[k].v as int;
                            if p == v as int && q != v as int {
                                assert(links(es[k], v as int, q));
                                assert(is_neighbor(es, v as int, q));
                                assert(!nbrs@[q]);
                                assert(false);
                            } else if q == v as int && p != v as int {
                                assert(links(es[k], v as int, p));
                                assert(is_neighbor(es, v as int, p));
                                assert(!nbrs@[p]);
                                assert(false);
                            } else if p != v as int && q != v as int {
                                assert(!sv.contains(p) && !sv.contains(q));
                            }
                        }
                    }
                }
            }
            assert(!is_articulation(es, n as int, v as int));
        }
        return false;
    }
    let mut maskv = bool_mask(n, false);
    maskv[v] = true;
    proof {
        assert(marks_set(maskv@) =~= sv);
        assert(!nbrs@[v as int]);
    }
    let marks = reach_from(g, &maskv, u0);
    let mut w: usize = 0;
    while w < n
        invariant
            w <= n,
            n == g.node_count,
            g.well_formed(),
            es == g.edges@,
            sv == Set::empty().insert(v as int),
            v < n,
            u0 < n,
            nbrs@.len() == n,
            marks@.len() == n,
            nbrs@[u0 as int],
            forall|ww: int| 0 <= ww < n ==> (nbrs@[ww] <==> is_neighbor(es, v as int, ww)),
            forall|ww: int|
                0 <= ww < n ==> (marks@[ww] <==> connected(es, sv, u0 as int, ww)),
            forall|ww: int| 0 <= ww < w && #[trigger] nbrs@[ww] ==> marks@[ww],
        decreases n - w,
    {
        if nbrs[w] && !marks[w] {
            // A neighbor the removal separates from `u0`: the pair was
            // joined through `v` and is joined no longer.
            proof {
                assert(is_neighbor(es, v as int, u0 as int));
                assert(is_neighbor(es, v as int, w as int));
                let j1 = choose|j: int| 0 <= j < es.len() && links(#[trigger] es[j], v as int, u0 as int);
                let j2 = choose|j: int| 0 <= j < es.len() && links(#[trigger] es[j], v as int, w as int);
                assert(connected(es, Set::empty(), u0 as int, w as int)) by {
                    assert forall|s: Set<int>|
                        #[trigger] sep_closed(es, Set::empty(), s) && s.contains(u0 as int)
                        implies s.contains(w as int) by {
                        assert(s.contains(es[j1].u as int) <==> s.contains(es[j1].v as int));
                        assert(s.contains(v as int));
                        assert(s.contains(es[j2].u as int) <==> s.contains(es[j2].v as int));
                    }
                }
                assert(!connected(es, sv, u0 as int, w as int));
                assert(is_articulation(es, n as int, v as int));
            }
            return true;
        }
        w += 1;
    }
    // Every neighbor of `v` stays connected to `u0` while avoiding `v`, so
    // any set closed while avoiding `v` can absorb or shed `v` and stay
    // closed for the full graph: no connected pair comes apart.
    proof {
        assert forall|x: int, y: int|
            0 <= x < n && 0 <= y < n && x != v && y != v && connected(es, Set::empty(), x, y)
            implies connected(es, sv, x, y) by {
            assert forall|s: Set<int>| #[trigger] sep_closed(es, sv, s) && s.contains(x)
                implies s.contains(y) by {
                let s2 = if s.contains(u0 as int) {
                    s.insert(v as int)
                } else {
                    s.remove(v as int)
                };
                assert(sep_closed(es, Set::empty(), s2)) by {
                    assert forall|k: int| 0 <= k < es.len() implies (s2.contains(
                        (#[trigger] es[k]).u as int,
                    ) <==> s2.contains(es[k].v as int)) by {
                        let p = es[k].u as int;
                        let q = es[k].v as int;
                        if p != v as int && q != v as int {
                            assert(s.contains(p) <==> s.contains(q));
                        } else if p == v as int && q == v as int {
                        } else {
                            let z = if p == v as int { q } else { p };
                            assert(links(es[k], v as int, z));
                            assert(is_neighbor(es, v as int, z));
                            assert(0 <= z < n);
                            assert(nbrs@[z]);
                            assert(marks@[z]);
                            assert(connected(es, sv, u0 as int, z));
                            if s.contains(u0 as int) {
                                assert(s.contains(z));
                                assert(s2.contains(v as int) && s2.contains(z));
                            } else {
                                if s.contains(z) {
                                    lemma_connected_sym(es, sv, u0 as int, z);
                                    assert(s.contains(u0 as int));
                                    assert(false);
                                }
                                assert(!s2.contains(v as int) && !s2.contains(z));
                            }
                        }
                    }
                }
                assert(s2.contains(x));
                assert(s2.contains(y));
            }
        }
        assert(!is_articulation(es, n as int, v as int));
    }
    false
}

/// What a successful articulation-point outcome promises: the strictly
/// ascending list of exactly the articulation points of the graph.
pub open spec fn valid_articulation_list(g: Graph, aps: Seq<usize>) -> bool {
    &&& forall|k: int|
        0 <= k < aps.len() ==> (#[trigger] aps[k]) < g.node_count && is_articulation(
            g.edges@,
            g.node_count as int,
            aps[k] as int,
        )
    &&& forall|k1: int, k2: int| 0 <= k1 < k2 < aps.len() ==> aps[k1] < aps[k2]
    &&& forall|u: int|
        0 <= u < g.node_count && is_articulation(g.edges@, g.node_count as int, u) ==> aps.contains(
            u as usize,
        )
}

/// Identifies every articulation point of the snapshot: the nodes whose
/// removal disconnects some pair the full graph connects. The graph may be
/// disconnected; self-loops and multi-edges change nothing. An empty graph
/// is an error.
pub fn articulation_points(g: &Graph) -> (r: Result<Vec<usize>, AlgoError>)
    requires
        g.well_formed(),
    ensures
        r is Err <==> g.node_count == 0,
        r is Err ==> r == Err::<Vec<usize>, AlgoError>(AlgoError::InvalidGraph),
        r is Ok ==> valid_articulation_list(*g, r->Ok_0@),
{
    let n = g.node_count;
    if n == 0 {
        return Err(AlgoError::InvalidGraph);
    }
    let ghost es = g.edges@;
    let mut aps: Vec<usize> = Vec::new();
    let mut v: usize = 0;
    while v < n
        invariant
            g.well_formed(),
            es == g.edges@,
            n == g.node_count,
            v <= n,
            forall|k: int|
                0 <= k < aps@.len() ==> (#[trigger] aps@[k]) < v && is_articulation(
                    es,
                    n as int,
                    aps@[k] as int,
                ),
            forall|k1: int, k2: int| 0 <= k1 < k2 < aps@.len() ==> aps@[k1] < aps@[k2],
            forall|u: int| 0 <= u < v && is_articulation(es, n as int, u) ==> aps@.contains(
                u as usize,
            ),
        decreases n - v,
    {
        let ghost aps_old = aps@;
        if is_articulation_node(g, v) {
            aps.push(v);
        }
        proof {
            assert forall|u: int| 0 <= u < v + 1 && is_articulation(es, n as int, u)
                implies aps@.contains(u as usize) by {
                if u == v as int {
                    assert(aps@[aps@.len() - 1] == v);
                } else {
                    let k = choose|k: int| 0 <= k < aps_old.len() && aps_old[k] == u as usize;
                    assert(aps@[k] == u as usize);
                }
            }
        }
        v += 1;
    }
    proof {
        assert(valid_articulation_list(*g, aps@));
    }
    Ok(aps)
}

/// A global cut: the marked side of the partition and the total weight of
/// the crossing edges.
#[derive(Debug)]
pub struct MinCutResult {
    pub side: Vec<bool>,
    pub weight: u128,
}

/// What a successful global-min-cut outcome promises: a nontrivial side of
/// the node set together with exactly its crossing weight.
pub open spec fn valid_cut(g: Graph, mc: MinCutResult) -> bool {
    &&& mc.side@.len() == g.node_count
    &&& exists|i: int| 0 <= i < g.node_count && (#[trigger] mc.side@[i])
    &&& exists|i: int| 0 <= i < g.node_count && !(#[trigger] mc.side@[i])
    &&& mc.weight as int == cut_weight(g.edges@, mc.side@)
}

/// Computes a global minimum cut by repeated minimum-cut-phase contraction
/// in the manner of Stoer and Wagner. A graph with fewer than two nodes has
/// no cut and is an error; a disconnected graph has the trivial cut of
/// weight zero between its components, which is returned, never an error.
/// The returned weight is exactly the cut weight of the returned side.
#[verifier::rlimit(60)]
pub fn global_min_cut(g: &Graph) -> (r: Result<MinCutResult, AlgoError>)
    requires
        g.well_formed(),
    ensures
        r is Err <==> g.node_count < 2,
        r is Err ==> r == Err::<MinCutResult, AlgoError>(AlgoError::InvalidGraph),
        r is Ok ==> valid_cut(*g, r->Ok_0),
        (r is Ok && !graph_connected(g.edges@, g.node_count as int)) ==> r->Ok_0.weight == 0,
{
    let n = g.node_count;
    if n < 2 {
        return Err(AlgoError::InvalidGraph);
    }
    let ghost es = g.edges@;
    let excl0 = bool_mask(n, false);
    proof {
        assert(marks_set(excl0@) =~= Set::<int>::empty());
    }
    let marks = reach_from(g, &excl0, 0);
    let mut unmarked: usize = n;
    let mut i: usize = 0;
    while i < n
        invariant
            i <= n,
            unmarked <= n,
            n == g.node_count,
            marks@.len() == n,
            unmarked == n ==> forall|w: int| 0 <= w < i ==> marks@[w],
            unmarked < n ==> !marks@[unmarked as int],
        decreases n - i,
    {
        if unmarked == n && !marks[i] {
            unmarked = i;
        }
        i += 1;
    }
    if unmarked < n {
        // Some node is out of reach of node 0: the reached set is closed, so
        // it is one side of a cut no edge crosses.
        proof {
            lemma_closed_cut_zero(es, marks@);
            assert(marks@[0int]);
            assert(!marks@[unmarked as int]);
            assert(exists|i: int| 0 <= i < n && (#[trigger] marks@[i]));
            assert(exists|i: int| 0 <= i < n && !(#[trigger] marks@[i]));
            assert(0int == cut_weight(g.edges@, marks@));
            assert(marks@.len() == g.node_count);
        }
        let mc = MinCutResult { side: marks, weight: 0 };
        proof {
            assert(valid_cut(*g, mc));
        }
        return Ok(mc);
    }
    // Every node is reachable from node 0, so every pair is connected.
    proof {
        assert forall|a: int, b: int| 0 <= a < n && 0 <= b < n implies connected(
            es,
            Set::empty(),
            a,
            b,
        ) by {
            assert(marks@[a] && marks@[b]);
            assert(connected(es, Set::empty(), 0int, a));
            assert(connected(es, Set::empty(), 0int, b));
            lemma_connected_sym(es, Set::empty(), 0int, a);
            lemma_connected_trans(es, Set::empty(), a, 0int, b);
        }
        assert(graph_connected(es, n as int));
    }
    // Aggregate weights between supernodes.
    let mut wmat: Vec<Vec<u128>> = Vec::new();
    let mut i: usize = 0;
    while i < n
        invariant
            i <= n,
            wmat@.len() == i,
            forall|r: int| 0 <= r < i ==> (#[trigger] wmat@[r])@.len() == n,
        decreases n - i,
    {
        wmat.push(zero_row(n));
        i += 1;
    }
    let m = g.edges.len();
    let mut j: usize = 0;
    while j < m
        invariant
            g.well_formed(),
            m == g.edges@.len(),
            j <= m,
            n == g.node_count,
            wmat@.len() == n,
            forall|r: int| 0 <= r < n ==> (#[trigger] wmat@[r])@.len() == n,
        decreases m - j,
    {
        let e = &g.edges[j];
        if e.u != e.v {
            let cur = wmat[e.u][e.v];
            let s = sat_add_u128(cur, e.weight as u128);
            wmat[e.u][e.v] = s;
            wmat[e.v][e.u] = s;
        }
        j += 1;
    }
    // One singleton group of original nodes per supernode.
    let mut groups: Vec<Vec<usize>> = Vec::new();
    let mut i2: usize = 0;
    while i2 < n
        invariant
            i2 <= n,
            groups@.len() == i2,
            forall|r: int, k: int|
                0 <= r < i2 && 0 <= k < groups@[r]@.len() ==> (#[trigger] groups@[r]@[k]) < n,
        decreases n - i2,
    {
        let mut grp: Vec<usize> = Vec::new();
        grp.push(i2);
        groups.push(grp);
        i2 += 1;
    }
    let mut active = bool_mask(n, true);
    let mut best_side = bool_mask(n, false);
    best_side[0] = true;
    let mut best_w: u128 = 0xffff_ffff_ffff_ffff_ffff_ffff_ffff_ffffu128;
    let mut phase: usize = 0;
    while phase < n - 1
        invariant
            n == g.node_count,
            n >= 2,
            phase <= n,
            wmat@.len() == n,
            forall|r: int| 0 <= r < n ==> (#[trigger] wmat@[r])@.len() == n,
            groups@.len() == n,
            forall|r: int, k: int|
                0 <= r < n && 0 <= k < groups@[r]@.len() ==> (#[trigger] groups@[r]@[k]) < n,
            active@.len() == n,
            best_side@.len() == n,
        decreases n - phase,
    {
        // Gather the active supernodes.
        let mut act: Vec<usize> = Vec::new();
        let mut x: usize = 0;
        while x < n
            invariant
                x <= n,
                active@.len() == n,
                forall|k: int| 0 <= k < act@.len() ==> (#[trigger] act@[k]) < n,
            decreases n - x,
        {
            if active[x] {
                act.push(x);
            }
            x += 1;
        }
        let ka = act.len();
        if ka < 2 {
            break ;
        }
        // Maximum adjacency order, starting from the first active supernode.
        let mut in_a = bool_mask(n, false);
        let a0 = act[0];
        in_a[a0] = true;
        let mut wsum = zero_row(n);
        let mut k: usize = 1;
        while k < ka
            invariant
                k <= ka,
                ka == act@.len(),
                a0 < n,
                forall|kk: int| 0 <= kk < act@.len() ==> (#[trigger] act@[kk]) < n,
                wsum@.len() == n,
                wmat@.len() == n,
                forall|r: int| 0 <= r < n ==> (#[trigger] wmat@[r])@.len() == n,
            decreases ka - k,
        {
            let x = act[k];
            wsum[x] = wmat[a0][x];
            k += 1;
        }
        let mut prev = a0;
        let mut last = a0;
        let mut lastw: u128 = 0;
        let mut added: usize = 1;
        while added < ka
            invariant
                added <= ka,
                ka == act@.len(),
                prev < n,
                last < n,
                forall|kk: int| 0 <= kk < act@.len() ==> (#[trigger] act@[kk]) < n,
                in_a@.len() == n,
                wsum@.len() == n,
                wmat@.len() == n,
                forall|r: int| 0 <= r < n ==> (#[trigger] wmat@[r])@.len() == n,
            decreases ka - added,
        {
            let mut bx: usize = n;
            let mut bw: u128 = 0;
            let mut k2: usize = 0;
            while k2 < ka
                invariant
                    k2 <= ka,
                    ka == act@.len(),
                    bx <= n,
                    forall|kk: int| 0 <= kk < act@.len() ==> (#[trigger] act@[kk]) < n,
                    in_a@.len() == n,
                    wsum@.len() == n,
                decreases ka - k2,
            {
                let x = act[k2];
                if !in_a[x] {
                    let wx = wsum[x];
                    if bx == n || wx >= bw {
                        bx = x;
                        bw = wx;
                    }
                }
                k2 += 1;
            }
            if bx == n {
                break ;
            }
            in_a[bx] = true;
            prev = last;
            last = bx;
            lastw = bw;
            let mut k3: usize = 0;
            while k3 < ka
                invariant
                    k3 <= ka,
                    ka == act@.len(),
                    last < n,
                    forall|kk: int| 0 <= kk < act@.len() ==> (#[trigger] act@[kk]) < n,
                    in_a@.len() == n,
                    wsum@.len() == n,
                    wmat@.len() == n,
                    forall|r: int| 0 <= r < n ==> (#[trigger] wmat@[r])@.len() == n,
                decreases ka - k3,
            {
                let x = act[k3];
                if !in_a[x] {
                    let cur = wsum[x];
                    let add = wmat[last][x];
                    wsum[x] = sat_add_u128(cur, add);
                }
                k3 += 1;
            }
            added += 1;
        }
        if last == prev {
            break ;
        }
        // The cut of this phase separates the last supernode's originals.
        if lastw < best_w {
            best_w = lastw;
            let mut side2 = bool_mask(n, false);
            let gl = groups[last].len();
            let mut k4: usize = 0;
            while k4 < gl
                invariant
                    k4 <= gl,
                    last < n,
                    groups@.len() == n,
                    gl == groups@[last as int]@.len(),
                    side2@.len() == n,
                    forall|r: int, kk: int|
                        0 <= r < n && 0 <= kk < groups@[r]@.len() ==> (#[trigger] groups@[r]@[kk])
                            < n,
                decreases gl - k4,
            {
                let node = groups[last][k4];
                side2[node] = true;
                k4 += 1;
            }
            best_side = side2;
        }
        // Contract: merge `last` into `prev`.
        let mut x2: usize = 0;
        while x2 < n
            invariant
                x2 <= n,
                prev < n,
                last < n,
                wmat@.len() == n,
                forall|r: int| 0 <= r < n ==> (#[trigger] wmat@[r])@.len() == n,
            decreases n - x2,
        {
            let a = wmat[prev][x2];
            let b = wmat[last][x2];
            let s2 = sat_add_u128(a, b);
            wmat[prev][x2] = s2;
            wmat[x2][prev] = s2;
            x2 += 1;
        }
        active[last] = false;
        let mut gp: Vec<usize> = Vec::new();
        let lp = groups[prev].len();
        let mut k5: usize = 0;
        while k5 < lp
            invariant
                k5 <= lp,
                prev < n,
                groups@.len() == n,
                lp == groups@[prev as int]@.len(),
                forall|kk: int| 0 <= kk < gp@.len() ==> (#[trigger] gp@[kk]) < n,
                forall|r: int, kk: int|
                    0 <= r < n && 0 <= kk < groups@[r]@.len() ==> (#[trigger] groups@[r]@[kk]) < n,
            decreases lp - k5,
        {
            let node = groups[prev][k5];
            gp.push(node);
            k5 += 1;
        }
        let ll = groups[last].len();
        let mut k6: usize = 0;
        while k6 < ll
            invariant
                k6 <= ll,
                last < n,
                groups@.len() == n,
                ll == groups@[last as int]@.len(),
                forall|kk: int| 0 <= kk < gp@.len() ==> (#[trigger] gp@[kk]) < n,
                forall|r: int, kk: int|
                    0 <= r < n && 0 <= kk < groups@[r]@.len() ==> (#[trigger] groups@[r]@[kk]) < n,
            decreases ll - k6,
        {
            let node = groups[last][k6];
            gp.push(node);
            k6 += 1;
        }
        groups[prev] = gp;
        groups[last] = Vec::new();
        phase += 1;
    }
    // Guard the partition's nontriviality, then take its exact weight.
    let mut idx_t: usize = n;
    let mut idx_f: usize = n;
    let mut i3: usize = 0;
    while i3 < n
        invariant
            i3 <= n,
            idx_t <= n,
            idx_f <= n,
            best_side@.len() == n,
            n == g.node_count,
            idx_t < n ==> best_side@[idx_t as int],
            idx_f < n ==> !best_side@[idx_f as int],
        decreases n - i3,
    {
        if best_side[i3] {
            if idx_t == n {
                idx_t = i3;
            }
        } else {
            if idx_f == n {
                idx_f = i3;
            }
        }
        i3 += 1;
    }
    if idx_t == n || idx_f == n {
        let mut sd = bool_mask(n, false);
        sd[0] = true;
        best_side = sd;
        idx_t = 0;
        idx_f = 1;
    }
    let weight = compute_cut_weight(g, &best_side);
    let mc = MinCutResult { side: best_side, weight };
    proof {
        assert(mc.side@[idx_t as int]);
        assert(!mc.side@[idx_f as int]);
        assert(valid_cut(*g, mc));
    }
    Ok(mc)
}

/// On a two-node graph whose single edge joins the two nodes with weight
/// `w`, every outcome the global-min-cut contract allows carries cut weight
/// exactly `w`: the one nontrivial partition cuts that edge.
pub proof fn lemma_min_cut_two_nodes(g: Graph, mc: MinCutResult, w: u64)
    requires
        g.node_count == 2,
        g.edges@.len() == 1,
        links(g.edges@[0], 0, 1),
        g.edges@[0].weight == w,
        valid_cut(g, mc),
    ensures
        mc.weight == w,
{
    let s = mc.side@;
    let i = choose|i: int| 0 <= i < g.node_count && s[i];
    let j = choose|j: int| 0 <= j < g.node_count && !s[j];
    assert(s[i] && !s[j]);
    assert(s[0] != s[1]);
    assert(crossing(g.edges@[0], s));
    assert(g.edges@.drop_last().len() == 0);
    assert(cut_weight(g.edges@.drop_last(), s) == 0);
    assert(g.edges@.last() == g.edges@[0]);
    assert(cut_weight(g.edges@, s) == w);
}

/// The step bound the diffusion centrality run uses: the value stored under
/// the key "T" in its bag when it is an unsigned integer, and zero (meaning
/// "no usable bound") otherwise.
pub open spec fn step_param(m: Map<Seq<char>, ParamView>) -> u64 {
    if m.contains_key("T"@) {
        match m["T"@] {
            ParamView::UInt(t) => t,
            _ => 0,
        }
    } else {
        0
    }
}

/// The bound actually walked: `t`, capped at the node count, within which
/// every spread has saturated.
pub open spec fn capped_steps(g: Graph, t: u64) -> nat {
    if t as nat <= g.node_count as nat {
        t as nat
    } else {
        g.node_count as nat
    }
}

/// One node's influence: how many nodes its spread reaches within the bound.
pub open spec fn diffusion_score(g: Graph, v: int, t: u64) -> nat {
    set_count_upto(spread(g.edges@, Set::empty().insert(v), capped_steps(g, t)), g.node_count as nat)
}

/// What a successful diffusion-centrality outcome promises: one influence
/// score per node, each the exact size of that node's bounded spread.
pub open spec fn valid_diffusion(g: Graph, t: u64, scores: Seq<usize>) -> bool {
    &&& scores.len() == g.node_count
    &&& forall|v: int| 0 <= v < g.node_count ==> (#[trigger] scores[v]) as nat == diffusion_score(g, v, t)
}

/// Whether one of the first `bound` edges joins `x` to a node of `s`.
spec fn edge_prop(es: Seq<Edge>, s: Set<int>, bound: int, x: int) -> bool {
    exists|jj: int|
        0 <= jj < bound && (((#[trigger] es[jj]).u as int == x && s.contains(es[jj].v as int)) || (
        es[jj].v as int == x && s.contains(es[jj].u as int)))
}

/// Marks every node reached from `start` within `steps` spread steps.
fn spread_marks(g: &Graph, start: usize, steps: usize) -> (marks: Vec<bool>)
    requires
        g.well_formed(),
        start < g.node_count,
    ensures
        marks@.len() == g.node_count,
        forall|w: int|
            0 <= w < g.node_count ==> (marks@[w] <==> spread(
                g.edges@,
                Set::empty().insert(start as int),
                steps as nat,
            ).contains(w)),
        forall|w: int|
            spread(g.edges@, Set::empty().insert(start as int), steps as nat).contains(w) ==> 0 <= w
                < g.node_count,
{
    let n = g.node_count;
    let ghost es = g.edges@;
    let ghost s0 = Set::empty().insert(start as int);
    let mut marks = bool_mask(n, false);
    marks[start] = true;
    let mut t: usize = 0;
    while t < steps
        invariant
            n == g.node_count,
            es == g.edges@,
            s0 == Set::empty().insert(start as int),
            g.well_formed(),
            start < n,
            t <= steps,
            marks@.len() == n,
            forall|w: int| 0 <= w < n ==> (marks@[w] <==> spread(es, s0, t as nat).contains(w)),
            forall|w: int| spread(es, s0, t as nat).contains(w) ==> 0 <= w < n,
        decreases steps - t,
    {
        let ghost cur = spread(es, s0, t as nat);
        let mut new_marks: Vec<bool> = Vec::new();
        let mut w: usize = 0;
        while w < n
            invariant
                w <= n,
                n == marks@.len(),
                new_marks@.len() == w,
                forall|x: int| 0 <= x < w ==> new_marks@[x] == marks@[x],
            decreases n - w,
        {
            new_marks.push(marks[w]);
            w += 1;
        }
        let m = g.edges.len();
        let mut j: usize = 0;
        while j < m
            invariant
                n == g.node_count,
                es == g.edges@,
                g.well_formed(),
                m == es.len(),
                j <= m,
                marks@.len() == n,
                new_marks@.len() == n,
                forall|x: int| 0 <= x < n ==> (marks@[x] <==> cur.contains(x)),
                forall|x: int|
                    0 <= x < n ==> (new_marks@[x] <==> (cur.contains(x) || edge_prop(
                        es,
                        cur,
                        j as int,
                        x,
                    ))),
            decreases m - j,
        {
            let e = &g.edges[j];
            let mu = marks[e.u];
            let mv = marks[e.v];
            let ghost prev_new = new_marks@;
            if mu {
                new_marks[e.v] = true;
            }
            if mv {
                new_marks[e.u] = true;
            }
            proof {
                assert forall|x: int| 0 <= x < n implies (new_marks@[x] <==> (cur.contains(x)
                    || edge_prop(es, cur, j + 1, x))) by {
                    if new_marks@[x] {
                        if prev_new[x] {
                            if !cur.contains(x) {
                                let jj = choose|jj: int|
                                    0 <= jj < j && (((#[trigger] es[jj]).u as int == x
                                        && cur.contains(es[jj].v as int)) || (es[jj].v as int == x
                                        && cur.contains(es[jj].u as int)));
                                assert(edge_prop(es, cur, j + 1, x));
                            }
                        } else {
                            assert((es[j as int].u as int == x && cur.contains(
                                es[j as int].v as int,
                            )) || (es[j as int].v as int == x && cur.contains(
                                es[j as int].u as int,
                            )));
                            assert(edge_prop(es, cur, j + 1, x));
                        }
                    } else {
                        if cur.contains(x) {
                            assert(prev_new[x]);
                            assert(false);
                        }
                        if edge_prop(es, cur, j + 1, x) {
                            let jj = choose|jj: int|
                                0 <= jj < j + 1 && (((#[trigger] es[jj]).u as int == x
                                    && cur.contains(es[jj].v as int)) || (es[jj].v as int == x
                                    && cur.contains(es[jj].u as int)));
                            if jj < j {
                                assert(edge_prop(es, cur, j as int, x));
                                assert(prev_new[x]);
                                assert(false);
                            } else {
                                assert(false);
                            }
                        }
                    }
                }
            }
            j += 1;
        }
        marks = new_marks;
        proof {
            let nxt = spread(es, s0, (t + 1) as nat);
            assert(nxt == step_set(es, cur));
            assert forall|x: int| 0 <= x < n implies (marks@[x] <==> nxt.contains(x)) by {
                if marks@[x] {
                    if !cur.contains(x) {
                        let jj = choose|jj: int|
                            0 <= jj < m && (((#[trigger] es[jj]).u as int == x && cur.contains(
                                es[jj].v as int,
                            )) || (es[jj].v as int == x && cur.contains(es[jj].u as int)));
                        assert(nxt.contains(x));
                    }
                } else {
                    if nxt.contains(x) {
                        if !cur.contains(x) {
                            let jj = choose|i: int|
                                0 <= i < es.len() && (((#[trigger] es[i]).u as int == x
                                    && cur.contains(es[i].v as int)) || (es[i].v as int == x
                                    && cur.contains(es[i].u as int)));
                            assert(edge_prop(es, cur, m as int, x));
                            assert(marks@[x]);
                        }
                        assert(false);
                    }
                }
            }
            assert forall|x: int| nxt.contains(x) implies 0 <= x < n by {
                if !cur.contains(x) {
                    let jj = choose|i: int|
                        0 <= i < es.len() && (((#[trigger] es[i]).u as int == x && cur.contains(
                            es[i].v as int,
                        )) || (es[i].v as int == x && cur.contains(es[i].u as int)));
                }
            }
        }
        t += 1;
    }
    marks
}

/// Ranks nodes by influence over a bounded number of diffusion steps: each
/// node's score is the number of nodes its spread reaches within the bound
/// "T" from its parameter bag. A missing, differently shaped or zero bound
/// is a parameter error; an empty graph is a graph error, checked first.
pub fn diffusion_centrality(g: &Graph, params: &Params) -> (r: Result<Vec<usize>, AlgoError>)
    requires
        g.well_formed(),
    ensures
        r is Err <==> (g.node_count == 0 || step_param(params@) == 0),
        g.node_count == 0 ==> r == Err::<Vec<usize>, AlgoError>(AlgoError::InvalidGraph),
        (g.node_count > 0 && step_param(params@) == 0) ==> r == Err::<Vec<usize>, AlgoError>(
            AlgoError::MissingParameter,
        ),
        r is Ok ==> valid_diffusion(*g, step_param(params@), r->Ok_0@),
{
    let n = g.node_count;
    if n == 0 {
        return Err(AlgoError::InvalidGraph);
    }
    let t_opt = params.get_u64("T");
    let t: u64 = match t_opt {
        Some(tv) => *tv,
        None => 0,
    };
    proof {
        assert(t == step_param(params@));
    }
    if t == 0 {
        return Err(AlgoError::MissingParameter);
    }
    let steps: usize = if t > n as u64 {
        n
    } else {
        t as usize
    };
    proof {
        assert(steps as nat == capped_steps(*g, t));
    }
    let mut scores: Vec<usize> = Vec::new();
    let mut v: usize = 0;
    while v < n
        invariant
            n == g.node_count,
            g.well_formed(),
            v <= n,
            steps as nat == capped_steps(*g, t),
            scores@.len() == v,
            forall|vv: int|
                0 <= vv < v ==> (#[trigger] scores@[vv]) as nat == diffusion_score(*g, vv, t),
        decreases n - v,
    {
        let marks = spread_marks(g, v, steps);
        let ghost sp = spread(g.edges@, Set::empty().insert(v as int), steps as nat);
        let mut c: usize = 0;
        let mut w: usize = 0;
        while w < n
            invariant
                w <= n,
                n == g.node_count,
                marks@.len() == n,
                forall|x: int| 0 <= x < n ==> (marks@[x] <==> sp.contains(x)),
                c as nat == set_count_upto(sp, w as nat),
                c <= w,
            decreases n - w,
        {
            if marks[w] {
                c += 1;
            }
            w += 1;
        }
        scores.push(c);
        v += 1;
    }
    Ok(scores)
}

/// Squared-difference distance between two sample series over the first `k`
/// samples of each.
pub open spec fn ts_dist_upto(a: Seq<i32>, b: Seq<i32>, k: nat) -> int
    decreases k,
{
    if k == 0 {
        0
    } else {
        ts_dist_upto(a, b, (k - 1) as nat) + (a[k - 1] - b[k - 1]) * (a[k - 1] - b[k - 1])
    }
}

/// The distance between two sample series: the sum of squared differences
/// over their common prefix.
pub open spec fn ts_dist(a: Seq<i32>, b: Seq<i32>) -> int {
    ts_dist_upto(
        a,
        b,
        if a.len() <= b.len() {
            a.len()
        } else {
            b.len()
        },
    )
}

/// Whether a node brings any historical samples.
pub open spec fn has_history(g: Graph, v: int) -> bool {
    g.histories@[v]@.len() > 0
}

/// Whether some two distinct nodes both bring historical samples.
pub open spec fn two_histories(g: Graph) -> bool {
    exists|p: int, q: int|
        0 <= p < q < g.node_count && has_history(g, p) && has_history(g, q)
}

/// The most similar pair of timelines and their distance.
#[derive(Debug)]
pub struct TimelineMatch {
    pub a: usize,
    pub b: usize,
    pub distance: u128,
}

/// What a successful most-similar-timeline outcome promises: the
/// lexicographically first pair of distinct nodes with samples whose series
/// distance is minimal among all such pairs.
pub open spec fn valid_match(g: Graph, tm: TimelineMatch) -> bool {
    &&& tm.a < tm.b < g.node_count
    &&& has_history(g, tm.a as int)
    &&& has_history(g, tm.b as int)
    &&& tm.distance as int == ts_dist(g.histories@[tm.a as int]@, g.histories@[tm.b as int]@)
    &&& forall|p: int, q: int|
        0 <= p < q < g.node_count && has_history(g, p) && has_history(g, q) ==> ts_dist(
            g.histories@[p]@,
            g.histories@[q]@,
        ) >= tm.distance as int
    &&& forall|p: int, q: int|
        0 <= p < q < g.node_count && has_history(g, p) && has_history(g, q) && ts_dist(
            g.histories@[p]@,
            g.histories@[q]@,
        ) == tm.distance as int ==> (tm.a < p || (tm.a == p && tm.b <= q))
}

/// Computes the exact series distance between two histories.
fn series_dist(a: &Vec<i32>, b: &Vec<i32>) -> (r: u128)
    ensures
        r as int == ts_dist(a@, b@),
{
    let la = a.len();
    let lb = b.len();
    let len = if la <= lb {
        la
    } else {
        lb
    };
    let mut acc: u128 = 0;
    let mut k: usize = 0;
    while k < len
        invariant
            len <= a@.len(),
            len <= b@.len(),
            k <= len,
            acc as int == ts_dist_upto(a@, b@, k as nat),
            acc as int <= k * 0xffff_fffe_0000_0001int,
        decreases len - k,
    {
        let xa = a[k];
        let xb = b[k];
        let d: i64 = xa as i64 - xb as i64;
        let ad: u64 = if d >= 0 {
            d as u64
        } else {
            (-d) as u64
        };
        proof {
            assert(ad <= 0xffff_ffffu64);
            assert(ad as int * ad as int <= 0xffff_fffe_0000_0001int) by (nonlinear_arith)
                requires ad <= 0xffff_ffffu64;
            assert(ad as int * ad as int == (a@[k as int] - b@[k as int]) * (a@[k as int]
                - b@[k as int])) by (nonlinear_arith)
                requires
                    ad as int == a@[k as int] - b@[k as int] || ad as int == -(a@[k as int]
                        - b@[k as int]);
        }
        let sq: u128 = (ad as u128) * (ad as u128);
        acc = acc + sq;
        k += 1;
    }
    acc
}

/// Finds the pair of nodes whose timelines are most similar under the
/// squared-difference distance over the common prefix; ties go to the
/// lexicographically first pair. Needs at least two nodes with non-empty
/// histories, else the history error; an empty graph is a graph error,
/// checked first.
pub fn most_similar_timeline(g: &Graph) -> (r: Result<TimelineMatch, AlgoError>)
    requires
        g.well_formed(),
    ensures
        r is Err <==> (g.node_count == 0 || !two_histories(*g)),
        g.node_count == 0 ==> r == Err::<TimelineMatch, AlgoError>(AlgoError::InvalidGraph),
        (g.node_count > 0 && !two_histories(*g)) ==> r == Err::<TimelineMatch, AlgoError>(
            AlgoError::InsufficientHistory,
        ),
        r is Ok ==> valid_match(*g, r->Ok_0),
{
    let n = g.node_count;
    if n == 0 {
        return Err(AlgoError::InvalidGraph);
    }
    let mut found = false;
    let mut ba: usize = 0;
    let mut bb: usize = 0;
    let mut bd: u128 = 0;
    let mut p: usize = 0;
    while p < n
        invariant
            n == g.node_count,
            g.well_formed(),
            p <= n,
            found ==> {
                &&& ba < bb < n
                &&& has_history(*g, ba as int)
                &&& has_history(*g, bb as int)
                &&& bd as int == ts_dist(g.histories@[ba as int]@, g.histories@[bb as int]@)
            },
            found ==> forall|x: int, y: int|
                0 <= x < y < n && x < p && has_history(*g, x) && has_history(*g, y) ==> ts_dist(
                    g.histories@[x]@,
                    g.histories@[y]@,
                ) >= bd as int,
            found ==> forall|x: int, y: int|
                0 <= x < y < n && x < p && has_history(*g, x) && has_history(*g, y) && ts_dist(
                    g.histories@[x]@,
                    g.histories@[y]@,
                ) == bd as int ==> (ba < x || (ba == x && bb <= y)),
            found ==> ba < p,
            !found ==> forall|x: int, y: int|
                0 <= x < y < n && x < p ==> !(has_history(*g, x) && has_history(*g, y)),
        decreases n - p,
    {
        let hp_len = g.histories[p].len();
        if hp_len > 0 {
            let mut q: usize = p + 1;
            while q < n
                invariant
                    n == g.node_count,
                    g.well_formed(),
                    p < n,
                    p < q,
                    q <= n,
                    hp_len == g.histories@[p as int]@.len(),
                    hp_len > 0,
                    found ==> {
                        &&& ba < bb < n
                        &&& has_history(*g, ba as int)
                        &&& has_history(*g, bb as int)
                        &&& bd as int == ts_dist(g.histories@[ba as int]@, g.histories@[bb as int]@)
                        &&& (ba < p || (ba == p && bb < q))
                    },
                    found ==> forall|x: int, y: int|
                        0 <= x < y < n && (x < p || (x == p && y < q)) && has_history(*g, x)
                            && has_history(*g, y) ==> ts_dist(g.histories@[x]@, g.histories@[y]@)
                            >= bd as int,
                    found ==> forall|x: int, y: int|
                        0 <= x < y < n && (x < p || (x == p && y < q)) && has_history(*g, x)
                            && has_history(*g, y) && ts_dist(g.histories@[x]@, g.histories@[y]@)
                            == bd as int ==> (ba < x || (ba == x && bb <= y)),
                    !found ==> forall|x: int, y: int|
                        0 <= x < y < n && (x < p || (x == p && y < q)) ==> !(has_history(*g, x)
                            && has_history(*g, y)),
                decreases n - q,
            {
                let hq_len = g.histories[q].len();
                if hq_len > 0 {
                    let dd = series_dist(&g.histories[p], &g.histories[q]);
                    if !found || dd < bd {
                        found = true;
                        ba = p;
                        bb = q;
                        bd = dd;
                    }
                }
                q += 1;
            }
        } else {
            proof {
                assert forall|x: int, y: int|
                    0 <= x < y < n && (x < p + 1) && !(x < p) implies !(has_history(*g, x)
                    && has_history(*g, y)) by {
                    assert(x == p);
                }
            }
        }
        p += 1;
    }
    if !found {
        proof {
            if two_histories(*g) {
                let (x, y) = choose|x: int, y: int|
                    0 <= x < y < g.node_count && has_history(*g, x) && has_history(*g, y);
                assert(false);
            }
        }
        return Err(AlgoError::InsufficientHistory);
    }
    let tm = TimelineMatch { a: ba, b: bb, distance: bd };
    proof {
        assert(two_histories(*g)) by {
            assert(0 <= (ba as int) && ba < bb && (bb as int) < g.node_count && has_history(
                *g,
                ba as int,
            ) && has_history(*g, bb as int));
        }
        assert(valid_match(*g, tm));
    }
    Ok(tm)
}

/// Extrapolates one series a step forward: the last sample plus the last
/// difference, or the lone sample itself.
pub open spec fn predict_series(h: Seq<i32>) -> int
    recommends
        h.len() > 0,
{
    if h.len() >= 2 {
        2 * h.last() - h[h.len() - 2]
    } else {
        h.last() as int
    }
}

/// What a successful predicted-state outcome promises: one entry per node
/// with samples, in ascending node order, carrying that node's
/// extrapolation; nodes without samples are excluded, not an error.
pub open spec fn valid_prediction(g: Graph, ps: Seq<(usize, i64)>) -> bool {
    &&& forall|k: int|
        0 <= k < ps.len() ==> (#[trigger] ps[k]).0 < g.node_count && has_history(g, ps[k].0 as int)
            && ps[k].1 as int == predict_series(g.histories@[ps[k].0 as int]@)
    &&& forall|k1: int, k2: int| 0 <= k1 < k2 < ps.len() ==> ps[k1].0 < ps[k2].0
    &&& forall|v: int|
        0 <= v < g.node_count && has_history(g, v) ==> exists|k: int|
            0 <= k < ps.len() && (#[trigger] ps[k]).0 == v
}

/// Extrapolates a future value for every node that brings at least one
/// historical sample; a node without samples is left out of the result, not
/// an error. An empty graph is a graph error.
pub fn predicted_state(g: &Graph) -> (r: Result<Vec<(usize, i64)>, AlgoError>)
    requires
        g.well_formed(),
    ensures
        r is Err <==> g.node_count == 0,
        r is Err ==> r == Err::<Vec<(usize, i64)>, AlgoError>(AlgoError::InvalidGraph),
        r is Ok ==> valid_prediction(*g, r->Ok_0@),
{
    let n = g.node_count;
    if n == 0 {
        return Err(AlgoError::InvalidGraph);
    }
    let mut ps: Vec<(usize, i64)> = Vec::new();
    let mut v: usize = 0;
    while v < n
        invariant
            n == g.node_count,
            g.well_formed(),
            v <= n,
            forall|k: int|
                0 <= k < ps@.len() ==> (#[trigger] ps@[k]).0 < v && has_history(
                    *g,
                    ps@[k].0 as int,
                ) && ps@[k].1 as int == predict_series(g.histories@[ps@[k].0 as int]@),
            forall|k1: int, k2: int| 0 <= k1 < k2 < ps@.len() ==> ps@[k1].0 < ps@[k2].0,
            forall|u: int|
                0 <= u < v && has_history(*g, u) ==> exists|k: int|
                    0 <= k < ps@.len() && (#[trigger] ps@[k]).0 == u,
        decreases n - v,
    {
        let ghost ps_old = ps@;
        let h = &g.histories[v];
        let hl = h.len();
        if hl >= 2 {
            let last = h[hl - 1] as i64;
            let prev = h[hl - 2] as i64;
            let x: i64 = 2 * last - prev;
            proof {
                assert(g.histories@[v as int]@.last() == h@[hl - 1]);
            }
            ps.push((v, x));
        } else if hl == 1 {
            let x: i64 = h[0] as i64;
            proof {
                assert(g.histories@[v as int]@.last() == h@[0int]);
            }
            ps.push((v, x));
        }
        proof {
            assert forall|u: int| 0 <= u < v + 1 && has_history(*g, u) implies exists|k: int|
                0 <= k < ps@.len() && (#[trigger] ps@[k]).0 == u by {
                if u == v as int {
                    assert(ps@[ps@.len() - 1].0 == v);
                } else {
                    let k = choose|k: int| 0 <= k < ps_old.len() && (#[trigger] ps_old[k]).0 == u;
                    assert(ps@[k].0 == u);
                }
            }
        }
        v += 1;
    }
    proof {
        assert(valid_prediction(*g, ps@));
    }
    Ok(ps)
}

} // verus!
