use vstd::prelude::*;

use crate::error::BuildError;

verus! {

// ---------------------------------------------------------------------------
// Specification: edge lists, layerings and acyclicity
// ---------------------------------------------------------------------------

/// Every endpoint of every edge names a node below `n`.
pub open spec fn edges_bounded(edges: Seq<(u64, u64)>, n: int) -> bool {
    forall|e: int|
        0 <= e < edges.len() ==> (#[trigger] edges[e]).0 < n && edges[e].1 < n
}

/// Whether `id` occurs in the sequence `s`.
pub open spec fn in_seq(s: Seq<u64>, id: u64) -> bool {
    exists|i: int| 0 <= i < s.len() && s[i] == id
}

/// Whether `id` occurs in one of the first `k` layers.
pub open spec fn in_layer_before(layers: Seq<Seq<u64>>, id: u64, k: int) -> bool {
    exists|j: int| 0 <= j < k && in_seq(#[trigger] layers[j], id)
}

/// Whether `id` occurs in some layer.
pub open spec fn listed(layers: Seq<Seq<u64>>, id: u64) -> bool {
    in_layer_before(layers, id, layers.len() as int)
}

/// Every node below `n` occurs in some layer.
pub open spec fn layers_cover(layers: Seq<Seq<u64>>, n: int) -> bool {
    forall|id: u64| id < n ==> #[trigger] listed(layers, id)
}

/// Every listed id names a node below `n`.
pub open spec fn layers_bounded(layers: Seq<Seq<u64>>, n: int) -> bool {
    forall|k: int, i: int|
        0 <= k < layers.len() && 0 <= i < layers[k].len() ==> (#[trigger] layers[k][i]) < n
}

/// No id occurs at two distinct positions.
pub open spec fn layers_unique(layers: Seq<Seq<u64>>) -> bool {
    forall|k1: int, i1: int, k2: int, i2: int|
        0 <= k1 < layers.len() && 0 <= i1 < layers[k1].len() && 0 <= k2 < layers.len() && 0 <= i2
            < layers[k2].len() && #[trigger] layers[k1][i1] == #[trigger] layers[k2][i2] ==> k1
            == k2 && i1 == i2
}

/// Every dependency of a node in layer `k` lies in a strictly earlier
/// layer: for an edge `(from, to)`, `to` must be generated first.
pub open spec fn layers_respect(layers: Seq<Seq<u64>>, edges: Seq<(u64, u64)>) -> bool {
    forall|k: int, i: int, e: int|
        0 <= k < layers.len() && 0 <= i < layers[k].len() && 0 <= e < edges.len()
            && #[trigger] layers[k][i] == (#[trigger] edges[e]).0 ==> in_layer_before(
            layers,
            edges[e].1,
            k,
        )
}

/// The node at position `i` of layer `k` waits on some dependency in
/// the layer directly before it.
pub open spec fn waits_on_previous(
    layers: Seq<Seq<u64>>,
    edges: Seq<(u64, u64)>,
    k: int,
    i: int,
) -> bool {
    exists|e: int|
        0 <= e < edges.len() && (#[trigger] edges[e]).0 == layers[k][i] && in_seq(
            layers[k - 1],
            edges[e].1,
        )
}

/// The layering is as early as possible: every node in a layer after
/// the first waits on some dependency in the layer directly before
/// it.  Together with `layers_respect` this makes the number of
/// layers minimal.
pub open spec fn layers_minimal(layers: Seq<Seq<u64>>, edges: Seq<(u64, u64)>) -> bool {
    forall|k: int, i: int|
        1 <= k < layers.len() && 0 <= i < layers[k].len() ==> #[trigger] waits_on_previous(
            layers,
            edges,
            k,
            i,
        )
}

/// No layer is empty.
pub open spec fn layers_nonempty(layers: Seq<Seq<u64>>) -> bool {
    forall|k: int| 0 <= k < layers.len() ==> (#[trigger] layers[k]).len() > 0
}

/// A partition of the nodes below `n` into layers such that every
/// node's dependencies lie in strictly earlier layers, each node
/// placed in the earliest layer its dependencies allow, and no layer
/// empty.
pub open spec fn valid_layering(layers: Seq<Seq<u64>>, edges: Seq<(u64, u64)>, n: int) -> bool {
    &&& layers_cover(layers, n)
    &&& layers_bounded(layers, n)
    &&& layers_unique(layers)
    &&& layers_respect(layers, edges)
    &&& layers_minimal(layers, edges)
    &&& layers_nonempty(layers)
}

/// `rank` certifies the edge list as cycle-free: each edge points from
/// a higher rank to a strictly lower one.
pub open spec fn rank_ok(edges: Seq<(u64, u64)>, rank: spec_fn(u64) -> int) -> bool {
    forall|e: int|
        0 <= e < edges.len() ==> rank((#[trigger] edges[e]).1) < rank(edges[e].0)
}

/// An edge list is acyclic exactly when some rank function orders it.
pub open spec fn acyclic(edges: Seq<(u64, u64)>) -> bool {
    exists|rank: spec_fn(u64) -> int| rank_ok(edges, rank)
}

/// A node is ready when every node it depends on is already assigned.
pub open spec fn ready_spec(edges: Seq<(u64, u64)>, assigned: Seq<bool>, x: u64) -> bool {
    forall|e: int|
        0 <= e < edges.len() && (#[trigger] edges[e]).0 == x ==> assigned[edges[e].1 as int]
}

// ---------------------------------------------------------------------------
// Counting unassigned nodes
// ---------------------------------------------------------------------------

pub open spec fn count_false(s: Seq<bool>) -> nat
    decreases s.len(),
{
    if s.len() == 0 {
        0nat
    } else {
        count_false(s.drop_last()) + (if s.last() {
            0nat
        } else {
            1nat
        })
    }
}

proof fn lemma_count_false_all(s: Seq<bool>)
    requires
        forall|i: int| 0 <= i < s.len() ==> !s[i],
    ensures
        count_false(s) == s.len(),
    decreases s.len(),
{
    if s.len() > 0 {
        lemma_count_false_all(s.drop_last());
    }
}

proof fn lemma_count_false_update(s: Seq<bool>, i: int)
    requires
        0 <= i < s.len(),
        !s[i],
    ensures
        count_false(s.update(i, true)) + 1 == count_false(s),
    decreases s.len(),
{
    let t = s.update(i, true);
    if i == s.len() - 1 {
        assert(t.drop_last() =~= s.drop_last());
    } else {
        assert(t.drop_last() =~= s.drop_last().update(i, true));
        lemma_count_false_update(s.drop_last(), i);
    }
}

proof fn lemma_count_false_zero(s: Seq<bool>)
    requires
        count_false(s) == 0,
    ensures
        forall|i: int| 0 <= i < s.len() ==> s[i],
    decreases s.len(),
{
    if s.len() > 0 {
        lemma_count_false_zero(s.drop_last());
        assert forall|i: int| 0 <= i < s.len() implies s[i] by {
            if i < s.len() - 1 {
                assert(s.drop_last()[i] == s[i]);
            }
        }
    }
}

proof fn lemma_count_false_pos(s: Seq<bool>)
    requires
        count_false(s) > 0,
    ensures
        exists|i: int| 0 <= i < s.len() && !s[i],
    decreases s.len(),
{
    if s.len() > 0 {
        if !s.last() {
            assert(!s[s.len() - 1]);
        } else {
            lemma_count_false_pos(s.drop_last());
            let i = choose|i: int| 0 <= i < s.len() - 1 && !s.drop_last()[i];
            assert(!s[i]);
        }
    }
}

// ---------------------------------------------------------------------------
// A stuck round certifies a cycle; a layering certifies acyclicity
// ---------------------------------------------------------------------------

/// Among the unassigned nodes below `k` there is one of minimal rank.
proof fn lemma_min_rank(assigned: Seq<bool>, rank: spec_fn(u64) -> int, k: int)
    requires
        1 <= k <= assigned.len(),
        exists|i: int| 0 <= i < k && !(#[trigger] assigned[i]),
    ensures
        exists|m: int|
            0 <= m < k && !(#[trigger] assigned[m]) && (forall|i: int|
                0 <= i < k && !(#[trigger] assigned[i]) ==> rank(m as u64) <= rank(i as u64)),
    decreases k,
{
    let j = k - 1;
    if exists|i: int| 0 <= i < j && !(#[trigger] assigned[i]) {
        lemma_min_rank(assigned, rank, j);
        let m0 = choose|m: int|
            0 <= m < j && !(#[trigger] assigned[m]) && (forall|i: int|
                0 <= i < j && !(#[trigger] assigned[i]) ==> rank(m as u64) <= rank(i as u64));
        if !assigned[j] && rank(j as u64) < rank(m0 as u64) {
            assert(forall|i: int|
                0 <= i < k && !(#[trigger] assigned[i]) ==> rank(j as u64) <= rank(i as u64));
        } else {
            assert(forall|i: int|
                0 <= i < k && !(#[trigger] assigned[i]) ==> rank(m0 as u64) <= rank(i as u64));
        }
    } else {
        assert(!assigned[j]);
        assert(forall|i: int|
            0 <= i < k && !(#[trigger] assigned[i]) ==> rank(j as u64) <= rank(i as u64));
    }
}

/// If every unassigned node waits on an unassigned node, no rank
/// function can order the edges: the graph has a cycle.
#[verifier::rlimit(100)]
proof fn lemma_stuck_not_acyclic(edges: Seq<(u64, u64)>, assigned: Seq<bool>)
    requires
        edges_bounded(edges, assigned.len() as int),
        exists|i: int| 0 <= i < assigned.len() && !(#[trigger] assigned[i]),
        forall|x: int|
            0 <= x < assigned.len() && !(#[trigger] assigned[x]) ==> exists|e: int|
                0 <= e < edges.len() && (#[trigger] edges[e]).0 == x as u64 && !assigned[edges[e].1
                    as int],
    ensures
        !acyclic(edges),
{
    assert forall|rank: spec_fn(u64) -> int| !rank_ok(edges, rank) by {
        if rank_ok(edges, rank) {
            lemma_min_rank(assigned, rank, assigned.len() as int);
            let m = choose|m: int|
                0 <= m < assigned.len() && !(#[trigger] assigned[m]) && (forall|i: int|
                    0 <= i < assigned.len() && !(#[trigger] assigned[i]) ==> rank(m as u64) <= rank(
                        i as u64,
                    ));
            let e = choose|e: int|
                0 <= e < edges.len() && (#[trigger] edges[e]).0 == m as u64 && !assigned[edges[e].1
                    as int];
            let t = edges[e].1;
            assert(t < assigned.len());
            assert(!assigned[t as int]);
            assert(rank(m as u64) <= rank(t));
            assert(rank(t) < rank(m as u64));
            assert(false);
        }
    }
}

/// An edge leaving a node that no existing edge mentions cannot close
/// a cycle: rank the fresh node above its target.
pub proof fn lemma_fresh_edge_acyclic(edges: Seq<(u64, u64)>, from: u64, to: u64)
    requires
        acyclic(edges),
        forall|e: int|
            0 <= e < edges.len() ==> (#[trigger] edges[e]).0 != from && edges[e].1 != from,
        from != to,
    ensures
        acyclic(edges.push((from, to))),
{
    let rank = choose|rank: spec_fn(u64) -> int| rank_ok(edges, rank);
    let rank2 = |x: u64|
        if x == from {
            rank(to) + 1
        } else {
            rank(x)
        };
    let e2 = edges.push((from, to));
    assert forall|e: int| 0 <= e < e2.len() implies rank2((#[trigger] e2[e]).1) < rank2(
        e2[e].0,
    ) by {
        if e < edges.len() {
            assert(e2[e] == edges[e]);
        } else {
            assert(e2[e] == (from, to));
        }
    }
    assert(rank_ok(e2, rank2));
}

/// An edge leaving a node that no existing edge points into cannot
/// close a cycle: lift the node's rank above its target's.
pub proof fn lemma_no_incoming_edge_acyclic(edges: Seq<(u64, u64)>, from: u64, to: u64)
    requires
        acyclic(edges),
        forall|e: int| 0 <= e < edges.len() ==> (#[trigger] edges[e]).1 != from,
        from != to,
    ensures
        acyclic(edges.push((from, to))),
{
    let rank = choose|rank: spec_fn(u64) -> int| rank_ok(edges, rank);
    let rank2 = |x: u64|
        if x == from {
            if rank(from) > rank(to) + 1 {
                rank(from)
            } else {
                rank(to) + 1
            }
        } else {
            rank(x)
        };
    let e2 = edges.push((from, to));
    assert forall|e: int| 0 <= e < e2.len() implies rank2((#[trigger] e2[e]).1) < rank2(
        e2[e].0,
    ) by {
        if e < edges.len() {
            assert(e2[e] == edges[e]);
            assert(rank(edges[e].1) < rank(edges[e].0));
        } else {
            assert(e2[e] == (from, to));
        }
    }
    assert(rank_ok(e2, rank2));
}

/// A valid layering is a certificate of acyclicity: rank a node by the
/// index of its layer.
proof fn lemma_layering_acyclic(layers: Seq<Seq<u64>>, edges: Seq<(u64, u64)>, n: int)
    requires
        valid_layering(layers, edges, n),
        edges_bounded(edges, n),
    ensures
        acyclic(edges),
{
    let rank = |id: u64| choose|k: int| 0 <= k < layers.len() && in_seq(layers[k], id);
    assert forall|e: int| 0 <= e < edges.len() implies rank((#[trigger] edges[e]).1) < rank(
        edges[e].0,
    ) by {
        let f = edges[e].0;
        let t = edges[e].1;
        assert(listed(layers, f));
        assert(listed(layers, t));
        let kf = rank(f);
        assert(0 <= kf < layers.len() && in_seq(layers[kf], f));
        let kt = rank(t);
        assert(0 <= kt < layers.len() && in_seq(layers[kt], t));
        let fi = choose|i: int| 0 <= i < layers[kf].len() && layers[kf][i] == f;
        assert(in_layer_before(layers, t, kf));
        let j = choose|j: int| 0 <= j < kf && in_seq(layers[j], t);
        let ji = choose|i: int| 0 <= i < layers[j].len() && layers[j][i] == t;
        let ki = choose|i: int| 0 <= i < layers[kt].len() && layers[kt][i] == t;
        assert(layers[j][ji] == layers[kt][ki]);
        assert(j == kt);
    }
    assert(rank_ok(edges, rank));
}

/// A layering extended by one more layer lists exactly the old ids and
/// the new layer's ids.
proof fn lemma_listed_push(layers: Seq<Seq<u64>>, lay: Seq<u64>, id: u64)
    ensures
        listed(layers.push(lay), id) <==> (listed(layers, id) || in_seq(lay, id)),
{
    let l2 = layers.push(lay);
    if listed(layers, id) {
        let j = choose|j: int| 0 <= j < layers.len() && in_seq(#[trigger] layers[j], id);
        assert(l2[j] == layers[j]);
        assert(in_layer_before(l2, id, l2.len() as int));
    }
    if in_seq(lay, id) {
        assert(l2[layers.len() as int] == lay);
        assert(in_layer_before(l2, id, l2.len() as int));
    }
    if listed(l2, id) {
        let j = choose|j: int| 0 <= j < l2.len() && in_seq(#[trigger] l2[j], id);
        if j < layers.len() {
            assert(layers[j] == l2[j]);
            assert(listed(layers, id));
        } else {
            assert(l2[j] == lay);
        }
    }
}

// ---------------------------------------------------------------------------
// Layer computation (Kahn's algorithm by rounds)
// ---------------------------------------------------------------------------

/// Partitions the nodes `0..n` into topological layers, or reports
/// that the edges contain a cycle.
#[verifier::rlimit(60)]
fn compute_layers(n: usize, edges: &Vec<(u64, u64)>) -> (r: Option<Vec<Vec<u64>>>)
    requires
        edges_bounded(edges@, n as int),
    ensures
        match r {
            Some(layers) => valid_layering(layers.deep_view(), edges@, n as int),
            None => !acyclic(edges@),
        },
{
    let mut assigned: Vec<bool> = vec![false; n];
    let mut layers: Vec<Vec<u64>> = Vec::new();
    let mut remaining: usize = n;
    let ghost mut prev: Seq<bool> = assigned@;
    proof {
        lemma_count_false_all(assigned@);
        assert(layers.deep_view() =~= Seq::<Seq<u64>>::empty());
    }
    while remaining > 0
        invariant
            assigned@.len() == n,
            remaining == count_false(assigned@),
            edges_bounded(edges@, n as int),
            layers_bounded(layers.deep_view(), n as int),
            layers_unique(layers.deep_view()),
            layers_respect(layers.deep_view(), edges@),
            layers_minimal(layers.deep_view(), edges@),
            layers_nonempty(layers.deep_view()),
            forall|id: u64| id < n ==> (#[trigger] listed(layers.deep_view(), id) <==> assigned@[id as int]),
            prev.len() == n,
            layers.deep_view().len() > 0 ==> forall|x: int|
                0 <= x < n && !prev[x] && ready_spec(edges@, prev, x as u64) ==> in_seq(
                    #[trigger] layers.deep_view().last(),
                    x as u64,
                ),
            layers.deep_view().len() > 0 ==> forall|x: int|
                0 <= x < n ==> #[trigger] assigned@[x] == (prev[x] || in_seq(
                    layers.deep_view().last(),
                    x as u64,
                )),
            layers.deep_view().len() == 0 ==> forall|x: int| 0 <= x < n ==> !(#[trigger] assigned@[x]),
        decreases remaining,
    {
        let ghost pre = assigned@;
        let ghost gl = layers.deep_view();
        // collect every node that is not yet assigned and whose
        // dependencies are all assigned in earlier rounds
        let mut layer: Vec<u64> = Vec::new();
        let mut id: usize = 0;
        while id < n
            invariant
                id <= n,
                assigned@ == pre,
                assigned@.len() == n,
                edges_bounded(edges@, n as int),
                forall|j: int| 0 <= j < layer@.len() ==> (#[trigger] layer@[j]) < id as u64,
                forall|j1: int, j2: int|
                    0 <= j1 < j2 < layer@.len() ==> layer@[j1] < layer@[j2],
                forall|j: int|
                    0 <= j < layer@.len() ==> !assigned@[(#[trigger] layer@[j]) as int],
                forall|j: int|
                    0 <= j < layer@.len() ==> ready_spec(edges@, assigned@, #[trigger] layer@[j]),
                forall|x: int|
                    0 <= x < id && !assigned@[x] && ready_spec(edges@, assigned@, x as u64)
                        ==> in_seq(layer@, x as u64),
            decreases n - id,
        {
            let mut is_ready = true;
            let mut e: usize = 0;
            while e < edges.len()
                invariant
                    e <= edges.len(),
                    id < n,
                    assigned@.len() == n,
                    edges_bounded(edges@, n as int),
                    is_ready <==> (forall|e2: int|
                        0 <= e2 < e && (#[trigger] edges@[e2]).0 == id as u64
                            ==> assigned@[edges@[e2].1 as int]),
                decreases edges@.len() - e,
            {
                if edges[e].0 == id as u64 && !assigned[edges[e].1 as usize] {
                    is_ready = false;
                }
                e += 1;
            }
            let ghost oldlayer = layer@;
            if !assigned[id] && is_ready {
                layer.push(id as u64);
            }
            proof {
                assert forall|x: int|
                    0 <= x < id + 1 && !assigned@[x] && ready_spec(edges@, assigned@, x as u64)
                        implies in_seq(layer@, x as u64) by {
                    if x < id {
                        assert(in_seq(oldlayer, x as u64));
                        let i = choose|i: int| 0 <= i < oldlayer.len() && oldlayer[i] == x as u64;
                        assert(layer@[i] == x as u64);
                    } else {
                        assert(layer@[layer@.len() - 1] == id as u64);
                    }
                }
            }
            id += 1;
        }
        if layer.len() == 0 {
            proof {
                lemma_count_false_pos(assigned@);
                assert forall|x: int|
                    0 <= x < n && !(#[trigger] assigned@[x]) implies exists|e: int|
                        0 <= e < edges@.len() && (#[trigger] edges@[e]).0 == x as u64
                            && !assigned@[edges@[e].1 as int] by {
                    assert(!in_seq(layer@, x as u64));
                    assert(!ready_spec(edges@, assigned@, x as u64));
                    let e = choose|e: int|
                        0 <= e < edges@.len() && (#[trigger] edges@[e]).0 == x as u64
                            && !assigned@[edges@[e].1 as int];
                    assert(0 <= e < edges@.len() && edges@[e].0 == x as u64
                        && !assigned@[edges@[e].1 as int]);
                }
                lemma_stuck_not_acyclic(edges@, assigned@);
            }
            return None;
        }
        // mark the layer's nodes as assigned
        let ghost lay = layer@;
        proof {
            assert(forall|x: int|
                0 <= x < n && !pre[x] && ready_spec(edges@, pre, x as u64) ==> in_seq(
                    lay,
                    x as u64,
                ));
            assert(forall|jj: int|
                0 <= jj < lay.len() ==> ready_spec(edges@, pre, #[trigger] lay[jj]));
        }
        let mut j: usize = 0;
        while j < layer.len()
            invariant
                j <= layer.len(),
                layer@ == lay,
                assigned@.len() == n,
                remaining == count_false(assigned@),
                count_false(assigned@) + j == count_false(pre),
                edges_bounded(edges@, n as int),
                forall|jj: int| 0 <= jj < lay.len() ==> (#[trigger] lay[jj]) < n as u64,
                forall|j1: int, j2: int| 0 <= j1 < j2 < lay.len() ==> lay[j1] < lay[j2],
                forall|jj: int| 0 <= jj < lay.len() ==> !pre[(#[trigger] lay[jj]) as int],
                forall|x: int|
                    0 <= x < n ==> assigned@[x] == (pre[x] || exists|jj: int|
                        0 <= jj < j && lay[jj] == x as u64),
            decreases layer@.len() - j,
        {
            let idx = layer[j] as usize;
            proof {
                if assigned@[idx as int] {
                    assert(!pre[idx as int]);
                    let jj = choose|jj: int| 0 <= jj < j && lay[jj] == idx as u64;
                    assert(lay[jj] == lay[j as int]);
                    assert(false);
                }
                lemma_count_false_update(assigned@, idx as int);
            }
            let ghost before = assigned@;
            assigned.set(idx, true);
            proof {
                assert forall|x: int|
                    0 <= x < n implies assigned@[x] == (pre[x] || exists|jj: int|
                        0 <= jj < j + 1 && lay[jj] == x as u64) by {
                    if x == idx as int {
                        assert(lay[j as int] == x as u64);
                    } else {
                        assert(assigned@[x] == before[x]);
                        if exists|jj: int| 0 <= jj < j + 1 && lay[jj] == x as u64 {
                            let jj = choose|jj: int| 0 <= jj < j + 1 && lay[jj] == x as u64;
                            assert(jj < j);
                        }
                    }
                }
            }
            remaining -= 1;
            j += 1;
        }
        layers.push(layer);
        proof {
            let l2 = layers.deep_view();
            assert(l2 =~~= gl.push(lay));
            assert(l2[gl.len() as int] == lay);
            assert forall|k: int, i: int|
                0 <= k < l2.len() && 0 <= i < l2[k].len() implies (#[trigger] l2[k][i])
                    < n as u64 by {
                if k < gl.len() {
                    assert(l2[k] == gl[k]);
                } else {
                    assert(l2[k] == lay);
                }
            }
            // uniqueness of the extended layering
            assert forall|k1: int, i1: int, k2: int, i2: int|
                0 <= k1 < l2.len() && 0 <= i1 < l2[k1].len() && 0 <= k2 < l2.len() && 0 <= i2
                    < l2[k2].len() && #[trigger] l2[k1][i1] == #[trigger] l2[k2][i2] implies k1
                    == k2 && i1 == i2 by {
                let v = l2[k1][i1];
                if k1 < gl.len() && k2 < gl.len() {
                    assert(l2[k1] == gl[k1]);
                    assert(l2[k2] == gl[k2]);
                } else if k1 < gl.len() && k2 == gl.len() {
                    assert(l2[k1] == gl[k1]);
                    assert(l2[k2] == lay);
                    assert(in_seq(gl[k1], v));
                    assert(in_layer_before(gl, v, gl.len() as int));
                    assert(listed(gl, v));
                    assert(v < n as u64);
                    assert(pre[v as int]);
                    assert(!pre[(lay[i2]) as int]);
                    assert(false);
                } else if k1 == gl.len() && k2 < gl.len() {
                    assert(l2[k1] == lay);
                    assert(l2[k2] == gl[k2]);
                    assert(in_seq(gl[k2], v));
                    assert(listed(gl, v));
                    assert(v < n as u64);
                    assert(pre[v as int]);
                    assert(!pre[(lay[i1]) as int]);
                    assert(false);
                } else {
                    assert(l2[k1] == lay);
                    assert(l2[k2] == lay);
                    if i1 < i2 {
                        assert(lay[i1] < lay[i2]);
                    } else if i2 < i1 {
                        assert(lay[i2] < lay[i1]);
                    }
                }
            }
            // the new layer respects the edges
            assert forall|k: int, i: int, e: int|
                0 <= k < l2.len() && 0 <= i < l2[k].len() && 0 <= e < edges@.len()
                    && #[trigger] l2[k][i] == (#[trigger] edges@[e]).0 implies in_layer_before(
                    l2,
                    edges@[e].1,
                    k,
                ) by {
                if k < gl.len() {
                    assert(l2[k] == gl[k]);
                    assert(in_layer_before(gl, edges@[e].1, k));
                    let jx = choose|jx: int| 0 <= jx < k && in_seq(#[trigger] gl[jx], edges@[e].1);
                    assert(l2[jx] == gl[jx]);
                } else {
                    assert(l2[k] == lay);
                    let m = lay[i];
                    assert(ready_spec(edges@, pre, m));
                    assert(pre[edges@[e].1 as int]);
                    assert(listed(gl, edges@[e].1));
                    let jx = choose|jx: int| 0 <= jx < gl.len() && in_seq(#[trigger] gl[jx], edges@[e].1);
                    assert(l2[jx] == gl[jx]);
                    assert(in_layer_before(l2, edges@[e].1, k));
                }
            }
            // listed exactly when assigned
            assert forall|idq: u64| idq < n implies (#[trigger] listed(l2, idq) <==> assigned@[idq
                as int]) by {
                lemma_listed_push(gl, lay, idq);
                if in_seq(lay, idq) {
                    let i = choose|i: int| 0 <= i < lay.len() && lay[i] == idq;
                    assert(assigned@[idq as int]);
                }
                if assigned@[idq as int] && !pre[idq as int] {
                    let jj = choose|jj: int| 0 <= jj < lay.len() && lay[jj] == idq as u64;
                    assert(in_seq(lay, idq));
                }
            }
            // the new layer is as early as possible: each of its
            // members was blocked in the round before by a dependency
            // that this round's predecessor assigned
            assert forall|k: int, i: int|
                1 <= k < l2.len() && 0 <= i < l2[k].len() implies #[trigger] waits_on_previous(
                l2,
                edges@,
                k,
                i,
            ) by {
                if k < gl.len() {
                    assert(l2[k] == gl[k]);
                    assert(l2[k - 1] == gl[k - 1]);
                    assert(waits_on_previous(gl, edges@, k, i));
                    let e = choose|e: int|
                        0 <= e < edges@.len() && (#[trigger] edges@[e]).0 == gl[k][i] && in_seq(
                            gl[k - 1],
                            edges@[e].1,
                        );
                    assert(edges@[e].0 == l2[k][i] && in_seq(l2[k - 1], edges@[e].1));
                } else {
                    assert(l2[k] == lay);
                    assert(gl.len() >= 1);
                    let m = lay[i];
                    assert(!pre[m as int]);
                    assert(!prev[m as int] && !in_seq(gl.last(), m));
                    assert(!ready_spec(edges@, prev, m));
                    assert(exists|e: int|
                        0 <= e < edges@.len() && (#[trigger] edges@[e]).0 == m && !prev[edges@[e].1
                            as int]);
                    let e = choose|e: int|
                        0 <= e < edges@.len() && (#[trigger] edges@[e]).0 == m && !prev[edges@[e].1
                            as int];
                    assert(ready_spec(edges@, pre, m));
                    assert(pre[edges@[e].1 as int]);
                    assert(in_seq(gl.last(), edges@[e].1));
                    assert(l2[k - 1] == gl[gl.len() - 1]);
                }
            }
            // the next round is judged against this round's start
            prev = pre;
            assert(l2.last() == lay);
            assert forall|x: int|
                0 <= x < n implies #[trigger] assigned@[x] == (prev[x] || in_seq(
                    l2.last(),
                    x as u64,
                )) by {
                if assigned@[x] && !pre[x] {
                    let jj = choose|jj: int| 0 <= jj < lay.len() && lay[jj] == x as u64;
                    assert(in_seq(lay, x as u64));
                }
                if in_seq(lay, x as u64) {
                    let i = choose|i: int| 0 <= i < lay.len() && lay[i] == x as u64;
                }
            }
        }
    }
    proof {
        lemma_count_false_zero(assigned@);
        assert forall|id: u64| id < n implies #[trigger] listed(layers.deep_view(), id) by {
            assert(assigned@[id as int]);
        }
    }
    Some(layers)
}

/// A well-formed graph's edges are acyclic.
pub proof fn lemma_wf_acyclic(g: DependencyGraph)
    requires
        g.wf(),
    ensures
        acyclic(g.spec_edges()),
{
    lemma_layering_acyclic(g.spec_layers(), g.spec_edges(), g.spec_node_count());
}

/// Generation-order scenario: over three nodes whose only edges say
/// "the directory follows the root" and "the file follows the
/// directory", every valid layering is exactly the root's layer, then
/// the directory's, then the file's.
pub proof fn lemma_directory_file_layers(
    layers: Seq<Seq<u64>>,
    edges: Seq<(u64, u64)>,
    file: u64,
    dir: u64,
)
    requires
        0 < file < 3,
        0 < dir < 3,
        file != dir,
        edges == seq![(dir, 0u64), (file, dir)],
        valid_layering(layers, edges, 3),
    ensures
        layers =~~= seq![seq![0u64], seq![dir], seq![file]],
{
    assert(edges[0] == (dir, 0u64));
    assert(edges[1] == (file, dir));
    // the root has no dependencies, so it can only sit in the first
    // layer
    assert forall|k: int, i: int|
        0 <= k < layers.len() && 0 <= i < layers[k].len() && #[trigger] layers[k][i] == 0u64
            implies k == 0 by {
        if k >= 1 {
            assert(waits_on_previous(layers, edges, k, i));
            let e = choose|e: int|
                0 <= e < edges.len() && (#[trigger] edges[e]).0 == layers[k][i] && in_seq(
                    layers[k - 1],
                    edges[e].1,
                );
            assert(e == 0 || e == 1);
            assert(false);
        }
    }
    // the directory waits on the root alone, so it sits directly
    // after the first layer
    assert forall|k: int, i: int|
        0 <= k < layers.len() && 0 <= i < layers[k].len() && #[trigger] layers[k][i] == dir
            implies k == 1 by {
        assert(layers[k][i] == edges[0].0);
        assert(in_layer_before(layers, 0u64, k));
        let j = choose|j: int| 0 <= j < k && in_seq(#[trigger] layers[j], 0u64);
        let jj = choose|jj: int| 0 <= jj < layers[j].len() && (#[trigger] layers[j][jj]) == 0u64;
        assert(j == 0);
        assert(k >= 1);
        if k >= 2 {
            assert(waits_on_previous(layers, edges, k, i));
            let e = choose|e: int|
                0 <= e < edges.len() && (#[trigger] edges[e]).0 == layers[k][i] && in_seq(
                    layers[k - 1],
                    edges[e].1,
                );
            assert(e == 0);
            let ii = choose|ii: int| 0 <= ii < layers[k - 1].len() && (#[trigger] layers[k - 1][ii]) == 0u64;
            assert(false);
        }
    }
    // the file waits on the directory alone, so it sits third
    assert forall|k: int, i: int|
        0 <= k < layers.len() && 0 <= i < layers[k].len() && #[trigger] layers[k][i] == file
            implies k == 2 by {
        assert(layers[k][i] == edges[1].0);
        assert(in_layer_before(layers, dir, k));
        let j = choose|j: int| 0 <= j < k && in_seq(#[trigger] layers[j], dir);
        let jj = choose|jj: int| 0 <= jj < layers[j].len() && (#[trigger] layers[j][jj]) == dir;
        assert(j == 1);
        assert(k >= 2);
        if k >= 3 {
            assert(waits_on_previous(layers, edges, k, i));
            let e = choose|e: int|
                0 <= e < edges.len() && (#[trigger] edges[e]).0 == layers[k][i] && in_seq(
                    layers[k - 1],
                    edges[e].1,
                );
            assert(e == 1);
            let ii = choose|ii: int| 0 <= ii < layers[k - 1].len() && (#[trigger] layers[k - 1][ii]) == dir;
            assert(false);
        }
    }
    // exactly three layers: the file's layer is the third, and a
    // fourth layer could hold none of the three nodes
    assert(listed(layers, file));
    let kf = choose|j: int| 0 <= j < layers.len() && in_seq(#[trigger] layers[j], file);
    let kfi = choose|i: int| 0 <= i < layers[kf].len() && (#[trigger] layers[kf][i]) == file;
    assert(kf == 2);
    assert(layers.len() >= 3);
    if layers.len() > 3 {
        assert(layers[3].len() > 0);
        let m = layers[3][0];
        assert(m < 3);
        assert(m == 0u64 || m == dir || m == file);
        assert(false);
    }
    // each layer holds exactly its one node
    assert(layers[0].len() > 0);
    assert(layers[0][0] < 3);
    assert(layers[0][0] == 0u64);
    if layers[0].len() >= 2 {
        assert(layers[0][1] == 0u64);
        assert(false);
    }
    assert(layers[0] =~= seq![0u64]);
    assert(layers[1].len() > 0);
    assert(layers[1][0] < 3);
    assert(layers[1][0] == dir);
    if layers[1].len() >= 2 {
        assert(layers[1][1] == dir);
        assert(false);
    }
    assert(layers[1] =~= seq![dir]);
    assert(layers[2].len() > 0);
    assert(layers[2][0] < 3);
    assert(layers[2][0] == file);
    if layers[2].len() >= 2 {
        assert(layers[2][1] == file);
        assert(false);
    }
    assert(layers[2] =~= seq![file]);
}

// ---------------------------------------------------------------------------
// The graph itself
// ---------------------------------------------------------------------------

/// An acyclic directed dependency graph over node ids `0..node_count`,
/// together with a topological layering that is kept valid across
/// every mutation.
pub struct DependencyGraph {
    node_count: usize,
    edges: Vec<(u64, u64)>,
    layers: Vec<Vec<u64>>,
}

impl DependencyGraph {
    /// How many nodes the graph knows.
    pub closed spec fn spec_node_count(&self) -> int {
        self.node_count as int
    }

    /// The edges, in insertion order; `(from, to)` means `from` must be
    /// generated after `to`.
    pub closed spec fn spec_edges(&self) -> Seq<(u64, u64)> {
        self.edges@
    }

    /// The current topological layering.
    pub closed spec fn spec_layers(&self) -> Seq<Seq<u64>> {
        self.layers.deep_view()
    }

    pub open spec fn wf(&self) -> bool {
        &&& edges_bounded(self.spec_edges(), self.spec_node_count())
        &&& valid_layering(self.spec_layers(), self.spec_edges(), self.spec_node_count())
    }

    pub fn new() -> (g: DependencyGraph)
        ensures
            g.wf(),
            g.spec_node_count() == 0,
            g.spec_edges() == Seq::<(u64, u64)>::empty(),
    {
        let g = DependencyGraph { node_count: 0, edges: Vec::new(), layers: Vec::new() };
        proof {
            assert(g.spec_layers() =~= Seq::<Seq<u64>>::empty());
            assert(g.spec_edges() =~= Seq::<(u64, u64)>::empty());
        }
        g
    }

    pub fn node_count(&self) -> (n: usize)
        ensures
            n == self.spec_node_count(),
    {
        self.node_count
    }

    /// Whether the graph has any edges.
    pub fn is_empty(&self) -> (r: bool)
        ensures
            r == (self.spec_edges().len() == 0),
    {
        self.edges.len() == 0
    }

    /// Adds the next node (id `node_count`) with no edges.  A fresh
    /// node depends on nothing, so it joins the first layer.
    pub fn add_node(&mut self) -> (id: u64)
        requires
            old(self).wf(),
            old(self).spec_node_count() < usize::MAX as int,
        ensures
            final(self).wf(),
            id as int == old(self).spec_node_count(),
            final(self).spec_node_count() == old(self).spec_node_count() + 1,
            final(self).spec_edges() == old(self).spec_edges(),
    {
        let id = self.node_count as u64;
        let ghost gl = self.spec_layers();
        let ghost n0 = self.spec_node_count();
        self.node_count = self.node_count + 1;
        if self.layers.len() == 0 {
            let first: Vec<u64> = vec![id];
            self.layers.push(first);
            proof {
                let l2 = self.spec_layers();
                assert(n0 == 0) by {
                    if n0 > 0 {
                        assert(listed(gl, 0u64));
                        assert(false);
                    }
                }
                assert(l2 =~~= gl.push(seq![id]));
                assert(gl.len() == 0);
                assert(l2[0][0] == id);
                assert forall|idq: u64| idq < n0 + 1 implies #[trigger] listed(l2, idq) by {
                    assert(idq == id);
                    assert(in_seq(l2[0], idq));
                }
                assert(l2.len() == 1);
                assert(valid_layering(l2, self.spec_edges(), n0 + 1));
            }
        } else {
            let mut first = self.layers.remove(0);
            let ghost f0 = first@;
            first.push(id);
            self.layers.insert(0, first);
            proof {
                let l2 = self.spec_layers();
                assert(l2 =~~= gl.update(0, f0.push(id)));
                assert(l2[0] == f0.push(id));
                assert(gl[0] == f0);
                // every old id is still listed where it was
                assert forall|idq: u64| idq < n0 + 1 implies #[trigger] listed(l2, idq) by {
                    if idq < n0 {
                        assert(listed(gl, idq));
                        let j = choose|j: int| 0 <= j < gl.len() && in_seq(#[trigger] gl[j], idq);
                        if j == 0 {
                            let i = choose|i: int| 0 <= i < f0.len() && f0[i] == idq;
                            assert(l2[0][i] == idq);
                            assert(in_seq(l2[0], idq));
                        } else {
                            assert(l2[j] == gl[j]);
                        }
                    } else {
                        assert(l2[0][f0.len() as int] == id);
                        assert(in_seq(l2[0], idq));
                    }
                }
                // bounded
                assert forall|k: int, i: int|
                    0 <= k < l2.len() && 0 <= i < l2[k].len() implies (#[trigger] l2[k][i]) < (n0
                        + 1) as u64 by {
                    if k == 0 {
                        if i < f0.len() {
                            assert(gl[0][i] == l2[k][i]);
                        }
                    } else {
                        assert(l2[k] == gl[k]);
                    }
                }
                // uniqueness: the new id was not listed anywhere before
                assert forall|k1: int, i1: int, k2: int, i2: int|
                    0 <= k1 < l2.len() && 0 <= i1 < l2[k1].len() && 0 <= k2 < l2.len() && 0 <= i2
                        < l2[k2].len() && #[trigger] l2[k1][i1] == #[trigger] l2[k2][i2] implies k1
                        == k2 && i1 == i2 by {
                    if k1 == 0 && i1 == f0.len() && (k2 != 0 || i2 != f0.len()) {
                        assert(l2[k1][i1] == id);
                        if k2 == 0 {
                            assert(gl[0][i2] == l2[k2][i2]);
                            assert(gl[0][i2] < n0 as u64);
                        } else {
                            assert(gl[k2][i2] == l2[k2][i2]);
                            assert(gl[k2][i2] < n0 as u64);
                        }
                        assert(false);
                    } else if k2 == 0 && i2 == f0.len() && (k1 != 0 || i1 != f0.len()) {
                        assert(l2[k2][i2] == id);
                        if k1 == 0 {
                            assert(gl[0][i1] == l2[k1][i1]);
                            assert(gl[0][i1] < n0 as u64);
                        } else {
                            assert(gl[k1][i1] == l2[k1][i1]);
                            assert(gl[k1][i1] < n0 as u64);
                        }
                        assert(false);
                    } else if !(k1 == 0 && i1 == f0.len()) && !(k2 == 0 && i2 == f0.len()) {
                        let v1 = if k1 == 0 { gl[0][i1] } else { gl[k1][i1] };
                        assert(l2[k1][i1] == v1);
                        let v2 = if k2 == 0 { gl[0][i2] } else { gl[k2][i2] };
                        assert(l2[k2][i2] == v2);
                    }
                }
                // respect: the new id has no edges, old ids keep theirs
                assert forall|k: int, i: int, e: int|
                    0 <= k < l2.len() && 0 <= i < l2[k].len() && 0 <= e < self.spec_edges().len()
                        && #[trigger] l2[k][i] == (#[trigger] self.spec_edges()[e]).0 implies
                        in_layer_before(l2, self.spec_edges()[e].1, k) by {
                    if k == 0 && i == f0.len() {
                        // the fresh id: edges are bounded by the old count
                        assert(self.spec_edges()[e].0 < n0 as u64);
                        assert(false);
                    } else {
                        let v = if k == 0 { gl[0][i] } else { gl[k][i] };
                        assert(l2[k][i] == v);
                        assert(in_seq(gl[k], v));
                        assert(in_layer_before(gl, self.spec_edges()[e].1, k));
                        let jx = choose|jx: int|
                            0 <= jx < k && in_seq(#[trigger] gl[jx], self.spec_edges()[e].1);
                        if jx == 0 {
                            let ii = choose|ii: int|
                                0 <= ii < f0.len() && f0[ii] == self.spec_edges()[e].1;
                            assert(l2[0][ii] == self.spec_edges()[e].1);
                            assert(in_seq(l2[0], self.spec_edges()[e].1));
                        } else {
                            assert(l2[jx] == gl[jx]);
                        }
                    }
                }
                // minimality: later layers are unchanged, and the
                // first layer only grew
                assert forall|k: int, i: int|
                    1 <= k < l2.len() && 0 <= i < l2[k].len() implies #[trigger] waits_on_previous(
                    l2,
                    self.spec_edges(),
                    k,
                    i,
                ) by {
                    assert(l2[k] == gl[k]);
                    assert(waits_on_previous(gl, self.spec_edges(), k, i));
                    let e = choose|e: int|
                        0 <= e < self.spec_edges().len() && (#[trigger] self.spec_edges()[e]).0
                            == gl[k][i] && in_seq(gl[k - 1], self.spec_edges()[e].1);
                    let t = self.spec_edges()[e].1;
                    if k - 1 == 0 {
                        let ii = choose|ii: int| 0 <= ii < f0.len() && f0[ii] == t;
                        assert(l2[0][ii] == t);
                        assert(in_seq(l2[0], t));
                    } else {
                        assert(l2[k - 1] == gl[k - 1]);
                    }
                }
            }
        }
        id
    }

    /// Adds the edge "`from` must be generated after `to`".  Fails with
    /// `NotFound` for an unknown id and with `CycleDetected` when the
    /// edge would close a cycle; on failure the graph is unchanged.
    /// Succeeds exactly when both ids are known and the extended edge
    /// set is still acyclic.
    pub fn depend_on(&mut self, from: u64, to: u64) -> (r: Result<(), BuildError>)
        requires
            old(self).wf(),
        ensures
            final(self).wf(),
            final(self).spec_node_count() == old(self).spec_node_count(),
            r is Ok <==> (from < old(self).spec_node_count() && to < old(self).spec_node_count()
                && acyclic(old(self).spec_edges().push((from, to)))),
            r is Ok ==> final(self).spec_edges() == old(self).spec_edges().push((from, to))
                && acyclic(final(self).spec_edges()),
            r is Err ==> final(self).spec_edges() == old(self).spec_edges()
                && final(self).spec_layers() == old(self).spec_layers(),
            r matches Err(e) ==> (e matches BuildError::NotFound(x) && (x == from || x == to)
                && (x >= old(self).spec_node_count()))
                || (e matches BuildError::CycleDetected { from: f, to: t }
                && f == from && t == to
                && from < old(self).spec_node_count() && to < old(self).spec_node_count()
                && !acyclic(old(self).spec_edges().push((from, to)))),
    {
        if from >= self.node_count as u64 {
            return Err(BuildError::NotFound(from));
        }
        if to >= self.node_count as u64 {
            return Err(BuildError::NotFound(to));
        }
        let ghost olde = self.edges@;
        self.edges.push((from, to));
        match compute_layers(self.node_count, &self.edges) {
            Some(new_layers) => {
                self.layers = new_layers;
                proof {
                    lemma_layering_acyclic(
                        self.spec_layers(),
                        self.spec_edges(),
                        self.spec_node_count(),
                    );
                }
                Ok(())
            },
            None => {
                let _ = self.edges.pop();
                proof {
                    assert(self.edges@ =~= olde);
                }
                Err(BuildError::CycleDetected { from, to })
            },
        }
    }

    /// The topological layering of all nodes: every node appears in
    /// exactly one layer, and each of its dependencies lies in some
    /// strictly earlier layer.  The layering is total because the graph
    /// only ever accepts edges that keep it acyclic.
    pub fn topological_layers(&self) -> (r: &Vec<Vec<u64>>)
        requires
            self.wf(),
        ensures
            r.deep_view() == self.spec_layers(),
            valid_layering(r.deep_view(), self.spec_edges(), self.spec_node_count()),
    {
        &self.layers
    }
}

} // verus!
