use vstd::prelude::*;

use crate::error::BuildError;
use crate::graph::{
    acyclic, lemma_fresh_edge_acyclic, lemma_no_incoming_edge_acyclic, lemma_wf_acyclic,
    valid_layering, DependencyGraph,
};
use crate::paths::{parent_of, spec_parent};
use crate::registry::Registry;
use crate::resource::{
    chain_only, chain_only_regs, reg_depth, regs_depth, spec_depth, spec_equals, Custom,
    Directory, Registration, Resource, Root,
};

verus! {

/// The global expansion budget: registering a resource whose chain of
/// uniquely-required sub-resources is deeper than this fails with
/// `RecursionLimitExceeded`.
pub const RECURSION_LIMIT: u64 = 1024;

// ---------------------------------------------------------------------------
// The path table as a map
// ---------------------------------------------------------------------------

/// The mapping recorded by a list of keyed entries, later entries
/// winning.
pub open spec fn table_map<V>(t: Seq<(String, V)>) -> Map<Seq<char>, V>
    decreases t.len(),
{
    if t.len() == 0 {
        Map::empty()
    } else {
        table_map(t.drop_last()).insert(t.last().0@, t.last().1)
    }
}

/// No two entries carry the same key.
pub open spec fn keys_unique<V>(t: Seq<(String, V)>) -> bool {
    forall|i: int, j: int|
        0 <= i < j < t.len() ==> (#[trigger] t[i]).0@ != (#[trigger] t[j]).0@
}

pub proof fn lemma_table_dom<V>(t: Seq<(String, V)>, k: Seq<char>)
    ensures
        table_map(t).dom().contains(k) <==> exists|i: int| 0 <= i < t.len() && (#[trigger] t[i]).0@
            == k,
    decreases t.len(),
{
    if t.len() > 0 {
        lemma_table_dom(t.drop_last(), k);
        if table_map(t).dom().contains(k) {
            if t.last().0@ != k {
                let i = choose|i: int|
                    0 <= i < t.len() - 1 && (#[trigger] t.drop_last()[i]).0@ == k;
                assert((t[i]).0@ == k);
            } else {
                assert((t[t.len() - 1]).0@ == k);
            }
        }
        if exists|i: int| 0 <= i < t.len() && (#[trigger] t[i]).0@ == k {
            let i = choose|i: int| 0 <= i < t.len() && (#[trigger] t[i]).0@ == k;
            if i < t.len() - 1 {
                assert((t.drop_last()[i]).0@ == k);
            }
        }
    }
}

pub proof fn lemma_table_lookup<V>(t: Seq<(String, V)>, i: int)
    requires
        keys_unique(t),
        0 <= i < t.len(),
    ensures
        table_map(t).dom().contains(t[i].0@),
        table_map(t)[t[i].0@] == t[i].1,
    decreases t.len(),
{
    if i == t.len() - 1 {
    } else {
        lemma_table_lookup(t.drop_last(), i);
        assert((t.drop_last()[i]) == t[i]);
        assert(t.last().0@ != t[i].0@);
    }
}

// ---------------------------------------------------------------------------
// Claim arbitration, at the level of views
// ---------------------------------------------------------------------------

/// Whether a directory claiming `path` would be accepted: the path is
/// unclaimed, or its claimant is a directory for the same path.
pub open spec fn dir_claim_ok(
    claims: Map<Seq<char>, u64>,
    resources: Seq<Resource>,
    path: Seq<char>,
) -> bool {
    !claims.dom().contains(path) || (resources[claims[path] as int] matches Resource::Directory(d)
        && d.path@ == path)
}

/// Whether a copied file claiming `path` would be accepted: the path
/// is unclaimed, or its claimant is a file copy with the same source
/// and the same output path.
pub open spec fn file_claim_ok(
    claims: Map<Seq<char>, u64>,
    resources: Seq<Resource>,
    path: Seq<char>,
    source: Seq<char>,
) -> bool {
    !claims.dom().contains(path) || (resources[claims[path] as int] matches Resource::CopyFile(c)
        && c.source@ == source && c.path@ == path)
}

/// Whether a virtual file claiming `path` would be accepted.
pub open spec fn virtual_claim_ok(
    claims: Map<Seq<char>, u64>,
    resources: Seq<Resource>,
    path: Seq<char>,
) -> bool {
    !claims.dom().contains(path) || (resources[claims[path] as int] matches
        Resource::VirtualFile(v) && v.path@ == path)
}

/// One sequence of resources extends another without touching it.
pub open spec fn extends(post: Seq<Resource>, pre: Seq<Resource>) -> bool {
    post.len() >= pre.len() && forall|i: int| 0 <= i < pre.len() ==> #[trigger] post[i] == pre[i]
}

/// One edge list extends another without touching it.
pub open spec fn edges_extend(post: Seq<(u64, u64)>, pre: Seq<(u64, u64)>) -> bool {
    post.len() >= pre.len() && forall|i: int| 0 <= i < pre.len() ==> #[trigger] post[i] == pre[i]
}

/// What registration stores under the fresh id: the resource itself,
/// except that a composed resource keeps only its dedup key — its
/// registration list is consumed by the expansion.
pub open spec fn stored_shell(stored: Resource, r: Resource) -> bool {
    match r {
        Resource::Custom(c) => stored matches Resource::Custom(c2) && c2.key == c.key
            && c2.registrations@.len() == 0,
        _ => stored == r,
    }
}

/// No registration in the list hands the engine a fresh sub-resource.
pub open spec fn no_unique_regs(s: Seq<Registration>) -> bool {
    forall|i: int|
        0 <= i < s.len() ==> !((#[trigger] s[i]) is RequireUnique) && !(s[i] is PrecedeUnique)
}

/// Why the expansion of one registration fails.
pub enum ExpandFailure {
    /// A shared or preceding reference named an id that is not
    /// registered.
    UnknownId(u64),
    /// The edge would have closed a cycle.
    Cycle(u64, u64),
    /// The path is claimed by a resource that is not equal to the
    /// incoming one.
    Collision(Seq<char>, u64),
    /// A freshly supplied sub-resource: expanding it registers new
    /// resources, which lies outside this flat model (see the
    /// per-kind and chain clauses of `require`).
    Nested,
}

/// One step of expanding a flat registration for the resource `id`:
/// `resources` are the resources registered before it, `incoming` the
/// resource being registered (so `id == resources.len()`, and for
/// path arbitration the claimant under `id` compares like
/// `incoming`).
pub open spec fn spec_flat_step(
    resources: Seq<Resource>,
    incoming: Resource,
    claims: Map<Seq<char>, u64>,
    edges: Seq<(u64, u64)>,
    id: u64,
    reg: Registration,
) -> Result<(Map<Seq<char>, u64>, Seq<(u64, u64)>), ExpandFailure> {
    match reg {
        Registration::RequireRoot => if acyclic(edges.push((id, 0))) {
            Ok((claims, edges.push((id, 0))))
        } else {
            Err(ExpandFailure::Cycle(id, 0))
        },
        Registration::RequireShared(rid) => if rid > id {
            Err(ExpandFailure::UnknownId(rid))
        } else if acyclic(edges.push((id, rid))) {
            Ok((claims, edges.push((id, rid))))
        } else {
            Err(ExpandFailure::Cycle(id, rid))
        },
        Registration::PrecedeShared(rid) => if rid > id {
            Err(ExpandFailure::UnknownId(rid))
        } else if acyclic(edges.push((rid, id))) {
            Ok((claims, edges.push((rid, id))))
        } else {
            Err(ExpandFailure::Cycle(rid, id))
        },
        Registration::ReservePath(p) => if !claims.dom().contains(p@) {
            Ok((claims.insert(p@, id), edges))
        } else {
            let ex = claims[p@];
            let exres = if ex == id {
                incoming
            } else {
                resources[ex as int]
            };
            if spec_equals(exres, incoming) {
                Ok((claims, edges))
            } else {
                Err(ExpandFailure::Collision(p@, ex))
            }
        },
        Registration::RequireUnique(_) => Err(ExpandFailure::Nested),
        Registration::PrecedeUnique(_) => Err(ExpandFailure::Nested),
    }
}

/// The claims and edges after expanding a flat registration list for
/// resource `id`, or the first failure.
pub open spec fn spec_expand_flat(
    resources: Seq<Resource>,
    incoming: Resource,
    claims: Map<Seq<char>, u64>,
    edges: Seq<(u64, u64)>,
    id: u64,
    regs: Seq<Registration>,
) -> Result<(Map<Seq<char>, u64>, Seq<(u64, u64)>), ExpandFailure>
    decreases regs.len(),
{
    if regs.len() == 0 {
        Ok((claims, edges))
    } else {
        match spec_flat_step(resources, incoming, claims, edges, id, regs[0]) {
            Err(f) => Err(f),
            Ok(st) => spec_expand_flat(resources, incoming, st.0, st.1, id, regs.drop_first()),
        }
    }
}

/// The build error that reports an expansion failure of the resource
/// registered under `incoming`.
pub open spec fn reports_failure(e: BuildError, f: ExpandFailure, incoming: u64) -> bool {
    match f {
        ExpandFailure::UnknownId(x) => e == BuildError::NotFound(x),
        ExpandFailure::Cycle(from, to) => e == BuildError::CycleDetected { from, to },
        ExpandFailure::Collision(p, ex) => e matches BuildError::PathCollision { path, existing, incoming: inc } && path@ == p && existing == ex && inc == incoming,
        ExpandFailure::Nested => false,
    }
}

// ---------------------------------------------------------------------------
// The builder
// ---------------------------------------------------------------------------


/// The build engine: the resource registry, the dependency graph over
/// resource ids, and the table of claimed output paths.  A fresh
/// builder holds only the root sentinel, which has id 0.
pub struct Builder {
    registry: Registry,
    graph: DependencyGraph,
    output: Vec<(String, u64)>,
}

impl Builder {
    /// The registered resources; a resource's id is its index.
    pub closed spec fn resources(&self) -> Seq<Resource> {
        self.registry@
    }

    /// The dependency edges, in insertion order.
    pub closed spec fn edges(&self) -> Seq<(u64, u64)> {
        self.graph.spec_edges()
    }

    /// The claimed output paths, each mapped to its owner's id.
    pub closed spec fn claims(&self) -> Map<Seq<char>, u64> {
        table_map(self.output@)
    }

    pub closed spec fn wf(&self) -> bool {
        &&& self.graph.wf()
        &&& self.graph.spec_node_count() == self.registry@.len()
        &&& self.registry@.len() >= 1
        &&& self.registry@[0] is Root
        &&& keys_unique(self.output@)
        &&& forall|i: int|
            0 <= i < self.output@.len() ==> (#[trigger] self.output@[i]).1 < self.registry@.len()
    }

    proof fn lemma_claim_ids(&self, k: Seq<char>)
        requires
            self.wf(),
            self.claims().dom().contains(k),
        ensures
            self.claims()[k] < self.resources().len(),
    {
        lemma_table_dom(self.output@, k);
        let i = choose|i: int| 0 <= i < self.output@.len() && (#[trigger] self.output@[i]).0@ == k;
        lemma_table_lookup(self.output@, i);
    }

    /// A fresh builder: the registry holds the root sentinel under id
    /// 0, the graph has that node and no edges, and nothing is claimed.
    pub fn new() -> (b: Builder)
        ensures
            b.wf(),
            b.resources().len() == 1,
            b.resources()[0] is Root,
            b.edges() == Seq::<(u64, u64)>::empty(),
            b.claims() == Map::<Seq<char>, u64>::empty(),
    {
        let mut registry = Registry::new();
        let mut graph = DependencyGraph::new();
        let _root = registry.register(Resource::Root(Root {}));
        let _gid = graph.add_node();
        let b = Builder { registry, graph, output: Vec::new() };
        b
    }

    /// The registry, for lookups by id.
    pub fn registry(&self) -> (r: &Registry)
        ensures
            r@ == self.resources(),
    {
        &self.registry
    }

    /// The dependency graph.
    pub fn dependency_graph(&self) -> (g: &DependencyGraph)
        requires
            self.wf(),
        ensures
            g.wf(),
            g.spec_edges() == self.edges(),
            g.spec_node_count() == self.resources().len(),
    {
        &self.graph
    }

    /// The path table: every claimed path with its owner's id.
    pub fn output(&self) -> (o: &Vec<(String, u64)>)
        ensures
            table_map(o@) == self.claims(),
    {
        &self.output
    }

    /// The topological layering of all registered resources: every id
    /// appears in exactly one layer, and each of its dependencies lies
    /// in some strictly earlier layer.
    pub fn topological_layers(&self) -> (r: &Vec<Vec<u64>>)
        requires
            self.wf(),
        ensures
            valid_layering(r.deep_view(), self.edges(), self.resources().len() as int),
    {
        self.graph.topological_layers()
    }

    /// Records the generated content of the virtual file registered
    /// under `id`; the registry is otherwise untouched.
    pub fn set_virtual_content(&mut self, id: u64, content: String) -> (r: Result<
        (),
        BuildError,
    >)
        requires
            old(self).wf(),
        ensures
            final(self).wf(),
            final(self).resources().len() == old(self).resources().len(),
            final(self).edges() == old(self).edges(),
            final(self).claims() == old(self).claims(),
            r is Ok <==> (id < old(self).resources().len() && old(self).resources()[id as int]
                matches Resource::VirtualFile(_)),
            r is Ok ==> (old(self).resources()[id as int] matches Resource::VirtualFile(v)
                && final(self).resources()[id as int] == Resource::VirtualFile(
                crate::resource::VirtualFile { path: v.path, content: Some(content) },
            )),
            forall|i: int|
                0 <= i < old(self).resources().len() && i != id as int ==> final(self).resources()[i]
                    == old(self).resources()[i],
    {
        self.registry.set_content(id, content)
    }

    /// Claims `path` for the resource `incoming`.  If the path is
    /// unclaimed the claim is recorded; if it is already claimed the
    /// existing claimant arbitrates: an equal resource shares the
    /// claim and the table is left unchanged, an unequal one makes the
    /// claim fail with `PathCollision`, naming both resources.
    pub fn claim(&mut self, path: String, incoming: u64) -> (r: Result<(), BuildError>)
        requires
            old(self).wf(),
            incoming < old(self).resources().len(),
        ensures
            final(self).wf(),
            final(self).resources() == old(self).resources(),
            final(self).edges() == old(self).edges(),
            r is Ok <==> (!old(self).claims().dom().contains(path@) || spec_equals(
                old(self).resources()[old(self).claims()[path@] as int],
                old(self).resources()[incoming as int],
            )),
            old(self).claims().dom().contains(path@) ==> final(self).claims() == old(self).claims(),
            r is Ok && !old(self).claims().dom().contains(path@) ==> final(self).claims() == old(self).claims().insert(path@, incoming),
            r is Err ==> final(self).claims() == old(self).claims(),
            r matches Err(e) ==> e matches BuildError::PathCollision { path: p, existing, incoming: inc }
                && p@ == path@ && inc == incoming
                && old(self).claims().dom().contains(path@)
                && existing == old(self).claims()[path@],
    {
        let ghost t0 = self.output@;
        let mut i: usize = 0;
        let mut found: Option<u64> = None;
        while i < self.output.len()
            invariant
                i <= self.output@.len(),
                self.output@ == t0,
                keys_unique(t0),
                match found {
                    Some(v) => exists|j: int|
                        0 <= j < i && (#[trigger] t0[j]).0@ == path@ && t0[j].1 == v,
                    None => forall|j: int| 0 <= j < i ==> (#[trigger] t0[j]).0@ != path@,
                },
            decreases self.output@.len() - i,
        {
            if self.output[i].0.eq(&path) {
                found = Some(self.output[i].1);
            }
            i += 1;
        }
        proof {
            lemma_table_dom(t0, path@);
            if found is Some {
                let j = choose|j: int|
                    0 <= j < t0.len() && (#[trigger] t0[j]).0@ == path@ && t0[j].1
                        == found->Some_0;
                lemma_table_lookup(t0, j);
            }
        }
        match found {
            None => {
                self.output.push((path, incoming));
                proof {
                    assert(self.output@.drop_last() =~= t0);
                    assert forall|a: int, b: int|
                        0 <= a < b < self.output@.len() implies (#[trigger] self.output@[a]).0@ != (
                    #[trigger] self.output@[b]).0@ by {
                        if b < self.output@.len() - 1 {
                            assert(t0[a] == self.output@[a]);
                            assert(t0[b] == self.output@[b]);
                        } else {
                            assert(t0[a] == self.output@[a]);
                        }
                    }
                }
                Ok(())
            },
            Some(existing) => {
                proof {
                    self.lemma_claim_ids(path@);
                }
                let ex = self.registry.get(existing);
                let inc = self.registry.get(incoming);
                match (ex, inc) {
                    (Some(a), Some(b)) => {
                        if a.equals(b) {
                            Ok(())
                        } else {
                            Err(BuildError::PathCollision { path, existing, incoming })
                        }
                    },
                    _ => {
                        proof {
                            assert(false);
                        }
                        Err(BuildError::NotFound(incoming))
                    },
                }
            },
        }
    }

    /// Registers `resource` under a fresh id and expands its
    /// registrations recursively, spending one unit of `budget` per
    /// nesting level.  See `require` for the public entry point.
    fn register_and_expand(&mut self, resource: Resource, budget: u64) -> (r: Result<
        u64,
        BuildError,
    >)
        requires
            old(self).wf(),
        ensures
            final(self).wf(),
            extends(final(self).resources(), old(self).resources()),
            edges_extend(final(self).edges(), old(self).edges()),
            budget == 0 ==> r == Err::<u64, BuildError>(BuildError::RecursionLimitExceeded)
                && final(self).resources() == old(self).resources() && final(self).edges() == old(self).edges() && final(self).claims() == old(self).claims(),
            r matches Ok(id) ==> id as int == old(self).resources().len() && final(self).resources().len() > old(self).resources().len(),
            budget >= 1 ==> final(self).resources().len() > old(self).resources().len()
                && stored_shell(
                final(self).resources()[old(self).resources().len() as int],
                resource,
            ),
            r is Ok ==> spec_depth(resource) <= budget,
            resource matches Resource::Root(_) ==> (budget >= 1 ==> (r is Ok && final(self).edges()
                == old(self).edges() && final(self).claims() == old(self).claims() && final(self).resources().len() == old(self).resources().len() + 1)),
            resource matches Resource::Directory(d) ==> (budget >= 1 ==> {
                let id = old(self).resources().len() as u64;
                &&& final(self).resources().len() == old(self).resources().len() + 1
                &&& final(self).edges() == old(self).edges().push((id, 0))
                &&& (r is Ok <==> dir_claim_ok(old(self).claims(), old(self).resources(), d.path@))
                &&& (r is Ok ==> (if old(self).claims().dom().contains(d.path@) {
                    final(self).claims() == old(self).claims()
                } else {
                    final(self).claims() == old(self).claims().insert(d.path@, id)
                }))
                &&& (r matches Err(e) ==> e matches BuildError::PathCollision { path: p, existing, incoming }
                    && p@ == d.path@ && incoming == id && existing == old(self).claims()[d.path@]
                    && final(self).claims() == old(self).claims())
            }),
            resource matches Resource::VirtualFile(v) ==> (budget >= 1 ==> {
                let id = old(self).resources().len() as u64;
                &&& final(self).resources().len() == old(self).resources().len() + 1
                &&& final(self).edges() == old(self).edges()
                &&& (r is Ok <==> virtual_claim_ok(
                    old(self).claims(),
                    old(self).resources(),
                    v.path@,
                ))
                &&& (r is Ok ==> (if old(self).claims().dom().contains(v.path@) {
                    final(self).claims() == old(self).claims()
                } else {
                    final(self).claims() == old(self).claims().insert(v.path@, id)
                }))
                &&& (r matches Err(e) ==> e matches BuildError::PathCollision { path: p, existing, incoming }
                    && p@ == v.path@ && incoming == id && existing == old(self).claims()[v.path@]
                    && final(self).claims() == old(self).claims())
            }),
            resource matches Resource::CopyFile(c) ==> (budget >= 2 ==> ({
                let id = old(self).resources().len() as u64;
                let fileok = file_claim_ok(
                    old(self).claims(),
                    old(self).resources(),
                    c.path@,
                    c.source@,
                );
                match spec_parent(c.path@) {
                    Some(pq) => {
                        let cid = (old(self).resources().len() + 1) as u64;
                        let dirok = dir_claim_ok(old(self).claims(), old(self).resources(), pq);
                        let claims1 = if old(self).claims().dom().contains(pq) {
                            old(self).claims()
                        } else {
                            old(self).claims().insert(pq, cid)
                        };
                        &&& (r is Ok <==> dirok && fileok)
                        &&& final(self).resources().len() == old(self).resources().len() + 2
                        &&& (final(self).resources()[cid as int] matches Resource::Directory(d2)
                            && d2.path@ == pq)
                        &&& (dirok ==> final(self).edges() == old(self).edges().push(
                            (cid, 0),
                        ).push((id, cid)))
                        &&& (!dirok ==> final(self).edges() == old(self).edges().push((cid, 0))
                            && final(self).claims() == old(self).claims())
                        &&& (r is Ok ==> (if old(self).claims().dom().contains(c.path@) {
                            final(self).claims() == claims1
                        } else {
                            final(self).claims() == claims1.insert(c.path@, id)
                        }))
                        &&& (r matches Err(e) ==> e matches BuildError::PathCollision { path: p, existing, incoming }
                            && (if dirok {
                            p@ == c.path@ && incoming == id && existing == old(self).claims()[c.path@]
                                && final(self).claims() == claims1
                        } else {
                            p@ == pq && incoming == cid && existing == old(self).claims()[pq]
                        }))
                    },
                    None => {
                        &&& (r is Ok <==> fileok)
                        &&& final(self).resources().len() == old(self).resources().len() + 1
                        &&& final(self).edges() == old(self).edges()
                        &&& (r is Ok ==> (if old(self).claims().dom().contains(c.path@) {
                            final(self).claims() == old(self).claims()
                        } else {
                            final(self).claims() == old(self).claims().insert(c.path@, id)
                        }))
                        &&& (r matches Err(e) ==> e matches BuildError::PathCollision { path: p, existing, incoming }
                            && p@ == c.path@ && incoming == id && existing == old(self).claims()[c.path@]
                            && final(self).claims() == old(self).claims())
                    },
                }
            })),
            resource matches Resource::Custom(c) ==> ((budget >= 1 && no_unique_regs(
                c.registrations@,
            )) ==> ({
                let id = old(self).resources().len() as u64;
                let f = spec_expand_flat(
                    old(self).resources(),
                    resource,
                    old(self).claims(),
                    old(self).edges(),
                    id,
                    c.registrations@,
                );
                &&& final(self).resources().len() == old(self).resources().len() + 1
                &&& (r is Ok <==> f is Ok)
                &&& (f matches Ok(st) ==> final(self).claims() == st.0 && final(self).edges()
                    == st.1)
                &&& (r matches Err(e) ==> f matches Err(fe) && reports_failure(e, fe, id))
            })),
            chain_only(resource) ==> ({
                &&& (r is Ok <==> spec_depth(resource) <= budget)
                &&& (spec_depth(resource) > budget ==> r == Err::<u64, BuildError>(
                    BuildError::RecursionLimitExceeded,
                ))
                &&& forall|e: int|
                    old(self).edges().len() <= e < final(self).edges().len()
                        ==> old(self).resources().len() <= (#[trigger] final(self).edges()[e]).0
                        < final(self).edges()[e].1
            }),
        decreases budget,
    {
        if budget == 0 {
            return Err(BuildError::RecursionLimitExceeded);
        }
        let ghost pre = *old(self);
        match resource {
            Resource::Root(x) => {
                let id = self.registry.register(Resource::Root(x));
                let _g = self.graph.add_node();
                proof {
                    assert(extends(self.resources(), pre.resources()));
                }
                Ok(id)
            },
            Resource::Directory(d) => {
                let path_for_claim = d.path.clone();
                proof {
                    if pre.claims().dom().contains(path_for_claim@) {
                        pre.lemma_claim_ids(path_for_claim@);
                    }
                }
                let id = self.registry.register(Resource::Directory(d));
                let _g = self.graph.add_node();
                proof {
                    lemma_wf_acyclic(pre.graph);
                    assert forall|e: int| 0 <= e < pre.edges().len() implies (#[trigger] pre.edges()[e]).0
                        != id && pre.edges()[e].1 != id by {}
                    lemma_fresh_edge_acyclic(pre.edges(), id, 0);
                }
                let edge = self.graph.depend_on(id, 0);
                match edge {
                    Ok(_) => {},
                    Err(_) => {
                        proof {
                            assert(false);
                        }
                    },
                }
                match self.claim(path_for_claim, id) {
                    Ok(_) => {
                        proof {
                            assert(extends(self.resources(), pre.resources()));
                        }
                        Ok(id)
                    },
                    Err(e) => {
                        proof {
                            assert(extends(self.resources(), pre.resources()));
                        }
                        Err(e)
                    },
                }
            },
            Resource::VirtualFile(v) => {
                let path_for_claim = v.path.clone();
                proof {
                    if pre.claims().dom().contains(path_for_claim@) {
                        pre.lemma_claim_ids(path_for_claim@);
                    }
                }
                let id = self.registry.register(Resource::VirtualFile(v));
                let _g = self.graph.add_node();
                match self.claim(path_for_claim, id) {
                    Ok(_) => {
                        proof {
                            assert(extends(self.resources(), pre.resources()));
                        }
                        Ok(id)
                    },
                    Err(e) => {
                        proof {
                            assert(extends(self.resources(), pre.resources()));
                        }
                        Err(e)
                    },
                }
            },
            Resource::CopyFile(c) => {
                let parent = parent_of(c.path.as_str());
                let path_for_claim = c.path.clone();
                let ghost source_view = c.source@;
                proof {
                    crate::paths::lemma_parent_shorter(path_for_claim@);
                    if pre.claims().dom().contains(path_for_claim@) {
                        pre.lemma_claim_ids(path_for_claim@);
                    }
                    if spec_parent(path_for_claim@) is Some {
                        let pq = spec_parent(path_for_claim@)->Some_0;
                        if pre.claims().dom().contains(pq) {
                            pre.lemma_claim_ids(pq);
                        }
                    }
                }
                let id = self.registry.register(Resource::CopyFile(c));
                let _g = self.graph.add_node();
                let ghost mid = *self;
                match parent {
                    Some(pp) => {
                        let child = Resource::Directory(Directory::new(pp));
                        match self.register_and_expand(child, budget - 1) {
                            Ok(cid) => {
                                proof {
                                    lemma_wf_acyclic(self.graph);
                                    assert forall|e: int|
                                        0 <= e < self.edges().len() implies (#[trigger] self.edges()[e]).0 != id
                                            && self.edges()[e].1 != id by {
                                        if e < mid.edges().len() {
                                            assert(self.edges()[e] == mid.edges()[e]);
                                        } else {
                                            assert(self.edges()[e] == (cid, 0u64));
                                        }
                                    }
                                    lemma_fresh_edge_acyclic(self.edges(), id, cid);
                                }
                                let edge = self.graph.depend_on(id, cid);
                                match edge {
                                    Ok(_) => {},
                                    Err(_) => {
                                        proof {
                                            assert(false);
                                        }
                                    },
                                }
                                match self.claim(path_for_claim, id) {
                                    Ok(_) => Ok(id),
                                    Err(e) => Err(e),
                                }
                            },
                            Err(e) => {
                                Err(e)
                            },
                        }
                    },
                    None => {
                        match self.claim(path_for_claim, id) {
                            Ok(_) => Ok(id),
                            Err(e) => Err(e),
                        }
                    },
                }
            },
            Resource::Custom(c) => {
                let Custom { key, registrations: mut regs } = c;
                let ghost orig = regs@;
                let id = self.registry.register(
                    Resource::Custom(Custom { key, registrations: Vec::new() }),
                );
                let _g = self.graph.add_node();
                let ghost start = *self;
                let ghost mut done_max: nat = 0nat;
                #[verifier::loop_isolation(false)]
                while regs.len() > 0
                    invariant
                        self.wf(),
                        budget >= 1,
                        extends(self.resources(), start.resources()),
                        start.resources().len() == pre.resources().len() + 1,
                        id as int == pre.resources().len(),
                        done_max <= budget - 1,
                        regs_depth(orig) == (if done_max > regs_depth(regs@) {
                            done_max
                        } else {
                            regs_depth(regs@)
                        }),
                        no_unique_regs(orig) ==> ({
                            &&& self.resources().len() == start.resources().len()
                            &&& no_unique_regs(regs@)
                            &&& spec_expand_flat(
                                pre.resources(),
                                resource,
                                pre.claims(),
                                pre.edges(),
                                id,
                                orig,
                            ) == spec_expand_flat(
                                pre.resources(),
                                resource,
                                self.claims(),
                                self.edges(),
                                id,
                                regs@,
                            )
                        }),
                        edges_extend(self.edges(), pre.edges()),
                        chain_only_regs(orig) ==> (chain_only_regs(regs@) && (forall|e: int|
                            pre.edges().len() <= e < self.edges().len()
                                ==> id <= (#[trigger] self.edges()[e]).0
                                && self.edges()[e].0 < self.edges()[e].1)),
                    decreases regs@.len(),
                {
                    let ghost rem0 = regs@;
                    let reg = regs.remove(0);
                    proof {
                        assert(regs@ =~= rem0.drop_first());
                        assert(reg == rem0[0]);
                        assert(regs_depth(rem0) == (if reg_depth(rem0[0]) > regs_depth(
                            rem0.drop_first(),
                        ) {
                            reg_depth(rem0[0])
                        } else {
                            regs_depth(rem0.drop_first())
                        }));
                        if chain_only_regs(orig) {
                            assert(chain_only_regs(rem0));
                        }
                        if no_unique_regs(orig) && no_unique_regs(rem0) {
                            assert forall|i: int|
                                0 <= i < regs@.len() implies !((#[trigger] regs@[i])
                                is RequireUnique) && !(regs@[i] is PrecedeUnique) by {
                                assert(regs@[i] == rem0[i + 1]);
                            }
                        }
                    }
                    let ghost pre_iter = *self;
                    match reg {
                        Registration::RequireRoot => {
                            proof {
                                if chain_only_regs(orig) {
                                    assert(false);
                                }
                            }
                            match self.graph.depend_on(id, 0) {
                                Ok(_) => {
                                    proof {
                                        if no_unique_regs(orig) {
                                            assert(spec_flat_step(
                                                pre.resources(),
                                                resource,
                                                pre_iter.claims(),
                                                pre_iter.edges(),
                                                id,
                                                rem0[0],
                                            ) == Ok::<(Map<Seq<char>, u64>, Seq<(u64, u64)>), ExpandFailure>((
                                                pre_iter.claims(),
                                                pre_iter.edges().push((id, 0)),
                                            )));
                                        }
                                    }
                                },
                                Err(e) => {
                                    proof {
                                        if no_unique_regs(orig) {
                                            assert(spec_expand_flat(
                                                pre.resources(),
                                                resource,
                                                pre.claims(),
                                                pre.edges(),
                                                id,
                                                orig,
                                            ) == Err::<(Map<Seq<char>, u64>, Seq<(u64, u64)>), ExpandFailure>(ExpandFailure::Cycle(id, 0)));
                                        }
                                    }
                                    return Err(e);
                                },
                            }
                        },
                        Registration::RequireUnique(child) => {
                            let ghost child_depth = spec_depth(child);
                            proof {
                                assert(reg_depth(rem0[0]) == child_depth);
                                if chain_only_regs(orig) {
                                    assert(chain_only(child));
                                }
                                if no_unique_regs(orig) {
                                    assert(false);
                                }
                            }
                            match self.register_and_expand(child, budget - 1) {
                                Ok(cid) => {
                                    proof {
                                        if chain_only_regs(orig) {
                                            // nothing points into `id`: the old
                                            // edges are bounded by `id`, and
                                            // chain edges only climb
                                            lemma_wf_acyclic(self.graph);
                                            assert forall|e: int|
                                                0 <= e < self.edges().len() implies (
                                            #[trigger] self.edges()[e]).1 != id by {
                                                if e < pre.edges().len() {
                                                    assert(self.edges()[e] == pre.edges()[e]);
                                                } else if e < pre_iter.edges().len() {
                                                    assert(self.edges()[e]
                                                        == pre_iter.edges()[e]);
                                                }
                                            }
                                            lemma_no_incoming_edge_acyclic(
                                                self.edges(),
                                                id,
                                                cid,
                                            );
                                        }
                                    }
                                    match self.graph.depend_on(id, cid) {
                                        Ok(_) => {},
                                        Err(e) => {
                                            proof {
                                                if chain_only_regs(orig) {
                                                    assert(false);
                                                }
                                            }
                                            return Err(e);
                                        },
                                    }
                                },
                                Err(e) => {
                                    proof {
                                        if chain_only_regs(orig) {
                                            assert(spec_depth(child) > budget - 1);
                                            assert(regs_depth(orig) >= child_depth);
                                            assert(spec_depth(resource) > budget);
                                        }
                                    }
                                    return Err(e);
                                },
                            }
                            proof {
                                if child_depth > done_max {
                                    done_max = child_depth;
                                }
                            }
                        },
                        Registration::RequireShared(rid) => {
                            proof {
                                if chain_only_regs(orig) {
                                    assert(false);
                                }
                            }
                            if !self.registry.contains(rid) {
                                proof {
                                    if no_unique_regs(orig) {
                                        assert(rid > id);
                                        assert(spec_expand_flat(
                                            pre.resources(),
                                            resource,
                                            pre.claims(),
                                            pre.edges(),
                                            id,
                                            orig,
                                        ) == Err::<(Map<Seq<char>, u64>, Seq<(u64, u64)>), ExpandFailure>(ExpandFailure::UnknownId(rid)));
                                    }
                                }
                                return Err(BuildError::NotFound(rid));
                            }
                            match self.graph.depend_on(id, rid) {
                                Ok(_) => {
                                    proof {
                                        if no_unique_regs(orig) {
                                            assert(rid <= id);
                                            assert(spec_flat_step(
                                                pre.resources(),
                                                resource,
                                                pre_iter.claims(),
                                                pre_iter.edges(),
                                                id,
                                                rem0[0],
                                            ) == Ok::<(Map<Seq<char>, u64>, Seq<(u64, u64)>), ExpandFailure>((
                                                pre_iter.claims(),
                                                pre_iter.edges().push((id, rid)),
                                            )));
                                        }
                                    }
                                },
                                Err(e) => {
                                    proof {
                                        if no_unique_regs(orig) {
                                            assert(rid <= id);
                                            assert(spec_expand_flat(
                                                pre.resources(),
                                                resource,
                                                pre.claims(),
                                                pre.edges(),
                                                id,
                                                orig,
                                            ) == Err::<(Map<Seq<char>, u64>, Seq<(u64, u64)>), ExpandFailure>(ExpandFailure::Cycle(id, rid)));
                                        }
                                    }
                                    return Err(e);
                                },
                            }
                        },
                        Registration::ReservePath(p) => {
                            proof {
                                if chain_only_regs(orig) {
                                    assert(false);
                                }
                            }
                            let ghost pview = p@;
                            match self.claim(p, id) {
                                Ok(_) => {
                                    proof {
                                        if no_unique_regs(orig) {
                                            lemma_flat_reserve(pre, start, pre_iter, resource, id, pview);
                                            assert(spec_flat_step(
                                                pre.resources(),
                                                resource,
                                                pre_iter.claims(),
                                                pre_iter.edges(),
                                                id,
                                                rem0[0],
                                            ) == Ok::<(Map<Seq<char>, u64>, Seq<(u64, u64)>), ExpandFailure>((self.claims(), pre_iter.edges())));
                                        }
                                    }
                                },
                                Err(e) => {
                                    proof {
                                        if no_unique_regs(orig) {
                                            lemma_flat_reserve(pre, start, pre_iter, resource, id, pview);
                                            assert(spec_expand_flat(
                                                pre.resources(),
                                                resource,
                                                pre.claims(),
                                                pre.edges(),
                                                id,
                                                orig,
                                            ) == Err::<(Map<Seq<char>, u64>, Seq<(u64, u64)>), ExpandFailure>(ExpandFailure::Collision(
                                                pview,
                                                pre_iter.claims()[pview],
                                            )));
                                        }
                                    }
                                    return Err(e);
                                },
                            }
                        },
                        Registration::PrecedeUnique(child) => {
                            proof {
                                if chain_only_regs(orig) {
                                    assert(false);
                                }
                                if no_unique_regs(orig) {
                                    assert(false);
                                }
                            }
                            let ghost child_depth = spec_depth(child);
                            proof {
                                assert(reg_depth(rem0[0]) == child_depth);
                            }
                            match self.register_and_expand(child, budget - 1) {
                                Ok(cid) => {
                                    match self.graph.depend_on(cid, id) {
                                        Ok(_) => {},
                                        Err(e) => {
                                            return Err(e);
                                        },
                                    }
                                },
                                Err(e) => {
                                    return Err(e);
                                },
                            }
                            proof {
                                if child_depth > done_max {
                                    done_max = child_depth;
                                }
                            }
                        },
                        Registration::PrecedeShared(rid) => {
                            proof {
                                if chain_only_regs(orig) {
                                    assert(false);
                                }
                            }
                            if !self.registry.contains(rid) {
                                proof {
                                    if no_unique_regs(orig) {
                                        assert(rid > id);
                                        assert(spec_expand_flat(
                                            pre.resources(),
                                            resource,
                                            pre.claims(),
                                            pre.edges(),
                                            id,
                                            orig,
                                        ) == Err::<(Map<Seq<char>, u64>, Seq<(u64, u64)>), ExpandFailure>(ExpandFailure::UnknownId(rid)));
                                    }
                                }
                                return Err(BuildError::NotFound(rid));
                            }
                            match self.graph.depend_on(rid, id) {
                                Ok(_) => {
                                    proof {
                                        if no_unique_regs(orig) {
                                            assert(rid <= id);
                                            assert(spec_flat_step(
                                                pre.resources(),
                                                resource,
                                                pre_iter.claims(),
                                                pre_iter.edges(),
                                                id,
                                                rem0[0],
                                            ) == Ok::<(Map<Seq<char>, u64>, Seq<(u64, u64)>), ExpandFailure>((
                                                pre_iter.claims(),
                                                pre_iter.edges().push((rid, id)),
                                            )));
                                        }
                                    }
                                },
                                Err(e) => {
                                    proof {
                                        if no_unique_regs(orig) {
                                            assert(rid <= id);
                                            assert(spec_expand_flat(
                                                pre.resources(),
                                                resource,
                                                pre.claims(),
                                                pre.edges(),
                                                id,
                                                orig,
                                            ) == Err::<(Map<Seq<char>, u64>, Seq<(u64, u64)>), ExpandFailure>(ExpandFailure::Cycle(rid, id)));
                                        }
                                    }
                                    return Err(e);
                                },
                            }
                        },
                    }
                }
                proof {
                    assert(regs_depth(regs@) == 0);
                    assert(spec_depth(resource) == 1 + regs_depth(orig));
                    if no_unique_regs(orig) {
                        assert(spec_expand_flat(
                            pre.resources(),
                            resource,
                            self.claims(),
                            self.edges(),
                            id,
                            regs@,
                        ) == Ok::<(Map<Seq<char>, u64>, Seq<(u64, u64)>), ExpandFailure>((self.claims(), self.edges())));
                    }
                }
                Ok(id)
            },
        }
    }

    /// Registers a top-level resource, assigns it the next id, and
    /// expands its requirements recursively into graph edges and path
    /// claims, with the global recursion budget.  A resource whose
    /// expansion chain is deeper than `RECURSION_LIMIT` is never
    /// accepted, and a pure declaration chain is accepted exactly up
    /// to that depth — beyond it the failure is
    /// `RecursionLimitExceeded`, never a stack fault.  Partial state
    /// from a failed registration must not be reused.
    pub fn require(&mut self, resource: Resource) -> (r: Result<u64, BuildError>)
        requires
            old(self).wf(),
        ensures
            final(self).wf(),
            extends(final(self).resources(), old(self).resources()),
            edges_extend(final(self).edges(), old(self).edges()),
            final(self).resources().len() > old(self).resources().len(),
            stored_shell(
                final(self).resources()[old(self).resources().len() as int],
                resource,
            ),
            r matches Ok(id) ==> id as int == old(self).resources().len(),
            r is Ok ==> spec_depth(resource) <= RECURSION_LIMIT,
            resource matches Resource::Root(_) ==> r is Ok && final(self).edges() == old(self).edges() && final(self).claims() == old(self).claims() && final(self).resources().len()
                == old(self).resources().len() + 1,
            resource matches Resource::Directory(d) ==> {
                let id = old(self).resources().len() as u64;
                &&& final(self).resources().len() == old(self).resources().len() + 1
                &&& final(self).edges() == old(self).edges().push((id, 0))
                &&& (r is Ok <==> dir_claim_ok(old(self).claims(), old(self).resources(), d.path@))
                &&& (r is Ok ==> (if old(self).claims().dom().contains(d.path@) {
                    final(self).claims() == old(self).claims()
                } else {
                    final(self).claims() == old(self).claims().insert(d.path@, id)
                }))
                &&& (r matches Err(e) ==> e matches BuildError::PathCollision { path: p, existing, incoming }
                    && p@ == d.path@ && incoming == id && existing == old(self).claims()[d.path@]
                    && final(self).claims() == old(self).claims())
            },
            resource matches Resource::VirtualFile(v) ==> {
                let id = old(self).resources().len() as u64;
                &&& final(self).resources().len() == old(self).resources().len() + 1
                &&& final(self).edges() == old(self).edges()
                &&& (r is Ok <==> virtual_claim_ok(
                    old(self).claims(),
                    old(self).resources(),
                    v.path@,
                ))
                &&& (r is Ok ==> (if old(self).claims().dom().contains(v.path@) {
                    final(self).claims() == old(self).claims()
                } else {
                    final(self).claims() == old(self).claims().insert(v.path@, id)
                }))
                &&& (r matches Err(e) ==> e matches BuildError::PathCollision { path: p, existing, incoming }
                    && p@ == v.path@ && incoming == id && existing == old(self).claims()[v.path@]
                    && final(self).claims() == old(self).claims())
            },
            resource matches Resource::CopyFile(c) ==> ({
                let id = old(self).resources().len() as u64;
                let fileok = file_claim_ok(
                    old(self).claims(),
                    old(self).resources(),
                    c.path@,
                    c.source@,
                );
                match spec_parent(c.path@) {
                    Some(pq) => {
                        let cid = (old(self).resources().len() + 1) as u64;
                        let dirok = dir_claim_ok(old(self).claims(), old(self).resources(), pq);
                        let claims1 = if old(self).claims().dom().contains(pq) {
                            old(self).claims()
                        } else {
                            old(self).claims().insert(pq, cid)
                        };
                        &&& (r is Ok <==> dirok && fileok)
                        &&& final(self).resources().len() == old(self).resources().len() + 2
                        &&& (final(self).resources()[cid as int] matches Resource::Directory(d2)
                            && d2.path@ == pq)
                        &&& (dirok ==> final(self).edges() == old(self).edges().push(
                            (cid, 0),
                        ).push((id, cid)))
                        &&& (!dirok ==> final(self).edges() == old(self).edges().push((cid, 0))
                            && final(self).claims() == old(self).claims())
                        &&& (r is Ok ==> (if old(self).claims().dom().contains(c.path@) {
                            final(self).claims() == claims1
                        } else {
                            final(self).claims() == claims1.insert(c.path@, id)
                        }))
                        &&& (r matches Err(e) ==> e matches BuildError::PathCollision { path: p, existing, incoming }
                            && (if dirok {
                            p@ == c.path@ && incoming == id && existing == old(self).claims()[c.path@]
                                && final(self).claims() == claims1
                        } else {
                            p@ == pq && incoming == cid && existing == old(self).claims()[pq]
                        }))
                    },
                    None => {
                        &&& (r is Ok <==> fileok)
                        &&& final(self).resources().len() == old(self).resources().len() + 1
                        &&& final(self).edges() == old(self).edges()
                        &&& (r is Ok ==> (if old(self).claims().dom().contains(c.path@) {
                            final(self).claims() == old(self).claims()
                        } else {
                            final(self).claims() == old(self).claims().insert(c.path@, id)
                        }))
                        &&& (r matches Err(e) ==> e matches BuildError::PathCollision { path: p, existing, incoming }
                            && p@ == c.path@ && incoming == id && existing == old(self).claims()[c.path@]
                            && final(self).claims() == old(self).claims())
                    },
                }
            }),
            resource matches Resource::Custom(c) ==> (no_unique_regs(c.registrations@) ==> ({
                let id = old(self).resources().len() as u64;
                let f = spec_expand_flat(
                    old(self).resources(),
                    resource,
                    old(self).claims(),
                    old(self).edges(),
                    id,
                    c.registrations@,
                );
                &&& final(self).resources().len() == old(self).resources().len() + 1
                &&& (r is Ok <==> f is Ok)
                &&& (f matches Ok(st) ==> final(self).claims() == st.0 && final(self).edges()
                    == st.1)
                &&& (r matches Err(e) ==> f matches Err(fe) && reports_failure(e, fe, id))
            })),
            chain_only(resource) ==> ({
                &&& (r is Ok <==> spec_depth(resource) <= RECURSION_LIMIT)
                &&& (spec_depth(resource) > RECURSION_LIMIT ==> r == Err::<u64, BuildError>(
                    BuildError::RecursionLimitExceeded,
                ))
            }),
    {
        self.register_and_expand(resource, RECURSION_LIMIT)
    }
}

} // verus!

verus! {

/// Relates the path-table arbitration on the stored shell of a
/// composed resource to the flat expansion step on the resource
/// itself: the two compare equal because arbitration reads only the
/// dedup key, which the shell keeps.
proof fn lemma_flat_reserve(
    pre: Builder,
    start: Builder,
    cur: Builder,
    incoming: Resource,
    id: u64,
    path: Seq<char>,
)
    requires
        incoming is Custom,
        cur.wf(),
        id as int == pre.resources().len(),
        start.resources().len() == pre.resources().len() + 1,
        start.resources()[id as int] is Custom,
        start.resources()[id as int]->Custom_0.key == incoming->Custom_0.key,
        cur.resources().len() == start.resources().len(),
        extends(cur.resources(), start.resources()),
        extends(start.resources(), pre.resources()),
    ensures
        cur.claims().dom().contains(path) ==> ({
            let ex = cur.claims()[path];
            let exres = if ex == id {
                incoming
            } else {
                pre.resources()[ex as int]
            };
            &&& ex < cur.resources().len()
            &&& spec_equals(cur.resources()[ex as int], cur.resources()[id as int])
                == spec_equals(exres, incoming)
        }),
{
    if cur.claims().dom().contains(path) {
        cur.lemma_claim_ids(path);
        let ex = cur.claims()[path];
        assert(cur.resources()[id as int] == start.resources()[id as int]);
        let shell = cur.resources()[id as int];
        if ex == id {
            assert(spec_equals(shell, shell) == spec_equals(incoming, incoming));
        } else {
            assert(ex < pre.resources().len());
            assert(cur.resources()[ex as int] == pre.resources()[ex as int]);
            assert(spec_equals(cur.resources()[ex as int], shell) == spec_equals(
                pre.resources()[ex as int],
                incoming,
            ));
        }
    }
}

} // verus!
