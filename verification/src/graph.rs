//! The dependency graph of a fleet of services: vertices are service
//! projections, arcs are dependency-contract projections. One builder walks
//! the transitive closure from an entry point, the other scans a whole
//! fleet listing; both reuse a vertex per service name and let the last
//! declaration of a duplicated dependency win its edge.

use vstd::prelude::*;
use crate::errors::Error;
use crate::manifest::{Dependency, DependencyProtocol, Manifest};

verus! {

/// The vertex projection of a manifest: only the service name.
#[derive(Debug)]
pub struct ManifestNode {
    pub name: String,
}

impl ManifestNode {
    pub fn new(mf: &Manifest) -> (n: ManifestNode)
        ensures
            n.name@ == mf.name@,
    {
        ManifestNode { name: mf.name.clone() }
    }
}

/// The arc projection of a dependency declaration.
#[derive(Debug)]
pub struct DepEdge {
    pub api: String,
    pub contract: Option<String>,
    pub protocol: DependencyProtocol,
    pub intent: Option<String>,
}

pub open spec fn opt_view(o: Option<String>) -> Option<Seq<char>> {
    match o {
        Some(s) => Some(s@),
        None => None,
    }
}

/// The edge carries exactly the declaration's attributes.
pub open spec fn edge_matches(e: DepEdge, d: Dependency) -> bool {
    e.api@ == d.api@ && opt_view(e.contract) == opt_view(d.contract) && e.protocol == d.protocol
        && opt_view(e.intent) == opt_view(d.intent)
}

fn clone_opt(o: &Option<String>) -> (r: Option<String>)
    ensures
        opt_view(r) == opt_view(*o),
{
    match o {
        Some(s) => Some(s.clone()),
        None => None,
    }
}

impl DepEdge {
    pub fn new(dep: &Dependency) -> (e: DepEdge)
        ensures
            edge_matches(e, *dep),
    {
        DepEdge {
            api: dep.api.clone(),
            contract: clone_opt(&dep.contract),
            protocol: dep.protocol,
            intent: clone_opt(&dep.intent),
        }
    }
}

/// A directed arc between two vertices, by index.
#[derive(Debug)]
pub struct GraphEdge {
    pub from: usize,
    pub to: usize,
    pub edge: DepEdge,
}

/// Graph of simplified manifests with dependencies as arcs: at most one
/// vertex per service name, at most one arc per ordered vertex pair.
#[derive(Debug)]
pub struct CatGraph {
    pub nodes: Vec<ManifestNode>,
    pub edges: Vec<GraphEdge>,
}

impl CatGraph {
    /// Arc endpoints are in range, vertex names are unique, and no ordered
    /// vertex pair carries two arcs.
    pub open spec fn wf(self) -> bool {
        (forall|i: int|
            0 <= i < self.edges@.len() ==> (#[trigger] self.edges@[i]).from < self.nodes@.len()
                && self.edges@[i].to < self.nodes@.len()) && (forall|i: int, j: int|
            0 <= i < j < self.nodes@.len() ==> self.nodes@[i].name@ != self.nodes@[j].name@) && (
        forall|i: int, j: int|
            0 <= i < j < self.edges@.len() ==> !((#[trigger] self.edges@[i]).from
                == (#[trigger] self.edges@[j]).from && self.edges@[i].to == self.edges@[j].to))
    }

    pub open spec fn has_node(self, name: Seq<char>) -> bool {
        exists|i: int| 0 <= i < self.nodes@.len() && self.nodes@[i].name@ == name
    }

    /// Overwrite the arc between the two vertices, or add it: the last
    /// declaration wins, arcs are never duplicated.
    fn update_edge(&mut self, from: usize, to: usize, e: DepEdge)
        requires
            old(self).wf(),
            from < old(self).nodes@.len(),
            to < old(self).nodes@.len(),
        ensures
            final(self).wf(),
            final(self).nodes == old(self).nodes,
            final(self).edges@.len() >= old(self).edges@.len(),
            final(self).edges@.len() <= old(self).edges@.len() + 1,
            (exists|ei: int|
                0 <= ei < final(self).edges@.len() && (#[trigger] final(self).edges@[ei]).from
                    == from && final(self).edges@[ei].to == to && final(self).edges@[ei].edge == e),
            (forall|ei: int|
                0 <= ei < final(self).edges@.len() && !((#[trigger] final(self).edges@[ei]).from
                    == from && final(self).edges@[ei].to == to) ==> ei < old(self).edges@.len()
                    && final(self).edges@[ei] == old(self).edges@[ei]),
            (forall|ei: int|
                0 <= ei < old(self).edges@.len() && !((#[trigger] old(self).edges@[ei]).from == from
                    && old(self).edges@[ei].to == to) ==> final(self).edges@[ei] == old(
                    self,
                ).edges@[ei]),
            (forall|ei: int|
                0 <= ei < final(self).edges@.len() && (#[trigger] final(self).edges@[ei]).from
                    == from && final(self).edges@[ei].to == to ==> final(self).edges@[ei].edge
                    == e),
            (forall|ei: int|
                0 <= ei < old(self).edges@.len() ==> (#[trigger] final(self).edges@[ei]).from
                    == old(self).edges@[ei].from && final(self).edges@[ei].to == old(
                    self,
                ).edges@[ei].to),
    {
        let mut i: usize = 0;
        let n = self.edges.len();
        while i < n
            invariant
                i <= n,
                n == self.edges@.len(),
                *self == *old(self),
                old(self).wf(),
                from < old(self).nodes@.len(),
                to < old(self).nodes@.len(),
                forall|j: int|
                    0 <= j < i ==> !((#[trigger] self.edges@[j]).from == from && self.edges@[j].to
                        == to),
            decreases n - i,
        {
            if self.edges[i].from == from && self.edges[i].to == to {
                self.edges[i] = GraphEdge { from, to, edge: e };
                proof {
                    assert((i as int) < self.edges@.len() && self.edges@[i as int].from == from
                        && self.edges@[i as int].to == to && self.edges@[i as int].edge == e);
                    assert(old(self).edges@[i as int].from == from && old(self).edges@[i as int].to
                        == to);
                    assert(forall|j: int|
                        0 <= j < self.edges@.len() && j != i ==> self.edges@[j] == old(
                            self,
                        ).edges@[j]);
                    assert forall|a: int, b: int|
                        0 <= a < b < self.edges@.len() implies !((#[trigger] self.edges@[a]).from
                        == (#[trigger] self.edges@[b]).from && self.edges@[a].to
                        == self.edges@[b].to) by {
                        if a != i as int {
                            assert(self.edges@[a] == old(self).edges@[a]);
                        }
                        if b != i as int {
                            assert(self.edges@[b] == old(self).edges@[b]);
                        }
                        assert(!(old(self).edges@[a].from == old(self).edges@[b].from && old(
                            self,
                        ).edges@[a].to == old(self).edges@[b].to));
                    }
                    assert forall|ei: int|
                        0 <= ei < self.edges@.len() && (#[trigger] self.edges@[ei]).from == from
                            && self.edges@[ei].to == to implies self.edges@[ei].edge == e by {
                        if ei != i as int {
                            assert(self.edges@[ei] == old(self).edges@[ei]);
                            if ei < i as int {
                                assert(!(old(self).edges@[ei].from == old(
                                    self,
                                ).edges@[i as int].from && old(self).edges@[ei].to == old(
                                    self,
                                ).edges@[i as int].to));
                            } else {
                                assert(!(old(self).edges@[i as int].from == old(
                                    self,
                                ).edges@[ei].from && old(self).edges@[i as int].to == old(
                                    self,
                                ).edges@[ei].to));
                            }
                        }
                    }
                }
                return ;
            }
            i = i + 1;
        }
        self.edges.push(GraphEdge { from, to, edge: e });
        proof {
            let last = self.edges@.len() - 1;
            assert(self.edges@[last].from == from && self.edges@[last].to == to
                && self.edges@[last].edge == e);
            assert(forall|j: int| 0 <= j < last ==> self.edges@[j] == old(self).edges@[j]);
        }
    }
}

/// Compare two strings by their characters.
pub fn str_eq(a: &str, b: &str) -> (r: bool)
    ensures
        r == (a@ == b@),
{
    let n = a.unicode_len();
    let m = b.unicode_len();
    if n != m {
        proof {
            if a@ == b@ {
                assert(a@.len() == b@.len());
            }
        }
        return false;
    }
    let mut i: usize = 0;
    while i < n
        invariant
            i <= n,
            n == a@.len(),
            n == b@.len(),
            forall|j: int| 0 <= j < i ==> a@[j] == b@[j],
        decreases n - i,
    {
        if a.get_char(i) != b.get_char(i) {
            proof {
                if a@ == b@ {
                    assert(a@[i as int] == b@[i as int]);
                }
            }
            return false;
        }
        i = i + 1;
    }
    proof {
        assert(a@ =~= b@);
    }
    true
}

/// Index of the first vertex holding `name`, scanning all vertices in
/// index order.
pub fn nodeidx_from_name(name: &str, graph: &CatGraph) -> (r: Option<usize>)
    ensures
        (match r {
            Some(i) => i < graph.nodes@.len() && graph.nodes@[i as int].name@ == name@ && (
            forall|j: int| 0 <= j < i ==> graph.nodes@[j].name@ != name@),
            None => !graph.has_node(name@),
        }),
{
    let n = graph.nodes.len();
    let mut i: usize = 0;
    while i < n
        invariant
            i <= n,
            n == graph.nodes@.len(),
            forall|j: int| 0 <= j < i ==> graph.nodes@[j].name@ != name@,
        decreases n - i,
    {
        if str_eq(graph.nodes[i].name.as_str(), name) {
            return Some(i);
        }
        i = i + 1;
    }
    None
}

// ----- the manifest provider's catalog -----

/// First manifest of the sequence holding `name`.
pub open spec fn resolve_seq(ms: Seq<Manifest>, name: Seq<char>) -> Option<Manifest>
    decreases ms.len(),
{
    if ms.len() == 0 {
        None
    } else if ms[0].name@ == name {
        Some(ms[0])
    } else {
        resolve_seq(ms.drop_first(), name)
    }
}

/// Every manifest the provider can resolve, in enumeration order.
pub struct Catalog {
    pub manifests: Vec<Manifest>,
}

impl Catalog {
    /// Service names are unique fleet-wide.
    pub open spec fn wf(self) -> bool {
        forall|i: int, j: int|
            0 <= i < j < self.manifests@.len() ==> self.manifests@[i].name@
                != self.manifests@[j].name@
    }

    pub open spec fn spec_resolve(self, name: Seq<char>) -> Option<Manifest> {
        resolve_seq(self.manifests@, name)
    }

    /// Resolve a service name to its manifest.
    pub fn resolve(&self, name: &str) -> (r: Option<&Manifest>)
        ensures
            (match r {
                Some(m) => self.spec_resolve(name@) == Some(*m),
                None => self.spec_resolve(name@) is None,
            }),
    {
        let n = self.manifests.len();
        let mut i: usize = 0;
        proof {
            assert(self.manifests@.skip(0) =~= self.manifests@);
        }
        while i < n
            invariant
                i <= n,
                n == self.manifests@.len(),
                resolve_seq(self.manifests@, name@) == resolve_seq(
                    self.manifests@.skip(i as int),
                    name@,
                ),
            decreases n - i,
        {
            proof {
                assert(self.manifests@.skip(i as int)[0] == self.manifests@[i as int]);
                assert(self.manifests@.skip(i as int).drop_first() =~= self.manifests@.skip(
                    i as int + 1,
                ));
            }
            if str_eq(self.manifests[i].name.as_str(), name) {
                return Some(&self.manifests[i]);
            }
            i = i + 1;
        }
        None
    }
}

// ----- the entry-point builder -----

/// Index of the last declaration naming `name` among `deps`, or -1.
pub open spec fn last_dep_index(deps: Seq<Dependency>, name: Seq<char>) -> int
    decreases deps.len(),
{
    if deps.len() == 0 {
        -1
    } else if deps.last().name@ == name {
        deps.len() - 1
    } else {
        last_dep_index(deps.drop_last(), name)
    }
}

pub proof fn lemma_last_dep_index(deps: Seq<Dependency>, name: Seq<char>)
    ensures
        -1 <= last_dep_index(deps, name) < deps.len(),
        last_dep_index(deps, name) == -1 ==> (forall|i: int|
            0 <= i < deps.len() ==> (#[trigger] deps[i]).name@ != name),
        last_dep_index(deps, name) >= 0 ==> deps[last_dep_index(deps, name)].name@ == name && (
        forall|i: int|
            last_dep_index(deps, name) < i < deps.len() ==> (#[trigger] deps[i]).name@ != name),
    decreases deps.len(),
{
    if deps.len() > 0 {
        lemma_last_dep_index(deps.drop_last(), name);
        assert(forall|i: int| 0 <= i < deps.len() - 1 ==> deps.drop_last()[i] == deps[i]);
    }
}

proof fn lemma_last_dep_take_step(deps: Seq<Dependency>, k: int, target: Seq<char>)
    requires
        0 <= k < deps.len(),
    ensures
        deps[k].name@ == target ==> last_dep_index(deps.take(k + 1), target) == k,
        deps[k].name@ != target ==> last_dep_index(deps.take(k + 1), target) == last_dep_index(
            deps.take(k),
            target,
        ),
{
    assert(deps.take(k + 1).drop_last() =~= deps.take(k));
    assert(deps.take(k + 1).last() == deps[k]);
}

/// The dependency sequence of the manifest behind vertex `i`.
pub open spec fn node_deps(cat: Catalog, g: CatGraph, i: int) -> Seq<Dependency> {
    cat.spec_resolve(g.nodes@[i].name@)->Some_0.dependencies@
}

/// Among the declarations `deps`, the target `target` of vertex `i` is
/// reflected: the target has a vertex and the arc to it carries the
/// last declaration.
pub open spec fn dep_edge_ok_upto(
    g: CatGraph,
    i: int,
    target: Seq<char>,
    deps: Seq<Dependency>,
) -> bool {
    exists|ei: int|
        0 <= ei < g.edges@.len() && ((#[trigger] g.edges@[ei]).from as int) == i
            && (g.edges@[ei].to as int) < g.nodes@.len()
            && g.nodes@[g.edges@[ei].to as int].name@ == target && last_dep_index(deps, target) >= 0
            && edge_matches(g.edges@[ei].edge, deps[last_dep_index(deps, target)])
}

pub open spec fn dep_edge_ok(cat: Catalog, g: CatGraph, i: int, target: Seq<char>) -> bool {
    dep_edge_ok_upto(g, i, target, node_deps(cat, g, i))
}

/// Every declared dependency of vertex `i` is reflected.
pub open spec fn node_complete(cat: Catalog, g: CatGraph, i: int) -> bool {
    forall|k: int|
        0 <= k < node_deps(cat, g, i).len() ==> dep_edge_ok(
            cat,
            g,
            i,
            (#[trigger] node_deps(cat, g, i)[k]).name@,
        )
}

/// The arc `e` reports a declaration among `deps`: its target vertex is
/// named by some declaration, and the arc carries the last one.
pub open spec fn edge_sound_upto(g: CatGraph, e: GraphEdge, deps: Seq<Dependency>) -> bool {
    (e.to as int) < g.nodes@.len() && last_dep_index(deps, g.nodes@[e.to as int].name@) >= 0
        && edge_matches(e.edge, deps[last_dep_index(deps, g.nodes@[e.to as int].name@)])
}

/// The arc `e` reports a real declaration of its source's manifest.
pub open spec fn edge_sound(cat: Catalog, g: CatGraph, e: GraphEdge) -> bool {
    (e.from as int) < g.nodes@.len() && cat.spec_resolve(g.nodes@[e.from as int].name@) is Some
        && edge_sound_upto(g, e, node_deps(cat, g, e.from as int))
}

/// Some arc reaches vertex `j` from an earlier vertex.
pub open spec fn has_parent(g: CatGraph, j: int) -> bool {
    exists|ei: int|
        0 <= ei < g.edges@.len() && ((#[trigger] g.edges@[ei]).to as int) == j && (
        g.edges@[ei].from as int) < j
}

/// Everything `build_from_entry_point` guarantees of a graph it returns:
/// well-formed, rooted at the entry point, every vertex resolvable and all
/// its dependencies reflected with last-declaration-wins arcs, every arc
/// reporting a real declaration, and every vertex but the root reached by
/// an arc from an earlier vertex.
pub open spec fn is_entry_graph(cat: Catalog, root: Seq<char>, g: CatGraph) -> bool {
    &&& g.wf()
    &&& g.nodes@.len() >= 1
    &&& g.nodes@[0].name@ == root
    &&& (forall|i: int|
        0 <= i < g.nodes@.len() ==> cat.spec_resolve((#[trigger] g.nodes@[i]).name@) is Some)
    &&& (forall|i: int| 0 <= i < g.nodes@.len() ==> node_complete(cat, g, i))
    &&& (forall|ei: int| 0 <= ei < g.edges@.len() ==> edge_sound(cat, g, #[trigger] g.edges@[ei]))
    &&& (forall|j: int| 1 <= j < g.nodes@.len() ==> #[trigger] has_parent(g, j))
}

/// Every declared dependency anywhere in the catalog resolves.
pub open spec fn catalog_closed(cat: Catalog) -> bool {
    forall|i: int, k: int|
        0 <= i < cat.manifests@.len() && 0 <= k < cat.manifests@[i].dependencies@.len()
            ==> cat.spec_resolve((#[trigger] cat.manifests@[i].dependencies@[k]).name@) is Some
}

pub proof fn lemma_resolve_member(ms: Seq<Manifest>, name: Seq<char>)
    requires
        resolve_seq(ms, name) is Some,
    ensures
        resolve_seq(ms, name)->Some_0.name@ == name,
        exists|i: int| 0 <= i < ms.len() && ms[i] == resolve_seq(ms, name)->Some_0,
    decreases ms.len(),
{
    if ms.len() > 0 && ms[0].name@ != name {
        lemma_resolve_member(ms.drop_first(), name);
        let i = choose|i: int|
            0 <= i < ms.drop_first().len() && ms.drop_first()[i] == resolve_seq(
                ms.drop_first(),
                name,
            )->Some_0;
        assert(ms[i + 1] == resolve_seq(ms, name)->Some_0);
    }
}

proof fn lemma_node_count_bound(cat: Catalog, g: CatGraph)
    requires
        cat.wf(),
        g.wf(),
        forall|i: int|
            0 <= i < g.nodes@.len() ==> cat.spec_resolve((#[trigger] g.nodes@[i]).name@) is Some,
    ensures
        g.nodes@.len() <= cat.manifests@.len(),
{
    broadcast use vstd::seq_lib::seq_to_set_is_finite;
    broadcast use vstd::set::group_set_axioms;

    let nn: Seq<Seq<char>> = g.nodes@.map_values(|n: ManifestNode| n.name@);
    let cn: Seq<Seq<char>> = cat.manifests@.map_values(|m: Manifest| m.name@);
    assert(nn.no_duplicates());
    nn.unique_seq_to_set();
    cn.lemma_cardinality_of_set();
    assert forall|x: Seq<char>| nn.to_set().contains(x) implies cn.to_set().contains(x) by {
        let i = choose|i: int| 0 <= i < nn.len() && nn[i] == x;
        assert(cat.spec_resolve(g.nodes@[i].name@) is Some);
        lemma_resolve_member(cat.manifests@, x);
        let c = choose|c: int|
            0 <= c < cat.manifests@.len() && cat.manifests@[c] == resolve_seq(
                cat.manifests@,
                x,
            )->Some_0;
        assert(cn[c] == x);
        assert(cn.contains(x));
    }
    vstd::set_lib::lemma_len_subset(nn.to_set(), cn.to_set());
}

/// Build the dependency graph rooted at `service`: resolve it, then walk
/// declared dependencies with an explicit worklist, reusing the vertex of
/// any service already present (which also stops cycles) and letting the
/// last declaration of a duplicated dependency win its arc. A resolution
/// failure at any depth aborts the build; no partial graph is returned.
#[verifier::rlimit(100)]
pub fn build_from_entry_point(catalog: &Catalog, service: &str) -> (r: Result<CatGraph, Error>)
    requires
        catalog.wf(),
    ensures
        (r matches Ok(g) ==> is_entry_graph(*catalog, service@, g)),
        (r matches Err(e) ==> ((e matches Error::NotFound(n) && n@ == service@
            && catalog.spec_resolve(service@) is None) || (e matches Error::MalformedDependency(n)
            && catalog.spec_resolve(n@) is None && (exists|t: Seq<char>|
                reachable(*catalog, service@, t) && (catalog.spec_resolve(t) matches Some(m)
                && manifest_depends_on(m, n@)))))),
        catalog.spec_resolve(service@) is None ==> (r matches Err(e) && e matches Error::NotFound(
            n,
        ) && n@ == service@),
        catalog.spec_resolve(service@) is Some && reachable_closed(*catalog, service@) ==> r is Ok,
{
    let base = match catalog.resolve(service) {
        Some(m) => m,
        None => {
            return Err(Error::NotFound(service.to_owned()));
        },
    };
    let mut g = CatGraph { nodes: Vec::new(), edges: Vec::new() };
    g.nodes.push(ManifestNode::new(base));
    let mut work: Vec<usize> = Vec::new();
    work.push(0);
    proof {
        lemma_resolve_member(catalog.manifests@, service@);
        assert(g.nodes@.len() == 1);
        assert(g.nodes@[0].name@ == service@);
        lemma_node_count_bound(*catalog, g);
        assert(work@[0] == 0usize);
        assert(work@.contains(0usize));
        let p0 = seq![service@];
        assert(path_ok(*catalog, p0)) by {
            assert(p0[0] == service@);
        }
        assert(p0.last() == service@);
        assert(reachable(*catalog, service@, service@));
    }
    while work.len() > 0
        invariant
            catalog.wf(),
            g.wf(),
            1 <= g.nodes@.len() <= catalog.manifests@.len(),
            g.nodes@[0].name@ == service@,
            catalog.spec_resolve(service@) is Some,
            forall|i: int|
                0 <= i < g.nodes@.len() ==> catalog.spec_resolve(
                    (#[trigger] g.nodes@[i]).name@,
                ) is Some,
            forall|i: int|
                0 <= i < g.nodes@.len() ==> reachable(
                    *catalog,
                    service@,
                    (#[trigger] g.nodes@[i]).name@,
                ),
            forall|t: int| 0 <= t < work@.len() ==> ((#[trigger] work@[t]) as int) < g.nodes@.len(),
            forall|t1: int, t2: int| 0 <= t1 < t2 < work@.len() ==> work@[t1] != work@[t2],
            forall|ei: int|
                0 <= ei < g.edges@.len() ==> !work@.contains((#[trigger] g.edges@[ei]).from),
            forall|ei: int|
                0 <= ei < g.edges@.len() ==> edge_sound(*catalog, g, #[trigger] g.edges@[ei]),
            forall|i: usize|
                (i as int) < g.nodes@.len() && !work@.contains(i) ==> node_complete(
                    *catalog,
                    g,
                    i as int,
                ),
            forall|j: int| 1 <= j < g.nodes@.len() ==> #[trigger] has_parent(g, j),
        decreases 2 * (catalog.manifests@.len() - g.nodes@.len()) + work@.len(),
    {
        let ghost prework = work@;
        let idx = match work.pop() {
            Some(x) => x,
            None => {
                // the loop condition keeps the worklist non-empty here
                proof {
                    assert(false);
                }
                return Err(Error::NotFound(service.to_owned()));
            },
        };
        let mfname = g.nodes[idx].name.clone();
        let mf = match catalog.resolve(mfname.as_str()) {
            Some(m) => m,
            None => {
                // every vertex name resolves, by the loop invariant
                proof {
                    assert(false);
                }
                return Err(Error::NotFound(service.to_owned()));
            },
        };
        let ghost deps = mf.dependencies@;
        let dcount = mf.dependencies.len();
        let ghost budget = 2 * (catalog.manifests@.len() - g.nodes@.len()) + work@.len();
        proof {
            assert(prework =~= work@.push(idx));
            assert(!work@.contains(idx)) by {
                if work@.contains(idx) {
                    let t = choose|t: int| 0 <= t < work@.len() && work@[t] == idx;
                    assert(prework[t] == idx);
                    assert(prework[prework.len() - 1] == idx);
                }
            }
            assert forall|i: usize|
                (i as int) < g.nodes@.len() && !work@.contains(i) && i != idx implies !prework.contains(
                i,
            ) by {
                if prework.contains(i) {
                    let t = choose|t: int| 0 <= t < prework.len() && prework[t] == i;
                    if t < prework.len() - 1 {
                        assert(work@[t] == i);
                    }
                }
            }
            assert(deps.take(0) =~= Seq::<Dependency>::empty());
        }
        let mut k: usize = 0;
        while k < dcount
            invariant
                catalog.wf(),
                g.wf(),
                1 <= g.nodes@.len() <= catalog.manifests@.len(),
                g.nodes@[0].name@ == service@,
                catalog.spec_resolve(service@) is Some,
                (idx as int) < g.nodes@.len(),
                g.nodes@[idx as int].name@ == mfname@,
                catalog.spec_resolve(mfname@) == Some(*mf),
                deps == mf.dependencies@,
                k <= dcount == deps.len(),
                !work@.contains(idx),
                2 * (catalog.manifests@.len() - g.nodes@.len()) + work@.len() <= budget,
                forall|i: int|
                    0 <= i < g.nodes@.len() ==> catalog.spec_resolve(
                        (#[trigger] g.nodes@[i]).name@,
                    ) is Some,
                forall|i: int|
                    0 <= i < g.nodes@.len() ==> reachable(
                        *catalog,
                        service@,
                        (#[trigger] g.nodes@[i]).name@,
                    ),
                forall|t: int|
                    0 <= t < work@.len() ==> ((#[trigger] work@[t]) as int) < g.nodes@.len(),
                forall|t1: int, t2: int| 0 <= t1 < t2 < work@.len() ==> work@[t1] != work@[t2],
                forall|ei: int|
                    0 <= ei < g.edges@.len() ==> !work@.contains((#[trigger] g.edges@[ei]).from),
                forall|ei: int|
                    0 <= ei < g.edges@.len() && ((#[trigger] g.edges@[ei]).from as int) != idx
                        ==> edge_sound(*catalog, g, g.edges@[ei]),
                forall|ei: int|
                    0 <= ei < g.edges@.len() && ((#[trigger] g.edges@[ei]).from as int) == idx
                        ==> edge_sound_upto(g, g.edges@[ei], deps.take(k as int)),
                forall|i: usize|
                    (i as int) < g.nodes@.len() && !work@.contains(i) && i != idx
                        ==> node_complete(*catalog, g, i as int),
                forall|t: int|
                    0 <= t < k ==> dep_edge_ok_upto(
                        g,
                        idx as int,
                        (#[trigger] deps[t]).name@,
                        deps.take(k as int),
                    ),
                forall|j: int| 1 <= j < g.nodes@.len() ==> #[trigger] has_parent(g, j),
            decreases dcount - k,
        {
            let dep = &mf.dependencies[k];
            proof {
                lemma_last_dep_take_step(deps, k as int, dep.name@);
                assert forall|t: Seq<char>| t != dep.name@ implies last_dep_index(
                    deps.take(k as int + 1),
                    t,
                ) == last_dep_index(deps.take(k as int), t) by {
                    lemma_last_dep_take_step(deps, k as int, t);
                }
            }
            let de = DepEdge::new(dep);
            let ghost dev = de;
            let ghost g0 = g;
            let ghost work0 = work@;
            let depidx: usize;
            match nodeidx_from_name(dep.name.as_str(), &g) {
                Some(j) => {
                    depidx = j;
                },
                None => {
                    let depmf = match catalog.resolve(dep.name.as_str()) {
                        Some(m) => m,
                        None => {
                            proof {
                                assert(reachable(*catalog, service@, mfname@)) by {
                                    assert(g.nodes@[idx as int].name@ == mfname@);
                                }
                                assert(manifest_depends_on(
                                    catalog.spec_resolve(mfname@)->Some_0,
                                    dep.name@,
                                )) by {
                                    assert(mf.dependencies@[k as int].name@ == dep.name@);
                                }
                                if reachable_closed(*catalog, service@) {
                                    assert(catalog.spec_resolve(mfname@)->Some_0.dependencies@[
                                        k as int] == deps[k as int]);
                                    assert(catalog.spec_resolve(
                                        (catalog.spec_resolve(
                                            mfname@,
                                        )->Some_0.dependencies@[k as int]).name@,
                                    ) is Some);
                                }
                            }
                            return Err(Error::MalformedDependency(dep.name.clone()));
                        },
                    };
                    proof {
                        lemma_resolve_member(catalog.manifests@, dep.name@);
                        assert(manifest_depends_on(
                            catalog.spec_resolve(mfname@)->Some_0,
                            dep.name@,
                        )) by {
                            assert(mf.dependencies@[k as int].name@ == dep.name@);
                        }
                        assert(reachable(*catalog, service@, mfname@)) by {
                            assert(g.nodes@[idx as int].name@ == mfname@);
                        }
                        lemma_reach_step(*catalog, service@, mfname@, dep.name@);
                    }
                    g.nodes.push(ManifestNode::new(depmf));
                    let j = g.nodes.len() - 1;
                    work.push(j);
                    proof {
                        assert(g.nodes@.drop_last() =~= g0.nodes@);
                        assert forall|i1: int, i2: int|
                            0 <= i1 < i2 < g.nodes@.len() implies g.nodes@[i1].name@
                            != g.nodes@[i2].name@ by {
                            if i2 == g.nodes@.len() - 1 {
                                assert(!g0.has_node(dep.name@));
                                assert(g0.nodes@[i1].name@ != dep.name@);
                            }
                        }
                        assert(g.wf());
                        lemma_node_count_bound(*catalog, g);
                        assert(work@.drop_last() =~= work0);
                        assert(work@[work@.len() - 1] == j);
                        assert forall|t1: int, t2: int|
                            0 <= t1 < t2 < work@.len() implies work@[t1] != work@[t2] by {
                            if t2 == work@.len() - 1 {
                                assert(work@[t1] == work0[t1]);
                                assert((work0[t1] as int) < g0.nodes@.len());
                            } else {
                                assert(work@[t1] == work0[t1] && work@[t2] == work0[t2]);
                            }
                        }
                    }
                    depidx = j;
                },
            }
            proof {
                assert(g.edges@ == g0.edges@);
                assert(forall|i: int| 0 <= i < g0.nodes@.len() ==> g.nodes@[i] == g0.nodes@[i]);
                assert((depidx as int) < g.nodes@.len());
                assert(g.nodes@[depidx as int].name@ == dep.name@);
                assert forall|ei: int|
                    0 <= ei < g.edges@.len() && ((#[trigger] g.edges@[ei]).from as int)
                        == idx implies edge_sound_upto(g, g.edges@[ei], deps.take(k as int)) by {
                    assert(edge_sound_upto(g0, g0.edges@[ei], deps.take(k as int)));
                    assert((g0.edges@[ei].to as int) < g0.nodes@.len());
                }
                assert forall|x: usize| work0.contains(x) implies work@.contains(x) by {
                    let t = choose|t: int| 0 <= t < work0.len() && work0[t] == x;
                    assert(work@[t] == x);
                }
                assert(!work@.contains(idx)) by {
                    if work@.contains(idx) {
                        let t = choose|t: int| 0 <= t < work@.len() && work@[t] == idx;
                        if t < work0.len() {
                            assert(work0[t] == idx);
                        } else {
                            assert((idx as int) < g0.nodes@.len());
                        }
                    }
                }
                assert forall|t: int|
                    0 <= t < work@.len() implies ((#[trigger] work@[t]) as int)
                    < g.nodes@.len() by {
                    if t < work0.len() {
                        assert(work@[t] == work0[t]);
                    }
                }
            }
            let ghost gmid = g;
            g.update_edge(idx, depidx, de);
            proof {
                assert(last_dep_index(deps.take(k as int + 1), dep.name@) == k as int);
                assert(deps.take(k as int + 1)[k as int] == deps[k as int]);
                assert forall|ei: int|
                    0 <= ei < g.edges@.len() && ((#[trigger] g.edges@[ei]).from as int)
                        == idx implies edge_sound_upto(g, g.edges@[ei], deps.take(k as int + 1)) by {
                    let e = g.edges@[ei];
                    assert((e.to as int) < g.nodes@.len());
                    if e.to == depidx {
                        assert(e.edge == dev);
                        assert(g.nodes@[depidx as int].name@ == dep.name@);
                    } else {
                        assert(ei < gmid.edges@.len() && e == gmid.edges@[ei]);
                        assert(edge_sound_upto(gmid, e, deps.take(k as int)));
                        assert(g.nodes@[e.to as int] == gmid.nodes@[e.to as int]);
                        if (e.to as int) < (depidx as int) {
                            assert(g.nodes@[e.to as int].name@ != g.nodes@[depidx as int].name@);
                        } else {
                            assert(g.nodes@[depidx as int].name@ != g.nodes@[e.to as int].name@);
                        }
                        assert(g.nodes@[e.to as int].name@ != dep.name@);
                        lemma_last_dep_index(deps.take(k as int), g.nodes@[e.to as int].name@);
                        assert(last_dep_index(
                            deps.take(k as int + 1),
                            g.nodes@[e.to as int].name@,
                        ) == last_dep_index(deps.take(k as int), g.nodes@[e.to as int].name@));
                        assert(deps.take(k as int + 1)[last_dep_index(
                            deps.take(k as int + 1),
                            g.nodes@[e.to as int].name@,
                        )] == deps.take(k as int)[last_dep_index(
                            deps.take(k as int),
                            g.nodes@[e.to as int].name@,
                        )]);
                    }
                }
                assert forall|ei: int|
                    0 <= ei < g.edges@.len() && ((#[trigger] g.edges@[ei]).from as int)
                        != idx implies edge_sound(*catalog, g, g.edges@[ei]) by {
                    let e = g.edges@[ei];
                    assert(ei < gmid.edges@.len() && e == gmid.edges@[ei]);
                    assert(e == g0.edges@[ei]);
                    assert(edge_sound(*catalog, g0, e));
                    assert(g.nodes@[e.from as int] == g0.nodes@[e.from as int]);
                    assert(g.nodes@[e.to as int] == g0.nodes@[e.to as int]);
                    assert(node_deps(*catalog, g, e.from as int) == node_deps(
                        *catalog,
                        g0,
                        e.from as int,
                    ));
                }
                assert forall|ei: int|
                    0 <= ei < g.edges@.len() implies !work@.contains(
                    (#[trigger] g.edges@[ei]).from) by {
                    let f = g.edges@[ei].from;
                    if (f as int) != idx as int {
                        assert(g.edges@[ei] == g0.edges@[ei]);
                        assert(!work0.contains(f));
                        assert((f as int) < g0.nodes@.len());
                        if work@.contains(f) {
                            let t = choose|t: int| 0 <= t < work@.len() && work@[t] == f;
                            if t < work0.len() {
                                assert(work0[t] == f);
                            } else {
                                assert((f as int) == g0.nodes@.len());
                            }
                        }
                    }
                }
                assert forall|i: usize|
                    (i as int) < g.nodes@.len() && !work@.contains(i) && i
                        != idx implies node_complete(*catalog, g, i as int) by {
                    assert((i as int) < g0.nodes@.len()) by {
                        if (i as int) >= g0.nodes@.len() {
                            assert(work@[work@.len() - 1] == i);
                        }
                    }
                    assert(!work0.contains(i));
                    assert(node_complete(*catalog, g0, i as int));
                    assert(node_deps(*catalog, g, i as int) == node_deps(*catalog, g0, i as int));
                    let ideps = node_deps(*catalog, g0, i as int);
                    assert forall|kk: int| 0 <= kk < ideps.len() implies dep_edge_ok(
                        *catalog,
                        g,
                        i as int,
                        (#[trigger] ideps[kk]).name@,
                    ) by {
                        let target = ideps[kk].name@;
                        assert(dep_edge_ok(*catalog, g0, i as int, target));
                        let ei = choose|ei: int|
                            0 <= ei < g0.edges@.len() && (((#[trigger] g0.edges@[ei]).from) as int)
                                == i as int && ((g0.edges@[ei]).to as int) < g0.nodes@.len()
                                && g0.nodes@[(g0.edges@[ei]).to as int].name@ == target
                                && last_dep_index(ideps, target) >= 0 && edge_matches(
                                (g0.edges@[ei]).edge,
                                ideps[last_dep_index(ideps, target)],
                            );
                        assert(gmid.edges@[ei] == g0.edges@[ei]);
                        assert(g.edges@[ei] == gmid.edges@[ei]);
                        assert(g.nodes@[(g.edges@[ei]).to as int] == g0.nodes@[(g0.edges@[ei]).to
                            as int]);
                    }
                }
                assert forall|jj: int| 1 <= jj < g.nodes@.len() implies #[trigger] has_parent(
                    g,
                    jj,
                ) by {
                    if jj < g0.nodes@.len() {
                        assert(has_parent(g0, jj));
                        let ei = choose|ei: int|
                            0 <= ei < g0.edges@.len() && (((#[trigger] g0.edges@[ei]).to) as int)
                                == jj && ((g0.edges@[ei]).from as int) < jj;
                        assert(gmid.edges@[ei] == g0.edges@[ei]);
                        assert(g.edges@[ei].from == gmid.edges@[ei].from && g.edges@[ei].to
                            == gmid.edges@[ei].to);
                    } else {
                        let ei = choose|ei: int|
                            0 <= ei < g.edges@.len() && ((#[trigger] g.edges@[ei]).from) == idx
                                && (g.edges@[ei]).to == depidx && (g.edges@[ei]).edge == dev;
                        assert((idx as int) < g0.nodes@.len());
                        assert(jj == depidx as int);
                        assert(((g.edges@[ei]).to as int) == jj && ((g.edges@[ei]).from as int)
                            < jj);
                    }
                }
                assert forall|t: int| 0 <= t < k as int + 1 implies dep_edge_ok_upto(
                    g,
                    idx as int,
                    (#[trigger] deps[t]).name@,
                    deps.take(k as int + 1),
                ) by {
                    let target = deps[t].name@;
                    if target == dep.name@ {
                        let ei = choose|ei: int|
                            0 <= ei < g.edges@.len() && ((#[trigger] g.edges@[ei]).from) == idx
                                && (g.edges@[ei]).to == depidx && (g.edges@[ei]).edge == dev;
                        assert(((g.edges@[ei]).from as int) == idx as int);
                        assert((g.edges@[ei]).to == depidx && ((depidx as int))
                            < g.nodes@.len());
                        assert(g.nodes@[depidx as int].name@ == target);
                        assert(edge_matches(dev, deps[k as int]));
                    } else {
                        assert(dep_edge_ok_upto(g0, idx as int, target, deps.take(k as int)));
                        let ei = choose|ei: int|
                            0 <= ei < g0.edges@.len() && (((#[trigger] g0.edges@[ei]).from) as int)
                                == idx as int && ((g0.edges@[ei]).to as int) < g0.nodes@.len()
                                && g0.nodes@[(g0.edges@[ei]).to as int].name@ == target
                                && last_dep_index(deps.take(k as int), target) >= 0
                                && edge_matches(
                                (g0.edges@[ei]).edge,
                                deps.take(k as int)[last_dep_index(
                                    deps.take(k as int),
                                    target,
                                )],
                            );
                        assert((g0.edges@[ei]).to != depidx) by {
                            if (g0.edges@[ei]).to == depidx {
                                assert(g0.nodes@[(g0.edges@[ei]).to as int] == g.nodes@[
                                    depidx as int]);
                            }
                        }
                        assert(gmid.edges@[ei] == g0.edges@[ei]);
                        assert(g.edges@[ei] == gmid.edges@[ei]);
                        assert(g.nodes@[(g.edges@[ei]).to as int] == g0.nodes@[(g0.edges@[ei]).to
                            as int]);
                        lemma_last_dep_index(deps.take(k as int), target);
                        assert(last_dep_index(deps.take(k as int + 1), target) == last_dep_index(
                            deps.take(k as int),
                            target,
                        ));
                        assert(deps.take(k as int + 1)[last_dep_index(
                            deps.take(k as int + 1),
                            target,
                        )] == deps.take(k as int)[last_dep_index(deps.take(k as int), target)]);
                    }
                }
            }
            k = k + 1;
        }
        proof {
            assert(deps.take(dcount as int) =~= deps);
            assert(node_complete(*catalog, g, idx as int)) by {
                assert(node_deps(*catalog, g, idx as int) == deps);
                assert(forall|t: int|
                    0 <= t < deps.len() ==> dep_edge_ok_upto(
                        g,
                        idx as int,
                        (#[trigger] deps[t]).name@,
                        deps,
                    ));
            }
        }
    }
    let nlen = g.nodes.len();
    proof {
        assert forall|i: int| 0 <= i < g.nodes@.len() implies node_complete(*catalog, g, i) by {
            assert(g.nodes@.len() == nlen as int);
            let iu: usize = i as usize;
            assert(iu as int == i);
            assert(!work@.contains(iu));
            assert(node_complete(*catalog, g, iu as int));
        }
    }
    Ok(g)
}


proof fn lemma_three_cycle_path(
    cat: Catalog,
    a: Seq<char>,
    b: Seq<char>,
    c: Seq<char>,
    p: Seq<Seq<char>>,
    k: int,
)
    requires
        cat.spec_resolve(a) is Some,
        cat.spec_resolve(a)->Some_0.dependencies@.len() == 1,
        cat.spec_resolve(a)->Some_0.dependencies@[0].name@ == b,
        cat.spec_resolve(b) is Some,
        cat.spec_resolve(b)->Some_0.dependencies@.len() == 1,
        cat.spec_resolve(b)->Some_0.dependencies@[0].name@ == c,
        cat.spec_resolve(c) is Some,
        cat.spec_resolve(c)->Some_0.dependencies@.len() == 1,
        cat.spec_resolve(c)->Some_0.dependencies@[0].name@ == a,
        path_ok(cat, p),
        p[0] == a,
        0 <= k < p.len(),
    ensures
        p[k] == a || p[k] == b || p[k] == c,
    decreases k,
{
    if k > 0 {
        lemma_three_cycle_path(cat, a, b, c, p, k - 1);
        assert(manifest_depends_on(cat.spec_resolve(p[k - 1])->Some_0, p[k]));
        let m = cat.spec_resolve(p[k - 1])->Some_0;
        let kk = choose|kk: int|
            0 <= kk < m.dependencies@.len() && (#[trigger] m.dependencies@[kk]).name@ == p[k];
        assert(kk == 0);
    }
}

/// A three-service cycle is closed under reachability: the builder is owed
/// success on its first member.
pub proof fn lemma_three_cycle_closed(cat: Catalog, a: Seq<char>, b: Seq<char>, c: Seq<char>)
    requires
        cat.spec_resolve(a) is Some,
        cat.spec_resolve(a)->Some_0.dependencies@.len() == 1,
        cat.spec_resolve(a)->Some_0.dependencies@[0].name@ == b,
        cat.spec_resolve(b) is Some,
        cat.spec_resolve(b)->Some_0.dependencies@.len() == 1,
        cat.spec_resolve(b)->Some_0.dependencies@[0].name@ == c,
        cat.spec_resolve(c) is Some,
        cat.spec_resolve(c)->Some_0.dependencies@.len() == 1,
        cat.spec_resolve(c)->Some_0.dependencies@[0].name@ == a,
    ensures
        reachable_closed(cat, a),
{
    assert forall|t: Seq<char>, k: int|
        reachable(cat, a, t) && 0 <= k < cat.spec_resolve(t)->Some_0.dependencies@.len() implies cat.spec_resolve(
        (#[trigger] cat.spec_resolve(t)->Some_0.dependencies@[k]).name@,
    ) is Some by {
        let p = choose|p: Seq<Seq<char>>| path_ok(cat, p) && p[0] == a && p.last() == t;
        lemma_three_cycle_path(cat, a, b, c, p, p.len() - 1);
    }
}

/// A three-service cycle builds, from its first member, a graph of exactly
/// three vertices and the three arcs around the cycle, none duplicated.
pub proof fn lemma_entry_graph_three_cycle(
    cat: Catalog,
    a: Seq<char>,
    b: Seq<char>,
    c: Seq<char>,
    g: CatGraph,
)
    requires
        is_entry_graph(cat, a, g),
        a != b && b != c && a != c,
        cat.spec_resolve(a) is Some,
        cat.spec_resolve(a)->Some_0.dependencies@.len() == 1,
        cat.spec_resolve(a)->Some_0.dependencies@[0].name@ == b,
        cat.spec_resolve(b) is Some,
        cat.spec_resolve(b)->Some_0.dependencies@.len() == 1,
        cat.spec_resolve(b)->Some_0.dependencies@[0].name@ == c,
        cat.spec_resolve(c) is Some,
        cat.spec_resolve(c)->Some_0.dependencies@.len() == 1,
        cat.spec_resolve(c)->Some_0.dependencies@[0].name@ == a,
    ensures
        g.nodes@.len() == 3,
        g.edges@.len() == 3,
{
    let deps_a = node_deps(cat, g, 0);
    assert(node_complete(cat, g, 0));
    assert(dep_edge_ok(cat, g, 0, (#[trigger] deps_a[0]).name@));
    lemma_last_dep_index(deps_a, b);
    let e_ab = choose|ei: int|
        0 <= ei < g.edges@.len() && (((#[trigger] g.edges@[ei]).from) as int) == 0 && ((
        g.edges@[ei]).to as int) < g.nodes@.len() && g.nodes@[(g.edges@[ei]).to as int].name@ == b
            && last_dep_index(deps_a, b) >= 0 && edge_matches(
            (g.edges@[ei]).edge,
            deps_a[last_dep_index(deps_a, b)],
        );
    let jb = (g.edges@[e_ab]).to as int;
    assert(g.nodes@[jb].name@ == b);
    let deps_b = node_deps(cat, g, jb);
    assert(node_complete(cat, g, jb));
    assert(dep_edge_ok(cat, g, jb, (#[trigger] deps_b[0]).name@));
    lemma_last_dep_index(deps_b, c);
    let e_bc = choose|ei: int|
        0 <= ei < g.edges@.len() && (((#[trigger] g.edges@[ei]).from) as int) == jb && ((
        g.edges@[ei]).to as int) < g.nodes@.len() && g.nodes@[(g.edges@[ei]).to as int].name@ == c
            && last_dep_index(deps_b, c) >= 0 && edge_matches(
            (g.edges@[ei]).edge,
            deps_b[last_dep_index(deps_b, c)],
        );
    let jc = (g.edges@[e_bc]).to as int;
    assert(g.nodes@[jc].name@ == c);
    let deps_c = node_deps(cat, g, jc);
    assert(node_complete(cat, g, jc));
    assert(dep_edge_ok(cat, g, jc, (#[trigger] deps_c[0]).name@));
    lemma_last_dep_index(deps_c, a);
    let e_ca = choose|ei: int|
        0 <= ei < g.edges@.len() && (((#[trigger] g.edges@[ei]).from) as int) == jc && ((
        g.edges@[ei]).to as int) < g.nodes@.len() && g.nodes@[(g.edges@[ei]).to as int].name@ == a
            && last_dep_index(deps_c, a) >= 0 && edge_matches(
            (g.edges@[ei]).edge,
            deps_c[last_dep_index(deps_c, a)],
        );
    assert(jb != 0 && jc != 0 && jb != jc);
    assert(g.nodes@.len() >= 3);
    assert forall|i: int| 0 <= i < g.nodes@.len() implies (g.nodes@[i].name@ == a
        || g.nodes@[i].name@ == b || g.nodes@[i].name@ == c) by {
        lemma_node_reachable(cat, a, g, i);
        let p = choose|p: Seq<Seq<char>>|
            path_ok(cat, p) && p[0] == a && p.last() == g.nodes@[i].name@;
        lemma_three_cycle_path(cat, a, b, c, p, p.len() - 1);
    }
    assert(g.nodes@.len() <= 3) by {
        if g.nodes@.len() > 3 {
            assert(g.nodes@[0].name@ != g.nodes@[1].name@);
            assert(g.nodes@[0].name@ != g.nodes@[2].name@);
            assert(g.nodes@[0].name@ != g.nodes@[3].name@);
            assert(g.nodes@[1].name@ != g.nodes@[2].name@);
            assert(g.nodes@[1].name@ != g.nodes@[3].name@);
            assert(g.nodes@[2].name@ != g.nodes@[3].name@);
        }
    }
    assert forall|ei: int| 0 <= ei < g.edges@.len() implies (((g.edges@[ei]).from as int) == 0
        && ((g.edges@[ei]).to as int) == jb) || (((g.edges@[ei]).from as int) == jb && ((
    g.edges@[ei]).to as int) == jc) || (((g.edges@[ei]).from as int) == jc && ((g.edges@[ei]).to
        as int) == 0) by {
        let e = g.edges@[ei];
        assert(edge_sound(cat, g, e));
        let fname = g.nodes@[e.from as int].name@;
        let tname = g.nodes@[e.to as int].name@;
        lemma_last_dep_index(node_deps(cat, g, e.from as int), tname);
        if fname == a {
            assert((e.from as int) == 0) by {
                if (e.from as int) != 0 {
                    assert(g.nodes@[e.from as int].name@ != g.nodes@[0].name@);
                }
            }
            assert(tname == b);
            assert((e.to as int) == jb) by {
                if (e.to as int) != jb {
                    assert(g.nodes@[e.to as int].name@ != g.nodes@[jb].name@);
                }
            }
        } else if fname == b {
            assert((e.from as int) == jb) by {
                if (e.from as int) != jb {
                    assert(g.nodes@[e.from as int].name@ != g.nodes@[jb].name@);
                }
            }
            assert(tname == c);
            assert((e.to as int) == jc) by {
                if (e.to as int) != jc {
                    assert(g.nodes@[e.to as int].name@ != g.nodes@[jc].name@);
                }
            }
        } else {
            assert(fname == c);
            assert((e.from as int) == jc) by {
                if (e.from as int) != jc {
                    assert(g.nodes@[e.from as int].name@ != g.nodes@[jc].name@);
                }
            }
            assert(tname == a);
            assert((e.to as int) == 0) by {
                if (e.to as int) != 0 {
                    assert(g.nodes@[e.to as int].name@ != g.nodes@[0].name@);
                }
            }
        }
    }
    assert(e_ab != e_bc && e_bc != e_ca && e_ab != e_ca);
    assert(g.edges@.len() >= 3);
    assert(g.edges@.len() <= 3) by {
        if g.edges@.len() > 3 {
            assert(!((g.edges@[0]).from == (g.edges@[1]).from && (g.edges@[0]).to
                == (g.edges@[1]).to));
            assert(!((g.edges@[0]).from == (g.edges@[2]).from && (g.edges@[0]).to
                == (g.edges@[2]).to));
            assert(!((g.edges@[0]).from == (g.edges@[3]).from && (g.edges@[0]).to
                == (g.edges@[3]).to));
            assert(!((g.edges@[1]).from == (g.edges@[2]).from && (g.edges@[1]).to
                == (g.edges@[2]).to));
            assert(!((g.edges@[1]).from == (g.edges@[3]).from && (g.edges@[1]).to
                == (g.edges@[3]).to));
            assert(!((g.edges@[2]).from == (g.edges@[3]).from && (g.edges@[2]).to
                == (g.edges@[3]).to));
        }
    }
}

// ----- the fleet-wide builder -----

pub open spec fn views_of(ss: Seq<String>) -> Seq<Seq<char>> {
    ss.map_values(|s: String| s@)
}

pub open spec fn fleet_distinct(fleet: Seq<Seq<char>>) -> bool {
    forall|i: int, j: int| 0 <= i < j < fleet.len() ==> fleet[i] != fleet[j]
}

/// The name belongs to the fleet listing's first `bound` members, or is a
/// dependency declared by one of them.
pub open spec fn node_origin(
    cat: Catalog,
    fleet: Seq<Seq<char>>,
    bound: int,
    name: Seq<char>,
) -> bool {
    (exists|t: int| 0 <= t < bound && fleet[t] == name) || (exists|t: int, kk: int|
        0 <= t < bound && cat.spec_resolve(fleet[t]) is Some && 0 <= kk < cat.spec_resolve(
            fleet[t],
        )->Some_0.dependencies@.len() && (#[trigger] cat.spec_resolve(
            fleet[t],
        )->Some_0.dependencies@[kk]).name@ == name)
}

proof fn lemma_origin_widen(
    cat: Catalog,
    fleet: Seq<Seq<char>>,
    b1: int,
    b2: int,
    name: Seq<char>,
)
    requires
        node_origin(cat, fleet, b1, name),
        b1 <= b2,
    ensures
        node_origin(cat, fleet, b2, name),
{
    if exists|t: int| 0 <= t < b1 && fleet[t] == name {
        let t = choose|t: int| 0 <= t < b1 && fleet[t] == name;
        assert(0 <= t < b2 && fleet[t] == name);
    } else {
        let (t, kk) = choose|t: int, kk: int|
            0 <= t < b1 && cat.spec_resolve(fleet[t]) is Some && 0 <= kk < cat.spec_resolve(
                fleet[t],
            )->Some_0.dependencies@.len() && (#[trigger] cat.spec_resolve(
                fleet[t],
            )->Some_0.dependencies@[kk]).name@ == name;
        assert(0 <= t < b2 && (cat.spec_resolve(fleet[t])->Some_0.dependencies@[kk]).name@
            == name);
    }
}

/// Every vertex named by `name` has all its declared dependencies
/// reflected in the graph.
pub open spec fn fleet_member_complete(cat: Catalog, g: CatGraph, name: Seq<char>) -> bool {
    forall|i: int|
        0 <= i < g.nodes@.len() && (#[trigger] g.nodes@[i]).name@ == name ==> node_complete(
            cat,
            g,
            i,
        )
}

/// The arc's source vertex is named by one of the fleet listing's first
/// `bound` members.
pub open spec fn edge_from_fleet(
    g: CatGraph,
    fleet: Seq<Seq<char>>,
    bound: int,
    e: GraphEdge,
) -> bool {
    exists|t: int| 0 <= t < bound && g.nodes@[(e.from) as int].name@ == fleet[t]
}

/// Everything `build_fleet_wide` guarantees of a graph it returns:
/// well-formed, a vertex per fleet member, every vertex resolvable and
/// either a fleet member or a declared dependency of one, every fleet
/// member's dependencies reflected with last-declaration-wins arcs, every
/// arc leaving a fleet member's vertex only (the pass never recurses into
/// dependencies, so off-fleet dependency vertices are leaves), and every
/// arc reporting a real declaration.
pub open spec fn is_fleet_graph(cat: Catalog, fleet: Seq<Seq<char>>, g: CatGraph) -> bool {
    &&& g.wf()
    &&& (forall|t: int| 0 <= t < fleet.len() ==> g.has_node(#[trigger] fleet[t]))
    &&& (forall|i: int|
        0 <= i < g.nodes@.len() ==> cat.spec_resolve((#[trigger] g.nodes@[i]).name@) is Some)
    &&& (forall|i: int|
        0 <= i < g.nodes@.len() ==> node_origin(
            cat,
            fleet,
            fleet.len() as int,
            (#[trigger] g.nodes@[i]).name@,
        ))
    &&& (forall|t: int| 0 <= t < fleet.len() ==> fleet_member_complete(cat, g, #[trigger] fleet[t]))
    &&& (forall|ei: int|
        0 <= ei < g.edges@.len() ==> edge_from_fleet(
            g,
            fleet,
            fleet.len() as int,
            #[trigger] g.edges@[ei],
        ))
    &&& (forall|ei: int| 0 <= ei < g.edges@.len() ==> edge_sound(cat, g, #[trigger] g.edges@[ei]))
}

/// The vertex names of a graph, in insertion order.
pub open spec fn node_names(g: CatGraph) -> Seq<Seq<char>> {
    g.nodes@.map_values(|n: ManifestNode| n.name@)
}

/// Vertex names after scanning a dependency list: targets already present
/// are reused, new ones are appended in declaration order.
pub open spec fn names_after_deps(acc: Seq<Seq<char>>, deps: Seq<Dependency>) -> Seq<Seq<char>>
    decreases deps.len(),
{
    if deps.len() == 0 {
        acc
    } else {
        let acc2 = if acc.contains(deps[0].name@) {
            acc
        } else {
            acc.push(deps[0].name@)
        };
        names_after_deps(acc2, deps.drop_first())
    }
}

/// Vertex insertion order of the fleet pass: for each listed member in
/// enumeration order, its own vertex when new, then its dependencies'
/// vertices when new, in declaration order.
pub open spec fn fleet_insertion_order(
    cat: Catalog,
    fleet: Seq<Seq<char>>,
    acc: Seq<Seq<char>>,
) -> Seq<Seq<char>>
    decreases fleet.len(),
{
    if fleet.len() == 0 {
        acc
    } else {
        match cat.spec_resolve(fleet[0]) {
            Some(m) => {
                let acc1 = if acc.contains(fleet[0]) {
                    acc
                } else {
                    acc.push(fleet[0])
                };
                fleet_insertion_order(
                    cat,
                    fleet.drop_first(),
                    names_after_deps(acc1, m.dependencies@),
                )
            },
            None => acc,
        }
    }
}

proof fn lemma_has_node_names(g: CatGraph, x: Seq<char>)
    ensures
        g.has_node(x) <==> node_names(g).contains(x),
{
    if g.has_node(x) {
        let i = choose|i: int| 0 <= i < g.nodes@.len() && g.nodes@[i].name@ == x;
        assert(node_names(g)[i] == x);
    }
    if node_names(g).contains(x) {
        let i = choose|i: int| 0 <= i < node_names(g).len() && node_names(g)[i] == x;
        assert(g.nodes@[i].name@ == x);
    }
}

/// Build the whole ecosystem's graph in one flat pass: for every fleet
/// member, add or reuse its vertex and attach one arc per declared
/// dependency, without recursing, since every member is itself visited by
/// the outer pass. A resolution failure aborts the build.
#[verifier::rlimit(100)]
pub fn build_fleet_wide(catalog: &Catalog, fleet: &Vec<String>) -> (r: Result<CatGraph, Error>)
    requires
        catalog.wf(),
        fleet_distinct(views_of(fleet@)),
    ensures
        (r matches Ok(g) ==> is_fleet_graph(*catalog, views_of(fleet@), g)),
        (r matches Ok(g) ==> node_names(g) == fleet_insertion_order(
            *catalog,
            views_of(fleet@),
            Seq::<Seq<char>>::empty(),
        )),
        (r matches Err(e) ==> ((e matches Error::NotFound(n) && catalog.spec_resolve(n@) is None
            && views_of(fleet@).contains(n@)) || (e matches Error::MalformedDependency(n)
            && catalog.spec_resolve(n@) is None))),
        ((forall|t: int|
            0 <= t < fleet@.len() ==> catalog.spec_resolve(#[trigger] views_of(fleet@)[t]) is Some)
            && catalog_closed(*catalog)) ==> r is Ok,
{
    let ghost fv = views_of(fleet@);
    let mut g = CatGraph { nodes: Vec::new(), edges: Vec::new() };
    let fcount = fleet.len();
    let mut fi: usize = 0;
    proof {
        assert(fv.skip(0) =~= fv);
        assert(node_names(g) =~= Seq::<Seq<char>>::empty());
    }
    while fi < fcount
        invariant
            catalog.wf(),
            fleet_distinct(fv),
            fv == views_of(fleet@),
            fi <= fcount == fleet@.len(),
            g.wf(),
            forall|i: int|
                0 <= i < g.nodes@.len() ==> catalog.spec_resolve(
                    (#[trigger] g.nodes@[i]).name@,
                ) is Some,
            forall|t: int| 0 <= t < fi ==> g.has_node(#[trigger] fv[t]),
            forall|i: int|
                0 <= i < g.nodes@.len() ==> node_origin(
                    *catalog,
                    fv,
                    fi as int,
                    (#[trigger] g.nodes@[i]).name@,
                ),
            forall|t: int| 0 <= t < fi ==> fleet_member_complete(*catalog, g, #[trigger] fv[t]),
            forall|ei: int|
                0 <= ei < g.edges@.len() ==> edge_sound(*catalog, g, #[trigger] g.edges@[ei]),
            forall|ei: int|
                0 <= ei < g.edges@.len() ==> edge_from_fleet(
                    g,
                    fv,
                    fi as int,
                    #[trigger] g.edges@[ei],
                ),
            fleet_insertion_order(*catalog, fv.skip(fi as int), node_names(g))
                == fleet_insertion_order(*catalog, fv, Seq::<Seq<char>>::empty()),
        decreases fcount - fi,
    {
        let svc = &fleet[fi];
        proof {
            assert(fv[fi as int] == svc@);
        }
        let mf = match catalog.resolve(svc.as_str()) {
            Some(m) => m,
            None => {
                proof {
                    assert(views_of(fleet@).contains(svc@)) by {
                        assert(fv[fi as int] == svc@);
                    }
                }
                return Err(Error::NotFound(svc.clone()));
            },
        };
        proof {
            lemma_resolve_member(catalog.manifests@, svc@);
        }
        let ghost gpre = g;
        let idx: usize = match nodeidx_from_name(svc.as_str(), &g) {
            Some(i) => i,
            None => {
                g.nodes.push(ManifestNode::new(mf));
                proof {
                    assert(g.nodes@.drop_last() =~= gpre.nodes@);
                    assert forall|i1: int, i2: int|
                        0 <= i1 < i2 < g.nodes@.len() implies g.nodes@[i1].name@
                        != g.nodes@[i2].name@ by {
                        if i2 == g.nodes@.len() - 1 {
                            assert(!gpre.has_node(svc@));
                            assert(gpre.nodes@[i1].name@ != svc@);
                        }
                    }
                    assert(g.wf());
                }
                g.nodes.len() - 1
            },
        };
        proof {
            assert(g.edges@ == gpre.edges@);
            assert(forall|i: int| 0 <= i < gpre.nodes@.len() ==> g.nodes@[i] == gpre.nodes@[i]);
            assert((idx as int) < g.nodes@.len());
            assert(g.nodes@[idx as int].name@ == svc@);
            assert forall|ei: int| 0 <= ei < g.edges@.len() implies ((#[trigger] g.edges@[ei]).from
                as int) != idx as int by {
                assert(edge_from_fleet(gpre, fv, fi as int, gpre.edges@[ei]));
                let t = choose|t: int|
                    0 <= t < fi && gpre.nodes@[((gpre.edges@[ei]).from) as int].name@ == fv[t];
                assert(g.nodes@[(g.edges@[ei].from) as int].name@ == fv[t]);
                assert(fv[t] != fv[fi as int]);
            }
            assert forall|i: int| 0 <= i < g.nodes@.len() implies node_origin(
                *catalog,
                fv,
                fi as int + 1,
                (g.nodes@[i]).name@,
            ) by {
                if i == idx as int {
                    assert(fv[fi as int] == g.nodes@[idx as int].name@);
                } else {
                    assert(g.nodes@[i] == gpre.nodes@[i]);
                    lemma_origin_widen(*catalog, fv, fi as int, fi as int + 1, g.nodes@[i].name@);
                }
            }
        }
        let ghost deps = mf.dependencies@;
        let dcount = mf.dependencies.len();
        let ghost acc1 = node_names(g);
        proof {
            assert(deps.take(0) =~= Seq::<Dependency>::empty());
            assert(deps.skip(0) =~= deps);
            lemma_has_node_names(gpre, svc@);
            if gpre.has_node(svc@) {
                assert(acc1 == node_names(gpre));
            } else {
                assert(acc1 =~= node_names(gpre).push(svc@));
            }
            assert(acc1 == (if node_names(gpre).contains(fv[fi as int]) {
                node_names(gpre)
            } else {
                node_names(gpre).push(fv[fi as int])
            }));
        }
        let mut k: usize = 0;
        while k < dcount
            invariant
                catalog.wf(),
                fleet_distinct(fv),
                fv == views_of(fleet@),
                (fi as int) < fleet@.len(),
                g.wf(),
                (idx as int) < g.nodes@.len(),
                g.nodes@[idx as int].name@ == svc@,
                svc@ == fv[fi as int],
                catalog.spec_resolve(svc@) == Some(*mf),
                deps == mf.dependencies@,
                k <= dcount == deps.len(),
                forall|i: int|
                    0 <= i < g.nodes@.len() ==> catalog.spec_resolve(
                        (#[trigger] g.nodes@[i]).name@,
                    ) is Some,
                forall|t: int| 0 <= t < fi ==> g.has_node(#[trigger] fv[t]),
                forall|i: int|
                    0 <= i < g.nodes@.len() ==> node_origin(
                        *catalog,
                        fv,
                        fi as int + 1,
                        (#[trigger] g.nodes@[i]).name@,
                    ),
                forall|ei: int|
                    0 <= ei < g.edges@.len() && ((#[trigger] g.edges@[ei]).from as int) != idx
                        ==> edge_sound(*catalog, g, g.edges@[ei]),
                forall|ei: int|
                    0 <= ei < g.edges@.len() && ((#[trigger] g.edges@[ei]).from as int) == idx
                        ==> edge_sound_upto(g, g.edges@[ei], deps.take(k as int)),
                forall|i: int|
                    0 <= i < g.nodes@.len() && i != idx && (exists|t: int|
                        0 <= t < fi && (#[trigger] g.nodes@[i]).name@ == fv[t]) ==> node_complete(
                        *catalog,
                        g,
                        i,
                    ),
                forall|t: int|
                    0 <= t < k ==> dep_edge_ok_upto(
                        g,
                        idx as int,
                        (#[trigger] deps[t]).name@,
                        deps.take(k as int),
                    ),
                forall|ei: int|
                    0 <= ei < g.edges@.len() ==> (((#[trigger] g.edges@[ei]).from as int) == idx
                        || edge_from_fleet(g, fv, fi as int, g.edges@[ei])),
                names_after_deps(acc1, deps) == names_after_deps(
                    node_names(g),
                    deps.skip(k as int),
                ),
            decreases dcount - k,
        {
            let dep = &mf.dependencies[k];
            proof {
                lemma_last_dep_take_step(deps, k as int, dep.name@);
                assert forall|t: Seq<char>| t != dep.name@ implies last_dep_index(
                    deps.take(k as int + 1),
                    t,
                ) == last_dep_index(deps.take(k as int), t) by {
                    lemma_last_dep_take_step(deps, k as int, t);
                }
            }
            let de = DepEdge::new(dep);
            let ghost dev = de;
            let ghost g0 = g;
            let depidx: usize;
            match nodeidx_from_name(dep.name.as_str(), &g) {
                Some(j) => {
                    proof {
                        assert(g.has_node(dep.name@)) by {
                            assert(g.nodes@[j as int].name@ == dep.name@);
                        }
                    }
                    depidx = j;
                },
                None => {
                    let depmf = match catalog.resolve(dep.name.as_str()) {
                        Some(m) => m,
                        None => {
                            proof {
                                if catalog_closed(*catalog) {
                                    lemma_resolve_member(catalog.manifests@, svc@);
                                    let ci = choose|ci: int|
                                        0 <= ci < catalog.manifests@.len()
                                            && catalog.manifests@[ci] == resolve_seq(
                                            catalog.manifests@,
                                            svc@,
                                        )->Some_0;
                                    assert(catalog.manifests@[ci].dependencies@[k as int]
                                        == deps[k as int]);
                                    assert(catalog.spec_resolve(
                                        (catalog.manifests@[ci].dependencies@[k as int]).name@,
                                    ) is Some);
                                }
                            }
                            return Err(Error::MalformedDependency(dep.name.clone()));
                        },
                    };
                    proof {
                        lemma_resolve_member(catalog.manifests@, dep.name@);
                    }
                    g.nodes.push(ManifestNode::new(depmf));
                    proof {
                        assert(g.nodes@.drop_last() =~= g0.nodes@);
                        assert forall|i1: int, i2: int|
                            0 <= i1 < i2 < g.nodes@.len() implies g.nodes@[i1].name@
                            != g.nodes@[i2].name@ by {
                            if i2 == g.nodes@.len() - 1 {
                                assert(!g0.has_node(dep.name@));
                                assert(g0.nodes@[i1].name@ != dep.name@);
                            }
                        }
                        assert(g.wf());
                        assert(node_origin(*catalog, fv, fi as int + 1, dep.name@)) by {
                            assert(catalog.spec_resolve(fv[fi as int]) is Some);
                            assert((catalog.spec_resolve(
                                fv[fi as int],
                            )->Some_0.dependencies@[k as int]).name@ == dep.name@);
                        }
                        assert forall|i: int| 0 <= i < g.nodes@.len() implies node_origin(
                            *catalog,
                            fv,
                            fi as int + 1,
                            (g.nodes@[i]).name@,
                        ) by {
                            if i < g0.nodes@.len() {
                                assert(g.nodes@[i] == g0.nodes@[i]);
                            } else {
                                assert(g.nodes@[i].name@ == dep.name@);
                            }
                        }
                        assert(node_names(g) =~= node_names(g0).push(dep.name@));
                    }
                    depidx = g.nodes.len() - 1;
                },
            }
            proof {
                assert(g.edges@ == g0.edges@);
                assert(forall|i: int| 0 <= i < g0.nodes@.len() ==> g.nodes@[i] == g0.nodes@[i]);
                assert((depidx as int) < g.nodes@.len());
                assert(g.nodes@[depidx as int].name@ == dep.name@);
                assert forall|ei: int|
                    0 <= ei < g.edges@.len() && ((#[trigger] g.edges@[ei]).from as int)
                        == idx implies edge_sound_upto(g, g.edges@[ei], deps.take(k as int)) by {
                    assert(edge_sound_upto(g0, g0.edges@[ei], deps.take(k as int)));
                    assert((g0.edges@[ei].to as int) < g0.nodes@.len());
                }
                lemma_has_node_names(g0, dep.name@);
                assert(deps.skip(k as int)[0] == deps[k as int]);
                assert(deps.skip(k as int).drop_first() =~= deps.skip(k as int + 1));
                assert(node_names(g) == (if node_names(g0).contains(dep.name@) {
                    node_names(g0)
                } else {
                    node_names(g0).push(dep.name@)
                }));
                assert(names_after_deps(acc1, deps) == names_after_deps(
                    node_names(g),
                    deps.skip(k as int + 1),
                ));
            }
            let ghost gmid = g;
            g.update_edge(idx, depidx, de);
            proof {
                assert(last_dep_index(deps.take(k as int + 1), dep.name@) == k as int);
                assert(deps.take(k as int + 1)[k as int] == deps[k as int]);
                assert forall|ei: int|
                    0 <= ei < g.edges@.len() && ((#[trigger] g.edges@[ei]).from as int)
                        == idx implies edge_sound_upto(g, g.edges@[ei], deps.take(k as int + 1)) by {
                    let e = g.edges@[ei];
                    assert((e.to as int) < g.nodes@.len());
                    if e.to == depidx {
                        assert(e.edge == dev);
                        assert(g.nodes@[depidx as int].name@ == dep.name@);
                    } else {
                        assert(ei < gmid.edges@.len() && e == gmid.edges@[ei]);
                        assert(edge_sound_upto(gmid, e, deps.take(k as int)));
                        assert(g.nodes@[e.to as int] == gmid.nodes@[e.to as int]);
                        if (e.to as int) < (depidx as int) {
                            assert(g.nodes@[e.to as int].name@ != g.nodes@[depidx as int].name@);
                        } else {
                            assert(g.nodes@[depidx as int].name@ != g.nodes@[e.to as int].name@);
                        }
                        assert(g.nodes@[e.to as int].name@ != dep.name@);
                        lemma_last_dep_index(deps.take(k as int), g.nodes@[e.to as int].name@);
                        assert(last_dep_index(
                            deps.take(k as int + 1),
                            g.nodes@[e.to as int].name@,
                        ) == last_dep_index(deps.take(k as int), g.nodes@[e.to as int].name@));
                        assert(deps.take(k as int + 1)[last_dep_index(
                            deps.take(k as int + 1),
                            g.nodes@[e.to as int].name@,
                        )] == deps.take(k as int)[last_dep_index(
                            deps.take(k as int),
                            g.nodes@[e.to as int].name@,
                        )]);
                    }
                }
                assert forall|ei: int|
                    0 <= ei < g.edges@.len() && ((#[trigger] g.edges@[ei]).from as int)
                        != idx implies edge_sound(*catalog, g, g.edges@[ei]) by {
                    let e = g.edges@[ei];
                    assert(ei < gmid.edges@.len() && e == gmid.edges@[ei]);
                    assert(e == g0.edges@[ei]);
                    assert(edge_sound(*catalog, g0, e));
                    assert(g.nodes@[e.from as int] == g0.nodes@[e.from as int]);
                    assert(g.nodes@[e.to as int] == g0.nodes@[e.to as int]);
                    assert(node_deps(*catalog, g, e.from as int) == node_deps(
                        *catalog,
                        g0,
                        e.from as int,
                    ));
                }
                assert forall|i: int|
                    0 <= i < g.nodes@.len() && i != idx as int && (exists|t: int|
                        0 <= t < fi && (#[trigger] g.nodes@[i]).name@
                            == fv[t]) implies node_complete(*catalog, g, i) by {
                    assert((i as int) < g0.nodes@.len()) by {
                        if i >= g0.nodes@.len() {
                            let t = choose|t: int| 0 <= t < fi && g.nodes@[i].name@ == fv[t];
                            assert(g.has_node(fv[t])) by {
                                assert(g0.has_node(fv[t]));
                                let ii = choose|ii: int|
                                    0 <= ii < g0.nodes@.len() && g0.nodes@[ii].name@ == fv[t];
                                assert(g.nodes@[ii].name@ == fv[t]);
                            }
                            let ii = choose|ii: int|
                                0 <= ii < g0.nodes@.len() && g0.nodes@[ii].name@ == fv[t];
                            assert(g.nodes@[ii].name@ == g.nodes@[i].name@);
                            assert(ii < i);
                        }
                    }
                    assert(node_complete(*catalog, g0, i));
                    assert(node_deps(*catalog, g, i) == node_deps(*catalog, g0, i));
                    let ideps = node_deps(*catalog, g0, i);
                    assert forall|kk: int| 0 <= kk < ideps.len() implies dep_edge_ok(
                        *catalog,
                        g,
                        i,
                        (#[trigger] ideps[kk]).name@,
                    ) by {
                        let target = ideps[kk].name@;
                        assert(dep_edge_ok(*catalog, g0, i, target));
                        let ei = choose|ei: int|
                            0 <= ei < g0.edges@.len() && (((#[trigger] g0.edges@[ei]).from) as int)
                                == i && ((g0.edges@[ei]).to as int) < g0.nodes@.len()
                                && g0.nodes@[(g0.edges@[ei]).to as int].name@ == target
                                && last_dep_index(ideps, target) >= 0 && edge_matches(
                                (g0.edges@[ei]).edge,
                                ideps[last_dep_index(ideps, target)],
                            );
                        assert(gmid.edges@[ei] == g0.edges@[ei]);
                        assert(g.edges@[ei] == gmid.edges@[ei]);
                        assert(g.nodes@[(g.edges@[ei]).to as int] == g0.nodes@[(g0.edges@[ei]).to
                            as int]);
                    }
                }
                assert forall|t: int| 0 <= t < k as int + 1 implies dep_edge_ok_upto(
                    g,
                    idx as int,
                    (#[trigger] deps[t]).name@,
                    deps.take(k as int + 1),
                ) by {
                    let target = deps[t].name@;
                    if target == dep.name@ {
                        let ei = choose|ei: int|
                            0 <= ei < g.edges@.len() && ((#[trigger] g.edges@[ei]).from) == idx
                                && (g.edges@[ei]).to == depidx && (g.edges@[ei]).edge == dev;
                        assert(((g.edges@[ei]).from as int) == idx as int);
                        assert(g.nodes@[depidx as int].name@ == target);
                        assert(edge_matches(dev, deps[k as int]));
                    } else {
                        assert(dep_edge_ok_upto(g0, idx as int, target, deps.take(k as int)));
                        let ei = choose|ei: int|
                            0 <= ei < g0.edges@.len() && (((#[trigger] g0.edges@[ei]).from) as int)
                                == idx as int && ((g0.edges@[ei]).to as int) < g0.nodes@.len()
                                && g0.nodes@[(g0.edges@[ei]).to as int].name@ == target
                                && last_dep_index(deps.take(k as int), target) >= 0
                                && edge_matches(
                                (g0.edges@[ei]).edge,
                                deps.take(k as int)[last_dep_index(deps.take(k as int), target)],
                            );
                        assert((g0.edges@[ei]).to != depidx) by {
                            if (g0.edges@[ei]).to == depidx {
                                assert(g0.nodes@[(g0.edges@[ei]).to as int] == g.nodes@[depidx
                                    as int]);
                            }
                        }
                        assert(gmid.edges@[ei] == g0.edges@[ei]);
                        assert(g.edges@[ei] == gmid.edges@[ei]);
                        assert(g.nodes@[(g.edges@[ei]).to as int] == g0.nodes@[(g0.edges@[ei]).to
                            as int]);
                        lemma_last_dep_index(deps.take(k as int), target);
                        assert(last_dep_index(deps.take(k as int + 1), target) == last_dep_index(
                            deps.take(k as int),
                            target,
                        ));
                        assert(deps.take(k as int + 1)[last_dep_index(
                            deps.take(k as int + 1),
                            target,
                        )] == deps.take(k as int)[last_dep_index(deps.take(k as int), target)]);
                    }
                }
                assert forall|ei: int|
                    0 <= ei < g.edges@.len() implies (((#[trigger] g.edges@[ei]).from as int)
                    == idx as int || edge_from_fleet(g, fv, fi as int, g.edges@[ei])) by {
                    let e = g.edges@[ei];
                    if (e.from as int) != idx as int {
                        assert(e == g0.edges@[ei]);
                        assert(edge_from_fleet(g0, fv, fi as int, g0.edges@[ei]));
                        let t = choose|t: int|
                            0 <= t < fi && g0.nodes@[((g0.edges@[ei]).from) as int].name@
                                == fv[t];
                        assert((e.from as int) < g0.nodes@.len());
                        assert(g.nodes@[(e.from) as int].name@ == fv[t]);
                    }
                }
            }
            k = k + 1;
        }
        proof {
            assert(deps.take(dcount as int) =~= deps);
            assert(node_complete(*catalog, g, idx as int)) by {
                assert(node_deps(*catalog, g, idx as int) == deps);
                assert(forall|t: int|
                    0 <= t < deps.len() ==> dep_edge_ok_upto(
                        g,
                        idx as int,
                        (#[trigger] deps[t]).name@,
                        deps,
                    ));
            }
            assert forall|t: int| 0 <= t < fi as int + 1 implies fleet_member_complete(
                *catalog,
                g,
                #[trigger] fv[t],
            ) by {
                assert forall|i: int|
                    0 <= i < g.nodes@.len() && (#[trigger] g.nodes@[i]).name@
                        == fv[t] implies node_complete(*catalog, g, i) by {
                    if i != idx as int {
                        assert(fv[t] != svc@) by {
                            if fv[t] == svc@ {
                                assert(g.nodes@[i].name@ == g.nodes@[idx as int].name@);
                            }
                        }
                        assert(t < fi);
                    }
                }
            }
            assert forall|ei: int| 0 <= ei < g.edges@.len() implies edge_from_fleet(
                g,
                fv,
                fi as int + 1,
                #[trigger] g.edges@[ei],
            ) by {
                let e = g.edges@[ei];
                if (e.from as int) == idx as int {
                    assert(g.nodes@[(e.from) as int].name@ == fv[fi as int]);
                } else {
                    assert(edge_from_fleet(g, fv, fi as int, g.edges@[ei]));
                    let t = choose|t: int|
                        0 <= t < fi && g.nodes@[(g.edges@[ei].from) as int].name@ == fv[t];
                    assert(g.nodes@[(e.from) as int].name@ == fv[t]);
                }
            }
            assert(g.has_node(fv[fi as int])) by {
                assert(g.nodes@[idx as int].name@ == svc@);
            }
            assert forall|ei: int| 0 <= ei < g.edges@.len() implies edge_sound(
                *catalog,
                g,
                #[trigger] g.edges@[ei],
            ) by {
                if ((g.edges@[ei]).from as int) == idx as int {
                    assert(edge_sound_upto(g, g.edges@[ei], deps));
                    assert(node_deps(*catalog, g, idx as int) == deps);
                }
            }
            assert(deps.skip(dcount as int) =~= Seq::<Dependency>::empty());
            assert(names_after_deps(acc1, deps) == node_names(g));
            assert(fv.skip(fi as int)[0] == fv[fi as int]);
            assert(fv.skip(fi as int).drop_first() =~= fv.skip(fi as int + 1));
            assert(fleet_insertion_order(*catalog, fv.skip(fi as int), node_names(gpre))
                == fleet_insertion_order(*catalog, fv.skip(fi as int + 1), node_names(g)));
        }
        fi = fi + 1;
    }
    proof {
        assert(views_of(fleet@) == fv);
        assert(views_of(fleet@).len() == fleet@.len());
        assert forall|ei: int| 0 <= ei < g.edges@.len() implies edge_from_fleet(
            g,
            views_of(fleet@),
            views_of(fleet@).len() as int,
            #[trigger] g.edges@[ei],
        ) by {
            assert(edge_from_fleet(g, fv, fi as int, g.edges@[ei]));
            assert(fi as int == views_of(fleet@).len() as int);
        }
        assert forall|i: int| 0 <= i < g.nodes@.len() implies node_origin(
            *catalog,
            views_of(fleet@),
            views_of(fleet@).len() as int,
            (#[trigger] g.nodes@[i]).name@,
        ) by {
            assert(node_origin(*catalog, fv, fi as int, g.nodes@[i].name@));
            assert(fi as int == views_of(fleet@).len() as int);
        }
        assert(fv.skip(fcount as int) =~= Seq::<Seq<char>>::empty());
        assert(node_names(g) == fleet_insertion_order(
            *catalog,
            fv,
            Seq::<Seq<char>>::empty(),
        ));
    }
    Ok(g)
}


proof fn lemma_fleet_node_transfer(
    cat: Catalog,
    f1: Seq<Seq<char>>,
    f2: Seq<Seq<char>>,
    g1: CatGraph,
    g2: CatGraph,
    x: Seq<char>,
)
    requires
        is_fleet_graph(cat, f1, g1),
        is_fleet_graph(cat, f2, g2),
        forall|y: Seq<char>| f1.contains(y) ==> f2.contains(y),
        g1.has_node(x),
    ensures
        g2.has_node(x),
{
    assert(node_origin(cat, f1, f1.len() as int, x)) by {
        let i = choose|i: int| 0 <= i < g1.nodes@.len() && g1.nodes@[i].name@ == x;
        assert(g1.nodes@[i].name@ == x);
    }
    if exists|t: int| 0 <= t < f1.len() && f1[t] == x {
        let t = choose|t: int| 0 <= t < f1.len() && f1[t] == x;
        assert(f1.contains(x));
        assert(f2.contains(x));
        let t2 = choose|t2: int| 0 <= t2 < f2.len() && f2[t2] == x;
        assert(g2.has_node(f2[t2]));
    } else {
        let (t, kk) = choose|t: int, kk: int|
            0 <= t < f1.len() && cat.spec_resolve(f1[t]) is Some && 0 <= kk < cat.spec_resolve(
                f1[t],
            )->Some_0.dependencies@.len() && (#[trigger] cat.spec_resolve(
                f1[t],
            )->Some_0.dependencies@[kk]).name@ == x;
        assert(f1.contains(f1[t]));
        assert(f2.contains(f1[t]));
        let t2 = choose|t2: int| 0 <= t2 < f2.len() && f2[t2] == f1[t];
        assert(g2.has_node(f2[t2]));
        assert(fleet_member_complete(cat, g2, f2[t2]));
        let j = choose|j: int| 0 <= j < g2.nodes@.len() && g2.nodes@[j].name@ == f2[t2];
        assert(node_complete(cat, g2, j));
        assert(node_deps(cat, g2, j) == cat.spec_resolve(f1[t])->Some_0.dependencies@);
        assert(dep_edge_ok(cat, g2, j, (node_deps(cat, g2, j)[kk]).name@));
        let ei = choose|ei: int|
            0 <= ei < g2.edges@.len() && (((#[trigger] g2.edges@[ei]).from) as int) == j && ((
            g2.edges@[ei]).to as int) < g2.nodes@.len() && g2.nodes@[(g2.edges@[ei]).to as int].name@
                == x && last_dep_index(node_deps(cat, g2, j), x) >= 0 && edge_matches(
                (g2.edges@[ei]).edge,
                node_deps(cat, g2, j)[last_dep_index(node_deps(cat, g2, j), x)],
            );
        assert(g2.nodes@[(g2.edges@[ei]).to as int].name@ == x);
    }
}

/// The fleet graph's vertex content does not depend on the listing's
/// enumeration order: two listings holding the same names yield graphs
/// with vertices for exactly the same services.
pub proof fn lemma_fleet_vertices_order_independent(
    cat: Catalog,
    f1: Seq<Seq<char>>,
    f2: Seq<Seq<char>>,
    g1: CatGraph,
    g2: CatGraph,
)
    requires
        is_fleet_graph(cat, f1, g1),
        is_fleet_graph(cat, f2, g2),
        forall|x: Seq<char>| f1.contains(x) <==> f2.contains(x),
    ensures
        forall|x: Seq<char>| g1.has_node(x) <==> g2.has_node(x),
{
    assert forall|x: Seq<char>| g1.has_node(x) <==> g2.has_node(x) by {
        if g1.has_node(x) {
            lemma_fleet_node_transfer(cat, f1, f2, g1, g2, x);
        }
        if g2.has_node(x) {
            lemma_fleet_node_transfer(cat, f2, f1, g2, g1, x);
        }
    }
}

// ----- the reverse dependency resolver -----

/// The manifest declares a dependency on `target`.
pub open spec fn manifest_depends_on(m: Manifest, target: Seq<char>) -> bool {
    exists|k: int| 0 <= k < m.dependencies@.len() && (#[trigger] m.dependencies@[k]).name@ == target
}

/// The fleet members whose manifests declare a dependency on `target`, in
/// fleet enumeration order.
pub open spec fn consumer_names(cat: Catalog, fleet: Seq<Seq<char>>, target: Seq<char>) -> Seq<
    Seq<char>,
>
    decreases fleet.len(),
{
    if fleet.len() == 0 {
        Seq::empty()
    } else {
        let rest = consumer_names(cat, fleet.drop_first(), target);
        match cat.spec_resolve(fleet[0]) {
            Some(m) => {
                if manifest_depends_on(m, target) {
                    seq![fleet[0]] + rest
                } else {
                    rest
                }
            },
            None => rest,
        }
    }
}

fn depends_on(m: &Manifest, target: &str) -> (r: bool)
    ensures
        r == manifest_depends_on(*m, target@),
{
    let n = m.dependencies.len();
    let mut i: usize = 0;
    while i < n
        invariant
            i <= n,
            n == m.dependencies@.len(),
            forall|k: int| 0 <= k < i ==> (#[trigger] m.dependencies@[k]).name@ != target@,
        decreases n - i,
    {
        if str_eq(m.dependencies[i].name.as_str(), target) {
            return true;
        }
        i = i + 1;
    }
    false
}

/// First-level reverse dependencies of `target`: every fleet member whose
/// manifest names it, in fleet enumeration order, never transitively.
pub fn first_level_consumers(catalog: &Catalog, fleet: &Vec<String>, target: &str) -> (r: Result<
    Vec<String>,
    Error,
>)
    ensures
        r is Ok <==> (forall|t: int|
            0 <= t < fleet@.len() ==> catalog.spec_resolve(
                #[trigger] views_of(fleet@)[t],
            ) is Some),
        (r matches Ok(out) ==> views_of(out@) == consumer_names(
            *catalog,
            views_of(fleet@),
            target@,
        )),
        (r matches Err(e) ==> e matches Error::NotFound(n) && catalog.spec_resolve(n@) is None
            && views_of(fleet@).contains(n@)),
{
    let ghost fv = views_of(fleet@);
    let mut out: Vec<String> = Vec::new();
    let n = fleet.len();
    let mut i: usize = 0;
    proof {
        assert(fv.skip(0) =~= fv);
        assert(views_of(out@) =~= Seq::<Seq<char>>::empty());
    }
    while i < n
        invariant
            i <= n,
            n == fleet@.len(),
            fv == views_of(fleet@),
            forall|t: int| 0 <= t < i ==> catalog.spec_resolve(#[trigger] fv[t]) is Some,
            consumer_names(*catalog, fv, target@) == views_of(out@) + consumer_names(
                *catalog,
                fv.skip(i as int),
                target@,
            ),
        decreases n - i,
    {
        let svc = &fleet[i];
        proof {
            assert(fv[i as int] == svc@);
            assert(fv.skip(i as int)[0] == fv[i as int]);
            assert(fv.skip(i as int).drop_first() =~= fv.skip(i as int + 1));
        }
        let mf = match catalog.resolve(svc.as_str()) {
            Some(m) => m,
            None => {
                proof {
                    assert(views_of(fleet@).contains(svc@)) by {
                        assert(fv[i as int] == svc@);
                    }
                }
                return Err(Error::NotFound(svc.clone()));
            },
        };
        if depends_on(mf, target) {
            let ghost outpre = out@;
            out.push(svc.clone());
            proof {
                assert(views_of(out@) =~= views_of(outpre).push(svc@));
                assert(views_of(outpre).push(svc@) + consumer_names(
                    *catalog,
                    fv.skip(i as int + 1),
                    target@,
                ) =~= views_of(outpre) + (seq![fv[i as int]] + consumer_names(
                    *catalog,
                    fv.skip(i as int + 1),
                    target@,
                )));
            }
        }
        i = i + 1;
    }
    proof {
        assert(fv.skip(n as int) =~= Seq::<Seq<char>>::empty());
        assert(views_of(out@) + consumer_names(*catalog, fv.skip(n as int), target@) =~= views_of(
            out@,
        ));
    }
    Ok(out)
}

// ----- laws of the builders and the resolver -----

/// For a service with no dependencies, the entry-point build yields exactly
/// one vertex and no arcs.
pub proof fn lemma_entry_graph_no_deps(cat: Catalog, root: Seq<char>, g: CatGraph)
    requires
        is_entry_graph(cat, root, g),
        cat.spec_resolve(root) matches Some(m) && m.dependencies@.len() == 0,
    ensures
        g.nodes@.len() == 1,
        g.edges@.len() == 0,
{
    assert forall|ei: int| 0 <= ei < g.edges@.len() implies ((#[trigger] g.edges@[ei]).from as int)
        != 0 by {
        if (g.edges@[ei].from as int) == 0 {
            assert(edge_sound(cat, g, g.edges@[ei]));
            assert(node_deps(cat, g, 0).len() == 0);
            lemma_last_dep_index(node_deps(cat, g, 0), g.nodes@[g.edges@[ei].to as int].name@);
        }
    }
    assert(g.nodes@.len() == 1) by {
        if g.nodes@.len() > 1 {
            assert(has_parent(g, 1));
            let ei = choose|ei: int|
                0 <= ei < g.edges@.len() && (((#[trigger] g.edges@[ei]).to) as int) == 1 && ((
                g.edges@[ei]).from as int) < 1;
            assert((g.edges@[ei].from as int) == 0);
        }
    }
    assert(g.edges@.len() == 0) by {
        if g.edges@.len() > 0 {
            assert(edge_sound(cat, g, g.edges@[0]));
            assert((g.edges@[0].from as int) < 1);
        }
    }
}

/// When one service declares the same dependency name twice, the one arc
/// between the two vertices carries the attributes of the last declaration:
/// earlier declarations are overwritten, never accumulated.
pub proof fn lemma_duplicate_dependency_last_wins(
    cat: Catalog,
    root: Seq<char>,
    g: CatGraph,
    i: int,
    k1: int,
    k2: int,
)
    requires
        is_entry_graph(cat, root, g),
        0 <= i < g.nodes@.len(),
        0 <= k1 < k2 < node_deps(cat, g, i).len(),
        node_deps(cat, g, i)[k1].name@ == node_deps(cat, g, i)[k2].name@,
        forall|k: int|
            k2 < k < node_deps(cat, g, i).len() ==> (#[trigger] node_deps(cat, g, i)[k]).name@
                != node_deps(cat, g, i)[k2].name@,
    ensures
        exists|ei: int|
            0 <= ei < g.edges@.len() && ((#[trigger] g.edges@[ei]).from as int) == i && (
            g.edges@[ei].to as int) < g.nodes@.len()
                && g.nodes@[g.edges@[ei].to as int].name@ == node_deps(cat, g, i)[k2].name@
                && edge_matches(g.edges@[ei].edge, node_deps(cat, g, i)[k2]),
{
    let deps = node_deps(cat, g, i);
    let target = deps[k2].name@;
    assert(node_complete(cat, g, i));
    assert(dep_edge_ok(cat, g, i, target));
    lemma_last_dep_index(deps, target);
    assert(last_dep_index(deps, target) == k2) by {
        let r = last_dep_index(deps, target);
        assert(r >= 0);
        if r < k2 {
            assert(deps[k2].name@ != target);
        }
        if r > k2 {
            assert(deps[r].name@ != target);
        }
    }
}

/// No transitive leakage: a name the reverse resolver returns always
/// belongs to a service that itself declares a dependency on the target.
pub proof fn lemma_consumers_direct(
    cat: Catalog,
    fleet: Seq<Seq<char>>,
    target: Seq<char>,
    i: int,
)
    requires
        0 <= i < consumer_names(cat, fleet, target).len(),
    ensures
        cat.spec_resolve(consumer_names(cat, fleet, target)[i]) matches Some(m)
            && manifest_depends_on(m, target),
    decreases fleet.len(),
{
    if fleet.len() > 0 {
        let rest = consumer_names(cat, fleet.drop_first(), target);
        match cat.spec_resolve(fleet[0]) {
            Some(m) => {
                if manifest_depends_on(m, target) {
                    if i > 0 {
                        lemma_consumers_direct(cat, fleet.drop_first(), target, i - 1);
                        assert((seq![fleet[0]] + rest)[i] == rest[i - 1]);
                    }
                } else {
                    lemma_consumers_direct(cat, fleet.drop_first(), target, i);
                }
            },
            None => {
                lemma_consumers_direct(cat, fleet.drop_first(), target, i);
            },
        }
    }
}


/// A chain of resolvable services, each declaring a dependency on the next.
pub open spec fn path_ok(cat: Catalog, p: Seq<Seq<char>>) -> bool {
    p.len() >= 1 && (forall|k: int| 0 <= k < p.len() ==> cat.spec_resolve(#[trigger] p[k]) is Some)
        && (forall|k: int|
        0 <= k < p.len() - 1 ==> manifest_depends_on(
            cat.spec_resolve(#[trigger] p[k])->Some_0,
            p[k + 1],
        ))
}

/// `target` is reachable from `root` along declared dependencies.
pub open spec fn reachable(cat: Catalog, root: Seq<char>, target: Seq<char>) -> bool {
    exists|p: Seq<Seq<char>>| path_ok(cat, p) && p[0] == root && p.last() == target
}

/// Every dependency declared by a service reachable from `root` resolves.
pub open spec fn reachable_closed(cat: Catalog, root: Seq<char>) -> bool {
    forall|t: Seq<char>, k: int|
        reachable(cat, root, t) && 0 <= k < cat.spec_resolve(t)->Some_0.dependencies@.len()
            ==> cat.spec_resolve(
            (#[trigger] cat.spec_resolve(t)->Some_0.dependencies@[k]).name@,
        ) is Some
}

proof fn lemma_reach_step(cat: Catalog, root: Seq<char>, from: Seq<char>, to: Seq<char>)
    requires
        reachable(cat, root, from),
        cat.spec_resolve(from) is Some,
        manifest_depends_on(cat.spec_resolve(from)->Some_0, to),
        cat.spec_resolve(to) is Some,
    ensures
        reachable(cat, root, to),
{
    let p = choose|p: Seq<Seq<char>>| path_ok(cat, p) && p[0] == root && p.last() == from;
    let q = p.push(to);
    assert(path_ok(cat, q)) by {
        assert(forall|k: int| 0 <= k < p.len() ==> q[k] == p[k]);
        assert(q[q.len() - 1] == to);
        assert(q[p.len() - 1] == p.last());
    }
    assert(q[0] == root && q.last() == to);
}

/// A service without dependencies is its own whole closure: nothing else is
/// reachable from it, so its reachable closure is trivially closed and the
/// builder is owed success on it.
pub proof fn lemma_no_deps_reachable_closed(cat: Catalog, root: Seq<char>)
    requires
        cat.spec_resolve(root) matches Some(m) && m.dependencies@.len() == 0,
    ensures
        reachable_closed(cat, root),
        forall|t: Seq<char>| #[trigger] reachable(cat, root, t) ==> t == root,
{
    assert forall|t: Seq<char>| #[trigger] reachable(cat, root, t) implies t == root by {
        let p = choose|p: Seq<Seq<char>>| path_ok(cat, p) && p[0] == root && p.last() == t;
        if p.len() >= 2 {
            assert(manifest_depends_on(cat.spec_resolve(p[0])->Some_0, p[1]));
        } else {
            assert(p.last() == p[0]);
        }
    }
}

proof fn lemma_path_covered(cat: Catalog, root: Seq<char>, g: CatGraph, p: Seq<Seq<char>>, k: int)
    requires
        is_entry_graph(cat, root, g),
        path_ok(cat, p),
        p[0] == root,
        0 <= k < p.len(),
    ensures
        g.has_node(p[k]),
    decreases k,
{
    if k == 0 {
        assert(g.nodes@[0].name@ == root);
    } else {
        lemma_path_covered(cat, root, g, p, k - 1);
        let i = choose|i: int| 0 <= i < g.nodes@.len() && g.nodes@[i].name@ == p[k - 1];
        assert(node_complete(cat, g, i));
        let m = cat.spec_resolve(p[k - 1])->Some_0;
        assert(manifest_depends_on(m, p[k]));
        let kk = choose|kk: int|
            0 <= kk < m.dependencies@.len() && (#[trigger] m.dependencies@[kk]).name@ == p[k];
        assert(node_deps(cat, g, i) == m.dependencies@);
        assert(dep_edge_ok(cat, g, i, (node_deps(cat, g, i)[kk]).name@));
        let ei = choose|ei: int|
            0 <= ei < g.edges@.len() && (((#[trigger] g.edges@[ei]).from) as int) == i && ((
            g.edges@[ei]).to as int) < g.nodes@.len() && g.nodes@[(g.edges@[ei]).to as int].name@
                == p[k] && last_dep_index(node_deps(cat, g, i), p[k]) >= 0 && edge_matches(
                (g.edges@[ei]).edge,
                node_deps(cat, g, i)[last_dep_index(node_deps(cat, g, i), p[k])],
            );
        assert(g.nodes@[(g.edges@[ei]).to as int].name@ == p[k]);
    }
}

proof fn lemma_node_reachable(cat: Catalog, root: Seq<char>, g: CatGraph, j: int)
    requires
        is_entry_graph(cat, root, g),
        0 <= j < g.nodes@.len(),
    ensures
        reachable(cat, root, g.nodes@[j].name@),
    decreases j,
{
    if j == 0 {
        let p = seq![root];
        assert(path_ok(cat, p)) by {
            assert(p[0] == root);
            assert(cat.spec_resolve(g.nodes@[0].name@) is Some);
        }
        assert(p.last() == root);
    } else {
        assert(has_parent(g, j));
        let ei = choose|ei: int|
            0 <= ei < g.edges@.len() && (((#[trigger] g.edges@[ei]).to) as int) == j && ((
            g.edges@[ei]).from as int) < j;
        let f = (g.edges@[ei]).from as int;
        assert(edge_sound(cat, g, g.edges@[ei]));
        lemma_node_reachable(cat, root, g, f);
        let p = choose|p: Seq<Seq<char>>|
            path_ok(cat, p) && p[0] == root && p.last() == g.nodes@[f].name@;
        let fdeps = node_deps(cat, g, f);
        let r = last_dep_index(fdeps, g.nodes@[j].name@);
        lemma_last_dep_index(fdeps, g.nodes@[j].name@);
        assert(manifest_depends_on(cat.spec_resolve(g.nodes@[f].name@)->Some_0, g.nodes@[j].name@))
            by {
            assert(fdeps[r].name@ == g.nodes@[j].name@);
        }
        let q = p.push(g.nodes@[j].name@);
        assert(path_ok(cat, q)) by {
            assert(forall|k: int| 0 <= k < p.len() ==> q[k] == p[k]);
            assert(q[q.len() - 1] == g.nodes@[j].name@);
            assert(q[p.len() - 1] == p.last());
            assert(cat.spec_resolve(g.nodes@[j].name@) is Some);
        }
        assert(q[0] == root && q.last() == g.nodes@[j].name@);
    }
}

/// The entry-point graph is exactly the transitive closure: a service has a
/// vertex precisely when a chain of declared dependencies reaches it from
/// the entry point.
pub proof fn lemma_entry_graph_is_closure(
    cat: Catalog,
    root: Seq<char>,
    g: CatGraph,
    target: Seq<char>,
)
    requires
        is_entry_graph(cat, root, g),
    ensures
        g.has_node(target) <==> reachable(cat, root, target),
{
    if g.has_node(target) {
        let j = choose|j: int| 0 <= j < g.nodes@.len() && g.nodes@[j].name@ == target;
        lemma_node_reachable(cat, root, g, j);
    }
    if reachable(cat, root, target) {
        let p = choose|p: Seq<Seq<char>>| path_ok(cat, p) && p[0] == root && p.last() == target;
        lemma_path_covered(cat, root, g, p, p.len() - 1);
    }
}

} // verus!
