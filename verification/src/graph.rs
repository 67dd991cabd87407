use vstd::prelude::*;
use vstd::seq_lib::*;
use crate::package::{PackageIdentity, PackageIdentityView, ResolvedPackage, ResolvedPackageView};
use crate::render::{
    append_dec, edge_lines, escape_chars, escape_label, graph_id_chars, label_chars,
    node_id_chars, node_lines, render_chars, sanitize_id,
};
use crate::sink::{FatalError, WriterCompat};

verus! {

/// The dependency graph: one node per distinct package identity, in
/// first-encounter order, directed edges as index pairs in the order the
/// input listed them, and the flag choosing what the rendered labels show.
pub struct Graph {
    nodes: Vec<PackageIdentity>,
    edges: Vec<(usize, usize)>,
    source_labels: bool,
}

/// The mathematical value of a `Graph`.
pub struct GraphView {
    pub nodes: Seq<PackageIdentityView>,
    pub edges: Seq<(int, int)>,
    pub source_labels: bool,
}

impl View for Graph {
    type V = GraphView;

    closed spec fn view(&self) -> GraphView {
        GraphView {
            nodes: self.nodes@.map_values(|p: PackageIdentity| p@),
            edges: self.edges@.map_values(|e: (usize, usize)| (e.0 as int, e.1 as int)),
            source_labels: self.source_labels,
        }
    }
}

/// The graph that `with_root` produces: one node holding the root, no edges.
pub open spec fn spec_init(root: PackageIdentityView, source_labels: bool) -> GraphView {
    GraphView { nodes: seq![root], edges: Seq::<(int, int)>::empty(), source_labels }
}

/// The index of the first node equal to `p`, or `nodes.len()` where none is.
pub open spec fn first_index_of(nodes: Seq<PackageIdentityView>, p: PackageIdentityView) -> int
    decreases nodes.len(),
{
    if nodes.len() == 0 {
        0
    } else if nodes[0] == p {
        0
    } else {
        1 + first_index_of(nodes.drop_first(), p)
    }
}

/// Find-or-insert on the node list: the unchanged graph and the index of the
/// first matching node where one exists, else the graph with `p` appended and
/// the new node's index.
pub open spec fn spec_find_or_add(g: GraphView, p: PackageIdentityView) -> (GraphView, int) {
    if g.nodes.contains(p) {
        (g, first_index_of(g.nodes, p))
    } else {
        (
            GraphView { nodes: g.nodes.push(p), edges: g.edges, source_labels: g.source_labels },
            g.nodes.len() as int,
        )
    }
}

/// Recording the dependencies `deps` of the package at node `from`: each
/// dependency is found-or-inserted in turn and one edge is appended for each
/// occurrence, duplicates included.
pub open spec fn spec_add_deps(
    g: GraphView,
    from: int,
    deps: Seq<PackageIdentityView>,
) -> GraphView
    decreases deps.len(),
{
    if deps.len() == 0 {
        g
    } else {
        let g1 = spec_add_deps(g, from, deps.drop_last());
        let r = spec_find_or_add(g1, deps.last());
        GraphView {
            nodes: r.0.nodes,
            edges: r.0.edges.push((from, r.1)),
            source_labels: r.0.source_labels,
        }
    }
}

/// Processing one resolver entry: a package without a recorded dependency
/// list is skipped; otherwise the package is found-or-inserted and its
/// dependencies are recorded.
pub open spec fn spec_add_entry(g: GraphView, e: ResolvedPackageView) -> GraphView {
    match e.deps {
        None => g,
        Some(ds) => {
            let r = spec_find_or_add(g, e.id);
            spec_add_deps(r.0, r.1, ds)
        },
    }
}

/// Processing the whole resolver output, one entry after the other.
pub open spec fn spec_add_entries(g: GraphView, entries: Seq<ResolvedPackageView>) -> GraphView
    decreases entries.len(),
{
    if entries.len() == 0 {
        g
    } else {
        spec_add_entry(spec_add_entries(g, entries.drop_last()), entries.last())
    }
}

/// The resolver output as mathematical values.
pub open spec fn entries_view(s: Seq<ResolvedPackage>) -> Seq<ResolvedPackageView> {
    s.map_values(|e: ResolvedPackage| e@)
}

/// Every edge's endpoints are valid node indices.
pub open spec fn edges_valid(g: GraphView) -> bool {
    forall|k: int|
        0 <= k < g.edges.len() ==> 0 <= (#[trigger] g.edges[k]).0 < g.nodes.len() && 0 <= g.edges[
            k
        ].1 < g.nodes.len()
}

/// A well-formed graph: the root node exists, no two nodes hold equal
/// identities, and every edge points at existing nodes.
pub open spec fn wf(g: GraphView) -> bool {
    &&& g.nodes.len() >= 1
    &&& g.nodes.no_duplicates()
    &&& edges_valid(g)
}

proof fn lemma_first_index_of_found(
    nodes: Seq<PackageIdentityView>,
    p: PackageIdentityView,
    i: int,
)
    requires
        0 <= i < nodes.len(),
        nodes[i] == p,
        forall|j: int| 0 <= j < i ==> nodes[j] != p,
    ensures
        nodes.contains(p),
        first_index_of(nodes, p) == i,
    decreases i,
{
    assert(nodes.contains(p)) by {
        assert(nodes[i] == p);
    }
    if i > 0 {
        lemma_first_index_of_found(nodes.drop_first(), p, i - 1);
    }
}

impl Graph {
    /// A graph holding exactly the root package at node index 0 and no edges.
    pub fn with_root(root: PackageIdentity, source_labels: bool) -> (g: Graph)
        ensures
            g@ == spec_init(root@, source_labels),
    {
        let ghost rv = root@;
        let g = Graph { nodes: vec![root], edges: Vec::new(), source_labels };
        proof {
            assert(g@.nodes =~= seq![rv]);
            assert(g@.edges =~= Seq::<(int, int)>::empty());
        }
        g
    }

    /// The index of the node holding `new`: the existing node where one holds
    /// an equal identity, else a freshly appended one.
    pub fn find_or_add(&mut self, new: PackageIdentity) -> (i: usize)
        ensures
            final(self)@ == spec_find_or_add(old(self)@, new@).0,
            i as int == spec_find_or_add(old(self)@, new@).1,
            i < final(self)@.nodes.len(),
            final(self)@.nodes[i as int] == new@,
    {
        let ghost g0 = self@;
        let n: usize = self.nodes.len();
        let mut k: usize = 0;
        while k < n
            invariant
                n == self.nodes@.len(),
                k <= n,
                forall|j: int| 0 <= j < k ==> self@.nodes[j] != new@,
            decreases n - k,
        {
            if self.nodes[k] == new {
                proof {
                    lemma_first_index_of_found(self@.nodes, new@, k as int);
                }
                return k;
            }
            k += 1;
        }
        proof {
            assert(!g0.nodes.contains(new@));
        }
        self.nodes.push(new);
        proof {
            assert(self@.nodes =~= g0.nodes.push(new@));
            assert(self@.edges =~= g0.edges);
        }
        n
    }

    /// Walks the resolver output once: for every package with a known
    /// dependency list, finds-or-inserts a node for it, then one for each of
    /// its dependencies, appending one edge per listed dependency.
    pub fn add_dependencies(&mut self, resolved: &Vec<ResolvedPackage>)
        ensures
            final(self)@ == spec_add_entries(old(self)@, entries_view(resolved@)),
    {
        let ghost g0 = self@;
        let ghost es = entries_view(resolved@);
        let n: usize = resolved.len();
        let mut k: usize = 0;
        while k < n
            invariant
                n == resolved@.len(),
                k <= n,
                es == entries_view(resolved@),
                self@ == spec_add_entries(g0, es.take(k as int)),
            decreases n - k,
        {
            let ghost gk = self@;
            proof {
                assert(es.take(k as int + 1).drop_last() =~= es.take(k as int));
                assert(es.take(k as int + 1).last() == es[k as int]);
            }
            match &resolved[k].deps {
                Some(deps) => {
                    let from = self.find_or_add(resolved[k].id.clone());
                    let ghost gmid = self@;
                    let ghost dsv = deps@.map_values(|p: PackageIdentity| p@);
                    proof {
                        assert(es[k as int].deps == Some(dsv));
                    }
                    let m: usize = deps.len();
                    let mut t: usize = 0;
                    while t < m
                        invariant
                            m == deps@.len(),
                            dsv == deps@.map_values(|p: PackageIdentity| p@),
                            t <= m,
                            self@ == spec_add_deps(gmid, from as int, dsv.take(t as int)),
                        decreases m - t,
                    {
                        let ghost gt = self@;
                        let idr = self.find_or_add(deps[t].clone());
                        self.edges.push((from, idr));
                        proof {
                            assert(dsv.take(t as int + 1).drop_last() =~= dsv.take(t as int));
                            assert(dsv.take(t as int + 1).last() == dsv[t as int]);
                            let r = spec_find_or_add(gt, dsv[t as int]);
                            assert(self@.nodes =~= r.0.nodes);
                            assert(self@.edges =~= r.0.edges.push((from as int, idr as int)));
                            assert(self@ == spec_add_deps(gmid, from as int, dsv.take(t as int + 1)));
                        }
                        t += 1;
                    }
                    proof {
                        assert(dsv.take(m as int) =~= dsv);
                        assert(self@ == spec_add_entry(gk, es[k as int]));
                    }
                },
                None => {
                    proof {
                        assert(es[k as int].deps is None);
                        assert(self@ == spec_add_entry(gk, es[k as int]));
                    }
                },
            }
            k += 1;
        }
        proof {
            assert(es.take(n as int) =~= es);
        }
    }

    /// The node indices, in order: `0 .. number of nodes`.
    pub fn nodes(&self) -> (r: Vec<usize>)
        ensures
            r@.len() == self@.nodes.len(),
            forall|k: int| 0 <= k < r@.len() ==> r@[k] == k,
    {
        let n: usize = self.nodes.len();
        let mut out: Vec<usize> = Vec::new();
        let mut i: usize = 0;
        while i < n
            invariant
                out@.len() == i,
                i <= n,
                forall|k: int| 0 <= k < i ==> out@[k] == k,
            decreases n - i,
        {
            out.push(i);
            i += 1;
        }
        out
    }

    /// The edges, in storage order.
    pub fn edges(&self) -> (r: &Vec<(usize, usize)>)
        ensures
            r@.len() == self@.edges.len(),
            forall|k: int|
                0 <= k < r@.len() ==> ((#[trigger] r@[k]).0 as int, r@[k].1 as int) == self@.edges[
                    k
                ],
    {
        &self.edges
    }

    /// The source node index of an edge.
    pub fn source(&self, e: &(usize, usize)) -> (r: usize)
        ensures
            r == e.0,
    {
        e.0
    }

    /// The target node index of an edge.
    pub fn target(&self, e: &(usize, usize)) -> (r: usize)
        ensures
            r == e.1,
    {
        e.1
    }

    /// Whether the graph may be rendered: the root node exists and every
    /// edge points at existing nodes. True of every graph built by
    /// `with_root` and `add_dependencies`.
    pub fn is_renderable(&self) -> (r: bool)
        ensures
            r == (self@.nodes.len() >= 1 && edges_valid(self@)),
    {
        let n: usize = self.nodes.len();
        if n == 0 {
            return false;
        }
        let m: usize = self.edges.len();
        let mut j: usize = 0;
        while j < m
            invariant
                n == self.nodes@.len(),
                m == self.edges@.len(),
                j <= m,
                forall|k: int|
                    0 <= k < j ==> 0 <= (#[trigger] self@.edges[k]).0 < n && 0 <= self@.edges[
                        k
                    ].1 < n,
            decreases m - j,
        {
            let e: (usize, usize) = self.edges[j];
            if e.0 >= n || e.1 >= n {
                proof {
                    assert(!(0 <= self@.edges[j as int].0 < n && 0 <= self@.edges[j as int].1 < n));
                }
                return false;
            }
            j += 1;
        }
        true
    }

    /// The graph identifier: the root's name sanitized; the fixed fallback
    /// where nothing valid is left of it.
    pub fn graph_id(&self) -> (r: String)
        requires
            self@.nodes.len() >= 1,
        ensures
            r@ == graph_id_chars(self@.nodes[0].name),
    {
        let root: &PackageIdentity = &self.nodes[0];
        let kept: String = sanitize_id(root.name.as_str());
        let klen: usize = kept.as_str().unicode_len();
        if klen == 0 {
            return String::from_str("dependencies");
        }
        let c0: char = kept.as_str().get_char(0);
        let u: u32 = c0 as u32;
        if 48 <= u && u <= 57 {
            String::from_str("dependencies")
        } else {
            kept
        }
    }

    /// The always-valid synthetic identifier of node `n`: the letter `N`
    /// followed by the index in decimal.
    pub fn node_id(&self, n: usize) -> (r: String)
        ensures
            r@ == node_id_chars(n as nat),
    {
        let mut out: String = String::from_str("N");
        append_dec(&mut out, n);
        proof {
            reveal_strlit("N");
            assert("N"@ =~= seq!['N']);
        }
        out
    }

    /// The rendered label of node `i`: the package's name, or its source
    /// location under source-labeling, escaped for a quoted string.
    pub fn node_label(&self, i: usize) -> (r: String)
        requires
            i < self@.nodes.len(),
        ensures
            r@ == escape_chars(label_chars(self@, i as int)),
    {
        let p: &PackageIdentity = &self.nodes[i];
        if !self.source_labels {
            escape_label(p.name.as_str())
        } else {
            escape_label(p.source.as_str())
        }
    }

    /// The whole document as text. For one and the same graph value the
    /// result is always the same text.
    pub fn render(&self) -> (r: String)
        requires
            self@.nodes.len() >= 1,
            edges_valid(self@),
        ensures
            r@ == render_chars(self@),
    {
        let mut out: String = String::from_str("digraph ");
        let id: String = self.graph_id();
        out.append(id.as_str());
        out.append(" {\n");
        let n: usize = self.nodes.len();
        let mut i: usize = 0;
        while i < n
            invariant
                n == self.nodes@.len(),
                i <= n,
                out@ == "digraph "@ + graph_id_chars(self@.nodes[0].name) + " {\n"@ + node_lines(
                    self@,
                    i as int,
                ),
            decreases n - i,
        {
            out.append("    ");
            let nid: String = self.node_id(i);
            out.append(nid.as_str());
            out.append(" [label=\"");
            let lbl: String = self.node_label(i);
            out.append(lbl.as_str());
            out.append("\"];\n");
            proof {
                assert(out@ =~= "digraph "@ + graph_id_chars(self@.nodes[0].name) + " {\n"@
                    + node_lines(self@, i as int + 1));
            }
            i += 1;
        }
        let m: usize = self.edges.len();
        let mut j: usize = 0;
        while j < m
            invariant
                n == self.nodes@.len(),
                m == self.edges@.len(),
                j <= m,
                out@ == "digraph "@ + graph_id_chars(self@.nodes[0].name) + " {\n"@ + node_lines(
                    self@,
                    n as int,
                ) + edge_lines(self@, j as int),
            decreases m - j,
        {
            let e: (usize, usize) = self.edges[j];
            out.append("    ");
            let sid: String = self.node_id(e.0);
            out.append(sid.as_str());
            out.append(" -> ");
            let tid: String = self.node_id(e.1);
            out.append(tid.as_str());
            out.append(";\n");
            proof {
                assert(out@ =~= "digraph "@ + graph_id_chars(self@.nodes[0].name) + " {\n"@
                    + node_lines(self@, n as int) + edge_lines(self@, j as int + 1));
            }
            j += 1;
        }
        out.append("}\n");
        proof {
            assert(out@ =~= render_chars(self@));
        }
        out
    }

    /// Renders the whole document into the sink in one sequential pass.
    /// Fails only where the sink write fails; the in-memory sink never does.
    pub fn render_to(&self, sink: &mut WriterCompat) -> (r: Result<(), FatalError>)
        requires
            self@.nodes.len() >= 1,
            edges_valid(self@),
        ensures
            r is Ok,
            final(sink)@ == old(sink)@ + render_chars(self@),
    {
        let text: String = self.render();
        sink.write_all(text.as_str())
    }
}

} // verus!
