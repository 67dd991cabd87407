use vstd::prelude::*;
use vstd::seq_lib::*;
use crate::package::{PackageIdentityView, ResolvedPackageView};
use crate::graph::{
    edges_valid, entries_view, first_index_of, spec_add_deps, spec_add_entries, spec_add_entry,
    spec_find_or_add, spec_init, wf, GraphView,
};

verus! {

/// Which identities one resolver entry mentions: none where its dependency
/// list is unknown; else the package itself and each of its dependencies.
pub open spec fn entry_idents(e: ResolvedPackageView) -> Set<PackageIdentityView> {
    match e.deps {
        None => Set::<PackageIdentityView>::empty(),
        Some(ds) => ds.to_set().insert(e.id),
    }
}

/// All identities the resolver output mentions.
pub open spec fn entries_idents(entries: Seq<ResolvedPackageView>) -> Set<PackageIdentityView>
    decreases entries.len(),
{
    if entries.len() == 0 {
        Set::<PackageIdentityView>::empty()
    } else {
        entries_idents(entries.drop_last()).union(entry_idents(entries.last()))
    }
}

/// The edges an input calls for, as pairs of indices into the node list
/// `nodes`: for each listed dependency of `ds`, one pair, in list order,
/// duplicates preserved.
pub open spec fn spec_dep_edges(
    nodes: Seq<PackageIdentityView>,
    from: int,
    ds: Seq<PackageIdentityView>,
) -> Seq<(int, int)> {
    ds.map_values(|d: PackageIdentityView| (from, first_index_of(nodes, d)))
}

/// The edges one resolver entry calls for.
pub open spec fn spec_entry_edges(
    nodes: Seq<PackageIdentityView>,
    e: ResolvedPackageView,
) -> Seq<(int, int)> {
    match e.deps {
        None => Seq::<(int, int)>::empty(),
        Some(ds) => spec_dep_edges(nodes, first_index_of(nodes, e.id), ds),
    }
}

/// The edges the whole resolver output calls for, entry after entry.
pub open spec fn spec_entries_edges(
    nodes: Seq<PackageIdentityView>,
    entries: Seq<ResolvedPackageView>,
) -> Seq<(int, int)>
    decreases entries.len(),
{
    if entries.len() == 0 {
        Seq::<(int, int)>::empty()
    } else {
        spec_entries_edges(nodes, entries.drop_last()) + spec_entry_edges(nodes, entries.last())
    }
}

proof fn lemma_first_index_of_hit(nodes: Seq<PackageIdentityView>, p: PackageIdentityView, i: int)
    requires
        0 <= i < nodes.len(),
        nodes[i] == p,
        forall|j: int| 0 <= j < i ==> nodes[j] != p,
    ensures
        first_index_of(nodes, p) == i,
    decreases i,
{
    if i > 0 {
        lemma_first_index_of_hit(nodes.drop_first(), p, i - 1);
    }
}

proof fn lemma_first_index_of_in_range(nodes: Seq<PackageIdentityView>, p: PackageIdentityView)
    requires
        nodes.contains(p),
    ensures
        0 <= first_index_of(nodes, p) < nodes.len(),
        nodes[first_index_of(nodes, p)] == p,
    decreases nodes.len(),
{
    if nodes[0] != p {
        let i = choose|i: int| 0 <= i < nodes.len() && nodes[i] == p;
        assert(nodes.drop_first()[i - 1] == p);
        assert(nodes.drop_first().contains(p));
        lemma_first_index_of_in_range(nodes.drop_first(), p);
    }
}

proof fn lemma_first_index_of_prefix(
    a: Seq<PackageIdentityView>,
    b: Seq<PackageIdentityView>,
    p: PackageIdentityView,
)
    requires
        a.is_prefix_of(b),
        a.contains(p),
    ensures
        first_index_of(b, p) == first_index_of(a, p),
    decreases a.len(),
{
    assert(a[0] == b[0]);
    if a[0] != p {
        let i = choose|i: int| 0 <= i < a.len() && a[i] == p;
        assert(a.drop_first()[i - 1] == p);
        assert(a.drop_first().contains(p));
        assert(a.drop_first().is_prefix_of(b.drop_first())) by {
            assert(a.drop_first() =~= b.drop_first().subrange(0, a.drop_first().len() as int));
        }
        lemma_first_index_of_prefix(a.drop_first(), b.drop_first(), p);
    }
}

proof fn lemma_prefix_trans(
    a: Seq<PackageIdentityView>,
    b: Seq<PackageIdentityView>,
    c: Seq<PackageIdentityView>,
)
    requires
        a.is_prefix_of(b),
        b.is_prefix_of(c),
    ensures
        a.is_prefix_of(c),
{
    assert(a =~= c.subrange(0, a.len() as int));
}

proof fn lemma_find_or_add_frame(g: GraphView, p: PackageIdentityView)
    ensures
        g.nodes.is_prefix_of(spec_find_or_add(g, p).0.nodes),
        spec_find_or_add(g, p).0.edges == g.edges,
        spec_find_or_add(g, p).0.source_labels == g.source_labels,
        spec_find_or_add(g, p).0.nodes.contains(p),
        first_index_of(spec_find_or_add(g, p).0.nodes, p) == spec_find_or_add(g, p).1,
        0 <= spec_find_or_add(g, p).1 < spec_find_or_add(g, p).0.nodes.len(),
        spec_find_or_add(g, p).0.nodes.to_set() == g.nodes.to_set().insert(p),
        g.nodes.no_duplicates() ==> spec_find_or_add(g, p).0.nodes.no_duplicates(),
{
    let r = spec_find_or_add(g, p);
    if g.nodes.contains(p) {
        lemma_first_index_of_in_range(g.nodes, p);
        assert(g.nodes.is_prefix_of(g.nodes)) by {
            assert(g.nodes =~= g.nodes.subrange(0, g.nodes.len() as int));
        }
        assert(g.nodes.to_set().contains(p));
        assert(r.0.nodes.to_set() =~= g.nodes.to_set().insert(p));
    } else {
        assert(g.nodes.is_prefix_of(r.0.nodes)) by {
            assert(g.nodes =~= r.0.nodes.subrange(0, g.nodes.len() as int));
        }
        assert(r.0.nodes[g.nodes.len() as int] == p);
        assert(forall|j: int| 0 <= j < g.nodes.len() ==> r.0.nodes[j] != p);
        lemma_first_index_of_hit(r.0.nodes, p, g.nodes.len() as int);
        assert(r.0.nodes =~= g.nodes + seq![p]);
        Seq::<PackageIdentityView>::lemma_to_set_insert_commutes(g.nodes, p);
        if g.nodes.no_duplicates() {
            assert(r.0.nodes.no_duplicates()) by {
                assert(forall|i: int, j: int|
                    0 <= i < j < r.0.nodes.len() ==> r.0.nodes[i] != r.0.nodes[j]);
            }
        }
    }
}

proof fn lemma_add_deps_frame(g: GraphView, from: int, ds: Seq<PackageIdentityView>)
    ensures
        g.nodes.is_prefix_of(spec_add_deps(g, from, ds).nodes),
        spec_add_deps(g, from, ds).source_labels == g.source_labels,
        spec_add_deps(g, from, ds).nodes.to_set() == g.nodes.to_set().union(ds.to_set()),
        g.nodes.no_duplicates() ==> spec_add_deps(g, from, ds).nodes.no_duplicates(),
        wf(g) && 0 <= from < g.nodes.len() ==> wf(spec_add_deps(g, from, ds)),
    decreases ds.len(),
{
    let r = spec_add_deps(g, from, ds);
    if ds.len() == 0 {
        assert(g.nodes.is_prefix_of(r.nodes)) by {
            assert(g.nodes =~= r.nodes.subrange(0, g.nodes.len() as int));
        }
        assert(r.nodes.to_set() =~= g.nodes.to_set().union(ds.to_set())) by {
            assert(forall|x: PackageIdentityView| !ds.contains(x));
        }
    } else {
        lemma_add_deps_frame(g, from, ds.drop_last());
        let g1 = spec_add_deps(g, from, ds.drop_last());
        lemma_find_or_add_frame(g1, ds.last());
        let rf = spec_find_or_add(g1, ds.last());
        lemma_prefix_trans(g.nodes, g1.nodes, rf.0.nodes);
        assert(r.nodes.to_set() =~= g.nodes.to_set().union(ds.to_set())) by {
            assert(rf.0.nodes.to_set() == g1.nodes.to_set().insert(ds.last()));
            assert(ds.to_set().contains(ds.last()));
            assert(forall|x: PackageIdentityView|
                ds.drop_last().contains(x) ==> #[trigger] ds.contains(x)) by {
                assert(forall|j: int|
                    0 <= j < ds.drop_last().len() ==> ds.drop_last()[j] == ds[j]);
            }
            assert(forall|x: PackageIdentityView|
                #[trigger] ds.contains(x) ==> x == ds.last() || ds.drop_last().contains(x)) by {
                assert(forall|j: int|
                    0 <= j < ds.len() - 1 ==> ds[j] == ds.drop_last()[j]);
            }
        }
        if wf(g) && 0 <= from < g.nodes.len() {
            assert(edges_valid(r)) by {
                assert(forall|k: int|
                    0 <= k < g1.edges.len() ==> 0 <= (#[trigger] g1.edges[k]).0 < g1.nodes.len()
                        && 0 <= g1.edges[k].1 < g1.nodes.len());
                assert(r.edges == g1.edges.push((from, rf.1)));
                assert(g1.nodes.len() <= r.nodes.len());
                assert(forall|k: int|
                    0 <= k < r.edges.len() ==> 0 <= (#[trigger] r.edges[k]).0 < r.nodes.len() && 0
                        <= r.edges[k].1 < r.nodes.len());
            }
        }
    }
}

proof fn lemma_add_entry_frame(g: GraphView, e: ResolvedPackageView)
    ensures
        g.nodes.is_prefix_of(spec_add_entry(g, e).nodes),
        spec_add_entry(g, e).source_labels == g.source_labels,
        spec_add_entry(g, e).nodes.to_set() == g.nodes.to_set().union(entry_idents(e)),
        g.nodes.no_duplicates() ==> spec_add_entry(g, e).nodes.no_duplicates(),
        wf(g) ==> wf(spec_add_entry(g, e)),
{
    let r = spec_add_entry(g, e);
    match e.deps {
        None => {
            assert(g.nodes.is_prefix_of(r.nodes)) by {
                assert(g.nodes =~= r.nodes.subrange(0, g.nodes.len() as int));
            }
            assert(r.nodes.to_set() =~= g.nodes.to_set().union(entry_idents(e)));
        },
        Some(ds) => {
            lemma_find_or_add_frame(g, e.id);
            let rf = spec_find_or_add(g, e.id);
            lemma_add_deps_frame(rf.0, rf.1, ds);
            lemma_prefix_trans(g.nodes, rf.0.nodes, r.nodes);
            assert(r.nodes.to_set() =~= g.nodes.to_set().union(entry_idents(e))) by {
                assert(rf.0.nodes.to_set() == g.nodes.to_set().insert(e.id));
                assert(r.nodes.to_set() == rf.0.nodes.to_set().union(ds.to_set()));
            }
            if wf(g) {
                assert(edges_valid(rf.0)) by {
                    assert(forall|k: int|
                        0 <= k < rf.0.edges.len() ==> 0 <= (#[trigger] rf.0.edges[k]).0
                            < rf.0.nodes.len() && 0 <= rf.0.edges[k].1 < rf.0.nodes.len());
                }
            }
        },
    }
}

proof fn lemma_add_entries_frame(g: GraphView, entries: Seq<ResolvedPackageView>)
    ensures
        g.nodes.is_prefix_of(spec_add_entries(g, entries).nodes),
        spec_add_entries(g, entries).source_labels == g.source_labels,
        spec_add_entries(g, entries).nodes.to_set() == g.nodes.to_set().union(
            entries_idents(entries),
        ),
        g.nodes.no_duplicates() ==> spec_add_entries(g, entries).nodes.no_duplicates(),
        wf(g) ==> wf(spec_add_entries(g, entries)),
    decreases entries.len(),
{
    let r = spec_add_entries(g, entries);
    if entries.len() == 0 {
        assert(g.nodes.is_prefix_of(r.nodes)) by {
            assert(g.nodes =~= r.nodes.subrange(0, g.nodes.len() as int));
        }
        assert(r.nodes.to_set() =~= g.nodes.to_set().union(entries_idents(entries)));
    } else {
        lemma_add_entries_frame(g, entries.drop_last());
        let g1 = spec_add_entries(g, entries.drop_last());
        lemma_add_entry_frame(g1, entries.last());
        lemma_prefix_trans(g.nodes, g1.nodes, r.nodes);
        assert(r.nodes.to_set() =~= g.nodes.to_set().union(entries_idents(entries)));
    }
}

/// The root's node index is always 0: whatever order the resolver output
/// comes in, processing it only ever appends nodes, so the root placed at
/// index 0 at construction time stays there.
pub proof fn lemma_root_index_zero(
    root: PackageIdentityView,
    source_labels: bool,
    entries: Seq<ResolvedPackageView>,
)
    ensures
        spec_add_entries(spec_init(root, source_labels), entries).nodes.len() >= 1,
        spec_add_entries(spec_init(root, source_labels), entries).nodes[0] == root,
{
    let g0 = spec_init(root, source_labels);
    lemma_add_entries_frame(g0, entries);
    let r = spec_add_entries(g0, entries);
    assert(g0.nodes =~= r.nodes.subrange(0, 1));
    assert(r.nodes.subrange(0, 1)[0] == r.nodes[0]);
}

/// A graph built from a root is well-formed: the root node exists, no two
/// nodes hold equal identities, and every edge points at existing nodes.
pub proof fn lemma_build_wf(
    root: PackageIdentityView,
    source_labels: bool,
    entries: Seq<ResolvedPackageView>,
)
    ensures
        wf(spec_add_entries(spec_init(root, source_labels), entries)),
{
    let g0 = spec_init(root, source_labels);
    assert(g0.nodes.no_duplicates());
    assert(edges_valid(g0));
    lemma_add_entries_frame(g0, entries);
}

/// The nodes are exactly the distinct identities the input mentions, one
/// node each: the built node list has no duplicates, its identities are the
/// root together with every package or dependency that the input lists with
/// known dependency data, and the node count equals the cardinality of that
/// set of identities.
pub proof fn lemma_node_count(
    root: PackageIdentityView,
    source_labels: bool,
    entries: Seq<ResolvedPackageView>,
)
    ensures
        ({
            let g = spec_add_entries(spec_init(root, source_labels), entries);
            &&& g.nodes.no_duplicates()
            &&& g.nodes.to_set() == set![root].union(entries_idents(entries))
            &&& g.nodes.len() == set![root].union(entries_idents(entries)).len()
        }),
{
    let g0 = spec_init(root, source_labels);
    lemma_add_entries_frame(g0, entries);
    let g = spec_add_entries(g0, entries);
    assert(g0.nodes.to_set() =~= set![root]) by {
        assert(g0.nodes[0] == root);
        assert(g0.nodes.contains(root));
    }
    assert(g.nodes.to_set() == set![root].union(entries_idents(entries)));
    g.nodes.unique_seq_to_set();
}

proof fn lemma_entry_edges_stable(
    a: Seq<PackageIdentityView>,
    b: Seq<PackageIdentityView>,
    e: ResolvedPackageView,
)
    requires
        a.is_prefix_of(b),
        entry_idents(e).subset_of(a.to_set()),
    ensures
        spec_entry_edges(b, e) == spec_entry_edges(a, e),
{
    match e.deps {
        None => {},
        Some(ds) => {
            assert(entry_idents(e).contains(e.id));
            assert(a.contains(e.id));
            lemma_first_index_of_prefix(a, b, e.id);
            assert forall|t: int| 0 <= t < ds.len() implies first_index_of(b, ds[t])
                == first_index_of(a, ds[t]) by {
                assert(ds.contains(ds[t]));
                assert(entry_idents(e).contains(ds[t]));
                assert(a.contains(ds[t]));
                lemma_first_index_of_prefix(a, b, ds[t]);
            }
            assert(spec_dep_edges(b, first_index_of(b, e.id), ds) =~= spec_dep_edges(
                a,
                first_index_of(a, e.id),
                ds,
            ));
        },
    }
}

proof fn lemma_entries_edges_stable(
    a: Seq<PackageIdentityView>,
    b: Seq<PackageIdentityView>,
    entries: Seq<ResolvedPackageView>,
)
    requires
        a.is_prefix_of(b),
        entries_idents(entries).subset_of(a.to_set()),
    ensures
        spec_entries_edges(b, entries) == spec_entries_edges(a, entries),
    decreases entries.len(),
{
    if entries.len() > 0 {
        lemma_entries_edges_stable(a, b, entries.drop_last());
        lemma_entry_edges_stable(a, b, entries.last());
    }
}

proof fn lemma_add_deps_edges(g: GraphView, from: int, ds: Seq<PackageIdentityView>)
    ensures
        ({
            let r = spec_add_deps(g, from, ds);
            r.edges == g.edges + spec_dep_edges(r.nodes, from, ds)
        }),
    decreases ds.len(),
{
    let r = spec_add_deps(g, from, ds);
    if ds.len() == 0 {
        assert(r.edges =~= g.edges + spec_dep_edges(r.nodes, from, ds));
    } else {
        lemma_add_deps_edges(g, from, ds.drop_last());
        let g1 = spec_add_deps(g, from, ds.drop_last());
        let rf = spec_find_or_add(g1, ds.last());
        lemma_find_or_add_frame(g1, ds.last());
        lemma_add_deps_frame(g, from, ds.drop_last());
        assert forall|t: int| 0 <= t < ds.len() - 1 implies first_index_of(r.nodes, ds[t])
            == first_index_of(g1.nodes, ds[t]) by {
            assert(ds.drop_last()[t] == ds[t]);
            assert(ds.drop_last().contains(ds[t]));
            assert(g1.nodes.to_set().contains(ds[t]));
            assert(g1.nodes.contains(ds[t]));
            lemma_first_index_of_prefix(g1.nodes, r.nodes, ds[t]);
        }
        assert(first_index_of(r.nodes, ds.last()) == rf.1) by {
            assert(r.nodes == rf.0.nodes);
        }
        assert(r.edges =~= g.edges + spec_dep_edges(r.nodes, from, ds)) by {
            assert(r.edges == g1.edges.push((from, rf.1)));
            assert(g1.edges == g.edges + spec_dep_edges(g1.nodes, from, ds.drop_last()));
            assert(spec_dep_edges(g1.nodes, from, ds.drop_last()) =~= spec_dep_edges(
                r.nodes,
                from,
                ds.drop_last(),
            ));
            assert(spec_dep_edges(r.nodes, from, ds) =~= spec_dep_edges(
                r.nodes,
                from,
                ds.drop_last(),
            ).push((from, rf.1)));
        }
    }
}

proof fn lemma_add_entry_edges(g: GraphView, e: ResolvedPackageView)
    ensures
        ({
            let r = spec_add_entry(g, e);
            r.edges == g.edges + spec_entry_edges(r.nodes, e)
        }),
{
    let r = spec_add_entry(g, e);
    match e.deps {
        None => {
            assert(r.edges =~= g.edges + spec_entry_edges(r.nodes, e));
        },
        Some(ds) => {
            let rf = spec_find_or_add(g, e.id);
            lemma_find_or_add_frame(g, e.id);
            lemma_add_deps_edges(rf.0, rf.1, ds);
            lemma_add_deps_frame(rf.0, rf.1, ds);
            assert(first_index_of(r.nodes, e.id) == rf.1) by {
                assert(rf.0.nodes.contains(e.id));
                lemma_first_index_of_prefix(rf.0.nodes, r.nodes, e.id);
            }
            assert(r.edges =~= g.edges + spec_entry_edges(r.nodes, e));
        },
    }
}

proof fn lemma_add_entries_edges(g: GraphView, entries: Seq<ResolvedPackageView>)
    ensures
        ({
            let r = spec_add_entries(g, entries);
            r.edges == g.edges + spec_entries_edges(r.nodes, entries)
        }),
    decreases entries.len(),
{
    let r = spec_add_entries(g, entries);
    if entries.len() == 0 {
        assert(r.edges =~= g.edges + spec_entries_edges(r.nodes, entries));
    } else {
        lemma_add_entries_edges(g, entries.drop_last());
        let g1 = spec_add_entries(g, entries.drop_last());
        lemma_add_entry_edges(g1, entries.last());
        lemma_add_entries_frame(g, entries.drop_last());
        lemma_add_entry_frame(g1, entries.last());
        assert(spec_entries_edges(g1.nodes, entries.drop_last()) == spec_entries_edges(
            r.nodes,
            entries.drop_last(),
        )) by {
            assert(entries_idents(entries.drop_last()).subset_of(g1.nodes.to_set()));
            lemma_entries_edges_stable(g1.nodes, r.nodes, entries.drop_last());
        }
        assert(r.edges =~= g.edges + spec_entries_edges(r.nodes, entries));
    }
}

/// An edge stands in the built graph exactly where the input lists the
/// target package as a direct dependency of the source package, exactly as
/// often as the input lists it, and in input order: the built edge list is,
/// pair for pair, the list of (source index, target index) pairs that the
/// entries call for, indices taken in the built node list. In particular a
/// dependency listed twice yields two edges — nothing is deduplicated — and
/// no edge appears that the input does not list.
pub proof fn lemma_edges_exact(
    root: PackageIdentityView,
    source_labels: bool,
    entries: Seq<ResolvedPackageView>,
)
    ensures
        ({
            let g = spec_add_entries(spec_init(root, source_labels), entries);
            g.edges == spec_entries_edges(g.nodes, entries)
        }),
{
    let g0 = spec_init(root, source_labels);
    lemma_add_entries_edges(g0, entries);
    let g = spec_add_entries(g0, entries);
    assert(g.edges =~= spec_entries_edges(g.nodes, entries));
}

/// The direct dependency relation the input describes: some entry with
/// known dependency data names `p` and lists `d` among its dependencies.
pub open spec fn lists_dep(
    entries: Seq<ResolvedPackageView>,
    p: PackageIdentityView,
    d: PackageIdentityView,
) -> bool {
    exists|k: int|
        0 <= k < entries.len() && (#[trigger] entries[k]).deps is Some && entries[k].id == p
            && entries[k].deps->Some_0.contains(d)
}

/// `p` lies within `n` dependency steps of `root`.
pub open spec fn reachable_within(
    entries: Seq<ResolvedPackageView>,
    root: PackageIdentityView,
    p: PackageIdentityView,
    n: nat,
) -> bool
    decreases n,
{
    p == root || (n > 0 && exists|q: PackageIdentityView|
        reachable_within(entries, root, q, (n - 1) as nat) && #[trigger] lists_dep(entries, q, p))
}

/// `p` is reachable from `root` via the dependency relation.
pub open spec fn reachable(
    entries: Seq<ResolvedPackageView>,
    root: PackageIdentityView,
    p: PackageIdentityView,
) -> bool {
    exists|n: nat| reachable_within(entries, root, p, n)
}

proof fn lemma_entry_idents_subset(entries: Seq<ResolvedPackageView>, k: int)
    requires
        0 <= k < entries.len(),
    ensures
        entry_idents(entries[k]).subset_of(entries_idents(entries)),
    decreases entries.len(),
{
    if k < entries.len() - 1 {
        lemma_entry_idents_subset(entries.drop_last(), k);
        assert(entries.drop_last()[k] == entries[k]);
    }
}

proof fn lemma_first_index_of_unique(nodes: Seq<PackageIdentityView>, u: int)
    requires
        nodes.no_duplicates(),
        0 <= u < nodes.len(),
    ensures
        first_index_of(nodes, nodes[u]) == u,
{
    assert(forall|j: int| 0 <= j < u ==> nodes[j] != nodes[u]);
    lemma_first_index_of_hit(nodes, nodes[u], u);
}

proof fn lemma_entries_edges_contains(
    nodes: Seq<PackageIdentityView>,
    entries: Seq<ResolvedPackageView>,
    u: int,
    v: int,
)
    ensures
        spec_entries_edges(nodes, entries).contains((u, v)) <==> exists|k: int|
            0 <= k < entries.len() && (#[trigger] entries[k]).deps is Some && first_index_of(
                nodes,
                entries[k].id,
            ) == u && exists|t: int|
                0 <= t < entries[k].deps->Some_0.len() && first_index_of(
                    nodes,
                    entries[k].deps->Some_0[t],
                ) == v,
    decreases entries.len(),
{
    broadcast use lemma_seq_concat_contains_all_elements;

    let s = spec_entries_edges(nodes, entries);
    if entries.len() == 0 {
        assert(!s.contains((u, v)));
    } else {
        lemma_entries_edges_contains(nodes, entries.drop_last(), u, v);
        let front = spec_entries_edges(nodes, entries.drop_last());
        let tail = spec_entry_edges(nodes, entries.last());
        let e = entries.last();
        assert(s == front + tail);
        let tail_matches = e.deps is Some && first_index_of(nodes, e.id) == u && exists|t: int|
            0 <= t < e.deps->Some_0.len() && first_index_of(nodes, e.deps->Some_0[t]) == v;
        assert(tail.contains((u, v)) <==> tail_matches) by {
            match e.deps {
                None => {
                    assert(!tail.contains((u, v)));
                },
                Some(ds) => {
                    if tail.contains((u, v)) {
                        let t = choose|t: int| 0 <= t < tail.len() && tail[t] == (u, v);
                        assert(tail[t] == (first_index_of(nodes, e.id), first_index_of(
                            nodes,
                            ds[t],
                        )));
                    }
                    if tail_matches {
                        let t = choose|t: int|
                            0 <= t < ds.len() && first_index_of(nodes, ds[t]) == v;
                        assert(tail[t] == (u, v));
                        assert(tail.contains((u, v)));
                    }
                },
            }
        }
        let front_matches = exists|k: int|
            0 <= k < entries.drop_last().len() && (#[trigger] entries.drop_last()[k]).deps is Some
                && first_index_of(nodes, entries.drop_last()[k].id) == u && exists|t: int|
                0 <= t < entries.drop_last()[k].deps->Some_0.len() && first_index_of(
                    nodes,
                    entries.drop_last()[k].deps->Some_0[t],
                ) == v;
        let whole_matches = exists|k: int|
            0 <= k < entries.len() && (#[trigger] entries[k]).deps is Some && first_index_of(
                nodes,
                entries[k].id,
            ) == u && exists|t: int|
                0 <= t < entries[k].deps->Some_0.len() && first_index_of(
                    nodes,
                    entries[k].deps->Some_0[t],
                ) == v;
        assert((front_matches || tail_matches) <==> whole_matches) by {
            if front_matches {
                let k = choose|k: int|
                    0 <= k < entries.drop_last().len() && (#[trigger] entries.drop_last()[
                        k
                    ]).deps is Some && first_index_of(nodes, entries.drop_last()[k].id) == u
                        && exists|t: int|
                        0 <= t < entries.drop_last()[k].deps->Some_0.len() && first_index_of(
                            nodes,
                            entries.drop_last()[k].deps->Some_0[t],
                        ) == v;
                assert(entries.drop_last()[k] == entries[k]);
                assert(whole_matches);
            }
            if tail_matches {
                assert(entries[entries.len() - 1] == e);
                assert(whole_matches);
            }
            if whole_matches {
                let k = choose|k: int|
                    0 <= k < entries.len() && (#[trigger] entries[k]).deps is Some
                        && first_index_of(nodes, entries[k].id) == u && exists|t: int|
                        0 <= t < entries[k].deps->Some_0.len() && first_index_of(
                            nodes,
                            entries[k].deps->Some_0[t],
                        ) == v;
                if k < entries.len() - 1 {
                    assert(entries.drop_last()[k] == entries[k]);
                    assert(front_matches);
                } else {
                    assert(entries[k] == e);
                }
            }
        }
    }
}

/// The edge relation read index by index: an edge (u, v)
/// appears in the built graph if and only if some input entry with known
/// dependency data names the package at node u and lists the package at
/// node v among its direct dependencies.
pub proof fn lemma_edge_iff(
    root: PackageIdentityView,
    source_labels: bool,
    entries: Seq<ResolvedPackageView>,
    u: int,
    v: int,
)
    ensures
        ({
            let g = spec_add_entries(spec_init(root, source_labels), entries);
            g.edges.contains((u, v)) <==> (0 <= u < g.nodes.len() && 0 <= v < g.nodes.len()
                && exists|k: int|
                0 <= k < entries.len() && (#[trigger] entries[k]).deps is Some && entries[k].id
                    == g.nodes[u] && entries[k].deps->Some_0.contains(g.nodes[v]))
        }),
{
    let g0 = spec_init(root, source_labels);
    let g = spec_add_entries(g0, entries);
    lemma_edges_exact(root, source_labels, entries);
    lemma_build_wf(root, source_labels, entries);
    lemma_add_entries_frame(g0, entries);
    lemma_entries_edges_contains(g.nodes, entries, u, v);
    let left = exists|k: int|
        0 <= k < entries.len() && (#[trigger] entries[k]).deps is Some && first_index_of(
            g.nodes,
            entries[k].id,
        ) == u && exists|t: int|
            0 <= t < entries[k].deps->Some_0.len() && first_index_of(
                g.nodes,
                entries[k].deps->Some_0[t],
            ) == v;
    let right = 0 <= u < g.nodes.len() && 0 <= v < g.nodes.len() && exists|k: int|
        0 <= k < entries.len() && (#[trigger] entries[k]).deps is Some && entries[k].id == g.nodes[
        u
    ] && entries[k].deps->Some_0.contains(g.nodes[v]);
    assert(left <==> right) by {
        if left {
            let k = choose|k: int|
                0 <= k < entries.len() && (#[trigger] entries[k]).deps is Some && first_index_of(
                    g.nodes,
                    entries[k].id,
                ) == u && exists|t: int|
                    0 <= t < entries[k].deps->Some_0.len() && first_index_of(
                        g.nodes,
                        entries[k].deps->Some_0[t],
                    ) == v;
            let ds = entries[k].deps->Some_0;
            let t = choose|t: int| 0 <= t < ds.len() && first_index_of(g.nodes, ds[t]) == v;
            lemma_entry_idents_subset(entries, k);
            assert(entry_idents(entries[k]).contains(entries[k].id));
            assert(g.nodes.to_set().contains(entries[k].id));
            assert(g.nodes.contains(entries[k].id));
            lemma_first_index_of_in_range(g.nodes, entries[k].id);
            assert(ds.contains(ds[t]));
            assert(entry_idents(entries[k]).contains(ds[t]));
            assert(g.nodes.to_set().contains(ds[t]));
            assert(g.nodes.contains(ds[t]));
            lemma_first_index_of_in_range(g.nodes, ds[t]);
            assert(g.nodes[v] == ds[t]);
            assert(right);
        }
        if right {
            let k = choose|k: int|
                0 <= k < entries.len() && (#[trigger] entries[k]).deps is Some && entries[k].id
                    == g.nodes[u] && entries[k].deps->Some_0.contains(g.nodes[v]);
            let ds = entries[k].deps->Some_0;
            lemma_first_index_of_unique(g.nodes, u);
            lemma_first_index_of_unique(g.nodes, v);
            let t = choose|t: int| 0 <= t < ds.len() && ds[t] == g.nodes[v];
            assert(first_index_of(g.nodes, ds[t]) == v);
            assert(left);
        }
    }
}

proof fn lemma_idents_member(entries: Seq<ResolvedPackageView>, p: PackageIdentityView)
    requires
        entries_idents(entries).contains(p),
    ensures
        exists|k: int| 0 <= k < entries.len() && entry_idents(#[trigger] entries[k]).contains(p),
    decreases entries.len(),
{
    if entries.len() > 0 {
        if entry_idents(entries.last()).contains(p) {
            assert(entry_idents(entries[entries.len() - 1]).contains(p));
        } else {
            lemma_idents_member(entries.drop_last(), p);
            let k = choose|k: int|
                0 <= k < entries.drop_last().len() && entry_idents(
                    #[trigger] entries.drop_last()[k],
                ).contains(p);
            assert(entries.drop_last()[k] == entries[k]);
            assert(entry_idents(entries[k]).contains(p));
        }
    }
}

proof fn lemma_mentioned_reachable(entries: Seq<ResolvedPackageView>, root: PackageIdentityView)
    requires
        forall|k: int|
            0 <= k < entries.len() && (#[trigger] entries[k]).deps is Some ==> reachable(
                entries,
                root,
                entries[k].id,
            ),
    ensures
        forall|p: PackageIdentityView|
            entries_idents(entries).contains(p) ==> #[trigger] reachable(entries, root, p),
{
    assert forall|p: PackageIdentityView| entries_idents(entries).contains(p) implies #[trigger]
    reachable(entries, root, p) by {
        lemma_idents_member(entries, p);
        let k = choose|k: int|
            0 <= k < entries.len() && entry_idents(#[trigger] entries[k]).contains(p);
        let e = entries[k];
        assert(e.deps is Some);
        let ds = e.deps->Some_0;
        assert(reachable(entries, root, e.id));
        if p == e.id {
        } else {
            assert(ds.to_set().contains(p));
            assert(ds.contains(p));
            assert(lists_dep(entries, e.id, p));
            let n = choose|n: nat| reachable_within(entries, root, e.id, n);
            assert(reachable_within(entries, root, p, n + 1));
        }
    }
}

proof fn lemma_reachable_mentioned(
    entries: Seq<ResolvedPackageView>,
    root: PackageIdentityView,
    p: PackageIdentityView,
    n: nat,
)
    requires
        reachable_within(entries, root, p, n),
    ensures
        p == root || entries_idents(entries).contains(p),
{
    if p != root {
        let q = choose|q: PackageIdentityView|
            reachable_within(entries, root, q, (n - 1) as nat) && #[trigger] lists_dep(
                entries,
                q,
                p,
            );
        let k = choose|k: int|
            0 <= k < entries.len() && (#[trigger] entries[k]).deps is Some && entries[k].id == q
                && entries[k].deps->Some_0.contains(p);
        lemma_entry_idents_subset(entries, k);
        assert(entry_idents(entries[k]).contains(p));
    }
}

/// For a resolved input — one where every listed package is itself reachable
/// from the root, as a resolver's output is — the nodes are exactly the
/// distinct identities reachable from the root via the dependency relation,
/// the root included, one node each: no duplicates, and the node count
/// equals the number of distinct reachable identities.
pub proof fn lemma_nodes_are_the_reachable_identities(
    root: PackageIdentityView,
    source_labels: bool,
    entries: Seq<ResolvedPackageView>,
)
    requires
        forall|k: int|
            0 <= k < entries.len() && (#[trigger] entries[k]).deps is Some ==> reachable(
                entries,
                root,
                entries[k].id,
            ),
    ensures
        ({
            let g = spec_add_entries(spec_init(root, source_labels), entries);
            &&& g.nodes.no_duplicates()
            &&& g.nodes.to_set() == Set::new(|p: PackageIdentityView| reachable(entries, root, p))
            &&& g.nodes.len() == Set::new(
                |p: PackageIdentityView| reachable(entries, root, p),
            ).len()
        }),
{
    lemma_node_count(root, source_labels, entries);
    lemma_mentioned_reachable(entries, root);
    let rs = Set::new(|p: PackageIdentityView| reachable(entries, root, p));
    assert(set![root].union(entries_idents(entries)) =~= rs) by {
        assert(reachable_within(entries, root, root, 0));
        assert(reachable(entries, root, root));
        assert forall|p: PackageIdentityView| rs.contains(p) implies set![root].union(
            entries_idents(entries),
        ).contains(p) by {
            let n = choose|n: nat| reachable_within(entries, root, p, n);
            lemma_reachable_mentioned(entries, root, p, n);
        }
    }
}

} // verus!
