//! The dependency graph of the crates: in- and out-degrees, the
//! ranking of crates, and the core subgraph of the top-ranked crates.

use vstd::prelude::*;
use crate::order::{SortKey, key_order, lemma_text_le_facts, text_le, text_lt, text_le_exec};
use crate::index::CrateData;
use crate::sort::{views, sorted_keys, strictly_sorted_keys, sort_keys, sorted_unique, find_sorted, lemma_views_push};

verus! {

/// A crate of the graph with its degrees.
#[derive(Debug)]
pub struct NodeStat {
    pub name: String,
    pub in_degree: usize,
    pub out_degree: usize,
}

/// The view of a `NodeStat`.
pub struct NodeView {
    pub name: Seq<char>,
    pub in_degree: nat,
    pub out_degree: nat,
}

impl View for NodeStat {
    type V = NodeView;

    open spec fn view(&self) -> NodeView {
        NodeView { name: self.name@, in_degree: self.in_degree as nat, out_degree: self.out_degree as nat }
    }
}

/// The ranking order of nodes: greater in-degree first, then by name (and,
/// for nodes of one name, by out-degree, which the graph makes equal).
pub open spec fn node_le(a: NodeView, b: NodeView) -> bool {
    ||| a.in_degree > b.in_degree
    ||| a.in_degree == b.in_degree && text_lt(a.name, b.name)
    ||| a.in_degree == b.in_degree && a.name == b.name && a.out_degree <= b.out_degree
}

/// The order of edges: by source name, then by target name.
pub open spec fn edge_le(a: (Seq<char>, Seq<char>), b: (Seq<char>, Seq<char>)) -> bool {
    ||| text_lt(a.0, b.0)
    ||| a.0 == b.0 && text_le(a.1, b.1)
}

impl SortKey for NodeStat {
    open spec fn key_le(a: NodeView, b: NodeView) -> bool {
        node_le(a, b)
    }

    proof fn lemma_key_le_total_ordering() {
        lemma_text_le_facts();
        let r = |a: NodeView, b: NodeView| Self::key_le(a, b);
        assert forall|a: NodeView| #[trigger] r(a, a) by {
            assert(node_le(a, a));
        }
        assert forall|a: NodeView, b: NodeView| #[trigger] r(a, b) && #[trigger] r(b, a) implies a == b by {
            assert(node_le(a, b) && node_le(b, a));
        }
        assert forall|a: NodeView, b: NodeView| #[trigger] r(a, b) || #[trigger] r(b, a) by {
            assert(node_le(a, b) || node_le(b, a));
        }
        assert forall|a: NodeView, b: NodeView, c: NodeView| #[trigger] r(a, b) && #[trigger] r(b, c)
            implies r(a, c) by {
            assert(node_le(a, b) && node_le(b, c));
            assert(node_le(a, c));
        }
    }

    fn key_le_exec(&self, other: &Self) -> (r: bool) {
        if self.in_degree != other.in_degree {
            return self.in_degree > other.in_degree;
        }
        let le = text_le_exec(self.name.as_str(), other.name.as_str());
        let ge = text_le_exec(other.name.as_str(), self.name.as_str());
        proof {
            lemma_text_le_facts();
        }
        if le && !ge {
            true
        } else if le && ge {
            self.out_degree <= other.out_degree
        } else {
            false
        }
    }
}

impl SortKey for (String, String) {
    open spec fn key_le(a: (Seq<char>, Seq<char>), b: (Seq<char>, Seq<char>)) -> bool {
        edge_le(a, b)
    }

    proof fn lemma_key_le_total_ordering() {
        lemma_text_le_facts();
        let r = |a: (Seq<char>, Seq<char>), b: (Seq<char>, Seq<char>)| Self::key_le(a, b);
        assert forall|a: (Seq<char>, Seq<char>)| #[trigger] r(a, a) by {
            assert(edge_le(a, a));
        }
        assert forall|a: (Seq<char>, Seq<char>), b: (Seq<char>, Seq<char>)|
            #[trigger] r(a, b) && #[trigger] r(b, a) implies a == b by {
            assert(edge_le(a, b) && edge_le(b, a));
        }
        assert forall|a: (Seq<char>, Seq<char>), b: (Seq<char>, Seq<char>)|
            #[trigger] r(a, b) || #[trigger] r(b, a) by {
            assert(edge_le(a, b) || edge_le(b, a));
        }
        assert forall|a: (Seq<char>, Seq<char>), b: (Seq<char>, Seq<char>), c: (Seq<char>, Seq<char>)|
            #[trigger] r(a, b) && #[trigger] r(b, c) implies r(a, c) by {
            assert(edge_le(a, b) && edge_le(b, c));
            assert(edge_le(a, c));
        }
    }

    fn key_le_exec(&self, other: &Self) -> (r: bool) {
        let le0 = text_le_exec(self.0.as_str(), other.0.as_str());
        let ge0 = text_le_exec(other.0.as_str(), self.0.as_str());
        proof {
            lemma_text_le_facts();
        }
        if le0 && !ge0 {
            true
        } else if le0 && ge0 {
            text_le_exec(self.1.as_str(), other.1.as_str())
        } else {
            false
        }
    }
}


/// How many entries of `deps` are `name`.
pub open spec fn dep_count(deps: Seq<String>, name: Seq<char>) -> nat
    decreases deps.len(),
{
    if deps.len() == 0 {
        0
    } else {
        dep_count(deps.drop_last(), name) + if deps.last()@ == name { 1nat } else { 0nat }
    }
}

/// The in-degree of `name`: how many dependency entries of all crates name it.
pub open spec fn in_degree(crates: Seq<CrateData>, name: Seq<char>) -> nat
    decreases crates.len(),
{
    if crates.len() == 0 {
        0
    } else {
        in_degree(crates.drop_last(), name) + dep_count(crates.last().deps@, name)
    }
}

/// The out-degree of `name`: the number of dependencies of the last crate
/// of that name (a later crate of the same name replaces an earlier one).
pub open spec fn out_degree(crates: Seq<CrateData>, name: Seq<char>) -> nat
    decreases crates.len(),
{
    if crates.len() == 0 {
        0
    } else if crates.last().name@ == name {
        crates.last().deps@.len()
    } else {
        out_degree(crates.drop_last(), name)
    }
}

/// The number of dependency entries of all crates: the edges of the graph.
pub open spec fn total_edges(crates: Seq<CrateData>) -> nat
    decreases crates.len(),
{
    if crates.len() == 0 {
        0
    } else {
        total_edges(crates.drop_last()) + crates.last().deps@.len()
    }
}

/// The names of the crates.
pub open spec fn crate_names(crates: Seq<CrateData>) -> Set<Seq<char>> {
    Set::new(|n: Seq<char>| exists|i: int| 0 <= i < crates.len() && #[trigger] crates[i].name@ == n)
}

pub proof fn lemma_dep_count_bound(deps: Seq<String>, name: Seq<char>)
    ensures
        dep_count(deps, name) <= deps.len(),
    decreases deps.len(),
{
    if deps.len() > 0 {
        lemma_dep_count_bound(deps.drop_last(), name);
    }
}

pub proof fn lemma_in_degree_bound(crates: Seq<CrateData>, name: Seq<char>)
    ensures
        in_degree(crates, name) <= total_edges(crates),
    decreases crates.len(),
{
    if crates.len() > 0 {
        lemma_in_degree_bound(crates.drop_last(), name);
        lemma_dep_count_bound(crates.last().deps@, name);
    }
}

pub proof fn lemma_total_edges_prefix(crates: Seq<CrateData>, i: int)
    requires
        0 <= i <= crates.len(),
    ensures
        total_edges(crates.take(i)) <= total_edges(crates),
    decreases crates.len() - i,
{
    if i < crates.len() {
        lemma_total_edges_prefix(crates, i + 1);
        assert(crates.take(i + 1).drop_last() =~= crates.take(i));
    } else {
        assert(crates.take(i) =~= crates);
    }
}

/// The distinct names of the crates, in ascending order.
fn distinct_crate_names(crates: &Vec<CrateData>) -> (names: Vec<String>)
    ensures
        strictly_sorted_keys::<String>(views(names@)),
        views(names@).to_set() == crate_names(crates@),
{
    let mut all: Vec<String> = Vec::new();
    let n = crates.len();
    for i in 0..n
        invariant
            n == crates@.len(),
            views(all@) == crates@.take(i as int).map_values(|c: CrateData| c.name@),
    {
        let ghost before = all@;
        all.push(crates[i].name.clone());
        proof {
            lemma_views_push(before, crates@[i as int].name);
            assert(views(all@) =~= crates@.take(i + 1).map_values(|c: CrateData| c.name@));
        }
    }
    let ghost listed = views(all@);
    proof {
        assert(crates@.take(n as int) =~= crates@);
    }
    let names = sorted_unique(all);
    proof {
        assert forall|e: Seq<char>| views(names@).to_set().contains(e) <==> crate_names(crates@).contains(e) by {
            assert(views(names@).to_set().contains(e) == listed.contains(e));
            if listed.contains(e) {
                let k = choose|k: int| 0 <= k < listed.len() && listed[k] == e;
                assert(crates@[k].name@ == e);
            }
            if crate_names(crates@).contains(e) {
                let k = choose|k: int| 0 <= k < crates@.len() && #[trigger] crates@[k].name@ == e;
                assert(listed[k] == e);
            }
        }
        assert(views(names@).to_set() =~= crate_names(crates@));
    }
    names
}

/// The in-degree of each of the given names.
fn in_degree_counts(crates: &Vec<CrateData>, names: &Vec<String>) -> (counts: Vec<usize>)
    requires
        strictly_sorted_keys::<String>(views(names@)),
        total_edges(crates@) <= usize::MAX,
    ensures
        counts@.len() == names@.len(),
        forall|j: int| 0 <= j < names@.len() ==> #[trigger] counts@[j] == in_degree(crates@, names@[j]@),
{
    let mut counts: Vec<usize> = Vec::new();
    for j in 0..names.len()
        invariant
            counts@.len() == j,
            forall|k: int| 0 <= k < j ==> #[trigger] counts@[k] == 0,
    {
        counts.push(0);
    }
    let n = crates.len();
    for i in 0..n
        invariant
            n == crates@.len(),
            total_edges(crates@) <= usize::MAX,
            strictly_sorted_keys::<String>(views(names@)),
            counts@.len() == names@.len(),
            forall|j: int|
                0 <= j < names@.len() ==> #[trigger] counts@[j] == in_degree(crates@.take(i as int), names@[j]@),
    {
        let deps = &crates[i].deps;
        let m = deps.len();
        proof {
            lemma_total_edges_prefix(crates@, i + 1);
            assert(crates@.take(i + 1).drop_last() =~= crates@.take(i as int));
            assert(deps@.take(0) =~= Seq::<String>::empty());
        }
        for k in 0..m
            invariant
                n == crates@.len(),
                i < n,
                deps == &crates@[i as int].deps,
                m == deps@.len(),
                total_edges(crates@.take(i as int)) + m <= usize::MAX,
                strictly_sorted_keys::<String>(views(names@)),
                counts@.len() == names@.len(),
                forall|j: int|
                    0 <= j < names@.len() ==> #[trigger] counts@[j] == in_degree(crates@.take(i as int), names@[j]@)
                        + dep_count(deps@.take(k as int), names@[j]@),
        {
            proof {
                assert(deps@.take(k + 1).drop_last() =~= deps@.take(k as int));
            }
            match find_sorted(names, &deps[k]) {
                Some(j) => {
                    proof {
                        lemma_in_degree_bound(crates@.take(i as int), names@[j as int]@);
                        lemma_dep_count_bound(deps@.take(k as int), names@[j as int]@);
                    }
                    let c = counts[j] + 1;
                    let ghost before = counts@;
                    counts.set(j, c);
                    proof {
                        assert forall|jj: int| 0 <= jj < names@.len() implies #[trigger] counts@[jj]
                            == in_degree(crates@.take(i as int), names@[jj]@) + dep_count(
                            deps@.take(k + 1),
                            names@[jj]@,
                        ) by {
                            assert(views(names@)[jj] == names@[jj]@);
                            assert(views(names@)[j as int] == names@[j as int]@);
                            if jj != j {
                                assert(names@[jj]@ != names@[j as int]@);
                            }
                        }
                    }
                },
                None => {
                    proof {
                        assert forall|j: int| 0 <= j < names@.len() implies names@[j]@ != deps@[k as int]@ by {
                            assert(views(names@)[j] == names@[j]@);
                        }
                    }
                },
            }
        }
        proof {
            assert(deps@.take(m as int) =~= deps@);
        }
    }
    proof {
        assert(crates@.take(n as int) =~= crates@);
    }
    counts
}


/// The out-degree of each of the given names, which include every crate's.
fn out_degree_counts(crates: &Vec<CrateData>, names: &Vec<String>) -> (counts: Vec<usize>)
    requires
        strictly_sorted_keys::<String>(views(names@)),
        views(names@).to_set() == crate_names(crates@),
    ensures
        counts@.len() == names@.len(),
        forall|j: int| 0 <= j < names@.len() ==> #[trigger] counts@[j] == out_degree(crates@, names@[j]@),
{
    let mut counts: Vec<usize> = Vec::new();
    for j in 0..names.len()
        invariant
            counts@.len() == j,
            forall|k: int| 0 <= k < j ==> #[trigger] counts@[k] == 0,
    {
        counts.push(0);
    }
    let n = crates.len();
    for i in 0..n
        invariant
            n == crates@.len(),
            strictly_sorted_keys::<String>(views(names@)),
            views(names@).to_set() == crate_names(crates@),
            counts@.len() == names@.len(),
            forall|j: int|
                0 <= j < names@.len() ==> #[trigger] counts@[j] == out_degree(crates@.take(i as int), names@[j]@),
    {
        proof {
            assert(crates@.take(i + 1).drop_last() =~= crates@.take(i as int));
            assert(crate_names(crates@).contains(crates@[i as int].name@));
        }
        match find_sorted(names, &crates[i].name) {
            Some(j) => {
                let ghost before = counts@;
                counts.set(j, crates[i].deps.len());
                proof {
                    assert forall|jj: int| 0 <= jj < names@.len() implies #[trigger] counts@[jj]
                        == out_degree(crates@.take(i + 1), names@[jj]@) by {
                        assert(views(names@)[jj] == names@[jj]@);
                        assert(views(names@)[j as int] == names@[j as int]@);
                        if jj != j {
                            assert(names@[jj]@ != names@[j as int]@);
                        }
                    }
                }
            },
            None => {
                proof {
                    assert(views(names@).to_set().contains(crates@[i as int].name@));
                    assert(false);
                }
            },
        }
    }
    proof {
        assert(crates@.take(n as int) =~= crates@);
    }
    counts
}

/// The node of each crate, with the degrees of its name.
pub open spec fn all_nodes(crates: Seq<CrateData>) -> Seq<NodeView> {
    crates.map_values(
        |c: CrateData|
            NodeView {
                name: c.name@,
                in_degree: in_degree(crates, c.name@),
                out_degree: out_degree(crates, c.name@),
            },
    )
}

/// The nodes in ranking order: greatest in-degree first, ties by name.
pub open spec fn ranked_nodes(crates: Seq<CrateData>) -> Seq<NodeView> {
    all_nodes(crates).sort_by(key_order::<NodeStat>())
}

/// How many ranked nodes the core takes.
pub open spec fn core_size(crates: Seq<CrateData>, top_n: nat) -> nat {
    if top_n < crates.len() {
        top_n
    } else {
        crates.len()
    }
}

/// The names of the core: those of the first `core_size` ranked nodes.
pub open spec fn core_names(crates: Seq<CrateData>, top_n: nat) -> Set<Seq<char>> {
    ranked_nodes(crates).take(core_size(crates, top_n) as int).map_values(|v: NodeView| v.name).to_set()
}

/// The nodes of the core: the ranked nodes whose name is a core name, in
/// ranking order.
pub open spec fn core_nodes(crates: Seq<CrateData>, top_n: nat) -> Seq<NodeView> {
    ranked_nodes(crates).filter(|v: NodeView| core_names(crates, top_n).contains(v.name))
}

/// The edges from `src` to the entries of `deps` that lie in `core`.
pub open spec fn edges_from(src: Seq<char>, deps: Seq<String>, core: Set<Seq<char>>) -> Seq<(Seq<char>, Seq<char>)>
    decreases deps.len(),
{
    if deps.len() == 0 {
        Seq::empty()
    } else {
        edges_from(src, deps.drop_last(), core) + if core.contains(deps.last()@) {
            seq![(src, deps.last()@)]
        } else {
            Seq::empty()
        }
    }
}

/// The edges between crates of `core`, crate by crate.
pub open spec fn core_edge_list(crates: Seq<CrateData>, core: Set<Seq<char>>) -> Seq<(Seq<char>, Seq<char>)>
    decreases crates.len(),
{
    if crates.len() == 0 {
        Seq::empty()
    } else {
        core_edge_list(crates.drop_last(), core) + if core.contains(crates.last().name@) {
            edges_from(crates.last().name@, crates.last().deps@, core)
        } else {
            Seq::empty()
        }
    }
}

/// The edges of the core subgraph, ordered by source and then target.
pub open spec fn core_edges(crates: Seq<CrateData>, top_n: nat) -> Seq<(Seq<char>, Seq<char>)> {
    core_edge_list(crates, core_names(crates, top_n)).sort_by(key_order::<(String, String)>())
}

/// The core subgraph of the dependency graph.
#[derive(Debug)]
pub struct CoreSubgraph {
    pub nodes: Vec<NodeStat>,
    pub edges: Vec<(String, String)>,
    pub total_edges: usize,
}

proof fn lemma_filter_step<A>(s: Seq<A>, i: int, p: spec_fn(A) -> bool)
    requires
        0 <= i < s.len(),
    ensures
        s.take(i + 1).filter(p) == if p(s[i]) {
            s.take(i).filter(p).push(s[i])
        } else {
            s.take(i).filter(p)
        },
{
    reveal(Seq::filter);
    assert(s.take(i + 1).drop_last() =~= s.take(i));
}

/// The nodes of all crates, with their degrees.
fn degree_nodes(crates: &Vec<CrateData>) -> (nodes: Vec<NodeStat>)
    requires
        total_edges(crates@) <= usize::MAX,
    ensures
        views(nodes@) == all_nodes(crates@),
{
    let names = distinct_crate_names(crates);
    let ins = in_degree_counts(crates, &names);
    let outs = out_degree_counts(crates, &names);
    let mut nodes: Vec<NodeStat> = Vec::new();
    let n = crates.len();
    for i in 0..n
        invariant
            n == crates@.len(),
            strictly_sorted_keys::<String>(views(names@)),
            views(names@).to_set() == crate_names(crates@),
            ins@.len() == names@.len(),
            outs@.len() == names@.len(),
            forall|j: int| 0 <= j < names@.len() ==> #[trigger] ins@[j] == in_degree(crates@, names@[j]@),
            forall|j: int| 0 <= j < names@.len() ==> #[trigger] outs@[j] == out_degree(crates@, names@[j]@),
            views(nodes@) == all_nodes(crates@).take(i as int),
    {
        proof {
            assert(crate_names(crates@).contains(crates@[i as int].name@));
        }
        match find_sorted(&names, &crates[i].name) {
            Some(j) => {
                let ghost before = nodes@;
                let node = NodeStat { name: crates[i].name.clone(), in_degree: ins[j], out_degree: outs[j] };
                nodes.push(node);
                proof {
                    lemma_views_push(before, node);
                    assert(views(nodes@) =~= all_nodes(crates@).take(i + 1));
                }
            },
            None => {
                proof {
                    assert(views(names@).to_set().contains(crates@[i as int].name@));
                    assert(false);
                }
            },
        }
    }
    proof {
        assert(all_nodes(crates@).take(n as int) =~= all_nodes(crates@));
    }
    nodes
}

/// The number of edges of the graph.
fn count_edges(crates: &Vec<CrateData>) -> (total: usize)
    requires
        total_edges(crates@) <= usize::MAX,
    ensures
        total == total_edges(crates@),
{
    let mut total: usize = 0;
    let n = crates.len();
    for i in 0..n
        invariant
            n == crates@.len(),
            total_edges(crates@) <= usize::MAX,
            total == total_edges(crates@.take(i as int)),
    {
        proof {
            assert(crates@.take(i + 1).drop_last() =~= crates@.take(i as int));
            lemma_total_edges_prefix(crates@, i + 1);
        }
        total = total + crates[i].deps.len();
    }
    proof {
        assert(crates@.take(n as int) =~= crates@);
    }
    total
}


/// The distinct names of the first `k` nodes, in ascending order.
fn leading_names(nodes: &Vec<NodeStat>, k: usize) -> (names: Vec<String>)
    requires
        k <= nodes@.len(),
    ensures
        strictly_sorted_keys::<String>(views(names@)),
        views(names@).to_set() == views(nodes@).take(k as int).map_values(|v: NodeView| v.name).to_set(),
{
    let ghost want = views(nodes@).take(k as int).map_values(|v: NodeView| v.name);
    let mut all: Vec<String> = Vec::new();
    for i in 0..k
        invariant
            k <= nodes@.len(),
            want == views(nodes@).take(k as int).map_values(|v: NodeView| v.name),
            views(all@) == want.take(i as int),
    {
        let ghost before = all@;
        all.push(nodes[i].name.clone());
        proof {
            lemma_views_push(before, nodes@[i as int].name);
            assert(views(nodes@)[i as int] == nodes@[i as int]@);
            assert(views(all@) =~= want.take(i + 1));
        }
    }
    let ghost listed = views(all@);
    proof {
        assert(want.take(k as int) =~= want);
    }
    let names = sorted_unique(all);
    proof {
        assert(listed =~= want);
    }
    names
}

/// The core subgraph: the `top_n` crates of greatest in-degree (ties by
/// name), all nodes that carry one of their names, in ranking order, and
/// the edges among them, ordered by source and target. Also counts all edges.
pub fn build_core_subgraph(crates: &Vec<CrateData>, top_n: usize) -> (g: CoreSubgraph)
    requires
        total_edges(crates@) <= usize::MAX,
    ensures
        views(g.nodes@) == core_nodes(crates@, top_n as nat),
        views(g.edges@) == core_edges(crates@, top_n as nat),
        g.total_edges == total_edges(crates@),
{
    let total = count_edges(crates);
    let nodes = degree_nodes(crates);
    let ranked = sort_keys(nodes);
    let ghost rk = views(ranked@);
    proof {
        assert(rk == ranked_nodes(crates@));
        vstd::seq_lib::to_multiset_len(rk);
        vstd::seq_lib::to_multiset_len(views(nodes@));
        assert(views(nodes@).len() == crates@.len());
    }
    let k = if top_n < ranked.len() { top_n } else { ranked.len() };
    let core = leading_names(&ranked, k);
    let ghost core_set = core_names(crates@, top_n as nat);
    proof {
        assert(k == core_size(crates@, top_n as nat));
        assert(views(core@).to_set() == core_set);
    }
    let ghost pred = |v: NodeView| core_set.contains(v.name);
    let mut core_nodes_vec: Vec<NodeStat> = Vec::new();
    let m = ranked.len();
    for i in 0..m
        invariant
            m == ranked@.len(),
            rk == views(ranked@),
            strictly_sorted_keys::<String>(views(core@)),
            views(core@).to_set() == core_set,
            pred == (|v: NodeView| core_set.contains(v.name)),
            views(core_nodes_vec@) == rk.take(i as int).filter(pred),
    {
        proof {
            lemma_filter_step(rk, i as int, pred);
            assert(rk[i as int] == ranked@[i as int]@);
        }
        match find_sorted(&core, &ranked[i].name) {
            Some(j) => {
                proof {
                    assert(views(core@)[j as int] == core@[j as int]@);
                    assert(views(core@).contains(rk[i as int].name));
                }
                let ghost before = core_nodes_vec@;
                let node = NodeStat {
                    name: ranked[i].name.clone(),
                    in_degree: ranked[i].in_degree,
                    out_degree: ranked[i].out_degree,
                };
                core_nodes_vec.push(node);
                proof {
                    lemma_views_push(before, node);
                    assert(core_set.contains(rk[i as int].name));
                }
            },
            None => {
                proof {
                    assert(!core_set.contains(rk[i as int].name));
                }
            },
        }
    }
    proof {
        assert(rk.take(m as int) =~= rk);
    }
    let mut edges: Vec<(String, String)> = Vec::new();
    let n = crates.len();
    for i in 0..n
        invariant
            n == crates@.len(),
            strictly_sorted_keys::<String>(views(core@)),
            views(core@).to_set() == core_set,
            views(edges@) == core_edge_list(crates@.take(i as int), core_set),
    {
        proof {
            assert(crates@.take(i + 1).drop_last() =~= crates@.take(i as int));
        }
        let name = &crates[i].name;
        match find_sorted(&core, name) {
            Some(j) => {
                proof {
                    assert(views(core@)[j as int] == core@[j as int]@);
                    assert(views(core@).contains(name@));
                }
                let deps = &crates[i].deps;
                let ghost start = views(edges@);
                proof {
                    assert(deps@.take(0) =~= Seq::<String>::empty());
                    assert(start + edges_from(name@, deps@.take(0), core_set) =~= start);
                }
                for k in 0..deps.len()
                    invariant
                        i < crates@.len(),
                        deps == &crates@[i as int].deps,
                        name == &crates@[i as int].name,
                        strictly_sorted_keys::<String>(views(core@)),
                        views(core@).to_set() == core_set,
                        views(edges@) == start + edges_from(name@, deps@.take(k as int), core_set),
                {
                    proof {
                        assert(deps@.take(k + 1).drop_last() =~= deps@.take(k as int));
                    }
                    match find_sorted(&core, &deps[k]) {
                        Some(j) => {
                            proof {
                                assert(views(core@)[j as int] == core@[j as int]@);
                                assert(views(core@).contains(deps@[k as int]@));
                            }
                            let ghost before = edges@;
                            let edge = (name.clone(), deps[k].clone());
                            edges.push(edge);
                            proof {
                                lemma_views_push(before, edge);
                                assert(core_set.contains(deps@[k as int]@));
                                assert(views(edges@) =~= start + edges_from(name@, deps@.take(k + 1), core_set));
                            }
                        },
                        None => {
                            proof {
                                assert(!core_set.contains(deps@[k as int]@));
                                assert(views(edges@) =~= start + edges_from(name@, deps@.take(k + 1), core_set));
                            }
                        },
                    }
                }
                proof {
                    assert(deps@.take(deps@.len() as int) =~= deps@);
                    assert(core_set.contains(name@));
                }
            },
            None => {
                proof {
                    assert(!core_set.contains(name@));
                    assert(views(edges@) =~= core_edge_list(crates@.take(i + 1), core_set));
                }
            },
        }
    }
    proof {
        assert(crates@.take(n as int) =~= crates@);
    }
    let sorted_edges = sort_keys(edges);
    CoreSubgraph { nodes: core_nodes_vec, edges: sorted_edges, total_edges: total }
}


proof fn lemma_edges_from_within(src: Seq<char>, deps: Seq<String>, core: Set<Seq<char>>)
    ensures
        forall|i: int| 0 <= i < edges_from(src, deps, core).len() ==> {
            let e = #[trigger] edges_from(src, deps, core)[i];
            e.0 == src && core.contains(e.1)
        },
    decreases deps.len(),
{
    if deps.len() > 0 {
        lemma_edges_from_within(src, deps.drop_last(), core);
        let prev = edges_from(src, deps.drop_last(), core);
        let all = edges_from(src, deps, core);
        assert forall|i: int| 0 <= i < all.len() implies (#[trigger] all[i]).0 == src && core.contains(all[i].1) by {
            if i < prev.len() {
                assert(all[i] == prev[i]);
            }
        }
    }
}

proof fn lemma_core_edge_list_within(crates: Seq<CrateData>, core: Set<Seq<char>>)
    ensures
        forall|i: int| 0 <= i < core_edge_list(crates, core).len() ==> {
            let e = #[trigger] core_edge_list(crates, core)[i];
            core.contains(e.0) && core.contains(e.1)
        },
    decreases crates.len(),
{
    if crates.len() > 0 {
        lemma_core_edge_list_within(crates.drop_last(), core);
        lemma_edges_from_within(crates.last().name@, crates.last().deps@, core);
        let prev = core_edge_list(crates.drop_last(), core);
        let all = core_edge_list(crates, core);
        assert forall|i: int| 0 <= i < all.len() implies core.contains((#[trigger] all[i]).0) && core.contains(all[i].1) by {
            if i < prev.len() {
                assert(all[i] == prev[i]);
            } else {
                let e = edges_from(crates.last().name@, crates.last().deps@, core);
                assert(all[i] == e[i - prev.len()]);
            }
        }
    }
}

/// Every edge of the core subgraph joins two crates whose names are core
/// names.
pub proof fn lemma_core_edges_within_core(crates: Seq<CrateData>, top_n: nat)
    ensures
        forall|i: int| 0 <= i < core_edges(crates, top_n).len() ==> {
            let e = #[trigger] core_edges(crates, top_n)[i];
            core_names(crates, top_n).contains(e.0) && core_names(crates, top_n).contains(e.1)
        },
{
    let core = core_names(crates, top_n);
    let list = core_edge_list(crates, core);
    lemma_core_edge_list_within(crates, core);
    <(String, String) as SortKey>::lemma_key_le_total_ordering();
    list.lemma_sort_by_ensures(key_order::<(String, String)>());
    let sorted = core_edges(crates, top_n);
    assert forall|i: int| 0 <= i < sorted.len() implies core.contains((#[trigger] sorted[i]).0) && core.contains(sorted[i].1) by {
        vstd::seq_lib::to_multiset_contains(sorted, sorted[i]);
        vstd::seq_lib::to_multiset_contains(list, sorted[i]);
        assert(sorted.contains(sorted[i]));
        let j = choose|j: int| 0 <= j < list.len() && list[j] == sorted[i];
        assert(core.contains(list[j].0));
    }
}

proof fn lemma_filter_sorted(s: Seq<NodeView>, p: spec_fn(NodeView) -> bool)
    requires
        sorted_keys::<NodeStat>(s),
    ensures
        sorted_keys::<NodeStat>(s.filter(p)),
    decreases s.len(),
{
    reveal(Seq::filter);
    if s.len() > 0 {
        lemma_filter_sorted(s.drop_last(), p);
        let f = s.drop_last().filter(p);
        if p(s.last()) {
            assert forall|i: int, j: int| 0 <= i < j < f.push(s.last()).len() implies NodeStat::key_le(
                #[trigger] f.push(s.last())[i],
                #[trigger] f.push(s.last())[j],
            ) by {
                if j == f.len() {
                    assert(f.push(s.last())[i] == f[i]);
                    s.drop_last().lemma_filter_contains_rev(p, f[i]);
                    let k = choose|k: int| 0 <= k < s.drop_last().len() && s.drop_last()[k] == f[i];
                    assert(s[k] == f[i]);
                    assert(NodeStat::key_le(s[k], s[s.len() - 1]));
                }
            }
        }
    }
}

/// The core nodes come in ranking order: greatest in-degree first, ties by
/// name.
pub proof fn lemma_core_nodes_ranked(crates: Seq<CrateData>, top_n: nat)
    ensures
        sorted_keys::<NodeStat>(core_nodes(crates, top_n)),
{
    crate::sort::lemma_sort_by_sorted::<NodeStat>(all_nodes(crates));
    lemma_filter_sorted(ranked_nodes(crates), |v: NodeView| core_names(crates, top_n).contains(v.name));
}

/// The ranking puts the greater in-degree first and, between equal
/// in-degrees, the lesser name first in the order of strings, whatever the
/// out-degrees.
pub proof fn lemma_ranking_by_in_degree_then_name(crates: Seq<CrateData>)
    ensures
        forall|i: int, j: int|
            0 <= i < j < ranked_nodes(crates).len() ==> (#[trigger] ranked_nodes(crates)[i]).in_degree
                > (#[trigger] ranked_nodes(crates)[j]).in_degree || (ranked_nodes(crates)[i].in_degree
                == ranked_nodes(crates)[j].in_degree && text_le(ranked_nodes(crates)[i].name, ranked_nodes(crates)[j].name)),
{
    crate::sort::lemma_sort_by_sorted::<NodeStat>(all_nodes(crates));
    lemma_text_le_facts();
    let r = ranked_nodes(crates);
    assert forall|i: int, j: int| 0 <= i < j < r.len() implies (#[trigger] r[i]).in_degree > (#[trigger] r[j]).in_degree
        || (r[i].in_degree == r[j].in_degree && text_le(r[i].name, r[j].name)) by {
        assert(node_le(r[i], r[j]));
    }
}

/// The core takes the best-ranked crates: a crate with a greater in-degree
/// than a crate of the core, or with the same in-degree and a lesser name,
/// is in the core too.
pub proof fn lemma_core_takes_the_best_ranked(crates: Seq<CrateData>, top_n: nat, a: int, b: int)
    requires
        0 <= a < crates.len(),
        0 <= b < crates.len(),
        core_names(crates, top_n).contains(crates[b].name@),
        in_degree(crates, crates[a].name@) > in_degree(crates, crates[b].name@) || (in_degree(crates, crates[a].name@)
            == in_degree(crates, crates[b].name@) && text_lt(crates[a].name@, crates[b].name@)),
    ensures
        core_names(crates, top_n).contains(crates[a].name@),
{
    let all = all_nodes(crates);
    let r = ranked_nodes(crates);
    let k = core_size(crates, top_n) as int;
    crate::sort::lemma_sort_by_sorted::<NodeStat>(all);
    lemma_ranking_by_in_degree_then_name(crates);
    lemma_text_le_facts();
    vstd::seq_lib::to_multiset_len(r);
    vstd::seq_lib::to_multiset_len(all);
    let lead = r.take(k).map_values(|v: NodeView| v.name);
    let q = choose|q: int| 0 <= q < lead.len() && lead[q] == crates[b].name@;
    assert(r[q].name == crates[b].name@);
    assert(r.contains(r[q]));
    vstd::seq_lib::to_multiset_contains(r, r[q]);
    vstd::seq_lib::to_multiset_contains(all, r[q]);
    let q0 = choose|q0: int| 0 <= q0 < all.len() && all[q0] == r[q];
    assert(r[q].in_degree == in_degree(crates, crates[b].name@));
    assert(all.contains(all[a]));
    vstd::seq_lib::to_multiset_contains(all, all[a]);
    vstd::seq_lib::to_multiset_contains(r, all[a]);
    let p = choose|p: int| 0 <= p < r.len() && r[p] == all[a];
    assert(p < k) by {
        if p >= k {
            assert(q < p);
            assert(r[q].in_degree > r[p].in_degree || (r[q].in_degree == r[p].in_degree && text_le(r[q].name, r[p].name)));
        }
    }
    assert(lead[p] == crates[a].name@);
    assert(lead.to_set().contains(crates[a].name@));
}

/// The names of the core nodes are exactly the core names.
pub proof fn lemma_core_node_names(crates: Seq<CrateData>, top_n: nat)
    ensures
        core_nodes(crates, top_n).map_values(|v: NodeView| v.name).to_set() == core_names(crates, top_n),
{
    let core = core_names(crates, top_n);
    let p = |v: NodeView| core.contains(v.name);
    let ranked = ranked_nodes(crates);
    let nodes = core_nodes(crates, top_n);
    let k = core_size(crates, top_n) as int;
    crate::sort::lemma_sort_by_sorted::<NodeStat>(all_nodes(crates));
    vstd::seq_lib::to_multiset_len(ranked);
    vstd::seq_lib::to_multiset_len(all_nodes(crates));
    assert(ranked.len() == crates.len());
    let names = nodes.map_values(|v: NodeView| v.name);
    assert forall|n: Seq<char>| names.to_set().contains(n) <==> core.contains(n) by {
        if names.contains(n) {
            let i = choose|i: int| 0 <= i < names.len() && names[i] == n;
            ranked.lemma_filter_pred(p, i);
        }
        if core.contains(n) {
            let lead = ranked.take(k).map_values(|v: NodeView| v.name);
            let j = choose|j: int| 0 <= j < lead.len() && lead[j] == n;
            assert(ranked[j].name == n);
            ranked.lemma_filter_contains(p, j);
            let i = choose|i: int| 0 <= i < nodes.len() && nodes[i] == ranked[j];
            assert(names[i] == n);
        }
    }
    assert(names.to_set() =~= core);
}

/// The core has at most `top_n` names, and no more names than there are
/// crates.
pub proof fn lemma_core_names_bound(crates: Seq<CrateData>, top_n: nat)
    ensures
        core_names(crates, top_n).len() <= top_n,
        core_names(crates, top_n).len() <= crates.len(),
{
    let ranked = ranked_nodes(crates);
    let k = core_size(crates, top_n) as int;
    crate::sort::lemma_sort_by_sorted::<NodeStat>(all_nodes(crates));
    vstd::seq_lib::to_multiset_len(ranked);
    vstd::seq_lib::to_multiset_len(all_nodes(crates));
    let lead = ranked.take(k).map_values(|v: NodeView| v.name);
    lead.lemma_cardinality_of_set();
}


proof fn lemma_remove_then_drop_last<A>(s: Seq<A>, i: int)
    requires
        0 <= i < s.len() - 1,
    ensures
        s.remove(i).drop_last() == s.drop_last().remove(i),
        s.remove(i).last() == s.last(),
{
    assert(s.remove(i).drop_last() =~= s.drop_last().remove(i));
}

proof fn lemma_in_degree_remove(s: Seq<CrateData>, i: int, x: Seq<char>)
    requires
        0 <= i < s.len(),
    ensures
        in_degree(s, x) == in_degree(s.remove(i), x) + dep_count(s[i].deps@, x),
    decreases s.len(),
{
    if i == s.len() - 1 {
        assert(s.remove(i) =~= s.drop_last());
    } else {
        lemma_remove_then_drop_last(s, i);
        lemma_in_degree_remove(s.drop_last(), i, x);
    }
}

proof fn lemma_total_edges_remove(s: Seq<CrateData>, i: int)
    requires
        0 <= i < s.len(),
    ensures
        total_edges(s) == total_edges(s.remove(i)) + s[i].deps@.len(),
    decreases s.len(),
{
    if i == s.len() - 1 {
        assert(s.remove(i) =~= s.drop_last());
    } else {
        lemma_remove_then_drop_last(s, i);
        lemma_total_edges_remove(s.drop_last(), i);
    }
}

proof fn lemma_edge_list_remove(s: Seq<CrateData>, i: int, core: Set<Seq<char>>)
    requires
        0 <= i < s.len(),
    ensures
        core_edge_list(s, core).to_multiset() == core_edge_list(s.remove(i), core).to_multiset().add(
            (if core.contains(s[i].name@) { edges_from(s[i].name@, s[i].deps@, core) } else { Seq::empty() }).to_multiset(),
        ),
    decreases s.len(),
{
    broadcast use vstd::multiset::group_multiset_axioms;

    let own = |c: CrateData| if core.contains(c.name@) { edges_from(c.name@, c.deps@, core) } else { Seq::<(Seq<char>, Seq<char>)>::empty() };
    if i == s.len() - 1 {
        assert(s.remove(i) =~= s.drop_last());
        vstd::seq_lib::lemma_multiset_commutative(core_edge_list(s.drop_last(), core), own(s.last()));
    } else {
        lemma_remove_then_drop_last(s, i);
        lemma_edge_list_remove(s.drop_last(), i, core);
        vstd::seq_lib::lemma_multiset_commutative(core_edge_list(s.drop_last(), core), own(s.last()));
        vstd::seq_lib::lemma_multiset_commutative(core_edge_list(s.remove(i).drop_last(), core), own(s.last()));
        assert(core_edge_list(s, core).to_multiset() =~= core_edge_list(s.remove(i), core).to_multiset().add(
            own(s[i]).to_multiset()));
    }
}

proof fn lemma_in_degree_perm(s: Seq<CrateData>, t: Seq<CrateData>, x: Seq<char>)
    requires
        s.to_multiset() == t.to_multiset(),
    ensures
        in_degree(s, x) == in_degree(t, x),
        total_edges(s) == total_edges(t),
    decreases s.len(),
{
    broadcast use vstd::seq_lib::group_to_multiset_ensures;

    if s.len() == 0 {
        assert(t.to_multiset().len() == 0);
        assert(t =~= Seq::<CrateData>::empty());
    } else {
        let j = crate::sort::lemma_multiset_remove_last(s, t);
        lemma_in_degree_perm(s.drop_last(), t.remove(j), x);
        lemma_in_degree_remove(t, j, x);
        lemma_total_edges_remove(t, j);
    }
}

proof fn lemma_edge_list_perm(s: Seq<CrateData>, t: Seq<CrateData>, core: Set<Seq<char>>)
    requires
        s.to_multiset() == t.to_multiset(),
    ensures
        core_edge_list(s, core).to_multiset() == core_edge_list(t, core).to_multiset(),
    decreases s.len(),
{
    broadcast use vstd::seq_lib::group_to_multiset_ensures, vstd::multiset::group_multiset_axioms;

    if s.len() == 0 {
        assert(t.to_multiset().len() == 0);
        assert(t =~= Seq::<CrateData>::empty());
    } else {
        let j = crate::sort::lemma_multiset_remove_last(s, t);
        lemma_edge_list_perm(s.drop_last(), t.remove(j), core);
        lemma_edge_list_remove(t, j, core);
        let own = if core.contains(s.last().name@) {
            edges_from(s.last().name@, s.last().deps@, core)
        } else {
            Seq::<(Seq<char>, Seq<char>)>::empty()
        };
        vstd::seq_lib::lemma_multiset_commutative(core_edge_list(s.drop_last(), core), own);
    }
}

/// Distinct crates carry distinct names.
pub open spec fn names_distinct(crates: Seq<CrateData>) -> bool {
    forall|i: int, j: int| 0 <= i < j < crates.len() ==> #[trigger] crates[i].name@ != #[trigger] crates[j].name@
}

proof fn lemma_out_degree_unique(s: Seq<CrateData>, i: int)
    requires
        names_distinct(s),
        0 <= i < s.len(),
    ensures
        out_degree(s, s[i].name@) == s[i].deps@.len(),
    decreases s.len(),
{
    if i < s.len() - 1 {
        assert(s.last().name@ != s[i].name@) by {
            assert(s[s.len() - 1] == s.last());
        }
        assert(s.drop_last()[i] == s[i]);
        lemma_out_degree_unique(s.drop_last(), i);
    }
}

proof fn lemma_node_map_perm(s: Seq<CrateData>, t: Seq<CrateData>, f: spec_fn(CrateData) -> NodeView)
    requires
        s.to_multiset() == t.to_multiset(),
    ensures
        s.map_values(f).to_multiset() == t.map_values(f).to_multiset(),
    decreases s.len(),
{
    broadcast use vstd::seq_lib::group_to_multiset_ensures, vstd::multiset::group_multiset_axioms;

    if s.len() == 0 {
        assert(t.to_multiset().len() == 0);
        assert(t =~= Seq::<CrateData>::empty());
        assert(s.map_values(f) =~= t.map_values(f));
    } else {
        let j = crate::sort::lemma_multiset_remove_last(s, t);
        lemma_node_map_perm(s.drop_last(), t.remove(j), f);
        assert(s.map_values(f) =~= s.drop_last().map_values(f).push(f(s.last())));
        assert(t.remove(j).map_values(f) =~= t.map_values(f).remove(j));
        assert(t.map_values(f)[j] == f(s.last()));
    }
}

/// The core subgraph does not depend on the order in which the crates come,
/// as long as no two crates share a name: two orderings of the same crates
/// give the same core nodes, the same core edges and the same edge count.
pub proof fn lemma_core_independent_of_order(c1: Seq<CrateData>, c2: Seq<CrateData>, top_n: nat)
    requires
        c1.to_multiset() == c2.to_multiset(),
        names_distinct(c1),
        names_distinct(c2),
    ensures
        core_nodes(c1, top_n) == core_nodes(c2, top_n),
        core_edges(c1, top_n) == core_edges(c2, top_n),
        total_edges(c1) == total_edges(c2),
{
    broadcast use vstd::seq_lib::group_to_multiset_ensures;

    let f = |c: CrateData| NodeView {
        name: c.name@,
        in_degree: in_degree(c1, c.name@),
        out_degree: out_degree(c1, c.name@),
    };
    lemma_in_degree_perm(c1, c2, Seq::empty());
    assert(all_nodes(c1) =~= c1.map_values(f));
    assert(all_nodes(c2) =~= c2.map_values(f)) by {
        assert forall|i: int| 0 <= i < c2.len() implies all_nodes(c2)[i] == c2.map_values(f)[i] by {
            let c = c2[i];
            lemma_in_degree_perm(c1, c2, c.name@);
            assert(c2.to_multiset().count(c) > 0) by {
                assert(c2.contains(c));
            }
            assert(c1.contains(c));
            let k = choose|k: int| 0 <= k < c1.len() && c1[k] == c;
            lemma_out_degree_unique(c1, k);
            lemma_out_degree_unique(c2, i);
        }
    }
    lemma_node_map_perm(c1, c2, f);
    let leq = key_order::<NodeStat>();
    crate::sort::lemma_sort_by_sorted::<NodeStat>(all_nodes(c1));
    crate::sort::lemma_sort_by_sorted::<NodeStat>(all_nodes(c2));
    crate::sort::lemma_sorted_is_sort_by::<NodeStat>(ranked_nodes(c1), all_nodes(c2));
    assert(ranked_nodes(c1) == ranked_nodes(c2));
    vstd::seq_lib::to_multiset_len(c1);
    vstd::seq_lib::to_multiset_len(c2);
    assert(core_names(c1, top_n) == core_names(c2, top_n));
    let core = core_names(c1, top_n);
    lemma_edge_list_perm(c1, c2, core);
    let e1 = core_edge_list(c1, core);
    let e2 = core_edge_list(c2, core);
    crate::sort::lemma_sort_by_sorted::<(String, String)>(e1);
    crate::sort::lemma_sorted_is_sort_by::<(String, String)>(e1.sort_by(key_order::<(String, String)>()), e2);
}

} // verus!
