//! What every traced graph satisfies: it stays within the node budget, no two
//! nodes share an id, no two edges share their ends and kind, every edge joins two
//! nodes of the graph, both lists come in their documented order, and the
//! requested symbol is the first and only entry node.
use vstd::prelude::*;

use crate::analyzer::{
    Acc, AnalyzeOptions, Bfs, ScanOutcome, analysis_of, bfs_run, boundary_id, boundary_step, call_place,
    call_step, caller_step, callers_upto, calls_name, calls_upto, candidates, edge, has_edge_key,
    unresolved_id, first_type_from, functions_named, has_node, initial_bfs,
    insert_edge_spec, insert_node, lemma_candidates_bounds, lemma_unvisited_push, lemma_visit_queue_ok,
    node_edge_push, node_rank, node_then_edge, queue_ok, same_edge_key, symbol_node, symbol_node_kind,
    type_step, types_upto, unvisited, visit_step, approximation_warning, budget_warning, generated_warning,
};
use crate::model::{CallSiteV, EdgeKind, LensEdge, LensEdgeV, LensNode, LensNodeV, NodeKind, ParsedKind, ParsedSymbolV};
use crate::sort::{
    KeyOrder, is_sorted_by, lemma_sorted_elements, lemma_sorted_is_sorted, lemma_sorted_pairwise, pairwise,
    sorted_in_order,
};

verus! {

/// No two nodes have the same id.
pub open spec fn ids_distinct(ns: Seq<LensNodeV>) -> bool {
    forall|i: int, j: int| #![trigger ns[i], ns[j]] 0 <= i < ns.len() && 0 <= j < ns.len() && i != j ==> ns[i].id != ns[j].id
}

/// No two edges have the same ends and kind.
pub open spec fn edge_keys_distinct(es: Seq<LensEdgeV>) -> bool {
    forall|i: int, j: int| #![trigger es[i], es[j]] 0 <= i < es.len() && 0 <= j < es.len() && i != j ==> !same_edge_key(es[i], es[j])
}

/// Both ends of every edge are ids of nodes.
pub open spec fn edges_attached(ns: Seq<LensNodeV>, es: Seq<LensEdgeV>) -> bool {
    forall|k: int| #![trigger es[k]] 0 <= k < es.len() ==> has_node(ns, es[k].from) && has_node(ns, es[k].to)
}

pub open spec fn graph_ok(ns: Seq<LensNodeV>, es: Seq<LensEdgeV>, max: int) -> bool {
    &&& ns.len() <= max
    &&& ids_distinct(ns)
    &&& edge_keys_distinct(es)
    &&& edges_attached(ns, es)
}

/// The entry node `en` comes first, and no other node is an entry.
pub open spec fn entry_placed(ns: Seq<LensNodeV>, en: LensNodeV) -> bool {
    &&& ns.len() > 0 ==> ns[0] == en
    &&& forall|k: int| 0 < k < ns.len() ==> (#[trigger] ns[k]).kind != NodeKind::Entry
}

/// The graph while one symbol's evidence is added: well formed, and holding the
/// node of that symbol.
pub open spec fn acc_ok(a: Acc, cur_id: Seq<char>, max: int, en: LensNodeV) -> bool {
    &&& graph_ok(a.nodes, a.edges, max)
    &&& has_node(a.nodes, cur_id)
    &&& entry_placed(a.nodes, en)
}

proof fn lemma_has_node_push(ns: Seq<LensNodeV>, n: LensNodeV)
    ensures
        forall|id: Seq<char>| has_node(ns, id) ==> #[trigger] has_node(ns.push(n), id),
        has_node(ns.push(n), n.id),
{
    assert forall|id: Seq<char>| has_node(ns, id) implies #[trigger] has_node(ns.push(n), id) by {
        let k = choose|k: int| 0 <= k < ns.len() && (#[trigger] ns[k]).id == id;
        assert(ns.push(n)[k] == ns[k]);
    }
    assert(ns.push(n)[ns.len() as int] == n);
}

/// Adding a node that is not an entry keeps a non-empty node list well formed.
proof fn lemma_insert_plain_node(ns: Seq<LensNodeV>, es: Seq<LensEdgeV>, n: LensNodeV, max: int, en: LensNodeV)
    requires
        graph_ok(ns, es, max),
        entry_placed(ns, en),
        ns.len() > 0,
        n.kind != NodeKind::Entry,
    ensures
        ({
            let (ns2, ok) = insert_node(ns, n, max);
            &&& graph_ok(ns2, es, max)
            &&& entry_placed(ns2, en)
            &&& ok ==> has_node(ns2, n.id)
            &&& forall|id: Seq<char>| has_node(ns, id) ==> #[trigger] has_node(ns2, id)
        }),
{
    let (ns2, ok) = insert_node(ns, n, max);
    if !has_node(ns, n.id) && ns.len() < max {
        lemma_has_node_push(ns, n);
        assert(ns2 == ns.push(n));
        assert forall|i: int, j: int| #![trigger ns2[i], ns2[j]]
            0 <= i < ns2.len() && 0 <= j < ns2.len() && i != j implies ns2[i].id != ns2[j].id by {
            if i < ns.len() && j < ns.len() {
                assert(ns2[i] == ns[i] && ns2[j] == ns[j]);
            } else if i < ns.len() {
                assert(ns2[i] == ns[i]);
                assert(!(ns[i].id == n.id));
            } else {
                assert(ns2[j] == ns[j]);
                assert(!(ns[j].id == n.id));
            }
        }
        assert forall|k: int| #![trigger es[k]] 0 <= k < es.len() implies has_node(ns2, es[k].from) && has_node(ns2, es[k].to) by {
            assert(has_node(ns, es[k].from) && has_node(ns, es[k].to));
        }
        assert forall|k: int| 0 < k < ns2.len() implies (#[trigger] ns2[k]).kind != NodeKind::Entry by {
            if k < ns.len() {
                assert(ns2[k] == ns[k]);
            }
        }
        assert(ns2[0] == ns[0]);
    }
}

/// Adding an edge between two nodes keeps the graph well formed.
proof fn lemma_insert_attached_edge(ns: Seq<LensNodeV>, es: Seq<LensEdgeV>, e: LensEdgeV, max: int)
    requires
        graph_ok(ns, es, max),
        has_node(ns, e.from),
        has_node(ns, e.to),
    ensures
        graph_ok(ns, insert_edge_spec(es, e), max),
{
    let es2 = insert_edge_spec(es, e);
    if es2 != es {
        assert(es2 == es.push(e));
        assert forall|i: int, j: int| #![trigger es2[i], es2[j]]
            0 <= i < es2.len() && 0 <= j < es2.len() && i != j implies !same_edge_key(es2[i], es2[j]) by {
            if i < es.len() && j < es.len() {
                assert(es2[i] == es[i] && es2[j] == es[j]);
            } else if i < es.len() {
                assert(es2[i] == es[i]);
                if same_edge_key(es[i], e) {
                    assert(exists|k: int| 0 <= k < es.len() && same_edge_key(#[trigger] es[k], e));
                }
            } else {
                assert(es2[j] == es[j]);
                if same_edge_key(es[j], e) {
                    assert(exists|k: int| 0 <= k < es.len() && same_edge_key(#[trigger] es[k], e));
                }
            }
        }
        assert forall|k: int| #![trigger es2[k]] 0 <= k < es2.len() implies has_node(ns, es2[k].from) && has_node(
            ns,
            es2[k].to,
        ) by {
            if k < es.len() {
                assert(es2[k] == es[k]);
            }
        }
    }
}

/// One node, then one edge from the current symbol to it, keep the graph well
/// formed (with or without a queue entry).
proof fn lemma_attach_steps(a: Acc, cur_id: Seq<char>, max: int, en: LensNodeV)
    requires
        acc_ok(a, cur_id, max, en),
    ensures
        forall|n: LensNodeV, e: LensEdgeV|
            n.kind != NodeKind::Entry && e.from == cur_id && e.to == n.id ==> acc_ok(
                #[trigger] node_then_edge(a, n, max, e),
                cur_id,
                max,
                en,
            ),
        forall|n: LensNodeV, e: LensEdgeV, q: (usize, usize)|
            n.kind != NodeKind::Entry && e.from == cur_id && e.to == n.id ==> acc_ok(
                #[trigger] node_edge_push(a, n, max, e, q),
                cur_id,
                max,
                en,
            ),
{
    assert forall|n: LensNodeV, e: LensEdgeV|
        n.kind != NodeKind::Entry && e.from == cur_id && e.to == n.id implies acc_ok(
            #[trigger] node_then_edge(a, n, max, e),
            cur_id,
            max,
            en,
        ) by {
        lemma_insert_plain_node(a.nodes, a.edges, n, max, en);
        let (ns2, ok) = insert_node(a.nodes, n, max);
        if ok {
            lemma_insert_attached_edge(ns2, a.edges, e, max);
        }
    }
    assert forall|n: LensNodeV, e: LensEdgeV, q: (usize, usize)|
        n.kind != NodeKind::Entry && e.from == cur_id && e.to == n.id implies acc_ok(
            #[trigger] node_edge_push(a, n, max, e, q),
            cur_id,
            max,
            en,
        ) by {
        lemma_insert_plain_node(a.nodes, a.edges, n, max, en);
        let (ns2, ok) = insert_node(a.nodes, n, max);
        if ok {
            lemma_insert_attached_edge(ns2, a.edges, e, max);
        }
    }
}

proof fn lemma_types_ok(a: Acc, cur: ParsedSymbolV, syms: Seq<ParsedSymbolV>, opts: AnalyzeOptions, k: int, en: LensNodeV)
    requires
        acc_ok(a, cur.id, opts.max_nodes as int, en),
    ensures
        acc_ok(types_upto(a, cur, syms, opts, k), cur.id, opts.max_nodes as int, en),
    decreases k,
{
    if k > 0 {
        lemma_types_ok(a, cur, syms, opts, k - 1, en);
        let b = types_upto(a, cur, syms, opts, k - 1);
        lemma_attach_steps(b, cur.id, opts.max_nodes as int, en);
        let name = cur.type_names[k - 1];
        match first_type_from(syms, name, 0) {
            None => {},
            Some(j) => {
                assert(acc_ok(type_step(b, cur, syms, opts, name), cur.id, opts.max_nodes as int, en));
            },
        }
    }
}

proof fn lemma_call_ok(a: Acc, cur: ParsedSymbolV, d: usize, syms: Seq<ParsedSymbolV>, opts: AnalyzeOptions, call: crate::model::CallSiteV, en: LensNodeV)
    requires
        acc_ok(a, cur.id, opts.max_nodes as int, en),
    ensures
        acc_ok(call_step(a, cur, d, syms, opts, call), cur.id, opts.max_nodes as int, en),
{
    let max = opts.max_nodes as int;
    lemma_attach_steps(a, cur.id, max, en);
    let a1 = boundary_step(a, cur, call, max);
    assert(acc_ok(a1, cur.id, max, en));
    lemma_attach_steps(a1, cur.id, max, en);
    let ms = functions_named(syms, call.name, syms.len() as int);
    let a2 = if d < opts.depth && ms.len() == 1 {
        node_edge_push(
            a1,
            symbol_node(syms[ms[0]], symbol_node_kind(syms[ms[0]], false), opts.link_template@),
            max,
            edge(cur.id, syms[ms[0]].id, crate::model::EdgeKind::Calls, "call expression at "@ + crate::analyzer::call_place(cur, call)),
            (ms[0] as usize, (d + 1) as usize),
        )
    } else {
        a1
    };
    assert(acc_ok(a2, cur.id, max, en));
    lemma_attach_steps(a2, cur.id, max, en);
}

proof fn lemma_calls_ok(a: Acc, cur: ParsedSymbolV, d: usize, syms: Seq<ParsedSymbolV>, opts: AnalyzeOptions, k: int, en: LensNodeV)
    requires
        acc_ok(a, cur.id, opts.max_nodes as int, en),
    ensures
        acc_ok(calls_upto(a, cur, d, syms, opts, k), cur.id, opts.max_nodes as int, en),
    decreases k,
{
    if k > 0 {
        lemma_calls_ok(a, cur, d, syms, opts, k - 1, en);
        lemma_call_ok(calls_upto(a, cur, d, syms, opts, k - 1), cur, d, syms, opts, cur.calls[k - 1], en);
    }
}

proof fn lemma_callers_ok(a: Acc, cur: ParsedSymbolV, ci: int, d: usize, syms: Seq<ParsedSymbolV>, opts: AnalyzeOptions, k: int, en: LensNodeV)
    requires
        acc_ok(a, cur.id, opts.max_nodes as int, en),
    ensures
        acc_ok(callers_upto(a, cur, ci, d, syms, opts, k), cur.id, opts.max_nodes as int, en),
    decreases k,
{
    if k > 0 {
        lemma_callers_ok(a, cur, ci, d, syms, opts, k - 1, en);
        let b = callers_upto(a, cur, ci, d, syms, opts, k - 1);
        lemma_attach_steps(b, cur.id, opts.max_nodes as int, en);
        assert(acc_ok(caller_step(b, cur, ci, d, syms, opts, k - 1), cur.id, opts.max_nodes as int, en));
    }
}

/// A traversal state whose graph is well formed with the entry node placed.
pub open spec fn bfs_core(st: Bfs, max: int, en: LensNodeV) -> bool {
    &&& graph_ok(st.nodes, st.edges, max)
    &&& entry_placed(st.nodes, en)
}

/// A state from which the traversal goes on: either the entry symbol was
/// processed and its node is in the graph, or nothing was added yet and the entry
/// symbol is next.
pub open spec fn bfs_live(st: Bfs, syms: Seq<ParsedSymbolV>, entry: int, max: int, en: LensNodeV) -> bool {
    &&& bfs_core(st, max, en)
    &&& queue_ok(st.queue, syms.len() as int)
    &&& {
        ||| (st.visited.contains(syms[entry].id) && st.nodes.len() > 0)
        ||| (st.nodes.len() == 0 && !st.visited.contains(syms[entry].id) && st.queue.len() > 0 && st.queue[0].0
            == entry)
    }
}

proof fn lemma_visit_ok(st: Bfs, syms: Seq<ParsedSymbolV>, opts: AnalyzeOptions, entry: int, en: LensNodeV)
    requires
        0 <= entry < syms.len(),
        en == symbol_node(syms[entry], NodeKind::Entry, opts.link_template@),
        bfs_live(st, syms, entry, opts.max_nodes as int, en),
        st.queue.len() > 0,
    ensures
        ({
            let (next, stop) = visit_step(st, syms, opts, entry);
            &&& bfs_core(next, opts.max_nodes as int, en)
            &&& !stop ==> bfs_live(next, syms, entry, opts.max_nodes as int, en)
        }),
{
    let max = opts.max_nodes as int;
    let ci = st.queue[0].0 as int;
    let d = st.queue[0].1;
    let cur = syms[ci];
    lemma_visit_queue_ok(st, syms, opts, entry);
    if !st.visited.contains(cur.id) {
        let visited = st.visited.push(cur.id);
        assert(visited[st.visited.len() as int] == cur.id);
        assert forall|x: Seq<char>| st.visited.contains(x) implies #[trigger] visited.contains(x) by {
            let k = choose|k: int| 0 <= k < st.visited.len() && st.visited[k] == x;
            assert(visited[k] == x);
        }
        let n = symbol_node(cur, symbol_node_kind(cur, ci == entry), opts.link_template@);
        let (ns, ok) = insert_node(st.nodes, n, max);
        if st.nodes.len() > 0 {
            assert(st.visited.contains(syms[entry].id));
            assert(ci != entry);
            lemma_insert_plain_node(st.nodes, st.edges, n, max, en);
        } else {
            assert(ci == entry);
            assert(n == en);
            if ok {
                assert(ns == seq![en]);
                assert(ns[0] == en);
                assert(ns[0].id == cur.id);
                assert(has_node(ns, cur.id));
                assert forall|k: int| #![trigger st.edges[k]] 0 <= k < st.edges.len() implies has_node(ns, st.edges[k].from) && has_node(ns, st.edges[k].to) by {
                    assert(has_node(st.nodes, st.edges[k].from));
                }
            }
        }
        if ok {
            let a0 = Acc { nodes: ns, edges: st.edges, pushed: seq![], truncated: st.truncated };
            assert(acc_ok(a0, cur.id, max, en));
            lemma_types_ok(a0, cur, syms, opts, cur.type_names.len() as int, en);
            let a1 = types_upto(a0, cur, syms, opts, cur.type_names.len() as int);
            lemma_calls_ok(a1, cur, d, syms, opts, cur.calls.len() as int, en);
            let a2 = calls_upto(a1, cur, d, syms, opts, cur.calls.len() as int);
            if d < opts.depth {
                lemma_callers_ok(a2, cur, ci, d, syms, opts, syms.len() as int, en);
            }
        }
    }
}

proof fn lemma_bfs_ok(st: Bfs, syms: Seq<ParsedSymbolV>, opts: AnalyzeOptions, entry: int, en: LensNodeV)
    requires
        0 <= entry < syms.len(),
        en == symbol_node(syms[entry], NodeKind::Entry, opts.link_template@),
        bfs_live(st, syms, entry, opts.max_nodes as int, en),
    ensures
        bfs_core(bfs_run(st, syms, opts, entry), opts.max_nodes as int, en),
    decreases unvisited(syms, st.visited, syms.len() as int), st.queue.len(),
{
    if st.queue.len() > 0 {
        let (next, stop) = visit_step(st, syms, opts, entry);
        let ci = st.queue[0].0 as int;
        lemma_unvisited_push(syms, st.visited, syms[ci].id, syms.len() as int, ci);
        lemma_visit_ok(st, syms, opts, entry, en);
        if !stop {
            lemma_bfs_ok(next, syms, opts, entry, en);
        }
    }
}

/// Sorting keeps the graph well formed, and puts the entry node first.
proof fn lemma_sorted_graph(ns: Seq<LensNodeV>, es: Seq<LensEdgeV>, max: int, en: LensNodeV)
    requires
        graph_ok(ns, es, max),
        entry_placed(ns, en),
        en.kind == NodeKind::Entry,
    ensures
        graph_ok(sorted_in_order::<LensNode>(ns), sorted_in_order::<LensEdge>(es), max),
        ns.len() > 0 ==> entry_placed(sorted_in_order::<LensNode>(ns), en),
        sorted_in_order::<LensNode>(ns).len() == ns.len(),
        is_sorted_by::<LensNode>(sorted_in_order::<LensNode>(ns)),
        is_sorted_by::<LensEdge>(sorted_in_order::<LensEdge>(es)),
{
    let sn = sorted_in_order::<LensNode>(ns);
    let se = sorted_in_order::<LensEdge>(es);
    lemma_sorted_elements::<LensNode>(ns);
    lemma_sorted_elements::<LensEdge>(es);
    lemma_sorted_is_sorted::<LensNode>(ns);
    lemma_sorted_is_sorted::<LensEdge>(es);
    let ids = |a: LensNodeV, b: LensNodeV| a.id != b.id;
    assert(pairwise(ns, ids)) by {
        assert forall|i: int, j: int| 0 <= i < ns.len() && 0 <= j < ns.len() && i != j implies #[trigger] ids(ns[i], ns[j]) by {
            assert(ns[i].id != ns[j].id);
        }
    }
    lemma_sorted_pairwise::<LensNode>(ns, ids);
    assert forall|i: int, j: int| #![trigger sn[i], sn[j]] 0 <= i < sn.len() && 0 <= j < sn.len() && i != j implies sn[i].id
        != sn[j].id by {
        assert(ids(sn[i], sn[j]));
    }
    let keys = |a: LensEdgeV, b: LensEdgeV| !same_edge_key(a, b);
    assert(pairwise(es, keys)) by {
        assert forall|i: int, j: int| 0 <= i < es.len() && 0 <= j < es.len() && i != j implies #[trigger] keys(es[i], es[j]) by {
            assert(!same_edge_key(es[i], es[j]));
        }
    }
    lemma_sorted_pairwise::<LensEdge>(es, keys);
    assert forall|i: int, j: int| #![trigger se[i], se[j]] 0 <= i < se.len() && 0 <= j < se.len() && i != j implies !same_edge_key(
        se[i],
        se[j],
    ) by {
        assert(keys(se[i], se[j]));
    }
    assert forall|id: Seq<char>| has_node(ns, id) implies #[trigger] has_node(sn, id) by {
        let k = choose|k: int| 0 <= k < ns.len() && (#[trigger] ns[k]).id == id;
        assert(ns.contains(ns[k]));
        assert(sn.contains(ns[k]));
        let m = choose|m: int| 0 <= m < sn.len() && sn[m] == ns[k];
        assert(sn[m].id == id);
    }
    assert forall|k: int| #![trigger se[k]] 0 <= k < se.len() implies has_node(sn, se[k].from) && has_node(sn, se[k].to) by {
        assert(se.contains(se[k]));
        assert(es.contains(se[k]));
        let j = choose|j: int| 0 <= j < es.len() && es[j] == se[k];
        assert(has_node(ns, es[j].from) && has_node(ns, es[j].to));
    }
    if ns.len() > 0 {
        let one_entry = |a: LensNodeV, b: LensNodeV| !(a.kind == NodeKind::Entry && b.kind == NodeKind::Entry);
        assert(pairwise(ns, one_entry)) by {
            assert forall|i: int, j: int| 0 <= i < ns.len() && 0 <= j < ns.len() && i != j implies #[trigger] one_entry(ns[i], ns[j]) by {
                if i > 0 {
                    assert(ns[i].kind != NodeKind::Entry);
                } else {
                    assert(ns[j].kind != NodeKind::Entry);
                }
            }
        }
        lemma_sorted_pairwise::<LensNode>(ns, one_entry);
        assert(ns.contains(ns[0]));
        assert(sn.contains(en));
        let p = choose|p: int| 0 <= p < sn.len() && sn[p] == en;
        if p != 0 {
            assert(one_entry(sn[0], sn[p]));
            assert(sn[0].kind != NodeKind::Entry);
            assert(node_rank(sn[0].kind) > node_rank(en.kind));
            assert(LensNode::precedes(sn[p], sn[0]));
            assert(false);
        }
        assert forall|k: int| 0 < k < sn.len() implies (#[trigger] sn[k]).kind != NodeKind::Entry by {
            assert(one_entry(sn[0], sn[k]));
        }
    }
}

/// A traced graph stays within its node budget, gives each node a distinct id and
/// each edge a distinct (from, to, kind) key, joins only nodes of the graph, lists
/// nodes by kind then id and edges by from, to and kind, and, when the budget
/// allows one node, starts with the requested symbol as its only entry node.
pub proof fn lemma_traced_graph_is_well_formed(opts: AnalyzeOptions, root: Seq<char>, scan: ScanOutcome)
    requires
        analysis_of(opts, root, scan@) is Ok,
    ensures
        ({
            let g = analysis_of(opts, root, scan@)->Ok_0;
            let cs = candidates(scan@.symbols, opts.symbol@, scan@.symbols.len() as int);
            &&& g.nodes.len() <= opts.max_nodes
            &&& ids_distinct(g.nodes)
            &&& edge_keys_distinct(g.edges)
            &&& edges_attached(g.nodes, g.edges)
            &&& is_sorted_by::<LensNode>(g.nodes)
            &&& is_sorted_by::<LensEdge>(g.edges)
            &&& cs.len() == 1
            &&& opts.max_nodes >= 1 ==> g.nodes.len() >= 1 && g.nodes[0] == symbol_node(
                scan@.symbols[cs[0]],
                NodeKind::Entry,
                opts.link_template@,
            ) && forall|k: int| 0 < k < g.nodes.len() ==> (#[trigger] g.nodes[k]).kind != NodeKind::Entry
        }),
{
    let syms = scan@.symbols;
    assert(syms.len() == scan.symbols.len());
    let cs = candidates(syms, opts.symbol@, syms.len() as int);
    lemma_candidates_bounds(syms, opts.symbol@, syms.len() as int);
    let entry = cs[0];
    let en = symbol_node(syms[entry], NodeKind::Entry, opts.link_template@);
    let init = initial_bfs(entry);
    assert(init.queue[0].0 == entry);
    assert(!init.visited.contains(syms[entry].id));
    assert(queue_ok(init.queue, syms.len() as int));
    lemma_bfs_ok(init, syms, opts, entry, en);
    let fin = bfs_run(init, syms, opts, entry);
    lemma_sorted_graph(fin.nodes, fin.edges, opts.max_nodes as int, en);
    if opts.max_nodes >= 1 {
        lemma_first_visit_adds_entry(init, syms, opts, entry, en);
        lemma_bfs_keeps_nodes(visit_step(init, syms, opts, entry).0, syms, opts, entry);
    }
}

/// The first visit adds the entry node when the budget allows one node.
proof fn lemma_first_visit_adds_entry(init: Bfs, syms: Seq<ParsedSymbolV>, opts: AnalyzeOptions, entry: int, en: LensNodeV)
    requires
        0 <= entry < syms.len(),
        init == initial_bfs(entry),
        opts.max_nodes >= 1,
        syms.len() <= usize::MAX,
    ensures
        visit_step(init, syms, opts, entry).0.nodes.len() >= 1,
        !visit_step(init, syms, opts, entry).1,
        bfs_run(init, syms, opts, entry) == bfs_run(visit_step(init, syms, opts, entry).0, syms, opts, entry),
        queue_ok(visit_step(init, syms, opts, entry).0.queue, syms.len() as int),
{
    assert(!init.visited.contains(syms[entry].id));
    assert(queue_ok(init.queue, syms.len() as int));
    lemma_visit_queue_ok(init, syms, opts, entry);
    let n = symbol_node(syms[entry], symbol_node_kind(syms[entry], true), opts.link_template@);
    assert(!has_node(init.nodes, n.id));
    let a0 = Acc { nodes: seq![n], edges: init.edges, pushed: seq![], truncated: false };
    lemma_types_grow(a0, syms[entry], syms, opts, syms[entry].type_names.len() as int);
    let a1 = types_upto(a0, syms[entry], syms, opts, syms[entry].type_names.len() as int);
    lemma_calls_grow(a1, syms[entry], 0, syms, opts, syms[entry].calls.len() as int);
    let a2 = calls_upto(a1, syms[entry], 0, syms, opts, syms[entry].calls.len() as int);
    if 0 < opts.depth {
        lemma_callers_grow(a2, syms[entry], entry, 0, syms, opts, syms.len() as int);
    }
}

proof fn lemma_node_steps_grow(a: Acc)
    ensures
        forall|n: LensNodeV, max: int, e: LensEdgeV| #[trigger] node_then_edge(a, n, max, e).nodes.len() >= a.nodes.len(),
        forall|n: LensNodeV, max: int, e: LensEdgeV, q: (usize, usize)| #[trigger] node_edge_push(a, n, max, e, q).nodes.len()
            >= a.nodes.len(),
{
}

proof fn lemma_types_grow(a: Acc, cur: ParsedSymbolV, syms: Seq<ParsedSymbolV>, opts: AnalyzeOptions, k: int)
    ensures
        types_upto(a, cur, syms, opts, k).nodes.len() >= a.nodes.len(),
    decreases k,
{
    if k > 0 {
        lemma_types_grow(a, cur, syms, opts, k - 1);
        lemma_node_steps_grow(types_upto(a, cur, syms, opts, k - 1));
    }
}

proof fn lemma_calls_grow(a: Acc, cur: ParsedSymbolV, d: usize, syms: Seq<ParsedSymbolV>, opts: AnalyzeOptions, k: int)
    ensures
        calls_upto(a, cur, d, syms, opts, k).nodes.len() >= a.nodes.len(),
    decreases k,
{
    if k > 0 {
        lemma_calls_grow(a, cur, d, syms, opts, k - 1);
        let b = calls_upto(a, cur, d, syms, opts, k - 1);
        let call = cur.calls[k - 1];
        lemma_node_steps_grow(b);
        let b1 = boundary_step(b, cur, call, opts.max_nodes as int);
        lemma_node_steps_grow(b1);
        let ms = functions_named(syms, call.name, syms.len() as int);
        let b2 = if d < opts.depth && ms.len() == 1 {
            node_edge_push(
                b1,
                symbol_node(syms[ms[0]], symbol_node_kind(syms[ms[0]], false), opts.link_template@),
                opts.max_nodes as int,
                edge(cur.id, syms[ms[0]].id, crate::model::EdgeKind::Calls, "call expression at "@ + crate::analyzer::call_place(cur, call)),
                (ms[0] as usize, (d + 1) as usize),
            )
        } else {
            b1
        };
        lemma_node_steps_grow(b2);
    }
}

proof fn lemma_callers_grow(a: Acc, cur: ParsedSymbolV, ci: int, d: usize, syms: Seq<ParsedSymbolV>, opts: AnalyzeOptions, k: int)
    ensures
        callers_upto(a, cur, ci, d, syms, opts, k).nodes.len() >= a.nodes.len(),
    decreases k,
{
    if k > 0 {
        lemma_callers_grow(a, cur, ci, d, syms, opts, k - 1);
        lemma_node_steps_grow(callers_upto(a, cur, ci, d, syms, opts, k - 1));
    }
}

/// The traversal never removes nodes.
proof fn lemma_bfs_keeps_nodes(st: Bfs, syms: Seq<ParsedSymbolV>, opts: AnalyzeOptions, entry: int)
    requires
        queue_ok(st.queue, syms.len() as int),
    ensures
        bfs_run(st, syms, opts, entry).nodes.len() >= st.nodes.len(),
    decreases unvisited(syms, st.visited, syms.len() as int), st.queue.len(),
{
    if st.queue.len() > 0 {
        let (next, stop) = visit_step(st, syms, opts, entry);
        let ci = st.queue[0].0 as int;
        let d = st.queue[0].1;
        let cur = syms[ci];
        lemma_unvisited_push(syms, st.visited, cur.id, syms.len() as int, ci);
        lemma_visit_queue_ok(st, syms, opts, entry);
        if !st.visited.contains(cur.id) {
            let (ns, ok) = insert_node(st.nodes, symbol_node(cur, symbol_node_kind(cur, ci == entry), opts.link_template@), opts.max_nodes as int);
            if ok {
                let a0 = Acc { nodes: ns, edges: st.edges, pushed: seq![], truncated: st.truncated };
                lemma_types_grow(a0, cur, syms, opts, cur.type_names.len() as int);
                let a1 = types_upto(a0, cur, syms, opts, cur.type_names.len() as int);
                lemma_calls_grow(a1, cur, d, syms, opts, cur.calls.len() as int);
                let a2 = calls_upto(a1, cur, d, syms, opts, cur.calls.len() as int);
                if d < opts.depth {
                    lemma_callers_grow(a2, cur, ci, d, syms, opts, syms.len() as int);
                }
            }
        }
        if !stop {
            lemma_bfs_keeps_nodes(next, syms, opts, entry);
        }
    }
}

// ----------------------------------------------------------------------------
// The entry's own evidence
// ----------------------------------------------------------------------------

/// `b` holds `a`'s nodes and edges in front, and is truncated if `a` was.
pub open spec fn acc_extends(a: Acc, b: Acc) -> bool {
    &&& a.nodes.len() <= b.nodes.len()
    &&& forall|k: int| 0 <= k < a.nodes.len() ==> #[trigger] b.nodes[k] == a.nodes[k]
    &&& a.edges.len() <= b.edges.len()
    &&& forall|k: int| 0 <= k < a.edges.len() ==> #[trigger] b.edges[k] == a.edges[k]
    &&& a.truncated ==> b.truncated
}

/// Some edge goes from `from` to `to` with this kind.
pub open spec fn has_edge(es: Seq<LensEdgeV>, from: Seq<char>, to: Seq<char>, kind: EdgeKind) -> bool {
    exists|k: int| 0 <= k < es.len() && (#[trigger] es[k]).from == from && es[k].to == to && es[k].kind == kind
}

/// The node `to` is in the graph with an edge of this kind from `from` to it.
pub open spec fn shows(ns: Seq<LensNodeV>, es: Seq<LensEdgeV>, from: Seq<char>, to: Seq<char>, kind: EdgeKind) -> bool {
    has_node(ns, to) && has_edge(es, from, to, kind)
}

proof fn lemma_shows_extends(a: Acc, b: Acc)
    requires
        acc_extends(a, b),
    ensures
        forall|from: Seq<char>, to: Seq<char>, kind: EdgeKind|
            shows(a.nodes, a.edges, from, to, kind) ==> #[trigger] shows(b.nodes, b.edges, from, to, kind),
{
    assert forall|from: Seq<char>, to: Seq<char>, kind: EdgeKind|
        shows(a.nodes, a.edges, from, to, kind) implies #[trigger] shows(b.nodes, b.edges, from, to, kind) by {
        let i = choose|i: int| 0 <= i < a.nodes.len() && (#[trigger] a.nodes[i]).id == to;
        assert(b.nodes[i] == a.nodes[i]);
        let k = choose|k: int| 0 <= k < a.edges.len() && (#[trigger] a.edges[k]).from == from && a.edges[k].to == to
            && a.edges[k].kind == kind;
        assert(b.edges[k] == a.edges[k]);
    }
}

proof fn lemma_extends_trans(a: Acc, b: Acc, c: Acc)
    requires
        acc_extends(a, b),
        acc_extends(b, c),
    ensures
        acc_extends(a, c),
{
    assert forall|k: int| 0 <= k < a.nodes.len() implies #[trigger] c.nodes[k] == a.nodes[k] by {
        assert(c.nodes[k] == b.nodes[k]);
    }
    assert forall|k: int| 0 <= k < a.edges.len() implies #[trigger] c.edges[k] == a.edges[k] by {
        assert(c.edges[k] == b.edges[k]);
    }
}

/// A node-then-edge step extends the graph, and unless the graph is then
/// truncated it shows the node with the edge.
proof fn lemma_step_shows(a: Acc)
    ensures
        forall|n: LensNodeV, max: int, e: LensEdgeV| acc_extends(a, #[trigger] node_then_edge(a, n, max, e)),
        forall|n: LensNodeV, max: int, e: LensEdgeV, q: (usize, usize)| acc_extends(a, #[trigger] node_edge_push(a, n, max, e, q)),
        forall|n: LensNodeV, max: int, e: LensEdgeV|
            e.to == n.id && !(#[trigger] node_then_edge(a, n, max, e)).truncated ==> shows(
                node_then_edge(a, n, max, e).nodes,
                node_then_edge(a, n, max, e).edges,
                e.from,
                e.to,
                e.kind,
            ),
        forall|n: LensNodeV, max: int, e: LensEdgeV, q: (usize, usize)|
            e.to == n.id && !(#[trigger] node_edge_push(a, n, max, e, q)).truncated ==> shows(
                node_edge_push(a, n, max, e, q).nodes,
                node_edge_push(a, n, max, e, q).edges,
                e.from,
                e.to,
                e.kind,
            ),
{
    assert forall|n: LensNodeV, max: int, e: LensEdgeV|
        e.to == n.id && !(#[trigger] node_then_edge(a, n, max, e)).truncated implies shows(
            node_then_edge(a, n, max, e).nodes,
            node_then_edge(a, n, max, e).edges,
            e.from,
            e.to,
            e.kind,
        ) by {
        lemma_inserted_shows(a.nodes, a.edges, n, max, e);
    }
    assert forall|n: LensNodeV, max: int, e: LensEdgeV, q: (usize, usize)|
        e.to == n.id && !(#[trigger] node_edge_push(a, n, max, e, q)).truncated implies shows(
            node_edge_push(a, n, max, e, q).nodes,
            node_edge_push(a, n, max, e, q).edges,
            e.from,
            e.to,
            e.kind,
        ) by {
        lemma_inserted_shows(a.nodes, a.edges, n, max, e);
    }
    assert forall|n: LensNodeV, max: int, e: LensEdgeV| acc_extends(a, #[trigger] node_then_edge(a, n, max, e)) by {
        lemma_inserted_shows(a.nodes, a.edges, n, max, e);
    }
    assert forall|n: LensNodeV, max: int, e: LensEdgeV, q: (usize, usize)| acc_extends(a, #[trigger] node_edge_push(a, n, max, e, q)) by {
        lemma_inserted_shows(a.nodes, a.edges, n, max, e);
    }
}

proof fn lemma_inserted_shows(ns: Seq<LensNodeV>, es: Seq<LensEdgeV>, n: LensNodeV, max: int, e: LensEdgeV)
    ensures
        ({
            let (ns2, ok) = insert_node(ns, n, max);
            let es2 = insert_edge_spec(es, e);
            &&& ns2.len() >= ns.len()
            &&& forall|k: int| 0 <= k < ns.len() ==> #[trigger] ns2[k] == ns[k]
            &&& es2.len() >= es.len()
            &&& forall|k: int| 0 <= k < es.len() ==> #[trigger] es2[k] == es[k]
            &&& ok ==> has_node(ns2, n.id)
            &&& has_edge(es2, e.from, e.to, e.kind)
        }),
{
    let (ns2, ok) = insert_node(ns, n, max);
    if !has_node(ns, n.id) && ns.len() < max {
        lemma_has_node_push(ns, n);
    }
    let es2 = insert_edge_spec(es, e);
    if has_edge_key(es, e) {
        let k = choose|k: int| 0 <= k < es.len() && same_edge_key(#[trigger] es[k], e);
        assert(es2[k] == es[k]);
    } else {
        assert(es2[es.len() as int] == e);
    }
}

/// The type `name` of `cur`, if declared, is shown with a `UsesType` edge.
pub open spec fn type_shown(ns: Seq<LensNodeV>, es: Seq<LensEdgeV>, cur: ParsedSymbolV, syms: Seq<ParsedSymbolV>, name: Seq<char>) -> bool {
    match first_type_from(syms, name, 0) {
        None => true,
        Some(j) => shows(ns, es, cur.id, syms[j].id, EdgeKind::UsesType),
    }
}

/// A call of `cur`, processed at distance `d`, is shown: its data boundary, its
/// callee when exactly one function has its name and `d` is within the depth, and
/// an unresolved node when not exactly one does.
pub open spec fn call_shown(ns: Seq<LensNodeV>, es: Seq<LensEdgeV>, cur: ParsedSymbolV, d: usize, syms: Seq<ParsedSymbolV>, opts: AnalyzeOptions, call: CallSiteV) -> bool {
    let ms = functions_named(syms, call.name, syms.len() as int);
    &&& (call.boundary matches Some(b) ==> shows(ns, es, cur.id, boundary_id(cur, call, b), EdgeKind::CrossesBoundary))
    &&& (d < opts.depth && ms.len() == 1 ==> shows(ns, es, cur.id, syms[ms[0]].id, EdgeKind::Calls))
    &&& (ms.len() != 1 ==> shows(ns, es, cur.id, unresolved_id(cur, call), EdgeKind::UnresolvedCall))
}

/// `syms[j]`, if it is another function that calls `cur` by name, is shown with a
/// `CalledBy` edge.
pub open spec fn caller_shown(ns: Seq<LensNodeV>, es: Seq<LensEdgeV>, cur: ParsedSymbolV, ci: int, syms: Seq<ParsedSymbolV>, j: int) -> bool {
    (syms[j].kind == ParsedKind::Function && j != ci && calls_name(syms[j].calls, cur.name)) ==> shows(
        ns,
        es,
        cur.id,
        syms[j].id,
        EdgeKind::CalledBy,
    )
}

proof fn lemma_types_shown(a: Acc, cur: ParsedSymbolV, syms: Seq<ParsedSymbolV>, opts: AnalyzeOptions, k: int)
    ensures
        ({
            let r = types_upto(a, cur, syms, opts, k);
            &&& acc_extends(a, r)
            &&& !r.truncated ==> forall|i: int| 0 <= i < k && i < cur.type_names.len() ==> type_shown(r.nodes, r.edges, cur, syms, #[trigger] cur.type_names[i])
        }),
    decreases k,
{
    if k <= 0 {
        assert(acc_extends(a, a));
    } else {
        lemma_types_shown(a, cur, syms, opts, k - 1);
        let b = types_upto(a, cur, syms, opts, k - 1);
        let r = types_upto(a, cur, syms, opts, k);
        lemma_step_shows(b);
        assert(acc_extends(b, r));
        lemma_extends_trans(a, b, r);
        lemma_shows_extends(b, r);
        if !r.truncated {
            assert forall|i: int| 0 <= i < k && i < cur.type_names.len() implies type_shown(r.nodes, r.edges, cur, syms, #[trigger] cur.type_names[i]) by {
                if i < k - 1 {
                    assert(type_shown(b.nodes, b.edges, cur, syms, cur.type_names[i]));
                }
            }
        }
    }
}

proof fn lemma_call_shown(a: Acc, cur: ParsedSymbolV, d: usize, syms: Seq<ParsedSymbolV>, opts: AnalyzeOptions, call: CallSiteV)
    ensures
        ({
            let r = call_step(a, cur, d, syms, opts, call);
            &&& acc_extends(a, r)
            &&& !r.truncated ==> call_shown(r.nodes, r.edges, cur, d, syms, opts, call)
        }),
{
    let max = opts.max_nodes as int;
    lemma_step_shows(a);
    let a1 = boundary_step(a, cur, call, max);
    assert(acc_extends(a, a1)) by {
        if call.boundary is None {
            assert(acc_extends(a, a));
        }
    }
    lemma_step_shows(a1);
    let ms = functions_named(syms, call.name, syms.len() as int);
    let a2 = if d < opts.depth && ms.len() == 1 {
        node_edge_push(
            a1,
            symbol_node(syms[ms[0]], symbol_node_kind(syms[ms[0]], false), opts.link_template@),
            max,
            edge(cur.id, syms[ms[0]].id, EdgeKind::Calls, "call expression at "@ + call_place(cur, call)),
            (ms[0] as usize, (d + 1) as usize),
        )
    } else {
        a1
    };
    assert(acc_extends(a1, a2)) by {
        if !(d < opts.depth && ms.len() == 1) {
            assert(acc_extends(a1, a1));
        }
    }
    lemma_step_shows(a2);
    let r = call_step(a, cur, d, syms, opts, call);
    assert(acc_extends(a2, r)) by {
        if ms.len() == 1 {
            assert(acc_extends(a2, a2));
        }
    }
    lemma_extends_trans(a, a1, a2);
    lemma_extends_trans(a, a2, r);
    lemma_shows_extends(a1, r);
    lemma_shows_extends(a2, r);
    lemma_extends_trans(a1, a2, r);
}

proof fn lemma_calls_shown(a: Acc, cur: ParsedSymbolV, d: usize, syms: Seq<ParsedSymbolV>, opts: AnalyzeOptions, k: int)
    ensures
        ({
            let r = calls_upto(a, cur, d, syms, opts, k);
            &&& acc_extends(a, r)
            &&& !r.truncated ==> forall|i: int| 0 <= i < k && i < cur.calls.len() ==> call_shown(r.nodes, r.edges, cur, d, syms, opts, #[trigger] cur.calls[i])
        }),
    decreases k,
{
    if k <= 0 {
        assert(acc_extends(a, a));
    } else {
        lemma_calls_shown(a, cur, d, syms, opts, k - 1);
        let b = calls_upto(a, cur, d, syms, opts, k - 1);
        let r = calls_upto(a, cur, d, syms, opts, k);
        lemma_call_shown(b, cur, d, syms, opts, cur.calls[k - 1]);
        lemma_extends_trans(a, b, r);
        lemma_shows_extends(b, r);
        if !r.truncated {
            assert forall|i: int| 0 <= i < k && i < cur.calls.len() implies call_shown(r.nodes, r.edges, cur, d, syms, opts, #[trigger] cur.calls[i]) by {
                if i < k - 1 {
                    assert(call_shown(b.nodes, b.edges, cur, d, syms, opts, cur.calls[i]));
                }
            }
        }
    }
}

proof fn lemma_callers_shown(a: Acc, cur: ParsedSymbolV, ci: int, d: usize, syms: Seq<ParsedSymbolV>, opts: AnalyzeOptions, k: int)
    ensures
        ({
            let r = callers_upto(a, cur, ci, d, syms, opts, k);
            &&& acc_extends(a, r)
            &&& !r.truncated ==> forall|j: int| 0 <= j < k ==> #[trigger] caller_shown(r.nodes, r.edges, cur, ci, syms, j)
        }),
    decreases k,
{
    if k <= 0 {
        assert(acc_extends(a, a));
    } else {
        lemma_callers_shown(a, cur, ci, d, syms, opts, k - 1);
        let b = callers_upto(a, cur, ci, d, syms, opts, k - 1);
        let r = callers_upto(a, cur, ci, d, syms, opts, k);
        lemma_step_shows(b);
        assert(acc_extends(b, r)) by {
            if r == b {
                assert(acc_extends(b, b));
            }
        }
        lemma_extends_trans(a, b, r);
        lemma_shows_extends(b, r);
        if !r.truncated {
            assert forall|j: int| 0 <= j < k implies #[trigger] caller_shown(r.nodes, r.edges, cur, ci, syms, j) by {
                if j < k - 1 {
                    assert(caller_shown(b.nodes, b.edges, cur, ci, syms, j));
                }
            }
        }
    }
}

pub open spec fn bfs_acc(st: Bfs) -> Acc {
    Acc { nodes: st.nodes, edges: st.edges, pushed: seq![], truncated: st.truncated }
}

/// The traversal only adds to the graph, and a truncated graph stays truncated.
proof fn lemma_bfs_extends(st: Bfs, syms: Seq<ParsedSymbolV>, opts: AnalyzeOptions, entry: int)
    requires
        queue_ok(st.queue, syms.len() as int),
    ensures
        acc_extends(bfs_acc(st), bfs_acc(bfs_run(st, syms, opts, entry))),
    decreases unvisited(syms, st.visited, syms.len() as int), st.queue.len(),
{
    if st.queue.len() == 0 {
        assert(acc_extends(bfs_acc(st), bfs_acc(st)));
    } else {
        let (next, stop) = visit_step(st, syms, opts, entry);
        let ci = st.queue[0].0 as int;
        let d = st.queue[0].1;
        let cur = syms[ci];
        lemma_unvisited_push(syms, st.visited, cur.id, syms.len() as int, ci);
        lemma_visit_queue_ok(st, syms, opts, entry);
        lemma_visit_extends(st, syms, opts, entry);
        if !stop {
            lemma_bfs_extends(next, syms, opts, entry);
            lemma_extends_trans(bfs_acc(st), bfs_acc(next), bfs_acc(bfs_run(st, syms, opts, entry)));
        }
    }
}

proof fn lemma_visit_extends(st: Bfs, syms: Seq<ParsedSymbolV>, opts: AnalyzeOptions, entry: int)
    requires
        queue_ok(st.queue, syms.len() as int),
        st.queue.len() > 0,
    ensures
        acc_extends(bfs_acc(st), bfs_acc(visit_step(st, syms, opts, entry).0)),
{
    let ci = st.queue[0].0 as int;
    let d = st.queue[0].1;
    let cur = syms[ci];
    let (next, stop) = visit_step(st, syms, opts, entry);
    if st.visited.contains(cur.id) {
        assert(acc_extends(bfs_acc(st), bfs_acc(next)));
    } else {
        let n = symbol_node(cur, symbol_node_kind(cur, ci == entry), opts.link_template@);
        lemma_inserted_shows(st.nodes, st.edges, n, opts.max_nodes as int, edge(seq![], seq![], EdgeKind::Calls, seq![]));
        let (ns, ok) = insert_node(st.nodes, n, opts.max_nodes as int);
        let a0 = Acc { nodes: ns, edges: st.edges, pushed: seq![], truncated: st.truncated };
        assert(acc_extends(bfs_acc(st), a0));
        if ok {
            lemma_types_shown(a0, cur, syms, opts, cur.type_names.len() as int);
            let a1 = types_upto(a0, cur, syms, opts, cur.type_names.len() as int);
            lemma_calls_shown(a1, cur, d, syms, opts, cur.calls.len() as int);
            let a2 = calls_upto(a1, cur, d, syms, opts, cur.calls.len() as int);
            lemma_extends_trans(bfs_acc(st), a0, a1);
            lemma_extends_trans(bfs_acc(st), a1, a2);
            if d < opts.depth {
                lemma_callers_shown(a2, cur, ci, d, syms, opts, syms.len() as int);
                lemma_extends_trans(bfs_acc(st), a2, callers_upto(a2, cur, ci, d, syms, opts, syms.len() as int));
            }
        }
    }
}

/// Unless the node budget truncated the graph, the requested symbol's own
/// evidence is all in it: each declared type it names (`UsesType`), each data
/// boundary that one of its calls crosses, each call that resolves to exactly one
/// function when the depth allows a step (`Calls`), each call that does not
/// resolve as an unresolved node (`UnresolvedCall`), and, when the depth allows a
/// step, each other function that calls it by name (`CalledBy`).
pub proof fn lemma_entry_evidence_is_shown(opts: AnalyzeOptions, root: Seq<char>, scan: ScanOutcome)
    requires
        analysis_of(opts, root, scan@) is Ok,
        !(analysis_of(opts, root, scan@)->Ok_0).limits.truncated,
    ensures
        ({
            let g = analysis_of(opts, root, scan@)->Ok_0;
            let syms = scan@.symbols;
            let ci = candidates(syms, opts.symbol@, syms.len() as int)[0];
            let cur = syms[ci];
            &&& forall|i: int| 0 <= i < cur.type_names.len() ==> type_shown(g.nodes, g.edges, cur, syms, #[trigger] cur.type_names[i])
            &&& forall|i: int| 0 <= i < cur.calls.len() ==> call_shown(g.nodes, g.edges, cur, 0, syms, opts, #[trigger] cur.calls[i])
            &&& 0 < opts.depth ==> forall|j: int| 0 <= j < syms.len() ==> #[trigger] caller_shown(g.nodes, g.edges, cur, ci, syms, j)
        }),
{
    let syms = scan@.symbols;
    assert(syms.len() == scan.symbols.len());
    let cs = candidates(syms, opts.symbol@, syms.len() as int);
    lemma_candidates_bounds(syms, opts.symbol@, syms.len() as int);
    let entry = cs[0];
    let cur = syms[entry];
    let init = initial_bfs(entry);
    assert(init.queue[0].0 == entry);
    assert(!init.visited.contains(cur.id));
    assert(queue_ok(init.queue, syms.len() as int));
    lemma_visit_queue_ok(init, syms, opts, entry);
    let (next, stop) = visit_step(init, syms, opts, entry);
    let fin = bfs_run(init, syms, opts, entry);
    assert(!fin.truncated);
    lemma_unvisited_push(syms, init.visited, cur.id, syms.len() as int, entry);
    assert(!stop);
    assert(fin == bfs_run(next, syms, opts, entry));
    lemma_bfs_extends(next, syms, opts, entry);
    let n = symbol_node(cur, symbol_node_kind(cur, true), opts.link_template@);
    let (ns, ok) = insert_node(init.nodes, n, opts.max_nodes as int);
    let a0 = Acc { nodes: ns, edges: init.edges, pushed: seq![], truncated: false };
    lemma_types_shown(a0, cur, syms, opts, cur.type_names.len() as int);
    let a1 = types_upto(a0, cur, syms, opts, cur.type_names.len() as int);
    lemma_calls_shown(a1, cur, 0, syms, opts, cur.calls.len() as int);
    let a2 = calls_upto(a1, cur, 0, syms, opts, cur.calls.len() as int);
    let a3 = if 0 < opts.depth {
        callers_upto(a2, cur, entry, 0, syms, opts, syms.len() as int)
    } else {
        a2
    };
    if 0 < opts.depth {
        lemma_callers_shown(a2, cur, entry, 0, syms, opts, syms.len() as int);
    } else {
        assert(acc_extends(a2, a2));
    }
    assert(next.nodes == a3.nodes && next.edges == a3.edges && next.truncated == a3.truncated);
    assert(acc_extends(a3, bfs_acc(fin)));
    assert(!a3.truncated);
    assert(!a2.truncated);
    assert(!a1.truncated);
    lemma_shows_extends(a1, a2);
    lemma_extends_trans(a1, a2, a3);
    lemma_extends_trans(a2, a3, bfs_acc(fin));
    lemma_extends_trans(a1, a3, bfs_acc(fin));
    lemma_shows_extends(a1, bfs_acc(fin));
    lemma_shows_extends(a2, bfs_acc(fin));
    lemma_shows_extends(a3, bfs_acc(fin));
    lemma_sorted_shows(fin.nodes, fin.edges);
    let g = analysis_of(opts, root, scan@)->Ok_0;
    assert forall|i: int| 0 <= i < cur.type_names.len() implies type_shown(g.nodes, g.edges, cur, syms, #[trigger] cur.type_names[i]) by {
        assert(type_shown(a1.nodes, a1.edges, cur, syms, cur.type_names[i]));
    }
    assert forall|i: int| 0 <= i < cur.calls.len() implies call_shown(g.nodes, g.edges, cur, 0, syms, opts, #[trigger] cur.calls[i]) by {
        assert(call_shown(a2.nodes, a2.edges, cur, 0, syms, opts, cur.calls[i]));
    }
    if 0 < opts.depth {
        assert forall|j: int| 0 <= j < syms.len() implies #[trigger] caller_shown(g.nodes, g.edges, cur, entry, syms, j) by {
            assert(caller_shown(a3.nodes, a3.edges, cur, entry, syms, j));
        }
    }
}

/// Sorting the nodes and edges keeps what they show.
proof fn lemma_sorted_shows(ns: Seq<LensNodeV>, es: Seq<LensEdgeV>)
    ensures
        forall|from: Seq<char>, to: Seq<char>, kind: EdgeKind|
            shows(ns, es, from, to, kind) ==> #[trigger] shows(
                sorted_in_order::<LensNode>(ns),
                sorted_in_order::<LensEdge>(es),
                from,
                to,
                kind,
            ),
{
    let sn = sorted_in_order::<LensNode>(ns);
    let se = sorted_in_order::<LensEdge>(es);
    lemma_sorted_elements::<LensNode>(ns);
    lemma_sorted_elements::<LensEdge>(es);
    assert forall|from: Seq<char>, to: Seq<char>, kind: EdgeKind|
        shows(ns, es, from, to, kind) implies #[trigger] shows(sn, se, from, to, kind) by {
        let i = choose|i: int| 0 <= i < ns.len() && (#[trigger] ns[i]).id == to;
        assert(ns.contains(ns[i]));
        assert(sn.contains(ns[i]));
        let p = choose|p: int| 0 <= p < sn.len() && sn[p] == ns[i];
        assert(sn[p].id == to);
        let k = choose|k: int| 0 <= k < es.len() && (#[trigger] es[k]).from == from && es[k].to == to && es[k].kind == kind;
        assert(es.contains(es[k]));
        assert(se.contains(es[k]));
        let m = choose|m: int| 0 <= m < se.len() && se[m] == es[k];
        assert(se[m].from == from);
    }
}

/// A traced graph's warnings are the scan's own, then the node-budget warning
/// exactly when the graph is truncated, then the generated-files warning exactly
/// when generated files were skipped, and the static-approximation warning last.
pub proof fn lemma_warnings_explain_the_graph(opts: AnalyzeOptions, root: Seq<char>, scan: ScanOutcome)
    requires
        analysis_of(opts, root, scan@) is Ok,
    ensures
        ({
            let g = analysis_of(opts, root, scan@)->Ok_0;
            let n = scan@.warnings.len();
            let extra = g.warnings.subrange(n as int, g.warnings.len() as int);
            &&& g.warnings.len() >= n + 1
            &&& g.warnings.subrange(0, n as int) == scan@.warnings
            &&& g.warnings.last() == approximation_warning()
            &&& g.limits.truncated <==> extra.contains(budget_warning(opts.max_nodes))
            &&& scan@.summary.skipped_generated > 0 <==> extra.contains(generated_warning(scan@.summary.skipped_generated))
            &&& extra.len() == 1 + (if g.limits.truncated { 1int } else { 0int }) + (if scan@.summary.skipped_generated > 0 {
                1int
            } else {
                0int
            })
        }),
{
    let g = analysis_of(opts, root, scan@)->Ok_0;
    let w = scan@.warnings;
    let n = w.len();
    let extra = g.warnings.subrange(n as int, g.warnings.len() as int);
    let b = budget_warning(opts.max_nodes);
    let gw = generated_warning(scan@.summary.skipped_generated);
    let a = approximation_warning();
    reveal_strlit("Graph reached the ");
    reveal_strlit("Skipped ");
    reveal_strlit("Static approximation: dynamic dispatch, reflection, macros, generated code, and runtime configuration may change the executed path.");
    assert(b[0] == 'G');
    assert(gw[0] == 'S' && gw[1] == 'k');
    assert(a[0] == 'S' && a[1] == 't');
    assert(b != gw && b != a && gw != a);
    assert(g.warnings.subrange(0, n as int) =~= w);
    let t = g.limits.truncated;
    let sk = scan@.summary.skipped_generated > 0;
    if t && sk {
        assert(extra =~= seq![b, gw, a]);
    } else if t {
        assert(extra =~= seq![b, a]);
    } else if sk {
        assert(extra =~= seq![gw, a]);
    } else {
        assert(extra =~= seq![a]);
    }
}

// ----------------------------------------------------------------------------
// Depth zero
// ----------------------------------------------------------------------------

/// No edge follows a call step: none is `Calls` or `CalledBy`.
pub open spec fn no_call_steps(es: Seq<LensEdgeV>) -> bool {
    forall|k: int| 0 <= k < es.len() ==> (#[trigger] es[k]).kind != EdgeKind::Calls && es[k].kind != EdgeKind::CalledBy
}

proof fn lemma_step_keeps_no_call_steps(a: Acc)
    requires
        no_call_steps(a.edges),
    ensures
        forall|n: LensNodeV, max: int, e: LensEdgeV|
            e.kind != EdgeKind::Calls && e.kind != EdgeKind::CalledBy ==> no_call_steps(
                (#[trigger] node_then_edge(a, n, max, e)).edges,
            ),
{
    assert forall|n: LensNodeV, max: int, e: LensEdgeV|
        e.kind != EdgeKind::Calls && e.kind != EdgeKind::CalledBy implies no_call_steps(
            (#[trigger] node_then_edge(a, n, max, e)).edges,
        ) by {
        let es2 = insert_edge_spec(a.edges, e);
        if !has_edge_key(a.edges, e) {
            assert forall|k: int| 0 <= k < es2.len() implies (#[trigger] es2[k]).kind != EdgeKind::Calls && es2[k].kind
                != EdgeKind::CalledBy by {
                if k < a.edges.len() {
                    assert(es2[k] == a.edges[k]);
                }
            }
        }
    }
}

proof fn lemma_depth_zero_visit(st: Bfs, syms: Seq<ParsedSymbolV>, opts: AnalyzeOptions, entry: int)
    requires
        opts.depth == 0,
        no_call_steps(st.edges),
        queue_ok(st.queue, syms.len() as int),
        st.queue.len() > 0,
    ensures
        no_call_steps(visit_step(st, syms, opts, entry).0.edges),
{
    let ci = st.queue[0].0 as int;
    let d = st.queue[0].1;
    let cur = syms[ci];
    if !st.visited.contains(cur.id) {
        let (ns, ok) = insert_node(st.nodes, symbol_node(cur, symbol_node_kind(cur, ci == entry), opts.link_template@), opts.max_nodes as int);
        if ok {
            let a0 = Acc { nodes: ns, edges: st.edges, pushed: seq![], truncated: st.truncated };
            lemma_depth_zero_types(a0, cur, syms, opts, cur.type_names.len() as int);
            let a1 = types_upto(a0, cur, syms, opts, cur.type_names.len() as int);
            lemma_depth_zero_calls(a1, cur, d, syms, opts, cur.calls.len() as int);
        }
    }
}

proof fn lemma_depth_zero_types(a: Acc, cur: ParsedSymbolV, syms: Seq<ParsedSymbolV>, opts: AnalyzeOptions, k: int)
    requires
        no_call_steps(a.edges),
    ensures
        no_call_steps(types_upto(a, cur, syms, opts, k).edges),
    decreases k,
{
    if k > 0 {
        lemma_depth_zero_types(a, cur, syms, opts, k - 1);
        lemma_step_keeps_no_call_steps(types_upto(a, cur, syms, opts, k - 1));
    }
}

proof fn lemma_depth_zero_calls(a: Acc, cur: ParsedSymbolV, d: usize, syms: Seq<ParsedSymbolV>, opts: AnalyzeOptions, k: int)
    requires
        opts.depth == 0,
        no_call_steps(a.edges),
    ensures
        no_call_steps(calls_upto(a, cur, d, syms, opts, k).edges),
    decreases k,
{
    if k > 0 {
        lemma_depth_zero_calls(a, cur, d, syms, opts, k - 1);
        let b = calls_upto(a, cur, d, syms, opts, k - 1);
        lemma_step_keeps_no_call_steps(b);
        let b1 = boundary_step(b, cur, cur.calls[k - 1], opts.max_nodes as int);
        lemma_step_keeps_no_call_steps(b1);
    }
}

proof fn lemma_depth_zero_run(st: Bfs, syms: Seq<ParsedSymbolV>, opts: AnalyzeOptions, entry: int)
    requires
        opts.depth == 0,
        no_call_steps(st.edges),
        queue_ok(st.queue, syms.len() as int),
    ensures
        no_call_steps(bfs_run(st, syms, opts, entry).edges),
    decreases unvisited(syms, st.visited, syms.len() as int), st.queue.len(),
{
    if st.queue.len() > 0 {
        let (next, stop) = visit_step(st, syms, opts, entry);
        let ci = st.queue[0].0 as int;
        lemma_unvisited_push(syms, st.visited, syms[ci].id, syms.len() as int, ci);
        lemma_visit_queue_ok(st, syms, opts, entry);
        lemma_depth_zero_visit(st, syms, opts, entry);
        if !stop {
            lemma_depth_zero_run(next, syms, opts, entry);
        }
    }
}

/// With depth 0 no call step is taken: the graph has no `Calls` and no `CalledBy`
/// edge.
pub proof fn lemma_depth_zero_takes_no_call_step(opts: AnalyzeOptions, root: Seq<char>, scan: ScanOutcome)
    requires
        analysis_of(opts, root, scan@) is Ok,
        opts.depth == 0,
    ensures
        no_call_steps((analysis_of(opts, root, scan@)->Ok_0).edges),
{
    let syms = scan@.symbols;
    let cs = candidates(syms, opts.symbol@, syms.len() as int);
    lemma_candidates_bounds(syms, opts.symbol@, syms.len() as int);
    let init = initial_bfs(cs[0]);
    assert(queue_ok(init.queue, syms.len() as int));
    lemma_depth_zero_run(init, syms, opts, cs[0]);
    let es = bfs_run(init, syms, opts, cs[0]).edges;
    let se = sorted_in_order::<LensEdge>(es);
    lemma_sorted_elements::<LensEdge>(es);
    assert forall|k: int| 0 <= k < se.len() implies (#[trigger] se[k]).kind != EdgeKind::Calls && se[k].kind
        != EdgeKind::CalledBy by {
        assert(se.contains(se[k]));
        let j = choose|j: int| 0 <= j < es.len() && es[j] == se[k];
        assert(es[j].kind != EdgeKind::Calls);
    }
}

// ----------------------------------------------------------------------------
// Every function's own evidence
// ----------------------------------------------------------------------------

/// A node that shows a function (the entry included).
pub open spec fn is_function_node(n: LensNodeV) -> bool {
    n.kind == NodeKind::Entry || n.kind == NodeKind::Function
}

/// A call's data boundary and, when not exactly one function has its name, its
/// unresolved node are shown.
pub open spec fn call_seen(ns: Seq<LensNodeV>, es: Seq<LensEdgeV>, cur: ParsedSymbolV, syms: Seq<ParsedSymbolV>, call: CallSiteV) -> bool {
    let ms = functions_named(syms, call.name, syms.len() as int);
    &&& (call.boundary matches Some(b) ==> shows(ns, es, cur.id, boundary_id(cur, call, b), EdgeKind::CrossesBoundary))
    &&& (ms.len() != 1 ==> shows(ns, es, cur.id, unresolved_id(cur, call), EdgeKind::UnresolvedCall))
}

/// The evidence a function carries whatever the depth: the declared types it names,
/// and the data boundaries and unresolved targets of its calls.
pub open spec fn own_evidence_shown(ns: Seq<LensNodeV>, es: Seq<LensEdgeV>, s: ParsedSymbolV, syms: Seq<ParsedSymbolV>) -> bool {
    &&& forall|i: int| 0 <= i < s.type_names.len() ==> type_shown(ns, es, s, syms, #[trigger] s.type_names[i])
    &&& forall|i: int| 0 <= i < s.calls.len() ==> call_seen(ns, es, s, syms, #[trigger] s.calls[i])
}

/// Some symbol with this id has its own evidence shown.
pub open spec fn evidence_shown_for(ns: Seq<LensNodeV>, es: Seq<LensEdgeV>, syms: Seq<ParsedSymbolV>, id: Seq<char>) -> bool {
    exists|j: int| 0 <= j < syms.len() && syms[j].id == id && #[trigger] own_evidence_shown(ns, es, syms[j], syms)
}

/// Some entry of the queue names a symbol with this id.
pub open spec fn in_queue(q: Seq<(usize, usize)>, syms: Seq<ParsedSymbolV>, id: Seq<char>) -> bool {
    exists|i: int| 0 <= i < q.len() && syms[(#[trigger] q[i]).0 as int].id == id
}

/// Every function node of `a` has its id processed, queued, or newly queued.
pub open spec fn covered_all(a: Acc, syms: Seq<ParsedSymbolV>, visited: Seq<Seq<char>>, rest: Seq<(usize, usize)>) -> bool {
    forall|k: int|
        0 <= k < a.nodes.len() && is_function_node(#[trigger] a.nodes[k]) ==> (visited.contains(a.nodes[k].id) || in_queue(
            rest,
            syms,
            a.nodes[k].id,
        ) || in_queue(a.pushed, syms, a.nodes[k].id))
}

proof fn lemma_step_covers(a: Acc, syms: Seq<ParsedSymbolV>, visited: Seq<Seq<char>>, rest: Seq<(usize, usize)>)
    requires
        covered_all(a, syms, visited, rest),
    ensures
        forall|n: LensNodeV, max: int, e: LensEdgeV|
            !is_function_node(n) ==> covered_all(#[trigger] node_then_edge(a, n, max, e), syms, visited, rest),
        forall|n: LensNodeV, max: int, e: LensEdgeV, q: (usize, usize)|
            syms[q.0 as int].id == n.id ==> covered_all(#[trigger] node_edge_push(a, n, max, e, q), syms, visited, rest),
{
    assert forall|n: LensNodeV, max: int, e: LensEdgeV|
        !is_function_node(n) implies covered_all(#[trigger] node_then_edge(a, n, max, e), syms, visited, rest) by {
        let r = node_then_edge(a, n, max, e);
        lemma_inserted_shows(a.nodes, a.edges, n, max, e);
        assert forall|k: int|
            0 <= k < r.nodes.len() && is_function_node(#[trigger] r.nodes[k]) implies (visited.contains(r.nodes[k].id)
                || in_queue(rest, syms, r.nodes[k].id) || in_queue(r.pushed, syms, r.nodes[k].id)) by {
            if k < a.nodes.len() {
                assert(r.nodes[k] == a.nodes[k]);
            } else {
                let (ns2, ok) = insert_node(a.nodes, n, max);
                assert(ns2 == a.nodes.push(n));
                assert(r.nodes[k] == n);
            }
        }
    }
    assert forall|n: LensNodeV, max: int, e: LensEdgeV, q: (usize, usize)|
        syms[q.0 as int].id == n.id implies covered_all(#[trigger] node_edge_push(a, n, max, e, q), syms, visited, rest) by {
        let r = node_edge_push(a, n, max, e, q);
        lemma_inserted_shows(a.nodes, a.edges, n, max, e);
        let (ns2, ok) = insert_node(a.nodes, n, max);
        assert forall|k: int|
            0 <= k < r.nodes.len() && is_function_node(#[trigger] r.nodes[k]) implies (visited.contains(r.nodes[k].id)
                || in_queue(rest, syms, r.nodes[k].id) || in_queue(r.pushed, syms, r.nodes[k].id)) by {
            if k < a.nodes.len() {
                assert(r.nodes[k] == a.nodes[k]);
                if in_queue(a.pushed, syms, a.nodes[k].id) {
                    let i = choose|i: int| 0 <= i < a.pushed.len() && syms[(#[trigger] a.pushed[i]).0 as int].id == a.nodes[k].id;
                    if ok {
                        assert(r.pushed[i] == a.pushed[i]);
                    }
                }
            } else {
                assert(ok);
                assert(ns2 == a.nodes.push(n));
                assert(r.nodes[k] == n);
                assert(r.pushed[a.pushed.len() as int] == q);
            }
        }
    }
}

proof fn lemma_types_cover(a: Acc, cur: ParsedSymbolV, syms: Seq<ParsedSymbolV>, opts: AnalyzeOptions, k: int, visited: Seq<Seq<char>>, rest: Seq<(usize, usize)>)
    requires
        covered_all(a, syms, visited, rest),
    ensures
        covered_all(types_upto(a, cur, syms, opts, k), syms, visited, rest),
    decreases k,
{
    if k > 0 {
        lemma_types_cover(a, cur, syms, opts, k - 1, visited, rest);
        let b = types_upto(a, cur, syms, opts, k - 1);
        lemma_step_covers(b, syms, visited, rest);
        crate::analyzer::lemma_first_type_bounds(syms, cur.type_names[k - 1], 0);
    }
}

proof fn lemma_calls_cover(a: Acc, cur: ParsedSymbolV, d: usize, syms: Seq<ParsedSymbolV>, opts: AnalyzeOptions, k: int, visited: Seq<Seq<char>>, rest: Seq<(usize, usize)>)
    requires
        covered_all(a, syms, visited, rest),
        syms.len() <= usize::MAX,
    ensures
        covered_all(calls_upto(a, cur, d, syms, opts, k), syms, visited, rest),
    decreases k,
{
    if k > 0 {
        lemma_calls_cover(a, cur, d, syms, opts, k - 1, visited, rest);
        let b = calls_upto(a, cur, d, syms, opts, k - 1);
        let call = cur.calls[k - 1];
        lemma_step_covers(b, syms, visited, rest);
        let b1 = boundary_step(b, cur, call, opts.max_nodes as int);
        lemma_step_covers(b1, syms, visited, rest);
        let ms = functions_named(syms, call.name, syms.len() as int);
        crate::analyzer::lemma_functions_named_bounds(syms, call.name, syms.len() as int);
        let b2 = if d < opts.depth && ms.len() == 1 {
            node_edge_push(
                b1,
                symbol_node(syms[ms[0]], symbol_node_kind(syms[ms[0]], false), opts.link_template@),
                opts.max_nodes as int,
                edge(cur.id, syms[ms[0]].id, EdgeKind::Calls, "call expression at "@ + call_place(cur, call)),
                (ms[0] as usize, (d + 1) as usize),
            )
        } else {
            b1
        };
        lemma_step_covers(b2, syms, visited, rest);
    }
}

proof fn lemma_callers_cover(a: Acc, cur: ParsedSymbolV, ci: int, d: usize, syms: Seq<ParsedSymbolV>, opts: AnalyzeOptions, k: int, visited: Seq<Seq<char>>, rest: Seq<(usize, usize)>)
    requires
        covered_all(a, syms, visited, rest),
        k <= syms.len() <= usize::MAX,
    ensures
        covered_all(callers_upto(a, cur, ci, d, syms, opts, k), syms, visited, rest),
    decreases k,
{
    if k > 0 {
        lemma_callers_cover(a, cur, ci, d, syms, opts, k - 1, visited, rest);
        lemma_step_covers(callers_upto(a, cur, ci, d, syms, opts, k - 1), syms, visited, rest);
    }
}

proof fn lemma_own_evidence_extends(a: Acc, b: Acc, syms: Seq<ParsedSymbolV>)
    requires
        acc_extends(a, b),
    ensures
        forall|s: ParsedSymbolV| #[trigger] own_evidence_shown(a.nodes, a.edges, s, syms) ==> own_evidence_shown(b.nodes, b.edges, s, syms),
        forall|id: Seq<char>| #[trigger] evidence_shown_for(a.nodes, a.edges, syms, id) ==> evidence_shown_for(b.nodes, b.edges, syms, id),
{
    lemma_shows_extends(a, b);
    assert forall|s: ParsedSymbolV| #[trigger] own_evidence_shown(a.nodes, a.edges, s, syms) implies own_evidence_shown(b.nodes, b.edges, s, syms) by {
        assert forall|i: int| 0 <= i < s.type_names.len() implies type_shown(b.nodes, b.edges, s, syms, #[trigger] s.type_names[i]) by {
            assert(type_shown(a.nodes, a.edges, s, syms, s.type_names[i]));
        }
        assert forall|i: int| 0 <= i < s.calls.len() implies call_seen(b.nodes, b.edges, s, syms, #[trigger] s.calls[i]) by {
            assert(call_seen(a.nodes, a.edges, s, syms, s.calls[i]));
        }
    }
    assert forall|id: Seq<char>| #[trigger] evidence_shown_for(a.nodes, a.edges, syms, id) implies evidence_shown_for(b.nodes, b.edges, syms, id) by {
        let j = choose|j: int| 0 <= j < syms.len() && syms[j].id == id && #[trigger] own_evidence_shown(a.nodes, a.edges, syms[j], syms);
        assert(own_evidence_shown(b.nodes, b.edges, syms[j], syms));
    }
}

/// Unless the graph is truncated: every function node is processed or queued, and
/// every processed id has its evidence shown.
pub open spec fn bfs_covers(st: Bfs, syms: Seq<ParsedSymbolV>) -> bool {
    st.truncated || {
        &&& covered_all(bfs_acc(st), syms, st.visited, st.queue)
        &&& forall|v: Seq<char>| #[trigger] st.visited.contains(v) ==> evidence_shown_for(st.nodes, st.edges, syms, v)
    }
}

proof fn lemma_visit_covers(st: Bfs, syms: Seq<ParsedSymbolV>, opts: AnalyzeOptions, entry: int)
    requires
        bfs_covers(st, syms),
        queue_ok(st.queue, syms.len() as int),
        st.queue.len() > 0,
        syms.len() <= usize::MAX,
    ensures
        bfs_covers(visit_step(st, syms, opts, entry).0, syms),
{
    let ci = st.queue[0].0 as int;
    let d = st.queue[0].1;
    let cur = syms[ci];
    let rest = st.queue.subrange(1, st.queue.len() as int);
    let (next, stop) = visit_step(st, syms, opts, entry);
    lemma_visit_extends(st, syms, opts, entry);
    if st.truncated {
        return;
    }
    assert(st.queue[0] == st.queue[0]);
    assert forall|id: Seq<char>| in_queue(st.queue, syms, id) implies id == cur.id || in_queue(rest, syms, id) by {
        let i = choose|i: int| 0 <= i < st.queue.len() && syms[(#[trigger] st.queue[i]).0 as int].id == id;
        if i > 0 {
            assert(rest[i - 1] == st.queue[i]);
        }
    }
    if st.visited.contains(cur.id) {
        assert forall|k: int|
            0 <= k < next.nodes.len() && is_function_node(#[trigger] bfs_acc(next).nodes[k]) implies (next.visited.contains(
                bfs_acc(next).nodes[k].id,
            ) || in_queue(next.queue, syms, bfs_acc(next).nodes[k].id) || in_queue(bfs_acc(next).pushed, syms, bfs_acc(next).nodes[k].id)) by {
            assert(bfs_acc(st).nodes[k] == bfs_acc(next).nodes[k]);
        }
    } else {
        let visited = st.visited.push(cur.id);
        assert(visited[st.visited.len() as int] == cur.id);
        assert forall|x: Seq<char>| st.visited.contains(x) implies #[trigger] visited.contains(x) by {
            let k = choose|k: int| 0 <= k < st.visited.len() && st.visited[k] == x;
            assert(visited[k] == x);
        }
        let n = symbol_node(cur, symbol_node_kind(cur, ci == entry), opts.link_template@);
        let (ns, ok) = insert_node(st.nodes, n, opts.max_nodes as int);
        if ok {
            lemma_inserted_shows(st.nodes, st.edges, n, opts.max_nodes as int, edge(seq![], seq![], EdgeKind::Calls, seq![]));
            let a0 = Acc { nodes: ns, edges: st.edges, pushed: seq![], truncated: st.truncated };
            assert(covered_all(a0, syms, visited, rest)) by {
                assert forall|k: int| 0 <= k < a0.nodes.len() && is_function_node(#[trigger] a0.nodes[k]) implies (visited.contains(
                    a0.nodes[k].id,
                ) || in_queue(rest, syms, a0.nodes[k].id) || in_queue(a0.pushed, syms, a0.nodes[k].id)) by {
                    if k < st.nodes.len() {
                        assert(a0.nodes[k] == st.nodes[k]);
                        assert(bfs_acc(st).nodes[k] == st.nodes[k]);
                        if in_queue(st.queue, syms, st.nodes[k].id) {
                            if st.nodes[k].id == cur.id {
                                assert(visited.contains(cur.id));
                            }
                        }
                    } else {
                        assert(ns == st.nodes.push(n));
                        assert(a0.nodes[k] == n);
                        assert(visited.contains(cur.id));
                    }
                }
            }
            lemma_types_cover(a0, cur, syms, opts, cur.type_names.len() as int, visited, rest);
            lemma_types_shown(a0, cur, syms, opts, cur.type_names.len() as int);
            let a1 = types_upto(a0, cur, syms, opts, cur.type_names.len() as int);
            lemma_calls_cover(a1, cur, d, syms, opts, cur.calls.len() as int, visited, rest);
            lemma_calls_shown(a1, cur, d, syms, opts, cur.calls.len() as int);
            let a2 = calls_upto(a1, cur, d, syms, opts, cur.calls.len() as int);
            lemma_extends_trans(a0, a1, a2);
            let a3 = if d < opts.depth {
                callers_upto(a2, cur, ci, d, syms, opts, syms.len() as int)
            } else {
                a2
            };
            if d < opts.depth {
                lemma_callers_cover(a2, cur, ci, d, syms, opts, syms.len() as int, visited, rest);
                lemma_callers_shown(a2, cur, ci, d, syms, opts, syms.len() as int);
            } else {
                assert(acc_extends(a2, a2));
            }
            lemma_extends_trans(a1, a2, a3);
            lemma_extends_trans(a0, a2, a3);
            assert(next.nodes == a3.nodes && next.edges == a3.edges && next.truncated == a3.truncated);
            assert(next.queue == rest + a3.pushed);
            if !a3.truncated {
                assert(!a2.truncated && !a1.truncated);
                lemma_own_evidence_extends(a1, a3, syms);
                lemma_own_evidence_extends(a2, a3, syms);
                lemma_own_evidence_extends(bfs_acc(st), a3, syms);
                assert(own_evidence_shown(a3.nodes, a3.edges, cur, syms)) by {
                    lemma_shows_extends(a1, a3);
                    lemma_shows_extends(a2, a3);
                    assert forall|i: int| 0 <= i < cur.type_names.len() implies type_shown(a3.nodes, a3.edges, cur, syms, #[trigger] cur.type_names[i]) by {
                        assert(type_shown(a1.nodes, a1.edges, cur, syms, cur.type_names[i]));
                    }
                    assert forall|i: int| 0 <= i < cur.calls.len() implies call_seen(a3.nodes, a3.edges, cur, syms, #[trigger] cur.calls[i]) by {
                        assert(call_shown(a2.nodes, a2.edges, cur, d, syms, opts, cur.calls[i]));
                    }
                }
                assert(evidence_shown_for(a3.nodes, a3.edges, syms, cur.id));
                assert forall|v: Seq<char>| #[trigger] next.visited.contains(v) implies evidence_shown_for(next.nodes, next.edges, syms, v) by {
                    if v != cur.id {
                        let k = choose|k: int| 0 <= k < visited.len() && visited[k] == v;
                        assert(k < st.visited.len());
                        assert(st.visited[k] == v);
                        assert(st.visited.contains(v));
                        assert(evidence_shown_for(st.nodes, st.edges, syms, v));
                    }
                }
                assert forall|k: int|
                    0 <= k < next.nodes.len() && is_function_node(#[trigger] bfs_acc(next).nodes[k]) implies (next.visited.contains(
                        bfs_acc(next).nodes[k].id,
                    ) || in_queue(next.queue, syms, bfs_acc(next).nodes[k].id) || in_queue(bfs_acc(next).pushed, syms, bfs_acc(next).nodes[k].id)) by {
                    let id = a3.nodes[k].id;
                    assert(bfs_acc(next).nodes[k] == a3.nodes[k]);
                    if in_queue(rest, syms, id) {
                        let i = choose|i: int| 0 <= i < rest.len() && syms[(#[trigger] rest[i]).0 as int].id == id;
                        assert(next.queue[i] == rest[i]);
                    } else if in_queue(a3.pushed, syms, id) {
                        let i = choose|i: int| 0 <= i < a3.pushed.len() && syms[(#[trigger] a3.pushed[i]).0 as int].id == id;
                        assert(next.queue[rest.len() + i] == a3.pushed[i]);
                    }
                }
            }
        }
    }
}

proof fn lemma_bfs_covers(st: Bfs, syms: Seq<ParsedSymbolV>, opts: AnalyzeOptions, entry: int)
    requires
        bfs_covers(st, syms),
        queue_ok(st.queue, syms.len() as int),
        syms.len() <= usize::MAX,
    ensures
        bfs_covers(bfs_run(st, syms, opts, entry), syms),
        bfs_run(st, syms, opts, entry).truncated || bfs_run(st, syms, opts, entry).queue.len() == 0,
    decreases unvisited(syms, st.visited, syms.len() as int), st.queue.len(),
{
    if st.queue.len() > 0 {
        let (next, stop) = visit_step(st, syms, opts, entry);
        let ci = st.queue[0].0 as int;
        lemma_unvisited_push(syms, st.visited, syms[ci].id, syms.len() as int, ci);
        lemma_visit_queue_ok(st, syms, opts, entry);
        lemma_visit_covers(st, syms, opts, entry);
        if !stop {
            lemma_bfs_covers(next, syms, opts, entry);
        }
    }
}

/// Unless the node budget truncated the graph, every function in it shows the
/// evidence it carries at any depth: each declared type it names with a
/// `UsesType` edge, each data boundary its calls cross, and each of its calls that
/// does not resolve to exactly one function as an unresolved node with an
/// `UnresolvedCall` edge.
pub proof fn lemma_no_evidence_is_hidden(opts: AnalyzeOptions, root: Seq<char>, scan: ScanOutcome)
    requires
        analysis_of(opts, root, scan@) is Ok,
        !(analysis_of(opts, root, scan@)->Ok_0).limits.truncated,
    ensures
        ({
            let g = analysis_of(opts, root, scan@)->Ok_0;
            forall|k: int|
                0 <= k < g.nodes.len() && is_function_node(#[trigger] g.nodes[k]) ==> evidence_shown_for(
                    g.nodes,
                    g.edges,
                    scan@.symbols,
                    g.nodes[k].id,
                )
        }),
{
    let syms = scan@.symbols;
    assert(syms.len() == scan.symbols.len());
    let cs = candidates(syms, opts.symbol@, syms.len() as int);
    lemma_candidates_bounds(syms, opts.symbol@, syms.len() as int);
    let init = initial_bfs(cs[0]);
    assert(queue_ok(init.queue, syms.len() as int));
    assert(bfs_covers(init, syms));
    lemma_bfs_covers(init, syms, opts, cs[0]);
    let fin = bfs_run(init, syms, opts, cs[0]);
    let g = analysis_of(opts, root, scan@)->Ok_0;
    let sn = sorted_in_order::<LensNode>(fin.nodes);
    let se = sorted_in_order::<LensEdge>(fin.edges);
    lemma_sorted_elements::<LensNode>(fin.nodes);
    lemma_sorted_shows(fin.nodes, fin.edges);
    assert forall|k: int|
        0 <= k < g.nodes.len() && is_function_node(#[trigger] g.nodes[k]) implies evidence_shown_for(
            g.nodes,
            g.edges,
            syms,
            g.nodes[k].id,
        ) by {
        assert(sn.contains(sn[k]));
        let m = choose|m: int| 0 <= m < fin.nodes.len() && fin.nodes[m] == sn[k];
        assert(bfs_acc(fin).nodes[m] == fin.nodes[m]);
        assert(!in_queue(fin.queue, syms, fin.nodes[m].id));
        assert(!in_queue(bfs_acc(fin).pushed, syms, fin.nodes[m].id));
        assert(fin.visited.contains(fin.nodes[m].id));
        let id = fin.nodes[m].id;
        assert(evidence_shown_for(fin.nodes, fin.edges, syms, id));
        let j = choose|j: int| 0 <= j < syms.len() && syms[j].id == id && #[trigger] own_evidence_shown(fin.nodes, fin.edges, syms[j], syms);
        let s = syms[j];
        assert forall|i: int| 0 <= i < s.type_names.len() implies type_shown(sn, se, s, syms, #[trigger] s.type_names[i]) by {
            assert(type_shown(fin.nodes, fin.edges, s, syms, s.type_names[i]));
        }
        assert forall|i: int| 0 <= i < s.calls.len() implies call_seen(sn, se, s, syms, #[trigger] s.calls[i]) by {
            assert(call_seen(fin.nodes, fin.edges, s, syms, s.calls[i]));
        }
        assert(own_evidence_shown(sn, se, s, syms));
    }
}

// ----------------------------------------------------------------------------
// What one symbol's calls add
// ----------------------------------------------------------------------------

/// `b` only adds to `a`: nodes and edges stay in place, truncation stays, the node
/// list grows past neither its old length nor the budget, and the queue entries
/// added after `a`'s are functions at distance `d + 1`, taken within the depth.
pub open spec fn only_adds_calls(a: Acc, b: Acc, d: usize, syms: Seq<ParsedSymbolV>, opts: AnalyzeOptions) -> bool {
    &&& acc_extends(a, b)
    &&& b.nodes.len() <= a.nodes.len() || b.nodes.len() <= opts.max_nodes
    &&& a.pushed.len() <= b.pushed.len()
    &&& forall|k: int| 0 <= k < a.pushed.len() ==> #[trigger] b.pushed[k] == a.pushed[k]
    &&& forall|k: int|
        a.pushed.len() <= k < b.pushed.len() ==> {
            &&& (#[trigger] b.pushed[k]).0 < syms.len()
            &&& syms[b.pushed[k].0 as int].kind == ParsedKind::Function
            &&& b.pushed[k].1 == d + 1
            &&& d < opts.depth
        }
}

proof fn lemma_only_adds_trans(a: Acc, b: Acc, c: Acc, d: usize, syms: Seq<ParsedSymbolV>, opts: AnalyzeOptions)
    requires
        only_adds_calls(a, b, d, syms, opts),
        only_adds_calls(b, c, d, syms, opts),
    ensures
        only_adds_calls(a, c, d, syms, opts),
{
    lemma_extends_trans(a, b, c);
    assert forall|k: int| 0 <= k < a.pushed.len() implies #[trigger] c.pushed[k] == a.pushed[k] by {
        assert(c.pushed[k] == b.pushed[k]);
    }
    assert forall|k: int| a.pushed.len() <= k < c.pushed.len() implies {
        &&& (#[trigger] c.pushed[k]).0 < syms.len()
        &&& syms[c.pushed[k].0 as int].kind == ParsedKind::Function
        &&& c.pushed[k].1 == d + 1
        &&& d < opts.depth
    } by {
        if k < b.pushed.len() {
            assert(c.pushed[k] == b.pushed[k]);
        }
    }
}

proof fn lemma_node_steps_only_add(a: Acc, d: usize, syms: Seq<ParsedSymbolV>, opts: AnalyzeOptions)
    ensures
        forall|n: LensNodeV, e: LensEdgeV| only_adds_calls(a, #[trigger] node_then_edge(a, n, opts.max_nodes as int, e), d, syms, opts),
        forall|n: LensNodeV, e: LensEdgeV, q: (usize, usize)|
            (q.0 < syms.len() && syms[q.0 as int].kind == ParsedKind::Function && q.1 == d + 1 && d < opts.depth)
                ==> only_adds_calls(a, #[trigger] node_edge_push(a, n, opts.max_nodes as int, e, q), d, syms, opts),
{
    let max = opts.max_nodes as int;
    lemma_step_shows(a);
    assert forall|n: LensNodeV, e: LensEdgeV| only_adds_calls(a, #[trigger] node_then_edge(a, n, max, e), d, syms, opts) by {
        assert(acc_extends(a, node_then_edge(a, n, max, e)));
    }
    assert forall|n: LensNodeV, e: LensEdgeV, q: (usize, usize)|
        (q.0 < syms.len() && syms[q.0 as int].kind == ParsedKind::Function && q.1 == d + 1 && d < opts.depth)
            implies only_adds_calls(a, #[trigger] node_edge_push(a, n, max, e, q), d, syms, opts) by {
        let r = node_edge_push(a, n, max, e, q);
        assert(acc_extends(a, r));
        let (ns, ok) = insert_node(a.nodes, n, max);
        if ok {
            assert(r.pushed == a.pushed.push(q));
            assert forall|k: int| 0 <= k < a.pushed.len() implies #[trigger] r.pushed[k] == a.pushed[k] by {}
        }
    }
}

proof fn lemma_call_step_only_adds(a: Acc, cur: ParsedSymbolV, d: usize, syms: Seq<ParsedSymbolV>, opts: AnalyzeOptions, call: CallSiteV)
    requires
        syms.len() <= usize::MAX,
    ensures
        only_adds_calls(a, call_step(a, cur, d, syms, opts, call), d, syms, opts),
{
    let max = opts.max_nodes as int;
    lemma_node_steps_only_add(a, d, syms, opts);
    let a1 = boundary_step(a, cur, call, max);
    assert(only_adds_calls(a, a1, d, syms, opts)) by {
        if call.boundary is None {
            assert(acc_extends(a, a));
        }
    }
    lemma_node_steps_only_add(a1, d, syms, opts);
    let ms = functions_named(syms, call.name, syms.len() as int);
    crate::analyzer::lemma_functions_named_bounds(syms, call.name, syms.len() as int);
    let a2 = if d < opts.depth && ms.len() == 1 {
        node_edge_push(
            a1,
            symbol_node(syms[ms[0]], symbol_node_kind(syms[ms[0]], false), opts.link_template@),
            max,
            edge(cur.id, syms[ms[0]].id, EdgeKind::Calls, "call expression at "@ + call_place(cur, call)),
            (ms[0] as usize, (d + 1) as usize),
        )
    } else {
        a1
    };
    assert(only_adds_calls(a1, a2, d, syms, opts)) by {
        if !(d < opts.depth && ms.len() == 1) {
            assert(acc_extends(a1, a1));
        }
    }
    lemma_node_steps_only_add(a2, d, syms, opts);
    let r = call_step(a, cur, d, syms, opts, call);
    assert(only_adds_calls(a2, r, d, syms, opts)) by {
        if ms.len() == 1 {
            assert(acc_extends(a2, a2));
        }
    }
    lemma_only_adds_trans(a, a1, a2, d, syms, opts);
    lemma_only_adds_trans(a, a2, r, d, syms, opts);
}

/// Adding the evidence of a symbol's calls (what `Builder::add_call_evidence`
/// does) only adds: every node and edge already there stays where it is, a
/// truncated graph stays truncated, the node list outgrows neither its old length
/// nor the node budget, the queue keeps its entries in front, and each entry it
/// gains is a function at distance `d + 1`, queued only while `d` is within the
/// depth.
pub proof fn lemma_call_evidence_only_adds(a: Acc, cur: ParsedSymbolV, d: usize, syms: Seq<ParsedSymbolV>, opts: AnalyzeOptions, k: int)
    requires
        syms.len() <= usize::MAX,
    ensures
        only_adds_calls(a, calls_upto(a, cur, d, syms, opts, k), d, syms, opts),
    decreases k,
{
    if k <= 0 {
        assert(acc_extends(a, a));
    } else {
        lemma_call_evidence_only_adds(a, cur, d, syms, opts, k - 1);
        let b = calls_upto(a, cur, d, syms, opts, k - 1);
        lemma_call_step_only_adds(b, cur, d, syms, opts, cur.calls[k - 1]);
        lemma_only_adds_trans(a, b, calls_upto(a, cur, d, syms, opts, k), d, syms, opts);
    }
}

/// Unless the node budget truncated the graph, and when the depth allows a step,
/// every other function that has a call named like the requested symbol, at any
/// place in its list of calls, is in the graph with a `CalledBy` edge from the
/// requested symbol.
pub proof fn lemma_every_caller_is_shown(opts: AnalyzeOptions, root: Seq<char>, scan: ScanOutcome, j: int, k: int)
    requires
        analysis_of(opts, root, scan@) is Ok,
        !(analysis_of(opts, root, scan@)->Ok_0).limits.truncated,
        0 < opts.depth,
        0 <= j < scan@.symbols.len(),
        scan@.symbols[j].kind == ParsedKind::Function,
        j != candidates(scan@.symbols, opts.symbol@, scan@.symbols.len() as int)[0],
        0 <= k < scan@.symbols[j].calls.len(),
        scan@.symbols[j].calls[k].name == scan@.symbols[candidates(scan@.symbols, opts.symbol@, scan@.symbols.len() as int)[0]].name,
    ensures
        ({
            let g = analysis_of(opts, root, scan@)->Ok_0;
            let syms = scan@.symbols;
            let cur = syms[candidates(syms, opts.symbol@, syms.len() as int)[0]];
            &&& has_node(g.nodes, syms[j].id)
            &&& has_edge(g.edges, cur.id, syms[j].id, EdgeKind::CalledBy)
        }),
{
    lemma_entry_evidence_is_shown(opts, root, scan);
    let syms = scan@.symbols;
    let ci = candidates(syms, opts.symbol@, syms.len() as int)[0];
    let g = analysis_of(opts, root, scan@)->Ok_0;
    assert(syms[j].calls[k].name == syms[ci].name);
    assert(calls_name(syms[j].calls, syms[ci].name));
    assert(caller_shown(g.nodes, g.edges, syms[ci], ci, syms, j));
}

} // verus!
