//! The bounded graph around one symbol: breadth-first over callees and callers up
//! to a depth, with types, data boundaries and unresolved calls, under a node budget.
use vstd::prelude::*;

use crate::model::{
    CallSiteV, EdgeKind, LensEdge, LensEdgeV, LensGraph, LensGraphV, LensNode, LensNodeV, Limits,
    NodeKind, ParsedKind, ParsedSymbol, ParsedSymbolV, ScanSummary, SourceLocation, SourceLocationV,
    edges_view, nodes_view, strings_view, symbols_view,
};
use crate::sort::{KeyOrder, sort_in_order, sorted_in_order, views_of};
use crate::text::{
    decimal, decimal_string, ends_with, has_suffix, joined, lemma_seq_lt_asymmetric, lemma_seq_lt_irreflexive,
    lemma_seq_lt_transitive, owned, push_str, replace, replaced, seq_lt, text_eq, text_lt,
};

verus! {

/// What to trace and within which bounds.
pub struct AnalyzeOptions {
    pub root: String,
    pub symbol: String,
    pub depth: usize,
    pub max_nodes: usize,
    pub include_generated: bool,
    pub excludes: Vec<String>,
    pub link_template: String,
}

/// Why no graph was built.
#[derive(Debug)]
pub enum AnalyzeError {
    /// No function matches the requested symbol.
    NotFound(String),
    /// Several functions match; the message lists their stable ids.
    Ambiguous(String),
}

pub ghost enum AnalyzeErrorV {
    NotFound(Seq<char>),
    Ambiguous(Seq<char>),
}

impl View for AnalyzeError {
    type V = AnalyzeErrorV;

    open spec fn view(&self) -> AnalyzeErrorV {
        match self {
            AnalyzeError::NotFound(s) => AnalyzeErrorV::NotFound(s@),
            AnalyzeError::Ambiguous(s) => AnalyzeErrorV::Ambiguous(s@),
        }
    }
}

pub open spec fn analyze_error_message(e: AnalyzeErrorV) -> Seq<char> {
    match e {
        AnalyzeErrorV::NotFound(s) => "symbol `"@ + s + "` was not found in supported source files"@,
        AnalyzeErrorV::Ambiguous(m) => m,
    }
}

impl AnalyzeError {
    /// The error in words.
    pub fn message(&self) -> (res: String)
        ensures
            res@ == analyze_error_message(self@),
    {
        match self {
            AnalyzeError::NotFound(s) => {
                let mut m = owned("symbol `");
                push_str(&mut m, s.as_str());
                push_str(&mut m, "` was not found in supported source files");
                m
            },
            AnalyzeError::Ambiguous(m) => m.clone(),
        }
    }
}

// ----------------------------------------------------------------------------
// Finding symbols
// ----------------------------------------------------------------------------

/// Whether a symbol is a function that the request names: by name, by stable id, or
/// by the end of its id after a colon.
pub open spec fn is_candidate(s: ParsedSymbolV, symbol: Seq<char>) -> bool {
    s.kind == ParsedKind::Function && (s.name == symbol || s.id == symbol || has_suffix(
        s.id,
        ":"@ + symbol,
    ))
}

/// The indices of the first `n` symbols that are candidates, in order.
pub open spec fn candidates(syms: Seq<ParsedSymbolV>, symbol: Seq<char>, n: int) -> Seq<int>
    decreases n,
{
    if n <= 0 {
        seq![]
    } else if is_candidate(syms[n - 1], symbol) {
        candidates(syms, symbol, n - 1).push(n - 1)
    } else {
        candidates(syms, symbol, n - 1)
    }
}

/// The indices of the first `n` symbols that are functions named `name`, in order.
pub open spec fn functions_named(syms: Seq<ParsedSymbolV>, name: Seq<char>, n: int) -> Seq<int>
    decreases n,
{
    if n <= 0 {
        seq![]
    } else if syms[n - 1].kind == ParsedKind::Function && syms[n - 1].name == name {
        functions_named(syms, name, n - 1).push(n - 1)
    } else {
        functions_named(syms, name, n - 1)
    }
}

/// The index of the first type named `name` at or after `i`.
pub open spec fn first_type_from(syms: Seq<ParsedSymbolV>, name: Seq<char>, i: int) -> Option<int>
    decreases syms.len() - i,
{
    if i < 0 || i >= syms.len() {
        None
    } else if syms[i].kind == ParsedKind::Type && syms[i].name == name {
        Some(i)
    } else {
        first_type_from(syms, name, i + 1)
    }
}

pub proof fn lemma_candidates_bounds(syms: Seq<ParsedSymbolV>, symbol: Seq<char>, n: int)
    requires
        n <= syms.len(),
    ensures
        forall|k: int| 0 <= k < candidates(syms, symbol, n).len() ==> 0 <= #[trigger] candidates(syms, symbol, n)[k] < syms.len(),
        candidates(syms, symbol, n).len() <= if n < 0 { 0 } else { n },
    decreases n,
{
    if n > 0 {
        lemma_candidates_bounds(syms, symbol, n - 1);
    }
}

pub proof fn lemma_functions_named_bounds(syms: Seq<ParsedSymbolV>, name: Seq<char>, n: int)
    requires
        n <= syms.len(),
    ensures
        forall|k: int| 0 <= k < functions_named(syms, name, n).len() ==> 0 <= #[trigger] functions_named(syms, name, n)[k] < syms.len()
            && syms[functions_named(syms, name, n)[k]].kind == ParsedKind::Function,
        functions_named(syms, name, n).len() <= if n < 0 { 0 } else { n },
    decreases n,
{
    if n > 0 {
        lemma_functions_named_bounds(syms, name, n - 1);
    }
}

pub proof fn lemma_first_type_bounds(syms: Seq<ParsedSymbolV>, name: Seq<char>, i: int)
    ensures
        first_type_from(syms, name, i) matches Some(j) ==> 0 <= j < syms.len() && syms[j].kind == ParsedKind::Type
            && syms[j].name == name,
    decreases syms.len() - i,
{
    if 0 <= i < syms.len() && !(syms[i].kind == ParsedKind::Type && syms[i].name == name) {
        lemma_first_type_bounds(syms, name, i + 1);
    }
}

// ----------------------------------------------------------------------------
// Nodes and edges
// ----------------------------------------------------------------------------

pub open spec fn symbol_node_kind(s: ParsedSymbolV, entry: bool) -> NodeKind {
    if entry {
        NodeKind::Entry
    } else if s.kind == ParsedKind::Type {
        NodeKind::Type
    } else {
        NodeKind::Function
    }
}

pub open spec fn node_evidence(kind: NodeKind) -> Seq<char> {
    match kind {
        NodeKind::Entry => "requested entry symbol"@,
        NodeKind::Type => "declared type referenced by a visible signature"@,
        _ => "parsed function declaration"@,
    }
}

/// The source link for a symbol: the template with `{path}`, `{abs}` and `{line}`
/// replaced, in that order.
pub open spec fn link_for(template: Seq<char>, s: ParsedSymbolV) -> Seq<char> {
    replaced(
        replaced(replaced(template, "{path}"@, s.rel_path), "{abs}"@, s.abs_path),
        "{line}"@,
        decimal(s.line as nat),
    )
}

/// The node that shows a parsed symbol.
pub open spec fn symbol_node(s: ParsedSymbolV, kind: NodeKind, template: Seq<char>) -> LensNodeV {
    LensNodeV {
        id: s.id,
        label: s.name,
        kind,
        language: Some(s.language),
        location: Some(
            SourceLocationV {
                path: s.rel_path,
                line: s.line,
                end_line: s.end_line,
                link: link_for(template, s),
            },
        ),
        excerpt: Some(s.excerpt),
        evidence: node_evidence(kind),
    }
}

/// A node with no source location: a data boundary or an unresolved call.
pub open spec fn evidence_node(id: Seq<char>, label: Seq<char>, kind: NodeKind, evidence: Seq<char>) -> LensNodeV {
    LensNodeV { id, label, kind, language: None, location: None, excerpt: None, evidence }
}

pub open spec fn has_node(ns: Seq<LensNodeV>, id: Seq<char>) -> bool {
    exists|k: int| 0 <= k < ns.len() && (#[trigger] ns[k]).id == id
}

/// Adds `n` unless a node with its id is there; refused (`false`) when the budget
/// `max` is spent.
pub open spec fn insert_node(ns: Seq<LensNodeV>, n: LensNodeV, max: int) -> (Seq<LensNodeV>, bool) {
    if has_node(ns, n.id) {
        (ns, true)
    } else if ns.len() >= max {
        (ns, false)
    } else {
        (ns.push(n), true)
    }
}

pub open spec fn same_edge_key(a: LensEdgeV, b: LensEdgeV) -> bool {
    a.from == b.from && a.to == b.to && a.kind == b.kind
}

pub open spec fn has_edge_key(es: Seq<LensEdgeV>, e: LensEdgeV) -> bool {
    exists|k: int| 0 <= k < es.len() && same_edge_key(#[trigger] es[k], e)
}

/// Adds `e` unless an edge with the same ends and kind is there (the first stays).
pub open spec fn insert_edge_spec(es: Seq<LensEdgeV>, e: LensEdgeV) -> Seq<LensEdgeV> {
    if has_edge_key(es, e) {
        es
    } else {
        es.push(e)
    }
}

pub open spec fn edge(from: Seq<char>, to: Seq<char>, kind: EdgeKind, evidence: Seq<char>) -> LensEdgeV {
    LensEdgeV { from, to, kind, evidence }
}


/// The node that shows `symbol` with the given kind.
pub fn node_for_symbol(symbol: &ParsedSymbol, kind: NodeKind, options: &AnalyzeOptions) -> (res: LensNode)
    ensures
        res@ == symbol_node(symbol@, kind, options.link_template@),
{
    let line_text = decimal_string(symbol.line);
    proof {
        reveal_strlit("{path}");
        reveal_strlit("{abs}");
        reveal_strlit("{line}");
    }
    let link = replace(
        replace(
            replace(options.link_template.as_str(), "{path}", symbol.rel_path.as_str()).as_str(),
            "{abs}",
            symbol.abs_path.as_str(),
        ).as_str(),
        "{line}",
        line_text.as_str(),
    );
    let evidence = match kind {
        NodeKind::Entry => owned("requested entry symbol"),
        NodeKind::Type => owned("declared type referenced by a visible signature"),
        _ => owned("parsed function declaration"),
    };
    LensNode {
        id: symbol.id.clone(),
        label: symbol.name.clone(),
        kind,
        language: Some(symbol.language.clone()),
        location: Some(
            SourceLocation {
                path: symbol.rel_path.clone(),
                line: symbol.line,
                end_line: symbol.end_line,
                link,
            },
        ),
        excerpt: Some(symbol.excerpt.clone()),
        evidence,
    }
}

/// Whether some node has id `id`.
pub fn find_node(nodes: &Vec<LensNode>, id: &str) -> (res: bool)
    ensures
        res == has_node(nodes_view(nodes@), id@),
{
    let mut i: usize = 0;
    while i < nodes.len()
        invariant
            i <= nodes.len(),
            forall|k: int| 0 <= k < i ==> (#[trigger] nodes_view(nodes@)[k]).id != id@,
        decreases nodes.len() - i,
    {
        if text_eq(nodes[i].id.as_str(), id) {
            assert(nodes_view(nodes@)[i as int].id == id@);
            return true;
        }
        i = i + 1;
    }
    false
}

/// Adds the node for `symbol` (the entry's kind is `Entry`) unless it is there;
/// `false` when the node budget is spent.
pub fn insert_symbol_node(
    nodes: &mut Vec<LensNode>,
    symbol: &ParsedSymbol,
    entry: bool,
    options: &AnalyzeOptions,
) -> (res: bool)
    ensures
        (nodes_view(final(nodes)@), res) == insert_node(
            nodes_view(old(nodes)@),
            symbol_node(symbol@, symbol_node_kind(symbol@, entry), options.link_template@),
            options.max_nodes as int,
        ),
{
    if find_node(nodes, symbol.id.as_str()) {
        return true;
    }
    if nodes.len() >= options.max_nodes {
        return false;
    }
    let kind = if entry {
        NodeKind::Entry
    } else if symbol.kind == ParsedKind::Type {
        NodeKind::Type
    } else {
        NodeKind::Function
    };
    let node = node_for_symbol(symbol, kind, options);
    let ghost before = nodes_view(nodes@);
    nodes.push(node);
    assert(nodes_view(nodes@) =~= before.push(node@));
    true
}

/// Adds a node with no source location unless its id is there; `false` when the
/// node budget is spent.
pub fn insert_evidence_node(
    nodes: &mut Vec<LensNode>,
    id: &str,
    label: &str,
    kind: NodeKind,
    evidence: String,
    max_nodes: usize,
) -> (res: bool)
    ensures
        (nodes_view(final(nodes)@), res) == insert_node(
            nodes_view(old(nodes)@),
            evidence_node(id@, label@, kind, evidence@),
            max_nodes as int,
        ),
{
    if find_node(nodes, id) {
        return true;
    }
    if nodes.len() >= max_nodes {
        return false;
    }
    let node = LensNode {
        id: owned(id),
        label: owned(label),
        kind,
        language: None,
        location: None,
        excerpt: None,
        evidence,
    };
    let ghost before = nodes_view(nodes@);
    nodes.push(node);
    assert(nodes_view(nodes@) =~= before.push(node@));
    true
}

/// Adds an edge unless one with the same ends and kind is there.
pub fn insert_edge(edges: &mut Vec<LensEdge>, from: &str, to: &str, kind: EdgeKind, evidence: String)
    ensures
        edges_view(final(edges)@) == insert_edge_spec(edges_view(old(edges)@), edge(from@, to@, kind, evidence@)),
{
    let ghost e = edge(from@, to@, kind, evidence@);
    let mut i: usize = 0;
    while i < edges.len()
        invariant
            i <= edges.len(),
            e == edge(from@, to@, kind, evidence@),
            forall|k: int| 0 <= k < i ==> !same_edge_key(#[trigger] edges_view(edges@)[k], e),
        decreases edges.len() - i,
    {
        let x = &edges[i];
        if x.kind == kind && text_eq(x.from.as_str(), from) && text_eq(x.to.as_str(), to) {
            assert(same_edge_key(edges_view(edges@)[i as int], e));
            return;
        }
        i = i + 1;
    }
    let new_edge = LensEdge { from: owned(from), to: owned(to), kind, evidence };
    let ghost before = edges_view(edges@);
    edges.push(new_edge);
    assert(edges_view(edges@) =~= before.push(e));
}


// ----------------------------------------------------------------------------
// Evidence around one symbol
// ----------------------------------------------------------------------------

/// The graph under construction while one symbol is processed: nodes, edges, the
/// queue entries (symbol index, distance) added so far, and whether the budget
/// refused something.
pub ghost struct Acc {
    pub nodes: Seq<LensNodeV>,
    pub edges: Seq<LensEdgeV>,
    pub pushed: Seq<(usize, usize)>,
    pub truncated: bool,
}

/// The node `n` added as `insert_node` does; a refusal marks the graph truncated.
/// `then_edge` is added when the node is in the graph.
pub open spec fn node_then_edge(a: Acc, n: LensNodeV, max: int, then_edge: LensEdgeV) -> Acc {
    let (ns, ok) = insert_node(a.nodes, n, max);
    if ok {
        Acc { nodes: ns, edges: insert_edge_spec(a.edges, then_edge), pushed: a.pushed, truncated: a.truncated }
    } else {
        Acc { nodes: ns, edges: a.edges, pushed: a.pushed, truncated: true }
    }
}

/// As `node_then_edge`, and on success the queue entry `q` is added too.
pub open spec fn node_edge_push(a: Acc, n: LensNodeV, max: int, then_edge: LensEdgeV, q: (usize, usize)) -> Acc {
    let (ns, ok) = insert_node(a.nodes, n, max);
    if ok {
        Acc {
            nodes: ns,
            edges: insert_edge_spec(a.edges, then_edge),
            pushed: a.pushed.push(q),
            truncated: a.truncated,
        }
    } else {
        Acc { nodes: ns, edges: a.edges, pushed: a.pushed, truncated: true }
    }
}

/// The type node and `UsesType` edge for one type name of `cur`.
pub open spec fn type_step(a: Acc, cur: ParsedSymbolV, syms: Seq<ParsedSymbolV>, opts: AnalyzeOptions, name: Seq<char>) -> Acc {
    match first_type_from(syms, name, 0) {
        None => a,
        Some(j) => node_then_edge(
            a,
            symbol_node(syms[j], symbol_node_kind(syms[j], false), opts.link_template@),
            opts.max_nodes as int,
            edge(cur.id, syms[j].id, EdgeKind::UsesType, name + " appears in "@ + cur.name + "'s declaration"@),
        ),
    }
}

/// `type_step` for the first `k` type names of `cur`.
pub open spec fn types_upto(a: Acc, cur: ParsedSymbolV, syms: Seq<ParsedSymbolV>, opts: AnalyzeOptions, k: int) -> Acc
    decreases k,
{
    if k <= 0 {
        a
    } else {
        type_step(types_upto(a, cur, syms, opts, k - 1), cur, syms, opts, cur.type_names[k - 1])
    }
}

pub open spec fn boundary_id(cur: ParsedSymbolV, call: CallSiteV, b: Seq<char>) -> Seq<char> {
    "boundary:"@ + cur.id + ":"@ + decimal(call.line as nat) + ":"@ + b
}

pub open spec fn unresolved_id(cur: ParsedSymbolV, call: CallSiteV) -> Seq<char> {
    "unresolved:"@ + cur.id + ":"@ + decimal(call.line as nat) + ":"@ + call.name
}

pub open spec fn call_place(cur: ParsedSymbolV, call: CallSiteV) -> Seq<char> {
    cur.rel_path + ":"@ + decimal(call.line as nat)
}

/// The boundary node and `CrossesBoundary` edge of a call, if it has a boundary.
pub open spec fn boundary_step(a: Acc, cur: ParsedSymbolV, call: CallSiteV, max: int) -> Acc {
    match call.boundary {
        Some(b) => node_then_edge(
            a,
            evidence_node(
                boundary_id(cur, call, b),
                b,
                NodeKind::DataBoundary,
                "call `"@ + call.name + "` at "@ + call_place(cur, call) + " matched the "@ + b + " boundary rule"@,
            ),
            max,
            edge(cur.id, boundary_id(cur, call, b), EdgeKind::CrossesBoundary, call_place(cur, call) + " calls "@ + call.name),
        ),
        None => a,
    }
}

pub open spec fn unresolved_reason(matches: int) -> Seq<char> {
    if matches == 0 {
        "no matching declaration in scanned files"@
    } else {
        "multiple matching declarations"@
    }
}

/// All the evidence of one call of `cur`, processed at distance `d`: its boundary,
/// the callee when exactly one function has its name and `d` is within the depth,
/// and an unresolved node when not exactly one does.
pub open spec fn call_step(a: Acc, cur: ParsedSymbolV, d: usize, syms: Seq<ParsedSymbolV>, opts: AnalyzeOptions, call: CallSiteV) -> Acc {
    let max = opts.max_nodes as int;
    let a1 = boundary_step(a, cur, call, max);
    let ms = functions_named(syms, call.name, syms.len() as int);
    let a2 = if d < opts.depth && ms.len() == 1 {
        node_edge_push(
            a1,
            symbol_node(syms[ms[0]], symbol_node_kind(syms[ms[0]], false), opts.link_template@),
            max,
            edge(cur.id, syms[ms[0]].id, EdgeKind::Calls, "call expression at "@ + call_place(cur, call)),
            (ms[0] as usize, (d + 1) as usize),
        )
    } else {
        a1
    };
    if ms.len() != 1 {
        node_then_edge(
            a2,
            evidence_node(
                unresolved_id(cur, call),
                call.name,
                NodeKind::Unresolved,
                unresolved_reason(ms.len() as int) + " at "@ + call_place(cur, call),
            ),
            max,
            edge(
                cur.id,
                unresolved_id(cur, call),
                EdgeKind::UnresolvedCall,
                "call expression at "@ + call_place(cur, call) + "; "@ + unresolved_reason(ms.len() as int),
            ),
        )
    } else {
        a2
    }
}

/// `call_step` for the first `k` calls of `cur`.
pub open spec fn calls_upto(a: Acc, cur: ParsedSymbolV, d: usize, syms: Seq<ParsedSymbolV>, opts: AnalyzeOptions, k: int) -> Acc
    decreases k,
{
    if k <= 0 {
        a
    } else {
        call_step(calls_upto(a, cur, d, syms, opts, k - 1), cur, d, syms, opts, cur.calls[k - 1])
    }
}

pub open spec fn calls_name(cs: Seq<CallSiteV>, name: Seq<char>) -> bool {
    exists|k: int| 0 <= k < cs.len() && (#[trigger] cs[k]).name == name
}

/// The caller `syms[j]` of `cur` (at index `ci`, distance `d`), if it is another
/// function that calls `cur` by name.
pub open spec fn caller_step(a: Acc, cur: ParsedSymbolV, ci: int, d: usize, syms: Seq<ParsedSymbolV>, opts: AnalyzeOptions, j: int) -> Acc {
    let caller = syms[j];
    if caller.kind != ParsedKind::Function || j == ci {
        a
    } else if calls_name(caller.calls, cur.name) {
        node_edge_push(
            a,
            symbol_node(caller, symbol_node_kind(caller, false), opts.link_template@),
            opts.max_nodes as int,
            edge(cur.id, caller.id, EdgeKind::CalledBy, caller.name + " calls "@ + cur.name),
            (j as usize, (d + 1) as usize),
        )
    } else {
        a
    }
}

/// `caller_step` for the first `k` symbols.
pub open spec fn callers_upto(a: Acc, cur: ParsedSymbolV, ci: int, d: usize, syms: Seq<ParsedSymbolV>, opts: AnalyzeOptions, k: int) -> Acc
    decreases k,
{
    if k <= 0 {
        a
    } else {
        caller_step(callers_upto(a, cur, ci, d, syms, opts, k - 1), cur, ci, d, syms, opts, k - 1)
    }
}

/// The graph under construction, as plain values.
pub struct Builder {
    pub nodes: Vec<LensNode>,
    pub edges: Vec<LensEdge>,
    pub pushed: Vec<(usize, usize)>,
    pub truncated: bool,
}

impl View for Builder {
    type V = Acc;

    open spec fn view(&self) -> Acc {
        Acc { nodes: nodes_view(self.nodes@), edges: edges_view(self.edges@), pushed: self.pushed@, truncated: self.truncated }
    }
}

/// The index of the first type named `name`.
pub fn first_type_index(symbols: &Vec<ParsedSymbol>, name: &str) -> (res: Option<usize>)
    ensures
        match res {
            Some(j) => first_type_from(symbols_view(symbols@), name@, 0) == Some(j as int),
            None => first_type_from(symbols_view(symbols@), name@, 0) is None,
        },
{
    let ghost sv = symbols_view(symbols@);
    let mut i: usize = 0;
    while i < symbols.len()
        invariant
            i <= symbols.len(),
            sv == symbols_view(symbols@),
            first_type_from(sv, name@, 0) == first_type_from(sv, name@, i as int),
        decreases symbols.len() - i,
    {
        let s = &symbols[i];
        assert(sv[i as int] == s@);
        if s.kind == ParsedKind::Type && text_eq(s.name.as_str(), name) {
            return Some(i);
        }
        i = i + 1;
    }
    None
}

/// The indices of the functions named `name`, in order.
pub fn function_indices(symbols: &Vec<ParsedSymbol>, name: &str) -> (res: Vec<usize>)
    ensures
        res@.map_values(|i: usize| i as int) == functions_named(symbols_view(symbols@), name@, symbols.len() as int),
{
    let ghost sv = symbols_view(symbols@);
    let mut res: Vec<usize> = Vec::new();
    let mut i: usize = 0;
    while i < symbols.len()
        invariant
            i <= symbols.len(),
            sv == symbols_view(symbols@),
            res@.map_values(|i: usize| i as int) == functions_named(sv, name@, i as int),
        decreases symbols.len() - i,
    {
        let s = &symbols[i];
        assert(sv[i as int] == s@);
        if s.kind == ParsedKind::Function && text_eq(s.name.as_str(), name) {
            let ghost before = res@;
            res.push(i);
            assert(res@.map_values(|i: usize| i as int) =~= before.map_values(|i: usize| i as int).push(i as int));
        }
        i = i + 1;
    }
    res
}

impl Builder {
    /// Adds `n`'s node then `e` (see `node_then_edge`); the node is already built.
    fn add_node_then_edge(
        &mut self,
        node_added: bool,
        from: &str,
        to: &str,
        kind: EdgeKind,
        evidence: String,
    )
        ensures
            final(self)@ == (if node_added {
                Acc { edges: insert_edge_spec(old(self)@.edges, edge(from@, to@, kind, evidence@)), ..old(self)@ }
            } else {
                Acc { truncated: true, ..old(self)@ }
            }),
    {
        if node_added {
            insert_edge(&mut self.edges, from, to, kind, evidence);
        } else {
            self.truncated = true;
        }
    }

    /// Adds the type nodes and `UsesType` edges of `current` (see `types_upto`).
    pub fn add_types(&mut self, current: &ParsedSymbol, symbols: &Vec<ParsedSymbol>, options: &AnalyzeOptions)
        ensures
            final(self)@ == types_upto(
                old(self)@,
                current@,
                symbols_view(symbols@),
                *options,
                current.type_names.len() as int,
            ),
    {
        let ghost sv = symbols_view(symbols@);
        let ghost start = self@;
        let mut k: usize = 0;
        while k < current.type_names.len()
            invariant
                k <= current.type_names.len(),
                sv == symbols_view(symbols@),
                self@ == types_upto(start, current@, sv, *options, k as int),
            decreases current.type_names.len() - k,
        {
            let name = current.type_names[k].as_str();
            assert(current@.type_names[k as int] == name@);
            match first_type_index(symbols, name) {
                Some(j) => {
                    proof {
                        lemma_first_type_bounds(sv, name@, 0);
                    }
                    let target = &symbols[j];
                    assert(sv[j as int] == target@);
                    let added = insert_symbol_node(&mut self.nodes, target, false, options);
                    let mut evidence = owned(name);
                    push_str(&mut evidence, " appears in ");
                    push_str(&mut evidence, current.name.as_str());
                    push_str(&mut evidence, "'s declaration");
                    self.add_node_then_edge(added, current.id.as_str(), target.id.as_str(), EdgeKind::UsesType, evidence);
                },
                None => {},
            }
            k = k + 1;
        }
    }

    /// Adds the boundary, callee and unresolved evidence of every call of
    /// `current`, processed at `distance` (see `calls_upto`).
    pub fn add_call_evidence(
        &mut self,
        current: &ParsedSymbol,
        distance: usize,
        symbols: &Vec<ParsedSymbol>,
        options: &AnalyzeOptions,
    )
        ensures
            final(self)@ == calls_upto(
                old(self)@,
                current@,
                distance,
                symbols_view(symbols@),
                *options,
                current.calls.len() as int,
            ),
    {
        let ghost sv = symbols_view(symbols@);
        let ghost start = self@;
        let mut k: usize = 0;
        while k < current.calls.len()
            invariant
                k <= current.calls.len(),
                sv == symbols_view(symbols@),
                self@ == calls_upto(start, current@, distance, sv, *options, k as int),
            decreases current.calls.len() - k,
        {
            let call = &current.calls[k];
            assert(current@.calls[k as int] == call@);
            self.add_one_call(current, call, distance, symbols, options);
            k = k + 1;
        }
    }

    fn add_one_call(
        &mut self,
        current: &ParsedSymbol,
        call: &crate::model::CallSite,
        distance: usize,
        symbols: &Vec<ParsedSymbol>,
        options: &AnalyzeOptions,
    )
        ensures
            final(self)@ == call_step(old(self)@, current@, distance, symbols_view(symbols@), *options, call@),
    {
        let ghost sv = symbols_view(symbols@);
        let line = decimal_string(call.line);
        let mut place = current.rel_path.clone();
        push_str(&mut place, ":");
        push_str(&mut place, line.as_str());
        match &call.boundary {
            Some(b) => {
                let mut id = owned("boundary:");
                push_str(&mut id, current.id.as_str());
                push_str(&mut id, ":");
                push_str(&mut id, line.as_str());
                push_str(&mut id, ":");
                push_str(&mut id, b.as_str());
                let mut evidence = owned("call `");
                push_str(&mut evidence, call.name.as_str());
                push_str(&mut evidence, "` at ");
                push_str(&mut evidence, place.as_str());
                push_str(&mut evidence, " matched the ");
                push_str(&mut evidence, b.as_str());
                push_str(&mut evidence, " boundary rule");
                let added = insert_evidence_node(
                    &mut self.nodes,
                    id.as_str(),
                    b.as_str(),
                    NodeKind::DataBoundary,
                    evidence,
                    options.max_nodes,
                );
                let mut edge_evidence = place.clone();
                push_str(&mut edge_evidence, " calls ");
                push_str(&mut edge_evidence, call.name.as_str());
                self.add_node_then_edge(added, current.id.as_str(), id.as_str(), EdgeKind::CrossesBoundary, edge_evidence);
            },
            None => {},
        }
        let matches = function_indices(symbols, call.name.as_str());
        let ghost ms = functions_named(sv, call@.name, sv.len() as int);
        proof {
            lemma_functions_named_bounds(sv, call@.name, sv.len() as int);
            assert(matches@.map_values(|i: usize| i as int).len() == matches.len());
        }
        if distance < options.depth && matches.len() == 1 {
            let target_index = matches[0];
            assert(ms[0] == target_index as int);
            let target = &symbols[target_index];
            assert(sv[target_index as int] == target@);
            let added = insert_symbol_node(&mut self.nodes, target, false, options);
            if added {
                let mut evidence = owned("call expression at ");
                push_str(&mut evidence, place.as_str());
                insert_edge(&mut self.edges, current.id.as_str(), target.id.as_str(), EdgeKind::Calls, evidence);
                self.pushed.push((target_index, distance + 1));
            } else {
                self.truncated = true;
            }
        }
        if matches.len() != 1 {
            let reason = if matches.len() == 0 {
                "no matching declaration in scanned files"
            } else {
                "multiple matching declarations"
            };
            let mut id = owned("unresolved:");
            push_str(&mut id, current.id.as_str());
            push_str(&mut id, ":");
            push_str(&mut id, line.as_str());
            push_str(&mut id, ":");
            push_str(&mut id, call.name.as_str());
            let mut evidence = owned(reason);
            push_str(&mut evidence, " at ");
            push_str(&mut evidence, place.as_str());
            let added = insert_evidence_node(
                &mut self.nodes,
                id.as_str(),
                call.name.as_str(),
                NodeKind::Unresolved,
                evidence,
                options.max_nodes,
            );
            let mut edge_evidence = owned("call expression at ");
            push_str(&mut edge_evidence, place.as_str());
            push_str(&mut edge_evidence, "; ");
            push_str(&mut edge_evidence, reason);
            self.add_node_then_edge(added, current.id.as_str(), id.as_str(), EdgeKind::UnresolvedCall, edge_evidence);
        }
    }

    /// Adds every other function that calls `current` by name, with a `CalledBy`
    /// edge and a queue entry one step further (see `callers_upto`).
    pub fn add_callers(
        &mut self,
        current: &ParsedSymbol,
        current_index: usize,
        distance: usize,
        symbols: &Vec<ParsedSymbol>,
        options: &AnalyzeOptions,
    )
        requires
            distance < usize::MAX,
        ensures
            final(self)@ == callers_upto(
                old(self)@,
                current@,
                current_index as int,
                distance,
                symbols_view(symbols@),
                *options,
                symbols.len() as int,
            ),
    {
        let ghost sv = symbols_view(symbols@);
        let ghost start = self@;
        let mut j: usize = 0;
        while j < symbols.len()
            invariant
                j <= symbols.len(),
                distance < usize::MAX,
                sv == symbols_view(symbols@),
                self@ == callers_upto(start, current@, current_index as int, distance, sv, *options, j as int),
            decreases symbols.len() - j,
        {
            let caller = &symbols[j];
            assert(sv[j as int] == caller@);
            if caller.kind == ParsedKind::Function && j != current_index {
                if calls_by_name(caller, current.name.as_str()) {
                    let added = insert_symbol_node(&mut self.nodes, caller, false, options);
                    if added {
                        let mut evidence = caller.name.clone();
                        push_str(&mut evidence, " calls ");
                        push_str(&mut evidence, current.name.as_str());
                        insert_edge(&mut self.edges, current.id.as_str(), caller.id.as_str(), EdgeKind::CalledBy, evidence);
                        self.pushed.push((j, distance + 1));
                    } else {
                        self.truncated = true;
                    }
                }
            }
            j = j + 1;
        }
    }
}

/// Whether some call of `symbol` names `name`.
pub fn calls_by_name(symbol: &ParsedSymbol, name: &str) -> (res: bool)
    ensures
        res == calls_name(symbol@.calls, name@),
        res == (exists|k: int| 0 <= k < symbol@.calls.len() && (#[trigger] symbol@.calls[k]).name == name@),
{
    let mut k: usize = 0;
    while k < symbol.calls.len()
        invariant
            k <= symbol.calls.len(),
            forall|i: int| 0 <= i < k ==> (#[trigger] symbol@.calls[i]).name != name@,
        decreases symbol.calls.len() - k,
    {
        assert(symbol@.calls[k as int] == symbol.calls@[k as int]@);
        if text_eq(symbol.calls[k].name.as_str(), name) {
            return true;
        }
        k = k + 1;
    }
    false
}


// ----------------------------------------------------------------------------
// The breadth-first traversal
// ----------------------------------------------------------------------------

/// The traversal's state: the graph so far, the queue of (symbol index, distance)
/// still to process, the ids already processed, and whether the budget refused
/// something.
pub ghost struct Bfs {
    pub nodes: Seq<LensNodeV>,
    pub edges: Seq<LensEdgeV>,
    pub queue: Seq<(usize, usize)>,
    pub visited: Seq<Seq<char>>,
    pub truncated: bool,
}

/// Every queue entry names a symbol.
pub open spec fn queue_ok(q: Seq<(usize, usize)>, n: int) -> bool {
    forall|k: int| 0 <= k < q.len() ==> (#[trigger] q[k]).0 < n
}

/// How many of the first `n` symbols have an id not yet processed.
pub open spec fn unvisited(syms: Seq<ParsedSymbolV>, visited: Seq<Seq<char>>, n: int) -> nat
    decreases n,
{
    if n <= 0 {
        0
    } else {
        unvisited(syms, visited, n - 1) + if visited.contains(syms[n - 1].id) {
            0nat
        } else {
            1nat
        }
    }
}

pub proof fn lemma_unvisited_push(syms: Seq<ParsedSymbolV>, visited: Seq<Seq<char>>, x: Seq<char>, n: int, j: int)
    ensures
        unvisited(syms, visited.push(x), n) <= unvisited(syms, visited, n),
        0 <= j < n && syms[j].id == x && !visited.contains(x) ==> unvisited(syms, visited.push(x), n)
            < unvisited(syms, visited, n),
    decreases n,
{
    if n > 0 {
        lemma_unvisited_push(syms, visited, x, n - 1, j);
        let y = syms[n - 1].id;
        if visited.contains(y) {
            let k = choose|k: int| 0 <= k < visited.len() && visited[k] == y;
            assert(visited.push(x)[k] == y);
        }
        if y == x {
            assert(visited.push(x)[visited.len() as int] == y);
        }
        if visited.push(x).contains(y) && !visited.contains(y) {
            let k = choose|k: int| 0 <= k < visited.push(x).len() && visited.push(x)[k] == y;
            if k < visited.len() {
                assert(visited[k] == y);
            }
        }
    }
}

/// Processes the first queue entry: skipped when its id was processed before;
/// otherwise its node is added (the entry symbol's as `Entry`), then its types, its
/// calls and, within the depth, its callers. The `bool` says the traversal stops
/// because the budget refused the processed symbol's own node.
pub open spec fn visit_step(st: Bfs, syms: Seq<ParsedSymbolV>, opts: AnalyzeOptions, entry: int) -> (Bfs, bool) {
    let ci = st.queue[0].0 as int;
    let d = st.queue[0].1;
    let rest = st.queue.subrange(1, st.queue.len() as int);
    let cur = syms[ci];
    if st.visited.contains(cur.id) {
        (Bfs { queue: rest, ..st }, false)
    } else {
        let visited = st.visited.push(cur.id);
        let (ns, ok) = insert_node(
            st.nodes,
            symbol_node(cur, symbol_node_kind(cur, ci == entry), opts.link_template@),
            opts.max_nodes as int,
        );
        if !ok {
            (Bfs { nodes: ns, queue: rest, visited, truncated: true, ..st }, true)
        } else {
            let a0 = Acc { nodes: ns, edges: st.edges, pushed: seq![], truncated: st.truncated };
            let a1 = types_upto(a0, cur, syms, opts, cur.type_names.len() as int);
            let a2 = calls_upto(a1, cur, d, syms, opts, cur.calls.len() as int);
            let a3 = if d < opts.depth {
                callers_upto(a2, cur, ci, d, syms, opts, syms.len() as int)
            } else {
                a2
            };
            (Bfs { nodes: a3.nodes, edges: a3.edges, queue: rest + a3.pushed, visited, truncated: a3.truncated }, false)
        }
    }
}

/// The state when the queue is empty or the traversal stopped.
pub open spec fn bfs_run(st: Bfs, syms: Seq<ParsedSymbolV>, opts: AnalyzeOptions, entry: int) -> Bfs
    decreases unvisited(syms, st.visited, syms.len() as int), st.queue.len(),
    when queue_ok(st.queue, syms.len() as int)
{
    if st.queue.len() == 0 {
        st
    } else {
        let (next, stop) = visit_step(st, syms, opts, entry);
        proof {
            let ci = st.queue[0].0 as int;
            lemma_unvisited_push(syms, st.visited, syms[ci].id, syms.len() as int, ci);
        }
        if stop {
            next
        } else {
            bfs_run(next, syms, opts, entry)
        }
    }
}

pub proof fn lemma_types_pushed(a: Acc, cur: ParsedSymbolV, syms: Seq<ParsedSymbolV>, opts: AnalyzeOptions, k: int)
    ensures
        types_upto(a, cur, syms, opts, k).pushed == a.pushed,
    decreases k,
{
    if k > 0 {
        lemma_types_pushed(a, cur, syms, opts, k - 1);
    }
}

pub proof fn lemma_calls_pushed(a: Acc, cur: ParsedSymbolV, d: usize, syms: Seq<ParsedSymbolV>, opts: AnalyzeOptions, k: int)
    requires
        queue_ok(a.pushed, syms.len() as int),
    ensures
        queue_ok(calls_upto(a, cur, d, syms, opts, k).pushed, syms.len() as int),
    decreases k,
{
    if k > 0 {
        lemma_calls_pushed(a, cur, d, syms, opts, k - 1);
        let b = calls_upto(a, cur, d, syms, opts, k - 1);
        let call = cur.calls[k - 1];
        lemma_functions_named_bounds(syms, call.name, syms.len() as int);
        let r = call_step(b, cur, d, syms, opts, call);
        assert forall|i: int| 0 <= i < r.pushed.len() implies (#[trigger] r.pushed[i]).0 < syms.len() by {
            if i < b.pushed.len() {
                assert(b.pushed[i].0 < syms.len());
            }
        }
    }
}

pub proof fn lemma_callers_pushed(a: Acc, cur: ParsedSymbolV, ci: int, d: usize, syms: Seq<ParsedSymbolV>, opts: AnalyzeOptions, k: int)
    requires
        queue_ok(a.pushed, syms.len() as int),
        k <= syms.len(),
    ensures
        queue_ok(callers_upto(a, cur, ci, d, syms, opts, k).pushed, syms.len() as int),
    decreases k,
{
    if k > 0 {
        lemma_callers_pushed(a, cur, ci, d, syms, opts, k - 1);
        let b = callers_upto(a, cur, ci, d, syms, opts, k - 1);
        let r = caller_step(b, cur, ci, d, syms, opts, k - 1);
        assert forall|i: int| 0 <= i < r.pushed.len() implies (#[trigger] r.pushed[i]).0 < syms.len() by {
            if i < b.pushed.len() {
                assert(b.pushed[i].0 < syms.len());
            }
        }
    }
}

/// A visit keeps every queue entry naming a symbol.
pub proof fn lemma_visit_queue_ok(st: Bfs, syms: Seq<ParsedSymbolV>, opts: AnalyzeOptions, entry: int)
    requires
        queue_ok(st.queue, syms.len() as int),
        st.queue.len() > 0,
    ensures
        queue_ok(visit_step(st, syms, opts, entry).0.queue, syms.len() as int),
{
    let ci = st.queue[0].0 as int;
    let d = st.queue[0].1;
    let rest = st.queue.subrange(1, st.queue.len() as int);
    let cur = syms[ci];
    assert(queue_ok(rest, syms.len() as int)) by {
        assert forall|k: int| 0 <= k < rest.len() implies (#[trigger] rest[k]).0 < syms.len() by {
            assert(rest[k] == st.queue[k + 1]);
        }
    }
    if !st.visited.contains(cur.id) {
        let (ns, ok) = insert_node(
            st.nodes,
            symbol_node(cur, symbol_node_kind(cur, ci == entry), opts.link_template@),
            opts.max_nodes as int,
        );
        if ok {
            let a0 = Acc { nodes: ns, edges: st.edges, pushed: seq![], truncated: st.truncated };
            let a1 = types_upto(a0, cur, syms, opts, cur.type_names.len() as int);
            lemma_types_pushed(a0, cur, syms, opts, cur.type_names.len() as int);
            lemma_calls_pushed(a1, cur, d, syms, opts, cur.calls.len() as int);
            let a2 = calls_upto(a1, cur, d, syms, opts, cur.calls.len() as int);
            if d < opts.depth {
                lemma_callers_pushed(a2, cur, ci, d, syms, opts, syms.len() as int);
            }
            let a3 = if d < opts.depth {
                callers_upto(a2, cur, ci, d, syms, opts, syms.len() as int)
            } else {
                a2
            };
            let q = rest + a3.pushed;
            assert forall|k: int| 0 <= k < q.len() implies (#[trigger] q[k]).0 < syms.len() by {
                if k < rest.len() {
                    assert(q[k] == rest[k]);
                } else {
                    assert(q[k] == a3.pushed[k - rest.len()]);
                }
            }
        }
    }
}


/// The traversal's state as plain values; `queue[head..]` is still to process.
pub struct Traversal {
    pub builder: Builder,
    pub queue: Vec<(usize, usize)>,
    pub head: usize,
    pub visited: Vec<String>,
}

impl View for Traversal {
    type V = Bfs;

    open spec fn view(&self) -> Bfs {
        Bfs {
            nodes: self.builder@.nodes,
            edges: self.builder@.edges,
            queue: self.queue@.subrange(self.head as int, self.queue.len() as int),
            visited: strings_view(self.visited@),
            truncated: self.builder.truncated,
        }
    }
}

/// Whether `v` holds `x`.
pub fn contains_text(v: &Vec<String>, x: &str) -> (res: bool)
    ensures
        res == strings_view(v@).contains(x@),
{
    let mut i: usize = 0;
    while i < v.len()
        invariant
            i <= v.len(),
            forall|k: int| 0 <= k < i ==> (#[trigger] strings_view(v@)[k]) != x@,
        decreases v.len() - i,
    {
        if text_eq(v[i].as_str(), x) {
            assert(strings_view(v@)[i as int] == x@);
            return true;
        }
        i = i + 1;
    }
    false
}

impl Traversal {
    pub open spec fn wf(&self, n: int) -> bool {
        &&& self.head <= self.queue.len()
        &&& queue_ok(self.queue@, n)
    }

    /// One step of the traversal (see `visit_step`); `true` when it stops.
    pub fn step(&mut self, symbols: &Vec<ParsedSymbol>, options: &AnalyzeOptions, entry_index: usize) -> (stop: bool)
        requires
            old(self).wf(symbols.len() as int),
            old(self).head < old(self).queue.len(),
        ensures
            final(self).wf(symbols.len() as int),
            (final(self)@, stop) == visit_step(old(self)@, symbols_view(symbols@), *options, entry_index as int),
    {
        let ghost sv = symbols_view(symbols@);
        let ghost st = self@;
        let (current_index, distance) = self.queue[self.head];
        assert(st.queue[0] == self.queue@[self.head as int]);
        let ghost rest = st.queue.subrange(1, st.queue.len() as int);
        self.head = self.head + 1;
        assert(self.queue@.subrange(self.head as int, self.queue.len() as int) =~= rest);
        assert(self.queue@[self.head - 1].0 < symbols.len());
        let current = &symbols[current_index];
        assert(sv[current_index as int] == current@);
        if contains_text(&self.visited, current.id.as_str()) {
            return false;
        }
        let ghost before_visited = strings_view(self.visited@);
        self.visited.push(current.id.clone());
        assert(strings_view(self.visited@) =~= before_visited.push(current@.id));
        if !insert_symbol_node(&mut self.builder.nodes, current, current_index == entry_index, options) {
            self.builder.truncated = true;
            return true;
        }
        self.builder.pushed = Vec::new();
        assert(self.builder.pushed@ =~= Seq::<(usize, usize)>::empty());
        self.builder.add_types(current, symbols, options);
        self.builder.add_call_evidence(current, distance, symbols, options);
        if distance < options.depth {
            self.builder.add_callers(current, current_index, distance, symbols, options);
        }
        let ghost q0 = self.queue@;
        let ghost pushed = self.builder.pushed@;
        let mut pushed_now = Vec::new();
        std::mem::swap(&mut pushed_now, &mut self.builder.pushed);
        self.queue.append(&mut pushed_now);
        assert(self.queue@ == q0 + pushed);
        assert(self.queue@.subrange(self.head as int, self.queue.len() as int) =~= rest + pushed);
        proof {
            lemma_visit_queue_ok(st, sv, *options, entry_index as int);
            assert forall|k: int| 0 <= k < self.queue@.len() implies (#[trigger] self.queue@[k]).0 < symbols.len() by {
                if k >= self.head {
                    assert(self.queue@[k] == (rest + pushed)[k - self.head]);
                } else {
                    assert(self.queue@[k] == q0[k]);
                }
            }
        }
        false
    }
}


// ----------------------------------------------------------------------------
// The whole analysis
// ----------------------------------------------------------------------------

/// What a scan of the repository produced.
pub struct ScanOutcome {
    pub symbols: Vec<ParsedSymbol>,
    pub summary: ScanSummary,
    pub warnings: Vec<String>,
}

pub ghost struct ScanOutcomeV {
    pub symbols: Seq<ParsedSymbolV>,
    pub summary: ScanSummary,
    pub warnings: Seq<Seq<char>>,
}

impl View for ScanOutcome {
    type V = ScanOutcomeV;

    open spec fn view(&self) -> ScanOutcomeV {
        ScanOutcomeV { symbols: symbols_view(self.symbols@), summary: self.summary, warnings: strings_view(self.warnings@) }
    }
}

pub open spec fn node_rank(k: NodeKind) -> int {
    match k {
        NodeKind::Entry => 0,
        NodeKind::Function => 1,
        NodeKind::Type => 2,
        NodeKind::DataBoundary => 3,
        NodeKind::Unresolved => 4,
    }
}

pub fn node_rank_exec(k: NodeKind) -> (res: u8)
    ensures
        res as int == node_rank(k),
{
    match k {
        NodeKind::Entry => 0,
        NodeKind::Function => 1,
        NodeKind::Type => 2,
        NodeKind::DataBoundary => 3,
        NodeKind::Unresolved => 4,
    }
}

/// The variant's name, as `{:?}` writes it.
pub open spec fn edge_kind_name(k: EdgeKind) -> Seq<char> {
    match k {
        EdgeKind::Calls => "Calls"@,
        EdgeKind::CalledBy => "CalledBy"@,
        EdgeKind::UsesType => "UsesType"@,
        EdgeKind::CrossesBoundary => "CrossesBoundary"@,
        EdgeKind::UnresolvedCall => "UnresolvedCall"@,
    }
}

pub fn edge_kind_name_exec(k: EdgeKind) -> (res: &'static str)
    ensures
        res@ == edge_kind_name(k),
{
    match k {
        EdgeKind::Calls => "Calls",
        EdgeKind::CalledBy => "CalledBy",
        EdgeKind::UsesType => "UsesType",
        EdgeKind::CrossesBoundary => "CrossesBoundary",
        EdgeKind::UnresolvedCall => "UnresolvedCall",
    }
}

/// The variant's name, as `{:?}` writes it.
pub open spec fn node_kind_name(k: NodeKind) -> Seq<char> {
    match k {
        NodeKind::Entry => "Entry"@,
        NodeKind::Function => "Function"@,
        NodeKind::Type => "Type"@,
        NodeKind::DataBoundary => "DataBoundary"@,
        NodeKind::Unresolved => "Unresolved"@,
    }
}

pub fn node_kind_name_exec(k: NodeKind) -> (res: &'static str)
    ensures
        res@ == node_kind_name(k),
{
    match k {
        NodeKind::Entry => "Entry",
        NodeKind::Function => "Function",
        NodeKind::Type => "Type",
        NodeKind::DataBoundary => "DataBoundary",
        NodeKind::Unresolved => "Unresolved",
    }
}

/// A node's kind is written as `{:?}` writes its variant, so distinct kinds get
/// distinct names.
pub proof fn lemma_node_kind_names_are_debug_names(a: NodeKind, b: NodeKind)
    ensures
        a != b ==> node_kind_name(a) != node_kind_name(b),
        a == NodeKind::Entry ==> node_kind_name(a) == "Entry"@,
        a == NodeKind::Function ==> node_kind_name(a) == "Function"@,
        a == NodeKind::Type ==> node_kind_name(a) == "Type"@,
        a == NodeKind::DataBoundary ==> node_kind_name(a) == "DataBoundary"@,
        a == NodeKind::Unresolved ==> node_kind_name(a) == "Unresolved"@,
{
    reveal_strlit("Entry");
    reveal_strlit("Function");
    reveal_strlit("Type");
    reveal_strlit("DataBoundary");
    reveal_strlit("Unresolved");
    if a != b {
        let x = node_kind_name(a);
        let y = node_kind_name(b);
        if x == y {
            assert(x.len() == y.len());
            assert(x[0] == y[0]);
            assert(x[1] == y[1]);
        }
    }
}

/// An edge's kind is written as `{:?}` writes its variant, so distinct kinds get
/// distinct names.
pub proof fn lemma_edge_kind_names_are_debug_names(a: EdgeKind, b: EdgeKind)
    ensures
        a != b ==> edge_kind_name(a) != edge_kind_name(b),
        a == EdgeKind::Calls ==> edge_kind_name(a) == "Calls"@,
        a == EdgeKind::CalledBy ==> edge_kind_name(a) == "CalledBy"@,
        a == EdgeKind::UsesType ==> edge_kind_name(a) == "UsesType"@,
        a == EdgeKind::CrossesBoundary ==> edge_kind_name(a) == "CrossesBoundary"@,
        a == EdgeKind::UnresolvedCall ==> edge_kind_name(a) == "UnresolvedCall"@,
{
    reveal_strlit("Calls");
    reveal_strlit("CalledBy");
    reveal_strlit("UsesType");
    reveal_strlit("CrossesBoundary");
    reveal_strlit("UnresolvedCall");
    if a != b {
        let x = edge_kind_name(a);
        let y = edge_kind_name(b);
        if x == y {
            assert(x.len() == y.len());
            assert(x[0] == y[0]);
            assert(x[5] == y[5]);
        }
    }
}

/// Nodes are listed by kind (entry, functions, types, boundaries, unresolved),
/// then by id.
impl KeyOrder for LensNode {
    open spec fn precedes(a: LensNodeV, b: LensNodeV) -> bool {
        node_rank(a.kind) < node_rank(b.kind) || (node_rank(a.kind) == node_rank(b.kind) && seq_lt(a.id, b.id))
    }

    fn precedes_exec(&self, other: &Self) -> (res: bool) {
        let a = node_rank_exec(self.kind);
        let b = node_rank_exec(other.kind);
        a < b || (a == b && text_lt(self.id.as_str(), other.id.as_str()))
    }

    proof fn lemma_precedes_asymmetric(a: LensNodeV, b: LensNodeV) {
        if node_rank(a.kind) == node_rank(b.kind) {
            lemma_seq_lt_asymmetric(a.id, b.id);
        }
    }

    proof fn lemma_precedes_transitive(a: LensNodeV, b: LensNodeV, c: LensNodeV) {
        if node_rank(a.kind) == node_rank(b.kind) && node_rank(b.kind) == node_rank(c.kind) {
            lemma_seq_lt_transitive(a.id, b.id, c.id);
        }
    }
}

/// Edges are listed by source id, then target id, then kind name.
impl KeyOrder for LensEdge {
    open spec fn precedes(a: LensEdgeV, b: LensEdgeV) -> bool {
        ||| seq_lt(a.from, b.from)
        ||| (a.from == b.from && seq_lt(a.to, b.to))
        ||| (a.from == b.from && a.to == b.to && seq_lt(edge_kind_name(a.kind), edge_kind_name(b.kind)))
    }

    fn precedes_exec(&self, other: &Self) -> (res: bool) {
        if text_lt(self.from.as_str(), other.from.as_str()) {
            return true;
        }
        if !text_eq(self.from.as_str(), other.from.as_str()) {
            return false;
        }
        if text_lt(self.to.as_str(), other.to.as_str()) {
            return true;
        }
        if !text_eq(self.to.as_str(), other.to.as_str()) {
            return false;
        }
        text_lt(edge_kind_name_exec(self.kind), edge_kind_name_exec(other.kind))
    }

    proof fn lemma_precedes_asymmetric(a: LensEdgeV, b: LensEdgeV) {
        if seq_lt(a.from, b.from) {
            lemma_seq_lt_asymmetric(a.from, b.from);
            lemma_seq_lt_irreflexive(a.from);
        } else if seq_lt(a.to, b.to) {
            lemma_seq_lt_asymmetric(a.to, b.to);
            lemma_seq_lt_irreflexive(a.to);
        } else {
            lemma_seq_lt_asymmetric(edge_kind_name(a.kind), edge_kind_name(b.kind));
            lemma_seq_lt_irreflexive(a.from);
            lemma_seq_lt_irreflexive(a.to);
        }
    }

    proof fn lemma_precedes_transitive(a: LensEdgeV, b: LensEdgeV, c: LensEdgeV) {
        lemma_edge_key_order(a, b, c);
    }
}

proof fn lemma_edge_key_order(a: LensEdgeV, b: LensEdgeV, c: LensEdgeV)
    requires
        LensEdge::precedes(a, b),
        LensEdge::precedes(b, c),
    ensures
        LensEdge::precedes(a, c),
{
    if seq_lt(a.from, b.from) && seq_lt(b.from, c.from) {
        lemma_seq_lt_transitive(a.from, b.from, c.from);
    } else if a.from == b.from && b.from == c.from {
        if seq_lt(a.to, b.to) && seq_lt(b.to, c.to) {
            lemma_seq_lt_transitive(a.to, b.to, c.to);
        } else if a.to == b.to && b.to == c.to {
            lemma_seq_lt_transitive(edge_kind_name(a.kind), edge_kind_name(b.kind), edge_kind_name(c.kind));
        }
    }
}

pub open spec fn candidate_line(s: ParsedSymbolV) -> Seq<char> {
    "  "@ + s.id + " ("@ + s.rel_path + ":"@ + decimal(s.line as nat) + ")"@
}

pub open spec fn ambiguity_message(symbol: Seq<char>, syms: Seq<ParsedSymbolV>, cs: Seq<int>) -> Seq<char> {
    "symbol `"@ + symbol + "` is ambiguous; use one of these stable ids:\n"@ + joined(
        Seq::new(cs.len(), |k: int| candidate_line(syms[cs[k]])),
        "\n"@,
    )
}

pub open spec fn budget_warning(max_nodes: usize) -> Seq<char> {
    "Graph reached the "@ + decimal(max_nodes as nat)
        + " node budget; some evidence is omitted. Re-run with --max-nodes to change the explicit bound."@
}

pub open spec fn generated_warning(skipped: usize) -> Seq<char> {
    "Skipped "@ + decimal(skipped as nat) + " generated source file(s); pass --include-generated to inspect them."@
}

pub open spec fn approximation_warning() -> Seq<char> {
    "Static approximation: dynamic dispatch, reflection, macros, generated code, and runtime configuration may change the executed path."@
}

pub open spec fn approximation_notice() -> Seq<char> {
    "Bounded static evidence, not a runtime-complete call trace."@
}

/// The scan's warnings, then the budget warning when the graph was truncated,
/// the generated-files warning when some were skipped, and the approximation
/// warning.
pub open spec fn final_warnings(scan: Seq<Seq<char>>, truncated: bool, max_nodes: usize, skipped: usize) -> Seq<Seq<char>> {
    let w1 = if truncated {
        scan.push(budget_warning(max_nodes))
    } else {
        scan
    };
    let w2 = if skipped > 0 {
        w1.push(generated_warning(skipped))
    } else {
        w1
    };
    w2.push(approximation_warning())
}

pub open spec fn initial_bfs(entry: int) -> Bfs {
    Bfs { nodes: seq![], edges: seq![], queue: seq![(entry as usize, 0usize)], visited: seq![], truncated: false }
}

/// The graph traced from the symbol at index `entry`.
pub open spec fn graph_of(opts: AnalyzeOptions, root: Seq<char>, scan: ScanOutcomeV, entry: int) -> LensGraphV {
    let fin = bfs_run(initial_bfs(entry), scan.symbols, opts, entry);
    LensGraphV {
        schema_version: 1,
        symbol: opts.symbol@,
        root,
        approximation_notice: approximation_notice(),
        limits: Limits { depth: opts.depth, max_nodes: opts.max_nodes, truncated: fin.truncated },
        scanned: scan.summary,
        nodes: sorted_in_order::<LensNode>(fin.nodes),
        edges: sorted_in_order::<LensEdge>(fin.edges),
        warnings: final_warnings(scan.warnings, fin.truncated, opts.max_nodes, scan.summary.skipped_generated),
    }
}

/// The analysis of a scan: the graph around the one function that the request
/// names, or why there is none.
pub open spec fn analysis_of(opts: AnalyzeOptions, root: Seq<char>, scan: ScanOutcomeV) -> Result<LensGraphV, AnalyzeErrorV> {
    let cs = candidates(scan.symbols, opts.symbol@, scan.symbols.len() as int);
    if cs.len() == 0 {
        Err(AnalyzeErrorV::NotFound(opts.symbol@))
    } else if cs.len() > 1 {
        Err(AnalyzeErrorV::Ambiguous(ambiguity_message(opts.symbol@, scan.symbols, cs)))
    } else {
        Ok(graph_of(opts, root, scan, cs[0]))
    }
}

pub open spec fn result_view(r: Result<LensGraph, AnalyzeError>) -> Result<LensGraphV, AnalyzeErrorV> {
    match r {
        Ok(g) => Ok(g@),
        Err(e) => Err(e@),
    }
}

/// The indices of the candidate functions for `symbol`.
pub fn candidate_indices(symbols: &Vec<ParsedSymbol>, symbol: &str) -> (res: Vec<usize>)
    ensures
        res@.map_values(|i: usize| i as int) == candidates(symbols_view(symbols@), symbol@, symbols.len() as int),
{
    let ghost sv = symbols_view(symbols@);
    let mut suffix = owned(":");
    push_str(&mut suffix, symbol);
    let mut res: Vec<usize> = Vec::new();
    let mut i: usize = 0;
    while i < symbols.len()
        invariant
            i <= symbols.len(),
            sv == symbols_view(symbols@),
            suffix@ == ":"@ + symbol@,
            res@.map_values(|i: usize| i as int) == candidates(sv, symbol@, i as int),
        decreases symbols.len() - i,
    {
        let s = &symbols[i];
        assert(sv[i as int] == s@);
        if s.kind == ParsedKind::Function && (text_eq(s.name.as_str(), symbol) || text_eq(s.id.as_str(), symbol)
            || ends_with(s.id.as_str(), suffix.as_str())) {
            let ghost before = res@;
            res.push(i);
            assert(res@.map_values(|i: usize| i as int) =~= before.map_values(|i: usize| i as int).push(i as int));
        }
        i = i + 1;
    }
    res
}

/// The message that lists the candidates for an ambiguous request.
pub fn ambiguity_text(symbol: &str, symbols: &Vec<ParsedSymbol>, matches: &Vec<usize>) -> (res: String)
    requires
        forall|k: int| 0 <= k < matches.len() ==> (#[trigger] matches@[k]) < symbols.len(),
    ensures
        res@ == ambiguity_message(symbol@, symbols_view(symbols@), matches@.map_values(|i: usize| i as int)),
{
    let ghost sv = symbols_view(symbols@);
    let ghost cs = matches@.map_values(|i: usize| i as int);
    let ghost parts = Seq::new(cs.len(), |k: int| candidate_line(sv[cs[k]]));
    let mut list = String::new();
    let mut k: usize = 0;
    assert(parts.subrange(0, 0) =~= Seq::<Seq<char>>::empty());
    while k < matches.len()
        invariant
            k <= matches.len(),
            sv == symbols_view(symbols@),
            cs == matches@.map_values(|i: usize| i as int),
            parts == Seq::new(cs.len(), |k: int| candidate_line(sv[cs[k]])),
            forall|k: int| 0 <= k < matches.len() ==> (#[trigger] matches@[k]) < symbols.len(),
            list@ == joined(parts.subrange(0, k as int), "\n"@),
        decreases matches.len() - k,
    {
        let ghost before = list@;
        let item = &symbols[matches[k]];
        assert(sv[cs[k as int]] == item@);
        if k > 0 {
            push_str(&mut list, "\n");
        }
        push_str(&mut list, "  ");
        push_str(&mut list, item.id.as_str());
        push_str(&mut list, " (");
        push_str(&mut list, item.rel_path.as_str());
        push_str(&mut list, ":");
        let line = decimal_string(item.line);
        push_str(&mut list, line.as_str());
        push_str(&mut list, ")");
        proof {
            let t = parts.subrange(0, k + 1);
            assert(t.drop_last() =~= parts.subrange(0, k as int));
            assert(t.last() == parts[k as int]);
            if k == 0 {
                assert(list@ =~= parts[0]);
            } else {
                assert(list@ =~= before + "\n"@ + parts[k as int]);
            }
        }
        k = k + 1;
    }
    assert(parts.subrange(0, k as int) =~= parts);
    let mut res = owned("symbol `");
    push_str(&mut res, symbol);
    push_str(&mut res, "` is ambiguous; use one of these stable ids:\n");
    push_str(&mut res, list.as_str());
    res
}

/// Traces the bounded graph around the requested symbol in the scanned symbols.
/// `root` is the repository root as it is shown.
pub fn analyze(options: &AnalyzeOptions, root: &str, scan: ScanOutcome) -> (res: Result<LensGraph, AnalyzeError>)
    ensures
        result_view(res) == analysis_of(*options, root@, scan@),
{
    let ghost sv = symbols_view(scan.symbols@);
    let symbols = &scan.symbols;
    let matches = candidate_indices(symbols, options.symbol.as_str());
    let ghost cs = candidates(sv, options.symbol@, sv.len() as int);
    proof {
        lemma_candidates_bounds(sv, options.symbol@, sv.len() as int);
        assert(matches@.map_values(|i: usize| i as int).len() == matches.len());
        assert forall|k: int| 0 <= k < matches.len() implies (#[trigger] matches@[k]) < symbols.len() by {
            assert(cs[k] == matches@[k] as int);
        }
    }
    if matches.len() == 0 {
        return Err(AnalyzeError::NotFound(options.symbol.clone()));
    }
    if matches.len() > 1 {
        return Err(AnalyzeError::Ambiguous(ambiguity_text(options.symbol.as_str(), symbols, &matches)));
    }
    let entry_index = matches[0];
    assert(cs[0] == entry_index as int);
    let mut queue: Vec<(usize, usize)> = Vec::new();
    queue.push((entry_index, 0));
    let mut t = Traversal {
        builder: Builder { nodes: Vec::new(), edges: Vec::new(), pushed: Vec::new(), truncated: false },
        queue,
        head: 0,
        visited: Vec::new(),
    };
    let ghost init = initial_bfs(entry_index as int);
    assert(t@.queue =~= init.queue);
    assert(t@.nodes =~= init.nodes);
    assert(t@.edges =~= init.edges);
    assert(t@.visited =~= init.visited);
    assert(t@ == init);
    let mut done = false;
    while !done && t.head < t.queue.len()
        invariant
            t.wf(symbols.len() as int),
            sv == symbols_view(symbols@),
            queue_ok(t@.queue, sv.len() as int),
            done ==> bfs_run(init, sv, *options, entry_index as int) == t@,
            !done ==> bfs_run(init, sv, *options, entry_index as int) == bfs_run(t@, sv, *options, entry_index as int),
        decreases unvisited(sv, t@.visited, sv.len() as int), t.queue.len() - t.head,
    {
        let ghost before = t@;
        let stop = t.step(symbols, options, entry_index);
        proof {
            lemma_unvisited_push(sv, before.visited, sv[before.queue[0].0 as int].id, sv.len() as int, before.queue[0].0 as int);
            assert(queue_ok(t@.queue, sv.len() as int)) by {
                assert forall|k: int| 0 <= k < t@.queue.len() implies (#[trigger] t@.queue[k]).0 < sv.len() by {
                    assert(t@.queue[k] == t.queue@[t.head + k]);
                }
            }
        }
        if stop {
            done = true;
        }
    }
    let truncated = t.builder.truncated;
    let ghost fin = t@;
    assert(fin == bfs_run(init, sv, *options, entry_index as int));
    let mut warnings = scan.warnings;
    if truncated {
        let mut w = owned("Graph reached the ");
        let n = decimal_string(options.max_nodes);
        push_str(&mut w, n.as_str());
        push_str(&mut w, " node budget; some evidence is omitted. Re-run with --max-nodes to change the explicit bound.");
        warnings.push(w);
    }
    if scan.summary.skipped_generated > 0 {
        let mut w = owned("Skipped ");
        let n = decimal_string(scan.summary.skipped_generated);
        push_str(&mut w, n.as_str());
        push_str(&mut w, " generated source file(s); pass --include-generated to inspect them.");
        warnings.push(w);
    }
    warnings.push(owned("Static approximation: dynamic dispatch, reflection, macros, generated code, and runtime configuration may change the executed path."));
    assert(strings_view(warnings@) =~= final_warnings(strings_view(scan.warnings@), truncated, options.max_nodes, scan.summary.skipped_generated));
    let nodes = sort_in_order(t.builder.nodes);
    let edges = sort_in_order(t.builder.edges);
    assert(nodes_view(nodes@) =~= views_of(nodes@));
    assert(edges_view(edges@) =~= views_of(edges@));
    assert(views_of(t.builder.nodes@) =~= fin.nodes);
    assert(views_of(t.builder.edges@) =~= fin.edges);
    Ok(
        LensGraph {
            schema_version: 1,
            symbol: options.symbol.clone(),
            root: owned(root),
            approximation_notice: owned("Bounded static evidence, not a runtime-complete call trace."),
            limits: Limits { depth: options.depth, max_nodes: options.max_nodes, truncated },
            scanned: scan.summary,
            nodes,
            edges,
            warnings,
        },
    )
}

} // verus!
