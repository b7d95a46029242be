//! The data that flows from the parsers through the graph builder to the renderers,
//! each type with its mathematical view.
use vstd::prelude::*;

verus! {

#[derive(Clone, Copy, Debug, PartialEq, Eq, Structural)]
pub enum NodeKind {
    Entry,
    Function,
    Type,
    DataBoundary,
    Unresolved,
}

#[derive(Clone, Copy, Debug, PartialEq, Eq, Structural)]
pub enum EdgeKind {
    Calls,
    CalledBy,
    UsesType,
    CrossesBoundary,
    UnresolvedCall,
}

#[derive(Clone, Copy, Debug, PartialEq, Eq, Structural)]
pub enum ParsedKind {
    Function,
    Type,
}

pub open spec fn opt_view(o: Option<String>) -> Option<Seq<char>> {
    match o {
        Some(s) => Some(s@),
        None => None,
    }
}

pub open spec fn strings_view(v: Seq<String>) -> Seq<Seq<char>> {
    v.map_values(|s: String| s@)
}

#[derive(Clone, Debug)]
pub struct SourceLocation {
    pub path: String,
    pub line: usize,
    pub end_line: usize,
    pub link: String,
}

pub ghost struct SourceLocationV {
    pub path: Seq<char>,
    pub line: usize,
    pub end_line: usize,
    pub link: Seq<char>,
}

impl View for SourceLocation {
    type V = SourceLocationV;

    open spec fn view(&self) -> SourceLocationV {
        SourceLocationV { path: self.path@, line: self.line, end_line: self.end_line, link: self.link@ }
    }
}

#[derive(Clone, Debug)]
pub struct LensNode {
    pub id: String,
    pub label: String,
    pub kind: NodeKind,
    pub language: Option<String>,
    pub location: Option<SourceLocation>,
    pub excerpt: Option<String>,
    pub evidence: String,
}

pub ghost struct LensNodeV {
    pub id: Seq<char>,
    pub label: Seq<char>,
    pub kind: NodeKind,
    pub language: Option<Seq<char>>,
    pub location: Option<SourceLocationV>,
    pub excerpt: Option<Seq<char>>,
    pub evidence: Seq<char>,
}

impl View for LensNode {
    type V = LensNodeV;

    open spec fn view(&self) -> LensNodeV {
        LensNodeV {
            id: self.id@,
            label: self.label@,
            kind: self.kind,
            language: opt_view(self.language),
            location: match self.location {
                Some(l) => Some(l@),
                None => None,
            },
            excerpt: opt_view(self.excerpt),
            evidence: self.evidence@,
        }
    }
}

#[derive(Clone, Debug)]
pub struct LensEdge {
    pub from: String,
    pub to: String,
    pub kind: EdgeKind,
    pub evidence: String,
}

pub ghost struct LensEdgeV {
    pub from: Seq<char>,
    pub to: Seq<char>,
    pub kind: EdgeKind,
    pub evidence: Seq<char>,
}

impl View for LensEdge {
    type V = LensEdgeV;

    open spec fn view(&self) -> LensEdgeV {
        LensEdgeV { from: self.from@, to: self.to@, kind: self.kind, evidence: self.evidence@ }
    }
}

#[derive(Clone, Copy, Debug)]
pub struct Limits {
    pub depth: usize,
    pub max_nodes: usize,
    pub truncated: bool,
}

#[derive(Clone, Copy, Debug)]
pub struct ScanSummary {
    pub files: usize,
    pub parsed_files: usize,
    pub skipped_generated: usize,
    pub unsupported_files: usize,
}

impl Default for ScanSummary {
    fn default() -> (res: Self)
        ensures
            res.files == 0,
            res.parsed_files == 0,
            res.skipped_generated == 0,
            res.unsupported_files == 0,
    {
        ScanSummary { files: 0, parsed_files: 0, skipped_generated: 0, unsupported_files: 0 }
    }
}

#[derive(Clone, Debug)]
pub struct LensGraph {
    pub schema_version: u8,
    pub symbol: String,
    pub root: String,
    pub approximation_notice: String,
    pub limits: Limits,
    pub scanned: ScanSummary,
    pub nodes: Vec<LensNode>,
    pub edges: Vec<LensEdge>,
    pub warnings: Vec<String>,
}

pub ghost struct LensGraphV {
    pub schema_version: u8,
    pub symbol: Seq<char>,
    pub root: Seq<char>,
    pub approximation_notice: Seq<char>,
    pub limits: Limits,
    pub scanned: ScanSummary,
    pub nodes: Seq<LensNodeV>,
    pub edges: Seq<LensEdgeV>,
    pub warnings: Seq<Seq<char>>,
}

pub open spec fn nodes_view(v: Seq<LensNode>) -> Seq<LensNodeV> {
    v.map_values(|n: LensNode| n@)
}

pub open spec fn edges_view(v: Seq<LensEdge>) -> Seq<LensEdgeV> {
    v.map_values(|e: LensEdge| e@)
}

impl View for LensGraph {
    type V = LensGraphV;

    open spec fn view(&self) -> LensGraphV {
        LensGraphV {
            schema_version: self.schema_version,
            symbol: self.symbol@,
            root: self.root@,
            approximation_notice: self.approximation_notice@,
            limits: self.limits,
            scanned: self.scanned,
            nodes: nodes_view(self.nodes@),
            edges: edges_view(self.edges@),
            warnings: strings_view(self.warnings@),
        }
    }
}

#[derive(Clone, Debug)]
pub struct CallSite {
    pub name: String,
    pub line: usize,
    pub boundary: Option<String>,
}

pub ghost struct CallSiteV {
    pub name: Seq<char>,
    pub line: usize,
    pub boundary: Option<Seq<char>>,
}

impl View for CallSite {
    type V = CallSiteV;

    open spec fn view(&self) -> CallSiteV {
        CallSiteV { name: self.name@, line: self.line, boundary: opt_view(self.boundary) }
    }
}

pub open spec fn calls_view(v: Seq<CallSite>) -> Seq<CallSiteV> {
    v.map_values(|c: CallSite| c@)
}

#[derive(Clone, Debug)]
pub struct ParsedSymbol {
    pub id: String,
    pub name: String,
    pub kind: ParsedKind,
    pub language: String,
    pub rel_path: String,
    pub abs_path: String,
    pub line: usize,
    pub end_line: usize,
    pub excerpt: String,
    pub calls: Vec<CallSite>,
    pub type_names: Vec<String>,
}

pub ghost struct ParsedSymbolV {
    pub id: Seq<char>,
    pub name: Seq<char>,
    pub kind: ParsedKind,
    pub language: Seq<char>,
    pub rel_path: Seq<char>,
    pub abs_path: Seq<char>,
    pub line: usize,
    pub end_line: usize,
    pub excerpt: Seq<char>,
    pub calls: Seq<CallSiteV>,
    pub type_names: Seq<Seq<char>>,
}

impl View for ParsedSymbol {
    type V = ParsedSymbolV;

    open spec fn view(&self) -> ParsedSymbolV {
        ParsedSymbolV {
            id: self.id@,
            name: self.name@,
            kind: self.kind,
            language: self.language@,
            rel_path: self.rel_path@,
            abs_path: self.abs_path@,
            line: self.line,
            end_line: self.end_line,
            excerpt: self.excerpt@,
            calls: calls_view(self.calls@),
            type_names: strings_view(self.type_names@),
        }
    }
}

pub open spec fn symbols_view(v: Seq<ParsedSymbol>) -> Seq<ParsedSymbolV> {
    v.map_values(|s: ParsedSymbol| s@)
}

/// A copy of `v` with the same contents.
pub fn copy_strings(v: &Vec<String>) -> (res: Vec<String>)
    ensures
        strings_view(res@) == strings_view(v@),
{
    let mut res: Vec<String> = Vec::new();
    let mut i: usize = 0;
    while i < v.len()
        invariant
            i <= v.len(),
            res.len() == i,
            strings_view(res@) == strings_view(v@).subrange(0, i as int),
        decreases v.len() - i,
    {
        let s = v[i].clone();
        assert(s == v@[i as int]);
        res.push(s);
        assert(res@[i as int]@ == v@[i as int]@);
        i = i + 1;
        assert(strings_view(res@) =~= strings_view(v@).subrange(0, i as int));
    }
    assert(strings_view(v@).subrange(0, i as int) =~= strings_view(v@));
    res
}

impl CallSite {
    /// A copy with the same contents.
    pub fn copy(&self) -> (res: CallSite)
        ensures
            res@ == self@,
    {
        CallSite {
            name: self.name.clone(),
            line: self.line,
            boundary: match &self.boundary {
                Some(b) => Some(b.clone()),
                None => None,
            },
        }
    }
}

impl ParsedSymbol {
    /// A copy with the same contents.
    pub fn copy(&self) -> (res: ParsedSymbol)
        ensures
            res@ == self@,
    {
        let mut calls: Vec<CallSite> = Vec::new();
        let mut i: usize = 0;
        while i < self.calls.len()
            invariant
                i <= self.calls.len(),
                calls.len() == i,
                calls_view(calls@) == calls_view(self.calls@).subrange(0, i as int),
            decreases self.calls.len() - i,
        {
            let c = self.calls[i].copy();
            calls.push(c);
            assert(calls@[i as int]@ == self.calls@[i as int]@);
            i = i + 1;
            assert(calls_view(calls@) =~= calls_view(self.calls@).subrange(0, i as int));
        }
        assert(calls_view(self.calls@).subrange(0, i as int) =~= calls_view(self.calls@));
        ParsedSymbol {
            id: self.id.clone(),
            name: self.name.clone(),
            kind: self.kind,
            language: self.language.clone(),
            rel_path: self.rel_path.clone(),
            abs_path: self.abs_path.clone(),
            line: self.line,
            end_line: self.end_line,
            excerpt: self.excerpt.clone(),
            calls,
            type_names: copy_strings(&self.type_names),
        }
    }
}

} // verus!
