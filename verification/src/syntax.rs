//! A concrete syntax tree held as plain values, and the queries that the
//! declaration scanner makes of it.
use vstd::prelude::*;

use crate::adapters::{list_contains, strs_view};
use crate::text::{text_eq, trim, trimmed};

verus! {

/// One node of a parsed source file.
pub struct SyntaxNode {
    /// The grammar's name for the node, such as `call_expression`.
    pub kind: String,
    /// Whether the grammar names the node (as opposed to punctuation).
    pub named: bool,
    /// The field under which the node hangs from its parent, if any.
    pub field: Option<String>,
    /// First line of the node, counted from 1.
    pub start_line: usize,
    /// Last line of the node, counted from 1.
    pub end_line: usize,
    /// The node's source text, where it was captured.
    pub text: Option<String>,
    pub children: Vec<SyntaxNode>,
}

pub open spec fn has_field(n: SyntaxNode, f: Seq<char>) -> bool {
    match n.field {
        Some(x) => x@ == f,
        None => false,
    }
}

/// The first node of `cs` that hangs under field `f`.
pub open spec fn first_with_field(cs: Seq<SyntaxNode>, f: Seq<char>) -> Option<SyntaxNode>
    decreases cs.len(),
{
    if cs.len() == 0 {
        None
    } else if has_field(cs[0], f) {
        Some(cs[0])
    } else {
        first_with_field(cs.subrange(1, cs.len() as int), f)
    }
}

/// The child of `n` under field `f` (`Node::child_by_field_name`).
pub open spec fn field_child(n: SyntaxNode, f: Seq<char>) -> Option<SyntaxNode> {
    first_with_field(n.children@, f)
}

/// The first named node of `cs`.
pub open spec fn first_named(cs: Seq<SyntaxNode>) -> Option<SyntaxNode>
    decreases cs.len(),
{
    if cs.len() == 0 {
        None
    } else if cs[0].named {
        Some(cs[0])
    } else {
        first_named(cs.subrange(1, cs.len() as int))
    }
}

/// The first node, in source order, among the trees `cs` whose kind is one of `kinds`.
pub open spec fn find_kind_in(cs: Seq<SyntaxNode>, kinds: Seq<Seq<char>>) -> Option<SyntaxNode>
    decreases cs,
{
    if cs.len() == 0 {
        None
    } else {
        let h = cs[0];
        if kinds.contains(h.kind@) {
            Some(h)
        } else {
            match find_kind_in(h.children@, kinds) {
                Some(x) => Some(x),
                None => find_kind_in(cs.subrange(1, cs.len() as int), kinds),
            }
        }
    }
}

/// The node's text without surrounding whitespace, when that is not empty.
pub open spec fn trimmed_text(n: SyntaxNode) -> Option<Seq<char>> {
    match n.text {
        Some(t) => if trimmed(t@).len() > 0 {
            Some(trimmed(t@))
        } else {
            None
        },
        None => None,
    }
}

/// The kinds whose text is an identifier.
pub open spec fn identifier_kinds() -> Seq<Seq<char>> {
    seq!["identifier"@, "field_identifier"@, "type_identifier"@, "property_identifier"@]
}

/// The last identifier of a node: its own text for an identifier, else the last
/// identifier found among its children.
pub open spec fn final_ident(n: SyntaxNode) -> Option<Seq<char>>
    decreases n, 1int,
{
    if identifier_kinds().contains(n.kind@) {
        trimmed_text(n)
    } else {
        last_ident_in(n.children@)
    }
}

pub open spec fn last_ident_in(cs: Seq<SyntaxNode>) -> Option<Seq<char>>
    decreases cs, 0int,
{
    if cs.len() == 0 {
        None
    } else {
        match final_ident(cs[cs.len() - 1]) {
            Some(x) => Some(x),
            None => last_ident_in(cs.subrange(0, cs.len() - 1)),
        }
    }
}

/// The line bounds that excerpting relies on hold for every node of the trees `cs`
/// of a source with `line_count` lines.
pub open spec fn forest_fits(cs: Seq<SyntaxNode>, line_count: int) -> bool
    decreases cs,
{
    if cs.len() == 0 {
        true
    } else {
        let n = cs[0];
        &&& 1 <= n.start_line <= n.end_line
        &&& n.start_line <= line_count + 1
        &&& n.start_line + 17 <= usize::MAX
        &&& forest_fits(n.children@, line_count)
        &&& forest_fits(cs.subrange(1, cs.len() as int), line_count)
    }
}

pub proof fn lemma_forest_fits_each(cs: Seq<SyntaxNode>, line_count: int, i: int)
    requires
        forest_fits(cs, line_count),
        0 <= i < cs.len(),
    ensures
        forest_fits(seq![cs[i]], line_count),
    decreases i,
{
    let rest = cs.subrange(1, cs.len() as int);
    let one = seq![cs[i]];
    assert(one.subrange(1, one.len() as int) =~= Seq::<SyntaxNode>::empty());
    assert(forest_fits(Seq::<SyntaxNode>::empty(), line_count));
    assert(one[0] == cs[i]);
    if i > 0 {
        lemma_forest_fits_each(rest, line_count, i - 1);
        assert(rest[i - 1] == cs[i]);
    }
}


impl SyntaxNode {
    /// The child under field `f` (`Node::child_by_field_name`).
    pub fn child_by_field(&self, f: &str) -> (res: Option<&SyntaxNode>)
        ensures
            match res {
                Some(c) => field_child(*self, f@) == Some(*c),
                None => field_child(*self, f@) is None,
            },
    {
        let cs = &self.children;
        let mut i: usize = 0;
        assert(cs@.subrange(0, cs.len() as int) =~= cs@);
        while i < cs.len()
            invariant
                i <= cs.len(),
                field_child(*self, f@) == first_with_field(cs@.subrange(i as int, cs.len() as int), f@),
            decreases cs.len() - i,
        {
            let ghost rest = cs@.subrange(i as int, cs.len() as int);
            assert(rest[0] == cs@[i as int]);
            assert(rest.subrange(1, rest.len() as int) =~= cs@.subrange(i + 1, cs.len() as int));
            let c = &cs[i];
            let hit = match &c.field {
                Some(x) => text_eq(x.as_str(), f),
                None => false,
            };
            if hit {
                return Some(c);
            }
            i = i + 1;
        }
        None
    }

    /// The first named child (`Node::named_child(0)`).
    pub fn first_named_child(&self) -> (res: Option<&SyntaxNode>)
        ensures
            match res {
                Some(c) => first_named(self.children@) == Some(*c),
                None => first_named(self.children@) is None,
            },
    {
        let cs = &self.children;
        let mut i: usize = 0;
        assert(cs@.subrange(0, cs.len() as int) =~= cs@);
        while i < cs.len()
            invariant
                i <= cs.len(),
                cs@ == self.children@,
                first_named(cs@) == first_named(cs@.subrange(i as int, cs.len() as int)),
            decreases cs.len() - i,
        {
            let ghost rest = cs@.subrange(i as int, cs.len() as int);
            assert(rest[0] == cs@[i as int]);
            assert(rest.subrange(1, rest.len() as int) =~= cs@.subrange(i + 1, cs.len() as int));
            let c = &cs[i];
            if c.named {
                return Some(c);
            }
            i = i + 1;
        }
        None
    }

    /// The first descendant, in source order, whose kind is one of `kinds`.
    pub fn find_first_kind(&self, kinds: &Vec<&str>) -> (res: Option<&SyntaxNode>)
        ensures
            match res {
                Some(c) => find_kind_in(self.children@, strs_view(kinds@)) == Some(*c),
                None => find_kind_in(self.children@, strs_view(kinds@)) is None,
            },
    {
        find_kind_in_exec(&self.children, kinds)
    }

    /// The last identifier of the node (see `final_ident`).
    pub fn final_identifier(&self) -> (res: Option<String>)
        ensures
            opt_text(res) == final_ident(*self),
        decreases *self, 1int,
    {
        let ident: Vec<&str> = vec!["identifier", "field_identifier", "type_identifier", "property_identifier"];
        assert(strs_view(ident@) =~= identifier_kinds());
        if list_contains(&ident, self.kind.as_str()) {
            return self.trimmed_text();
        }
        last_identifier_in(&self.children)
    }

    /// The node's text without surrounding whitespace, when that is not empty.
    pub fn trimmed_text(&self) -> (res: Option<String>)
        ensures
            opt_text(res) == trimmed_text(*self),
    {
        match &self.text {
            Some(t) => {
                let s = trim(t.as_str());
                if s.as_str().is_empty() {
                    None
                } else {
                    Some(s)
                }
            },
            None => None,
        }
    }
}

pub open spec fn opt_text(o: Option<String>) -> Option<Seq<char>> {
    match o {
        Some(s) => Some(s@),
        None => None,
    }
}

fn last_identifier_in(cs: &Vec<SyntaxNode>) -> (res: Option<String>)
    ensures
        opt_text(res) == last_ident_in(cs@),
    decreases cs@, 0int,
{
    let mut i: usize = cs.len();
    assert(cs@.subrange(0, cs.len() as int) =~= cs@);
    while i > 0
        invariant
            i <= cs.len(),
            last_ident_in(cs@) == last_ident_in(cs@.subrange(0, i as int)),
        decreases i,
    {
        let ghost pre = cs@.subrange(0, i as int);
        assert(pre[pre.len() - 1] == cs@[i - 1]);
        assert(pre.subrange(0, pre.len() - 1) =~= cs@.subrange(0, i - 1));
        let r = cs[i - 1].final_identifier();
        if r.is_some() {
            return r;
        }
        i = i - 1;
    }
    None
}

fn find_kind_in_exec<'a>(cs: &'a Vec<SyntaxNode>, kinds: &Vec<&str>) -> (res: Option<&'a SyntaxNode>)
    ensures
        match res {
            Some(c) => find_kind_in(cs@, strs_view(kinds@)) == Some(*c),
            None => find_kind_in(cs@, strs_view(kinds@)) is None,
        },
    decreases cs@,
{
    let ghost kv = strs_view(kinds@);
    let mut i: usize = 0;
    assert(cs@.subrange(0, cs.len() as int) =~= cs@);
    while i < cs.len()
        invariant
            i <= cs.len(),
            kv == strs_view(kinds@),
            find_kind_in(cs@, kv) == find_kind_in(cs@.subrange(i as int, cs.len() as int), kv),
        decreases cs.len() - i,
    {
        let ghost rest = cs@.subrange(i as int, cs.len() as int);
        assert(rest[0] == cs@[i as int]);
        assert(rest.subrange(1, rest.len() as int) =~= cs@.subrange(i + 1, cs.len() as int));
        let c = &cs[i];
        if list_contains(kinds, c.kind.as_str()) {
            return Some(c);
        }
        let inner = find_kind_in_exec(&c.children, kinds);
        if inner.is_some() {
            return inner;
        }
        i = i + 1;
    }
    None
}


/// Every node of the trees `cs` lies within the lines `lo..=hi`, and within them
/// each node's children lie within its own lines.
pub open spec fn forest_nests(cs: Seq<SyntaxNode>, lo: int, hi: int) -> bool
    decreases cs,
{
    if cs.len() == 0 {
        true
    } else {
        let n = cs[0];
        &&& lo <= n.start_line
        &&& n.end_line <= hi
        &&& forest_nests(n.children@, n.start_line as int, n.end_line as int)
        &&& forest_nests(cs.subrange(1, cs.len() as int), lo, hi)
    }
}

/// Each node's children lie within its lines, all the way down.
pub open spec fn tree_nests(t: SyntaxNode) -> bool {
    forest_nests(t.children@, t.start_line as int, t.end_line as int)
}

/// Whether the trees `cs` nest within `lo..=hi` (see `forest_nests`).
fn forest_nests_exec(cs: &Vec<SyntaxNode>, lo: usize, hi: usize) -> (res: bool)
    ensures
        res == forest_nests(cs@, lo as int, hi as int),
    decreases cs@,
{
    let mut i: usize = cs.len();
    let mut ok = true;
    assert(cs@.subrange(i as int, cs.len() as int) =~= Seq::<SyntaxNode>::empty());
    while i > 0
        invariant
            i <= cs.len(),
            ok == forest_nests(cs@.subrange(i as int, cs.len() as int), lo as int, hi as int),
        decreases i,
    {
        let n = &cs[i - 1];
        let ghost tail = cs@.subrange(i as int, cs.len() as int);
        let ghost whole = cs@.subrange(i - 1, cs.len() as int);
        assert(whole[0] == cs@[i - 1]);
        assert(whole.subrange(1, whole.len() as int) =~= tail);
        let here = lo <= n.start_line && n.end_line <= hi;
        let sub = if ok && here {
            forest_nests_exec(&n.children, n.start_line, n.end_line)
        } else {
            false
        };
        ok = ok && here && sub;
        i = i - 1;
    }
    assert(cs@.subrange(0, cs.len() as int) =~= cs@);
    ok
}

// ----------------------------------------------------------------------------
// Reading a tree-sitter parse into plain values
// ----------------------------------------------------------------------------

#[verifier::external_type_specification]
#[verifier::external_body]
pub struct ExParser(tree_sitter::Parser);

#[verifier::external_type_specification]
#[verifier::external_body]
pub struct ExTree(tree_sitter::Tree);

#[verifier::external_type_specification]
#[verifier::external_body]
pub struct ExLanguage(tree_sitter::Language);

/// The tree-sitter grammars that the adapters parse with.
#[derive(Clone, Copy, Debug, PartialEq, Eq, Structural)]
pub enum Grammar {
    Rust,
    TypeScript,
    Tsx,
    Python,
    Go,
}

/// A grammar's tree-sitter language, held with the grammar it is. Only the grammar
/// functions below build one.
pub struct GrammarHandle {
    grammar: Grammar,
    language: tree_sitter::Language,
}

impl GrammarHandle {
    pub closed spec fn grammar(self) -> Grammar {
        self.grammar
    }
}

/// `tree_sitter_rust::LANGUAGE`, the Rust grammar.
#[verifier::external_body]
pub(crate) fn rust_language() -> (res: GrammarHandle)
    ensures
        res.grammar() == Grammar::Rust,
{
    GrammarHandle { grammar: Grammar::Rust, language: tree_sitter_rust::LANGUAGE.into() }
}

/// `tree_sitter_typescript::LANGUAGE_TYPESCRIPT`, the TypeScript grammar.
#[verifier::external_body]
pub(crate) fn typescript_language() -> (res: GrammarHandle)
    ensures
        res.grammar() == Grammar::TypeScript,
{
    GrammarHandle { grammar: Grammar::TypeScript, language: tree_sitter_typescript::LANGUAGE_TYPESCRIPT.into() }
}

/// `tree_sitter_typescript::LANGUAGE_TSX`, the TSX grammar.
#[verifier::external_body]
pub(crate) fn tsx_language() -> (res: GrammarHandle)
    ensures
        res.grammar() == Grammar::Tsx,
{
    GrammarHandle { grammar: Grammar::Tsx, language: tree_sitter_typescript::LANGUAGE_TSX.into() }
}

/// `tree_sitter_python::LANGUAGE`, the Python grammar.
#[verifier::external_body]
pub(crate) fn python_language() -> (res: GrammarHandle)
    ensures
        res.grammar() == Grammar::Python,
{
    GrammarHandle { grammar: Grammar::Python, language: tree_sitter_python::LANGUAGE.into() }
}

/// `tree_sitter_go::LANGUAGE`, the Go grammar.
#[verifier::external_body]
pub(crate) fn go_language() -> (res: GrammarHandle)
    ensures
        res.grammar() == Grammar::Go,
{
    GrammarHandle { grammar: Grammar::Go, language: tree_sitter_go::LANGUAGE.into() }
}

/// Whether `Parser::set_language` accepts the grammar's language: its ABI version
/// is in the range this tree-sitter supports and it can parse. Both are constants
/// of the compiled grammar.
pub uninterp spec fn grammar_loads(g: Grammar) -> bool;

/// The words of the `LanguageError` that `Parser::set_language` gives for the
/// grammar's language when it refuses it; they depend on the grammar alone.
pub uninterp spec fn grammar_load_error(g: Grammar) -> Seq<char>;

/// A parser with the language of `grammar` set. Only `set_parser_language` builds
/// one.
pub struct GrammarParser {
    parser: tree_sitter::Parser,
    grammar: Grammar,
}

impl GrammarParser {
    pub closed spec fn grammar(self) -> Grammar {
        self.grammar
    }
}

/// `tree_sitter::Parser::new`: a parser with no language set.
#[verifier::external_body]
pub(crate) fn new_parser() -> tree_sitter::Parser {
    tree_sitter::Parser::new()
}

/// `Parser::set_language` with the handle's language: the parser with that grammar
/// when tree-sitter accepts it (`grammar_loads`), else the `LanguageError` in
/// words (`grammar_load_error`).
#[verifier::external_body]
pub(crate) fn set_parser_language(parser: tree_sitter::Parser, handle: &GrammarHandle) -> (res: Result<GrammarParser, String>)
    ensures
        res is Ok == grammar_loads(handle.grammar()),
        res matches Ok(p) ==> p.grammar() == handle.grammar(),
        res matches Err(m) ==> m@ == grammar_load_error(handle.grammar()),
{
    let mut parser = parser;
    match parser.set_language(&handle.language) {
        Ok(()) => Ok(GrammarParser { parser, grammar: handle.grammar }),
        Err(error) => Err(error.to_string()),
    }
}

/// A tree parsed from `source` with `grammar`, held with that text. Only
/// `parse_text` builds one.
pub struct ParsedTree {
    grammar: Grammar,
    source: String,
    tree: tree_sitter::Tree,
}

impl ParsedTree {
    pub closed spec fn grammar(self) -> Grammar {
        self.grammar
    }

    pub closed spec fn source(self) -> Seq<char> {
        self.source@
    }
}

/// `Parser::parse` of a whole text with no earlier tree. Its documentation gives
/// `None` only for a parser with no language, and a `GrammarParser` has one, so
/// the result is a tree of that text with the parser's grammar.
#[verifier::external_body]
pub(crate) fn parse_text(parser: &mut GrammarParser, source: &str) -> (res: Option<ParsedTree>)
    ensures
        final(parser).grammar() == old(parser).grammar(),
        res is Some,
        res matches Some(t) ==> t.grammar() == old(parser).grammar() && t.source() == source@,
{
    match parser.parser.parse(source, None) {
        Some(tree) => Some(ParsedTree { grammar: parser.grammar, source: source.to_string(), tree }),
        None => None,
    }
}

/// What tree-sitter reports of one node: its depth below the root, kind, whether
/// it is named, the field it hangs under, its first and last rows (from 0) and its
/// source text.
pub ghost struct RawNodeV {
    pub depth: u32,
    pub kind: Seq<char>,
    pub named: bool,
    pub field: Option<Seq<char>>,
    pub start_row: usize,
    pub end_row: usize,
}

pub struct RawNode {
    pub depth: u32,
    pub kind: String,
    pub named: bool,
    pub field: Option<String>,
    pub start_row: usize,
    pub end_row: usize,
}

impl View for RawNode {
    type V = RawNodeV;

    open spec fn view(&self) -> RawNodeV {
        RawNodeV {
            depth: self.depth,
            kind: self.kind@,
            named: self.named,
            field: opt_text(self.field),
            start_row: self.start_row,
            end_row: self.end_row,
        }
    }
}

/// How many nodes tree-sitter's tree of `source` with grammar `g` has, the root
/// included.
pub uninterp spec fn parsed_node_count(g: Grammar, source: Seq<char>) -> nat;

/// The node at pre-order position `i` of tree-sitter's tree of `source` with
/// grammar `g`.
pub uninterp spec fn parsed_node(g: Grammar, source: Seq<char>, i: int) -> RawNodeV;

/// The source text of the node at pre-order position `i` of that tree, where it is
/// valid UTF-8.
pub uninterp spec fn parsed_text(g: Grammar, source: Seq<char>, i: int) -> Option<Seq<char>>;

/// `Node::descendant_count` of the tree's root: every node once, the root
/// included, so never zero.
#[verifier::external_body]
pub(crate) fn node_total(t: &ParsedTree) -> (res: usize)
    ensures
        res as nat == parsed_node_count(t.grammar(), t.source()),
        res >= 1,
{
    t.tree.root_node().descendant_count()
}

/// The node at pre-order position `i` (`TreeCursor::goto_descendant` from the
/// root), read with `TreeCursor::depth` and `field_name`, and `Node::kind`,
/// `is_named`, `start_position` and `end_position`.
#[verifier::external_body]
pub(crate) fn node_at(t: &ParsedTree, i: usize) -> (res: RawNode)
    requires
        i < parsed_node_count(t.grammar(), t.source()),
    ensures
        res@ == parsed_node(t.grammar(), t.source(), i as int),
{
    let mut cursor = t.tree.root_node().walk();
    cursor.goto_descendant(i);
    let node = cursor.node();
    let field = match cursor.field_name() { Some(f) => Some(f.to_string()), None => None };
    let (start_row, end_row) = (node.start_position().row, node.end_position().row);
    RawNode { depth: cursor.depth(), kind: node.kind().to_string(), named: node.is_named(), field, start_row, end_row }
}

/// `Node::utf8_text` of the node at pre-order position `i`, over the text the tree
/// was parsed from (held in the tree, so the node's byte range lies inside it);
/// `None` where that range is not valid UTF-8.
#[verifier::external_body]
pub(crate) fn node_text_at(t: &ParsedTree, i: usize) -> (res: Option<String>)
    requires
        i < parsed_node_count(t.grammar(), t.source()),
    ensures
        opt_text(res) == parsed_text(t.grammar(), t.source(), i as int),
{
    let mut cursor = t.tree.root_node().walk();
    cursor.goto_descendant(i);
    match cursor.node().utf8_text(t.source.as_bytes()) {
        Ok(text) => Some(text.to_string()),
        Err(_) => None,
    }
}

// ----------------------------------------------------------------------------
// From the pre-order listing to a tree
// ----------------------------------------------------------------------------

/// One entry of a pre-order listing: depth below the root, and the node's own data
/// with lines counted from 1.
pub ghost struct EntryV {
    pub depth: u32,
    pub kind: Seq<char>,
    pub named: bool,
    pub field: Option<Seq<char>>,
    pub start_line: int,
    pub end_line: int,
    pub text: Option<Seq<char>>,
}

/// The text of a node of this kind, or under this field, is read: an
/// identifier's, or a declaration's `name`.
pub open spec fn keeps_text_spec(kind: Seq<char>, field: Option<Seq<char>>) -> bool {
    identifier_kinds().contains(kind) || field == Some("name"@)
}

/// Whether the text of a node of this kind, or under this field, is ever read (see
/// `keeps_text_spec`).
fn keeps_text(kind: &str, field: &Option<String>) -> (res: bool)
    ensures
        res == keeps_text_spec(kind@, opt_text(*field)),
{
    let ident: Vec<&str> = vec!["identifier", "field_identifier", "type_identifier", "property_identifier"];
    assert(strs_view(ident@) =~= identifier_kinds());
    if list_contains(&ident, kind) {
        return true;
    }
    match field {
        Some(f) => {
            proof {
                reveal_strlit("name");
            }
            let r = text_eq(f.as_str(), "name");
            assert(r == (opt_text(*field) == Some("name"@)));
            r
        },
        None => false,
    }
}

/// The listing entry of tree-sitter's node `i`: its lines counted from 1, and its
/// text only where it is read.
pub open spec fn parsed_entry(g: Grammar, source: Seq<char>, i: int) -> EntryV {
    let r = parsed_node(g, source, i);
    EntryV {
        depth: r.depth,
        kind: r.kind,
        named: r.named,
        field: r.field,
        start_line: r.start_row + 1,
        end_line: r.end_row + 1,
        text: if keeps_text_spec(r.kind, r.field) {
            parsed_text(g, source, i)
        } else {
            None
        },
    }
}

/// The pre-order listing of tree-sitter's tree of `source` with grammar `g`.
pub open spec fn parsed_entries(g: Grammar, source: Seq<char>) -> Seq<EntryV> {
    Seq::new(parsed_node_count(g, source), |i: int| parsed_entry(g, source, i))
}

/// Some node's row has no successor in `usize`.
pub open spec fn rows_overflow(g: Grammar, source: Seq<char>) -> bool {
    exists|i: int|
        0 <= i < parsed_node_count(g, source) && (#[trigger] parsed_node(g, source, i).start_row == usize::MAX
            || parsed_node(g, source, i).end_row == usize::MAX)
}

/// One node of a pre-order listing: its depth below the root and its own data
/// (its `children` are empty).
pub struct FlatNode {
    pub depth: u32,
    pub node: SyntaxNode,
}

impl View for FlatNode {
    type V = EntryV;

    open spec fn view(&self) -> EntryV {
        EntryV {
            depth: self.depth,
            kind: self.node.kind@,
            named: self.node.named,
            field: opt_text(self.node.field),
            start_line: self.node.start_line as int,
            end_line: self.node.end_line as int,
            text: opt_text(self.node.text),
        }
    }
}

pub open spec fn entries_of(v: Seq<FlatNode>) -> Seq<EntryV> {
    v.map_values(|f: FlatNode| f@)
}

/// The listing entry for a node from what tree-sitter reports of it and its text
/// (kept only where it is read): lines counted from 1, no children; `None` when a
/// row has no successor in `usize`.
pub fn flat_entry(raw: RawNode, text: Option<String>) -> (res: Option<FlatNode>)
    ensures
        res is None <==> (raw.start_row == usize::MAX || raw.end_row == usize::MAX),
        res matches Some(f) ==> {
            &&& f@ == EntryV {
                depth: raw.depth,
                kind: raw.kind@,
                named: raw.named,
                field: opt_text(raw.field),
                start_line: raw.start_row + 1,
                end_line: raw.end_row + 1,
                text: if keeps_text_spec(raw.kind@, opt_text(raw.field)) {
                    opt_text(text)
                } else {
                    None
                },
            }
            &&& f.node.children@.len() == 0
        },
{
    if raw.start_row == usize::MAX || raw.end_row == usize::MAX {
        return None;
    }
    let keep = keeps_text(raw.kind.as_str(), &raw.field);
    let RawNode { depth, kind, named, field, start_row, end_row } = raw;
    Some(
        FlatNode {
            depth,
            node: SyntaxNode {
                kind,
                named,
                field,
                start_line: start_row + 1,
                end_line: end_row + 1,
                text: if keep {
                    text
                } else {
                    None
                },
                children: Vec::new(),
            },
        },
    )
}

/// The pre-order listing of the parsed tree (see `parsed_entries`); `None` when a
/// row has no successor in `usize`.
pub(crate) fn flatten(t: &ParsedTree) -> (res: Option<Vec<FlatNode>>)
    ensures
        res is None <==> rows_overflow(t.grammar(), t.source()),
        res matches Some(v) ==> entries_of(v@) == parsed_entries(t.grammar(), t.source()) && v.len() >= 1,
{
    let ghost g = t.grammar();
    let ghost src = t.source();
    let count = node_total(t);
    let mut out: Vec<FlatNode> = Vec::new();
    let mut i: usize = 0;
    while i < count
        invariant
            i <= count,
            count as nat == parsed_node_count(g, src),
            g == t.grammar(),
            src == t.source(),
            entries_of(out@) == parsed_entries(g, src).subrange(0, i as int),
            forall|k: int| 0 <= k < i ==> !(#[trigger] parsed_node(g, src, k).start_row == usize::MAX
                || parsed_node(g, src, k).end_row == usize::MAX),
        decreases count - i,
    {
        let raw = node_at(t, i);
        let text = if keeps_text(raw.kind.as_str(), &raw.field) {
            node_text_at(t, i)
        } else {
            None
        };
        let ghost before = entries_of(out@);
        match flat_entry(raw, text) {
            Some(entry) => {
                out.push(entry);
                assert(entries_of(out@) =~= before.push(entry@));
                assert(parsed_entries(g, src).subrange(0, i + 1) =~= parsed_entries(g, src).subrange(0, i as int).push(
                    parsed_entry(g, src, i as int),
                ));
            },
            None => {
                assert(rows_overflow(g, src));
                return None;
            },
        }
        i = i + 1;
    }
    assert(parsed_entries(g, src).subrange(0, i as int) =~= parsed_entries(g, src));
    assert(!rows_overflow(g, src));
    Some(out)
}

/// Where the subtree rooted at listing position `pos` ends: after its root and the
/// following entries one level deeper, each with its own subtree.
pub open spec fn subtree_end(es: Seq<EntryV>, pos: int) -> int
    decreases es.len() - pos, 0int,
{
    if 0 <= pos < es.len() {
        children_end(es, pos + 1, es[pos].depth + 1)
    } else {
        pos + 1
    }
}

/// Where the run of subtrees at depth `d` that starts at `start` ends.
pub open spec fn children_end(es: Seq<EntryV>, start: int, d: int) -> int
    decreases es.len() - start, 1int,
{
    if 0 <= start < es.len() && es[start].depth == d {
        let next = subtree_end(es, start);
        if start < next <= es.len() {
            children_end(es, next, d)
        } else {
            start
        }
    } else {
        start
    }
}

pub proof fn lemma_subtree_end_bounds(es: Seq<EntryV>, pos: int)
    requires
        0 <= pos < es.len(),
    ensures
        pos < subtree_end(es, pos) <= es.len(),
    decreases es.len() - pos, 0int,
{
    lemma_children_end_bounds(es, pos + 1, es[pos].depth + 1);
}

pub proof fn lemma_children_end_bounds(es: Seq<EntryV>, start: int, d: int)
    requires
        0 <= start <= es.len(),
    ensures
        start <= children_end(es, start, d) <= es.len(),
    decreases es.len() - start, 1int,
{
    if 0 <= start < es.len() && es[start].depth == d {
        lemma_subtree_end_bounds(es, start);
        let next = subtree_end(es, start);
        lemma_children_end_bounds(es, next, d);
    }
}

/// The node holds the data of listing entry `e`.
pub open spec fn node_matches(n: SyntaxNode, e: EntryV) -> bool {
    &&& n.kind@ == e.kind
    &&& n.named == e.named
    &&& opt_text(n.field) == e.field
    &&& n.start_line == e.start_line
    &&& n.end_line == e.end_line
    &&& opt_text(n.text) == e.text
}

/// `t` is the subtree built from listing position `pos`: its root holds entry
/// `pos`, and its children are the subtrees at depth one more that follow.
pub open spec fn built(t: SyntaxNode, es: Seq<EntryV>, pos: int) -> bool
    decreases t, 1int,
{
    &&& 0 <= pos < es.len()
    &&& node_matches(t, es[pos])
    &&& children_built(t.children@, es, pos + 1, es[pos].depth + 1, subtree_end(es, pos))
}

/// `cs` are the subtrees at depth `d` from `start` up to `end`.
pub open spec fn children_built(cs: Seq<SyntaxNode>, es: Seq<EntryV>, start: int, d: int, end: int) -> bool
    decreases cs, 0int,
{
    if cs.len() == 0 {
        start == end
    } else {
        &&& 0 <= start < es.len()
        &&& es[start].depth == d
        &&& built(cs[0], es, start)
        &&& children_built(cs.subrange(1, cs.len() as int), es, subtree_end(es, start), d, end)
    }
}

proof fn lemma_children_built_push(cs: Seq<SyntaxNode>, c: SyntaxNode, es: Seq<EntryV>, start: int, d: int, mid: int)
    requires
        children_built(cs, es, start, d, mid),
        0 <= mid < es.len(),
        es[mid].depth == d,
        built(c, es, mid),
    ensures
        children_built(cs.push(c), es, start, d, subtree_end(es, mid)),
    decreases cs.len(),
{
    let cs2 = cs.push(c);
    let e = subtree_end(es, mid);
    if cs.len() == 0 {
        assert(start == mid);
        assert(cs2.subrange(1, cs2.len() as int) =~= Seq::<SyntaxNode>::empty());
        assert(cs2[0] == c);
        assert(children_built(Seq::<SyntaxNode>::empty(), es, e, d, e));
        assert(children_built(cs2, es, start, d, e));
    } else {
        let rest = cs.subrange(1, cs.len() as int);
        assert(children_built(rest, es, subtree_end(es, start), d, mid));
        lemma_children_built_push(rest, c, es, subtree_end(es, start), d, mid);
        assert(cs2.subrange(1, cs2.len() as int) =~= rest.push(c));
        assert(cs2[0] == cs[0]);
        assert(children_built(cs2, es, start, d, e));
    }
}

fn copy_opt(o: &Option<String>) -> (res: Option<String>)
    ensures
        opt_text(res) == opt_text(*o),
{
    match o {
        Some(s) => Some(s.clone()),
        None => None,
    }
}

/// The subtree whose root is `flat[pos]`: the following entries one level deeper
/// become its children, recursively. Returns the tree and the index after it.
pub fn build_subtree(flat: &Vec<FlatNode>, pos: usize) -> (res: (SyntaxNode, usize))
    requires
        pos < flat.len(),
    ensures
        built(res.0, entries_of(flat@), pos as int),
        res.1 == subtree_end(entries_of(flat@), pos as int),
        pos < res.1 <= flat.len(),
    decreases flat.len() - pos,
{
    let ghost es = entries_of(flat@);
    let entry = &flat[pos];
    assert(es[pos as int] == entry@);
    let ghost d = entry.depth + 1;
    let mut children: Vec<SyntaxNode> = Vec::new();
    let mut next = pos + 1;
    proof {
        lemma_subtree_end_bounds(es, pos as int);
    }
    while next < flat.len() && (flat[next].depth as u64) == (entry.depth as u64) + 1
        invariant
            pos < next <= flat.len(),
            es == entries_of(flat@),
            es[pos as int] == entry@,
            d == entry.depth + 1,
            children_built(children@, es, pos + 1, d, next as int),
            children_end(es, pos + 1, d) == children_end(es, next as int, d),
        decreases flat.len() - next,
    {
        assert(es[next as int] == flat@[next as int]@);
        let (child, after) = build_subtree(flat, next);
        proof {
            lemma_children_built_push(children@, child, es, pos + 1, d, next as int);
        }
        children.push(child);
        next = after;
    }
    proof {
        if next < flat.len() {
            assert(es[next as int] == flat@[next as int]@);
        }
        assert(children_end(es, next as int, d) == next as int);
    }
    let node = SyntaxNode {
        kind: entry.node.kind.clone(),
        named: entry.node.named,
        field: copy_opt(&entry.node.field),
        start_line: entry.node.start_line,
        end_line: entry.node.end_line,
        text: copy_opt(&entry.node.text),
        children,
    };
    (node, next)
}

/// Every entry of the listing meets the line bounds that excerpting relies on.
pub open spec fn entries_fit(es: Seq<EntryV>, line_count: int) -> bool {
    forall|k: int|
        0 <= k < es.len() ==> {
            &&& 1 <= (#[trigger] es[k]).start_line <= es[k].end_line
            &&& es[k].start_line <= line_count + 1
            &&& es[k].start_line + 17 <= usize::MAX
        }
}

/// Whether every entry of the listing meets the line bounds (see `entries_fit`).
fn entries_fit_exec(flat: &Vec<FlatNode>, line_count: usize) -> (res: bool)
    ensures
        res == entries_fit(entries_of(flat@), line_count as int),
{
    let ghost es = entries_of(flat@);
    let mut k: usize = 0;
    while k < flat.len()
        invariant
            k <= flat.len(),
            es == entries_of(flat@),
            entries_fit(es.subrange(0, k as int), line_count as int),
        decreases flat.len() - k,
    {
        let n = &flat[k].node;
        assert(es[k as int] == flat@[k as int]@);
        if !(1 <= n.start_line && n.start_line <= n.end_line && n.start_line - 1 <= line_count && n.start_line
            <= usize::MAX - 17) {
            assert(es.subrange(0, k as int + 1)[k as int] == es[k as int]);
            return false;
        }
        k = k + 1;
        assert forall|j: int| 0 <= j < k implies {
            &&& 1 <= (#[trigger] es.subrange(0, k as int)[j]).start_line <= es.subrange(0, k as int)[j].end_line
            &&& es.subrange(0, k as int)[j].start_line <= line_count + 1
            &&& es.subrange(0, k as int)[j].start_line + 17 <= usize::MAX
        } by {
            if j < k - 1 {
                assert(es.subrange(0, k as int)[j] == es.subrange(0, k - 1)[j]);
            }
        }
    }
    assert(es.subrange(0, k as int) =~= es);
    true
}

proof fn lemma_built_fits(t: SyntaxNode, es: Seq<EntryV>, pos: int, line_count: int)
    requires
        built(t, es, pos),
        entries_fit(es, line_count),
    ensures
        forest_fits(seq![t], line_count),
    decreases t, 1int,
{
    let e = es[pos];
    assert(1 <= e.start_line <= e.end_line && e.start_line <= line_count + 1 && e.start_line + 17 <= usize::MAX);
    lemma_children_fit(t.children@, es, pos + 1, e.depth + 1, subtree_end(es, pos), line_count);
    let one = seq![t];
    assert(one.subrange(1, one.len() as int) =~= Seq::<SyntaxNode>::empty());
    assert(one[0] == t);
    assert(forest_fits(Seq::<SyntaxNode>::empty(), line_count));
    assert(forest_fits(t.children@, line_count));
}

proof fn lemma_children_fit(cs: Seq<SyntaxNode>, es: Seq<EntryV>, start: int, d: int, end: int, line_count: int)
    requires
        children_built(cs, es, start, d, end),
        entries_fit(es, line_count),
    ensures
        forest_fits(cs, line_count),
    decreases cs, 0int,
{
    if cs.len() > 0 {
        lemma_built_fits(cs[0], es, start, line_count);
        let rest = cs.subrange(1, cs.len() as int);
        lemma_children_fit(rest, es, subtree_end(es, start), d, end, line_count);
        let one = seq![cs[0]];
        assert(one[0] == cs[0]);
        assert(one.subrange(1, 1) =~= Seq::<SyntaxNode>::empty());
    }
}

/// The tree that tree-sitter parses from `source` with grammar `g` can be held as
/// plain values for a source of `line_count` lines: no row overflows, every entry
/// meets the line bounds, and the tree built from the listing nests.
pub open spec fn tree_parse_fits(g: Grammar, source: Seq<char>, line_count: int) -> bool {
    &&& !rows_overflow(g, source)
    &&& entries_fit(parsed_entries(g, source), line_count)
    &&& forall|t: SyntaxNode| #[trigger] built(t, parsed_entries(g, source), 0) ==> tree_nests(t)
}

proof fn lemma_children_built_span(cs: Seq<SyntaxNode>, es: Seq<EntryV>, start: int, d: int, end: int)
    requires
        children_built(cs, es, start, d, end),
    ensures
        start <= end,
        cs.len() > 0 ==> start < end,
    decreases cs,
{
    if cs.len() > 0 {
        lemma_subtree_end_bounds(es, start);
        lemma_children_built_span(cs.subrange(1, cs.len() as int), es, subtree_end(es, start), d, end);
    }
}

/// Two trees built from the same listing position agree on nesting.
proof fn lemma_built_nests_same(t: SyntaxNode, es: Seq<EntryV>, pos: int)
    requires
        built(t, es, pos),
    ensures
        forall|u: SyntaxNode| #[trigger] built(u, es, pos) ==> tree_nests(u) == tree_nests(t),
    decreases t, 1int,
{
    assert forall|u: SyntaxNode| #[trigger] built(u, es, pos) implies tree_nests(u) == tree_nests(t) by {
        lemma_children_nest_same(
            t.children@,
            u.children@,
            es,
            pos + 1,
            es[pos].depth + 1,
            subtree_end(es, pos),
            t.start_line as int,
            t.end_line as int,
        );
    }
}

proof fn lemma_children_nest_same(cs: Seq<SyntaxNode>, ds: Seq<SyntaxNode>, es: Seq<EntryV>, start: int, d: int, end: int, lo: int, hi: int)
    requires
        children_built(cs, es, start, d, end),
        children_built(ds, es, start, d, end),
    ensures
        forest_nests(cs, lo, hi) == forest_nests(ds, lo, hi),
    decreases cs, 0int,
{
    lemma_children_built_span(cs, es, start, d, end);
    lemma_children_built_span(ds, es, start, d, end);
    if cs.len() > 0 && ds.len() > 0 {
        lemma_built_nests_same(cs[0], es, start);
        assert(built(cs[0], es, start));
        assert(built(ds[0], es, start));
        assert(node_matches(cs[0], es[start]));
        assert(node_matches(ds[0], es[start]));
        assert(cs[0].start_line == ds[0].start_line && cs[0].end_line == ds[0].end_line);
        assert(tree_nests(cs[0]) == tree_nests(ds[0]));
        assert(children_built(cs.subrange(1, cs.len() as int), es, subtree_end(es, start), d, end));
        assert(children_built(ds.subrange(1, ds.len() as int), es, subtree_end(es, start), d, end));
        lemma_subtree_end_bounds(es, start);
        lemma_children_nest_same(
            cs.subrange(1, cs.len() as int),
            ds.subrange(1, ds.len() as int),
            es,
            subtree_end(es, start),
            d,
            end,
            lo,
            hi,
        );
    }
}

/// The tree of the parse as plain values: the subtree built from the first entry
/// of its listing, when no row overflows and every entry meets the line bounds
/// against a source of `line_count` lines; else `None`.
pub(crate) fn syntax_tree(t: &ParsedTree, line_count: usize) -> (res: Option<SyntaxNode>)
    ensures
        res is Some ==> tree_parse_fits(t.grammar(), t.source(), line_count as int),
        res is None ==> !tree_parse_fits(t.grammar(), t.source(), line_count as int),
        res matches Some(tree) ==> built(tree, parsed_entries(t.grammar(), t.source()), 0) && forest_fits(
            seq![tree],
            line_count as int,
        ) && tree_nests(tree),
{
    let flat = match flatten(t) {
        Some(f) => f,
        None => {
            return None;
        },
    };
    if !entries_fit_exec(&flat, line_count) {
        return None;
    }
    let (tree, _) = build_subtree(&flat, 0);
    proof {
        lemma_built_fits(tree, entries_of(flat@), 0, line_count as int);
    }
    if !forest_nests_exec(&tree.children, tree.start_line, tree.end_line) {
        proof {
            lemma_built_nests_same(tree, entries_of(flat@), 0);
        }
        return None;
    }
    proof {
        lemma_built_nests_same(tree, entries_of(flat@), 0);
    }
    Some(tree)
}

} // verus!
