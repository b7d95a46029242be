//! Language adapters: which files each one reads, which syntax-node kinds count as
//! function and type declarations, and how call names map to data boundaries.
use vstd::prelude::*;

use crate::model::{CallSite, CallSiteV, ParsedKind, ParsedSymbol, ParsedSymbolV, calls_view, strings_view, symbols_view};
use crate::sort::{KeyOrder, is_sorted_by, lemma_sorted_elements, lemma_sorted_is_sorted, sort_in_order, sorted_in_order, views_of};
use crate::syntax::{
    Grammar, GrammarHandle, SyntaxNode, built, entries_fit, field_child, find_kind_in, final_ident, first_named,
    forest_fits, forest_nests, go_language, grammar_load_error, grammar_loads, tree_parse_fits, lemma_forest_fits_each, new_parser, parse_text, parsed_entries,
    python_language, rows_overflow, rust_language, set_parser_language, syntax_tree, trimmed_text, tsx_language,
    typescript_language,
};
use crate::text::{
    chars_of, contains, decimal, decimal_string, has_infix, joined, lacks, lemma_seq_lt_asymmetric,
    lemma_seq_lt_irreflexive, lemma_seq_lt_total, lemma_seq_lt_transitive, lines_of, lines_vec, lower_seq, occurs_at_exec, owned,
    pad_left, pad_left_string, push_str, seq_lt, string_of, text_eq, text_lt, texts_view, to_lower,
};

verus! {

#[derive(Clone, Copy, Debug, PartialEq, Eq, Structural)]
pub enum Adapter {
    Rust,
    TypeScript,
    Tsx,
    JavaScript,
    Python,
    Go,
}

pub open spec fn strs_view(v: Seq<&str>) -> Seq<Seq<char>> {
    v.map_values(|s: &str| s@)
}

pub open spec fn label_of(a: Adapter) -> Seq<char> {
    match a {
        Adapter::Rust => "Rust"@,
        Adapter::TypeScript => "TypeScript"@,
        Adapter::Tsx => "TSX"@,
        Adapter::JavaScript => "JavaScript"@,
        Adapter::Python => "Python"@,
        Adapter::Go => "Go"@,
    }
}

pub open spec fn function_kind_list(a: Adapter) -> Seq<Seq<char>> {
    match a {
        Adapter::Rust => seq!["function_item"@],
        Adapter::TypeScript | Adapter::Tsx | Adapter::JavaScript => seq![
            "function_declaration"@,
            "method_definition"@,
        ],
        Adapter::Python => seq!["function_definition"@],
        Adapter::Go => seq!["function_declaration"@, "method_declaration"@],
    }
}

pub open spec fn type_kind_list(a: Adapter) -> Seq<Seq<char>> {
    match a {
        Adapter::Rust => seq!["struct_item"@, "enum_item"@, "trait_item"@, "type_item"@],
        Adapter::TypeScript | Adapter::Tsx | Adapter::JavaScript => seq![
            "class_declaration"@,
            "interface_declaration"@,
            "type_alias_declaration"@,
            "enum_declaration"@,
        ],
        Adapter::Python => seq!["class_definition"@],
        Adapter::Go => seq!["type_declaration"@, "type_spec"@],
    }
}

/// The adapter for a lower-cased file extension.
pub open spec fn adapter_for_extension(e: Seq<char>) -> Option<Adapter> {
    if e == "rs"@ {
        Some(Adapter::Rust)
    } else if e == "ts"@ || e == "mts"@ || e == "cts"@ {
        Some(Adapter::TypeScript)
    } else if e == "tsx"@ {
        Some(Adapter::Tsx)
    } else if e == "js"@ || e == "mjs"@ || e == "cjs"@ {
        Some(Adapter::JavaScript)
    } else if e == "jsx"@ {
        Some(Adapter::Tsx)
    } else if e == "py"@ {
        Some(Adapter::Python)
    } else if e == "go"@ {
        Some(Adapter::Go)
    } else {
        None
    }
}

/// Index of the last `c` in `p`, or -1.
pub open spec fn last_index_of(p: Seq<char>, c: char) -> int
    decreases p.len(),
{
    if p.len() == 0 {
        -1
    } else if p[p.len() - 1] == c {
        p.len() - 1
    } else {
        last_index_of(p.subrange(0, p.len() - 1), c)
    }
}

pub proof fn lemma_last_index_of(p: Seq<char>, c: char)
    ensures
        -1 <= last_index_of(p, c) < p.len(),
        last_index_of(p, c) >= 0 ==> p[last_index_of(p, c)] == c,
        forall|j: int| last_index_of(p, c) < j < p.len() ==> p[j] != c,
    decreases p.len(),
{
    if p.len() > 0 && p[p.len() - 1] != c {
        let q = p.subrange(0, p.len() - 1);
        lemma_last_index_of(q, c);
        assert forall|j: int| last_index_of(p, c) < j < p.len() implies p[j] != c by {
            if j < p.len() - 1 {
                assert(q[j] == p[j]);
            }
        }
    }
}

proof fn lemma_last_index_after(a: Seq<char>, c: char, b: Seq<char>)
    requires
        lacks(b, c),
    ensures
        last_index_of(a.push(c) + b, c) == a.len(),
    decreases b.len(),
{
    let s = a.push(c) + b;
    if b.len() == 0 {
        assert(s =~= a.push(c));
    } else {
        let b1 = b.drop_last();
        assert(lacks(b1, c)) by {
            assert forall|i: int| 0 <= i < b1.len() implies b1[i] != c by {
                assert(b1[i] == b[i]);
            }
        }
        lemma_last_index_after(a, c, b1);
        assert(s.subrange(0, s.len() - 1) =~= a.push(c) + b1);
        assert(s[s.len() - 1] == b[b.len() - 1]);
    }
}

/// A file is read by the adapter of its extension (the text after the last `.` of
/// its name, when something comes before that `.`), compared in any ASCII case:
/// `rs` is Rust; `ts`, `mts` and `cts` TypeScript; `tsx` and `jsx` TSX; `js`,
/// `mjs` and `cjs` JavaScript; `py` Python; `go` Go; any other extension none.
pub proof fn lemma_extension_picks_adapter(path: Seq<char>, stem: Seq<char>, ext: Seq<char>)
    requires
        file_name(path) == Some(stem + "."@ + ext),
        stem.len() > 0,
        lacks(ext, '.'),
    ensures
        ({
            let e = lower_seq(ext);
            let a = adapter_for_path(path);
            &&& e == "rs"@ ==> a == Some(Adapter::Rust)
            &&& (e == "ts"@ || e == "mts"@ || e == "cts"@) ==> a == Some(Adapter::TypeScript)
            &&& (e == "tsx"@ || e == "jsx"@) ==> a == Some(Adapter::Tsx)
            &&& (e == "js"@ || e == "mjs"@ || e == "cjs"@) ==> a == Some(Adapter::JavaScript)
            &&& e == "py"@ ==> a == Some(Adapter::Python)
            &&& e == "go"@ ==> a == Some(Adapter::Go)
            &&& !(e == "rs"@ || e == "ts"@ || e == "mts"@ || e == "cts"@ || e == "tsx"@ || e == "jsx"@ || e == "js"@
                || e == "mjs"@ || e == "cjs"@ || e == "py"@ || e == "go"@) ==> a is None
        }),
{
    reveal_strlit(".");
    reveal_strlit("rs");
    reveal_strlit("ts");
    reveal_strlit("mts");
    reveal_strlit("cts");
    reveal_strlit("tsx");
    reveal_strlit("jsx");
    reveal_strlit("js");
    reveal_strlit("mjs");
    reveal_strlit("cjs");
    reveal_strlit("py");
    reveal_strlit("go");
    let name = stem + "."@ + ext;
    assert(name =~= stem.push('.') + ext);
    lemma_last_index_after(stem, '.', ext);
    assert(last_index_of(name, '.') == stem.len());
    assert(name.subrange(stem.len() + 1 as int, name.len() as int) =~= ext);
    assert(extension(name) == Some(ext));
    assert(adapter_for_path(path) == adapter_for_extension(lower_seq(ext)));
    assert("rs"@ =~= seq!['r', 's']);
    assert("ts"@ =~= seq!['t', 's']);
    assert("mts"@ =~= seq!['m', 't', 's']);
    assert("cts"@ =~= seq!['c', 't', 's']);
    assert("tsx"@ =~= seq!['t', 's', 'x']);
    assert("jsx"@ =~= seq!['j', 's', 'x']);
    assert("js"@ =~= seq!['j', 's']);
    assert("mjs"@ =~= seq!['m', 'j', 's']);
    assert("cjs"@ =~= seq!['c', 'j', 's']);
    assert("py"@ =~= seq!['p', 'y']);
    assert("go"@ =~= seq!['g', 'o']);
}

/// The final component of a `/`-separated path, as `Path::file_name` gives it:
/// empty and `.` components are skipped, and `..` has no file name.
pub open spec fn file_name(p: Seq<char>) -> Option<Seq<char>>
    decreases p.len(),
{
    let k = last_index_of(p, '/');
    if -1 <= k < p.len() {
        let seg = p.subrange(k + 1, p.len() as int);
        if seg.len() == 0 || seg == "."@ {
            if k >= 0 {
                file_name(p.subrange(0, k))
            } else {
                None
            }
        } else if seg == ".."@ {
            None
        } else {
            Some(seg)
        }
    } else {
        None
    }
}

/// The extension of a file name, as `Path::extension` gives it: the text after the
/// last `.`, unless that `.` is the first character.
pub open spec fn extension(name: Seq<char>) -> Option<Seq<char>> {
    let k = last_index_of(name, '.');
    if 0 < k < name.len() {
        Some(name.subrange(k + 1, name.len() as int))
    } else {
        None
    }
}

/// The adapter that reads the file at `path`.
pub open spec fn adapter_for_path(path: Seq<char>) -> Option<Adapter> {
    match file_name(path) {
        Some(name) => match extension(name) {
            Some(e) => adapter_for_extension(lower_seq(e)),
            None => None,
        },
        None => None,
    }
}

pub open spec fn network_words() -> Seq<Seq<char>> {
    seq!["fetch"@, "request"@, "send"@, "recv"@, "connect"@]
}

pub open spec fn filesystem_words() -> Seq<Seq<char>> {
    seq!["read"@, "write"@, "open"@, "file"@, "mkdir"@]
}

pub open spec fn database_words() -> Seq<Seq<char>> {
    seq!["query"@, "execute"@, "insert"@, "update"@, "transaction"@]
}

pub open spec fn serialization_words() -> Seq<Seq<char>> {
    seq!["serialize"@, "deserialize"@, "parse"@, "decode"@, "encode"@]
}

pub open spec fn environment_words() -> Seq<Seq<char>> {
    seq!["getenv"@, "var"@, "environment"@]
}

/// Some word of `words` occurs in `s`.
pub open spec fn has_any_infix(s: Seq<char>, words: Seq<Seq<char>>) -> bool {
    exists|i: int| 0 <= i < words.len() && has_infix(s, #[trigger] words[i])
}

/// The data boundary that a call name suggests, by the first matching word group.
pub open spec fn boundary_of(name: Seq<char>) -> Option<Seq<char>> {
    let l = lower_seq(name);
    if has_any_infix(l, network_words()) {
        Some("network I/O"@)
    } else if has_any_infix(l, filesystem_words()) {
        Some("filesystem I/O"@)
    } else if has_any_infix(l, database_words()) {
        Some("database I/O"@)
    } else if has_any_infix(l, serialization_words()) {
        Some("serialization"@)
    } else if has_any_infix(l, environment_words()) {
        Some("process environment"@)
    } else {
        None
    }
}

/// How a call name is classified, by the words its lower-case form contains, the
/// first matching group winning: network words, then filesystem, database,
/// serialization and process-environment words; a name with none of them crosses
/// no boundary.
pub proof fn lemma_boundary_groups(name: Seq<char>)
    ensures
        ({
            let l = lower_seq(name);
            let net = seq!["fetch"@, "request"@, "send"@, "recv"@, "connect"@];
            let fs = seq!["read"@, "write"@, "open"@, "file"@, "mkdir"@];
            let db = seq!["query"@, "execute"@, "insert"@, "update"@, "transaction"@];
            let ser = seq!["serialize"@, "deserialize"@, "parse"@, "decode"@, "encode"@];
            let env = seq!["getenv"@, "var"@, "environment"@];
            &&& has_any_infix(l, net) ==> boundary_of(name) == Some("network I/O"@)
            &&& !has_any_infix(l, net) && has_any_infix(l, fs) ==> boundary_of(name) == Some("filesystem I/O"@)
            &&& !has_any_infix(l, net) && !has_any_infix(l, fs) && has_any_infix(l, db) ==> boundary_of(name) == Some(
                "database I/O"@,
            )
            &&& !has_any_infix(l, net) && !has_any_infix(l, fs) && !has_any_infix(l, db) && has_any_infix(l, ser)
                ==> boundary_of(name) == Some("serialization"@)
            &&& !has_any_infix(l, net) && !has_any_infix(l, fs) && !has_any_infix(l, db) && !has_any_infix(l, ser)
                && has_any_infix(l, env) ==> boundary_of(name) == Some("process environment"@)
            &&& !has_any_infix(l, net) && !has_any_infix(l, fs) && !has_any_infix(l, db) && !has_any_infix(l, ser)
                && !has_any_infix(l, env) ==> boundary_of(name) is None
        }),
{
    assert(network_words() =~= seq!["fetch"@, "request"@, "send"@, "recv"@, "connect"@]);
    assert(filesystem_words() =~= seq!["read"@, "write"@, "open"@, "file"@, "mkdir"@]);
    assert(database_words() =~= seq!["query"@, "execute"@, "insert"@, "update"@, "transaction"@]);
    assert(serialization_words() =~= seq!["serialize"@, "deserialize"@, "parse"@, "decode"@, "encode"@]);
    assert(environment_words() =~= seq!["getenv"@, "var"@, "environment"@]);
}

/// A call whose lower-case name contains a word is classified by the group of that
/// word unless an earlier group also matches: for instance any name containing
/// `query` but no network or filesystem word is database I/O.
pub proof fn lemma_boundary_word(name: Seq<char>, word: Seq<char>)
    requires
        has_infix(lower_seq(name), word),
    ensures
        ({
            let l = lower_seq(name);
            let net = seq!["fetch"@, "request"@, "send"@, "recv"@, "connect"@];
            let fs = seq!["read"@, "write"@, "open"@, "file"@, "mkdir"@];
            let db = seq!["query"@, "execute"@, "insert"@, "update"@, "transaction"@];
            let ser = seq!["serialize"@, "deserialize"@, "parse"@, "decode"@, "encode"@];
            let env = seq!["getenv"@, "var"@, "environment"@];
            &&& net.contains(word) ==> boundary_of(name) == Some("network I/O"@)
            &&& fs.contains(word) && !has_any_infix(l, net) ==> boundary_of(name) == Some("filesystem I/O"@)
            &&& db.contains(word) && !has_any_infix(l, net) && !has_any_infix(l, fs) ==> boundary_of(name) == Some(
                "database I/O"@,
            )
            &&& ser.contains(word) && !has_any_infix(l, net) && !has_any_infix(l, fs) && !has_any_infix(l, db)
                ==> boundary_of(name) == Some("serialization"@)
            &&& env.contains(word) && !has_any_infix(l, net) && !has_any_infix(l, fs) && !has_any_infix(l, db)
                && !has_any_infix(l, ser) ==> boundary_of(name) == Some("process environment"@)
        }),
{
    lemma_boundary_groups(name);
    let l = lower_seq(name);
    let net = seq!["fetch"@, "request"@, "send"@, "recv"@, "connect"@];
    let fs = seq!["read"@, "write"@, "open"@, "file"@, "mkdir"@];
    let db = seq!["query"@, "execute"@, "insert"@, "update"@, "transaction"@];
    let ser = seq!["serialize"@, "deserialize"@, "parse"@, "decode"@, "encode"@];
    let env = seq!["getenv"@, "var"@, "environment"@];
    if net.contains(word) {
        let i = choose|i: int| 0 <= i < net.len() && net[i] == word;
        assert(has_infix(l, net[i]));
    }
    if fs.contains(word) {
        let i = choose|i: int| 0 <= i < fs.len() && fs[i] == word;
        assert(has_infix(l, fs[i]));
    }
    if db.contains(word) {
        let i = choose|i: int| 0 <= i < db.len() && db[i] == word;
        assert(has_infix(l, db[i]));
    }
    if ser.contains(word) {
        let i = choose|i: int| 0 <= i < ser.len() && ser[i] == word;
        assert(has_infix(l, ser[i]));
    }
    if env.contains(word) {
        let i = choose|i: int| 0 <= i < env.len() && env[i] == word;
        assert(has_infix(l, env[i]));
    }
}

/// The built-in type names that get no type node are exactly these.
pub proof fn lemma_primitive_names(name: Seq<char>)
    ensures
        primitive_names().contains(name) <==> seq![
            "String"@, "str"@, "bool"@, "usize"@, "isize"@, "i8"@, "i16"@, "i32"@, "i64"@, "i128"@, "u8"@, "u16"@,
            "u32"@, "u64"@, "u128"@, "f32"@, "f64"@, "None"@, "Any"@, "unknown"@, "number"@, "string"@, "void"@,
        ].contains(name),
{
    assert(primitive_names() =~= seq![
        "String"@, "str"@, "bool"@, "usize"@, "isize"@, "i8"@, "i16"@, "i32"@, "i64"@, "i128"@, "u8"@, "u16"@,
        "u32"@, "u64"@, "u128"@, "f32"@, "f64"@, "None"@, "Any"@, "unknown"@, "number"@, "string"@, "void"@,
    ]);
}

/// Each adapter has its own display name.
pub proof fn lemma_labels_are_distinct(a: Adapter, b: Adapter)
    ensures
        a != b ==> label_of(a) != label_of(b),
        a == Adapter::Tsx ==> label_of(a) == "TSX"@,
        a == Adapter::TypeScript ==> label_of(a) == "TypeScript"@,
        a == Adapter::JavaScript ==> label_of(a) == "JavaScript"@,
        a == Adapter::Rust ==> label_of(a) == "Rust"@,
        a == Adapter::Python ==> label_of(a) == "Python"@,
        a == Adapter::Go ==> label_of(a) == "Go"@,
{
    reveal_strlit("Rust");
    reveal_strlit("TypeScript");
    reveal_strlit("TSX");
    reveal_strlit("JavaScript");
    reveal_strlit("Python");
    reveal_strlit("Go");
    if a != b {
        let x = label_of(a);
        let y = label_of(b);
        if x == y {
            assert(x.len() == y.len());
            assert(x[0] == y[0]);
            assert(x[1] == y[1]);
        }
    }
}

pub open spec fn primitive_names() -> Seq<Seq<char>> {
    seq![
        "String"@,
        "str"@,
        "bool"@,
        "usize"@,
        "isize"@,
        "i8"@,
        "i16"@,
        "i32"@,
        "i64"@,
        "i128"@,
        "u8"@,
        "u16"@,
        "u32"@,
        "u64"@,
        "u128"@,
        "f32"@,
        "f64"@,
        "None"@,
        "Any"@,
        "unknown"@,
        "number"@,
        "string"@,
        "void"@,
    ]
}

/// Whether `kind` is one of `list`.
pub fn list_contains(list: &Vec<&str>, kind: &str) -> (res: bool)
    ensures
        res == strs_view(list@).contains(kind@),
{
    let mut i: usize = 0;
    while i < list.len()
        invariant
            i <= list.len(),
            forall|j: int| 0 <= j < i ==> strs_view(list@)[j] != kind@,
        decreases list.len() - i,
    {
        if text_eq(list[i], kind) {
            assert(strs_view(list@)[i as int] == kind@);
            return true;
        }
        i = i + 1;
    }
    false
}

/// Whether some word of `words` occurs in `s`.
pub fn contains_any(s: &str, words: &Vec<&str>) -> (res: bool)
    ensures
        res == has_any_infix(s@, strs_view(words@)),
{
    let mut i: usize = 0;
    while i < words.len()
        invariant
            i <= words.len(),
            forall|j: int| 0 <= j < i ==> !has_infix(s@, #[trigger] strs_view(words@)[j]),
        decreases words.len() - i,
    {
        if contains(s, words[i]) {
            assert(has_infix(s@, strs_view(words@)[i as int]));
            return true;
        }
        i = i + 1;
    }
    false
}

/// The part of `v` from `from` to `to`.
pub fn sub_chars(v: &Vec<char>, from: usize, to: usize) -> (res: Vec<char>)
    requires
        from <= to <= v.len(),
    ensures
        res@ == v@.subrange(from as int, to as int),
{
    let mut res: Vec<char> = Vec::new();
    let mut i = from;
    while i < to
        invariant
            from <= i <= to <= v.len(),
            res@ == v@.subrange(from as int, i as int),
        decreases to - i,
    {
        res.push(v[i]);
        i = i + 1;
        assert(res@ =~= v@.subrange(from as int, i as int));
    }
    res
}

/// The index of the last `c` in `v[..end]`.
pub fn last_index_in(v: &Vec<char>, end: usize, c: char) -> (res: Option<usize>)
    requires
        end <= v.len(),
    ensures
        match res {
            Some(k) => k as int == last_index_of(v@.subrange(0, end as int), c),
            None => last_index_of(v@.subrange(0, end as int), c) == -1,
        },
{
    let mut k = end;
    while k > 0 && v[k - 1] != c
        invariant
            k <= end <= v.len(),
            last_index_of(v@.subrange(0, end as int), c) == last_index_of(v@.subrange(0, k as int), c),
        decreases k,
    {
        assert(v@.subrange(0, k as int).subrange(0, k - 1) =~= v@.subrange(0, k - 1));
        k = k - 1;
    }
    if k == 0 {
        None
    } else {
        Some(k - 1)
    }
}

/// Whether `v` holds exactly the characters of `lit`.
pub fn chars_eq(v: &Vec<char>, lit: &str) -> (res: bool)
    ensures
        res == (v@ == lit@),
{
    let w = chars_of(lit);
    if v.len() != w.len() {
        return false;
    }
    let r = occurs_at_exec(v, &w, 0);
    assert(r ==> v@.subrange(0, w@.len() as int) =~= v@);
    assert(v@ == w@ ==> v@.subrange(0, w@.len() as int) =~= v@);
    r
}

/// The file name of the path whose characters are `v`.
pub fn file_name_chars(v: &Vec<char>) -> (res: Option<Vec<char>>)
    ensures
        match res {
            Some(n) => file_name(v@) == Some(n@),
            None => file_name(v@) is None,
        },
{
    let mut end = v.len();
    assert(v@.subrange(0, end as int) =~= v@);
    loop
        invariant
            end <= v.len(),
            file_name(v@.subrange(0, end as int)) == file_name(v@),
        decreases end,
    {
        let ghost p = v@.subrange(0, end as int);
        proof {
            lemma_last_index_of(p, '/');
        }
        let k = last_index_in(v, end, '/');
        let start = match k {
            Some(kk) => kk + 1,
            None => 0,
        };
        let seg = sub_chars(v, start, end);
        assert(seg@ =~= p.subrange(last_index_of(p, '/') + 1, p.len() as int));
        if seg.len() == 0 || chars_eq(&seg, ".") {
            match k {
                Some(kk) => {
                    assert(p.subrange(0, kk as int) =~= v@.subrange(0, kk as int));
                    end = kk;
                },
                None => {
                    return None;
                },
            }
        } else if chars_eq(&seg, "..") {
            return None;
        } else {
            return Some(seg);
        }
    }
}

impl Adapter {
    /// The adapter that reads the file at `path` (components separated by `/`),
    /// chosen by the file's extension, or `None` for an unsupported file.
    pub fn for_path(path: &str) -> (res: Option<Self>)
        ensures
            res == adapter_for_path(path@),
    {
        let v = chars_of(path);
        let name = match file_name_chars(&v) {
            Some(n) => n,
            None => {
                return None;
            },
        };
        assert(file_name(path@) == Some(name@));
        proof {
            lemma_last_index_of(name@, '.');
        }
        let dot = last_index_in(&name, name.len(), '.');
        assert(name@.subrange(0, name.len() as int) =~= name@);
        let ext = match dot {
            Some(k) => {
                if k == 0 {
                    return None;
                }
                sub_chars(&name, k + 1, name.len())
            },
            None => {
                return None;
            },
        };
        let ext_string = string_of(&ext);
        let lower = to_lower(ext_string.as_str());
        let l = lower.as_str();
        if text_eq(l, "rs") {
            Some(Adapter::Rust)
        } else if text_eq(l, "ts") || text_eq(l, "mts") || text_eq(l, "cts") {
            Some(Adapter::TypeScript)
        } else if text_eq(l, "tsx") {
            Some(Adapter::Tsx)
        } else if text_eq(l, "js") || text_eq(l, "mjs") || text_eq(l, "cjs") {
            Some(Adapter::JavaScript)
        } else if text_eq(l, "jsx") {
            Some(Adapter::Tsx)
        } else if text_eq(l, "py") {
            Some(Adapter::Python)
        } else if text_eq(l, "go") {
            Some(Adapter::Go)
        } else {
            None
        }
    }

    /// The adapter's display name.
    pub fn label(self) -> (res: &'static str)
        ensures
            res@ == label_of(self),
    {
        match self {
            Adapter::Rust => "Rust",
            Adapter::TypeScript => "TypeScript",
            Adapter::Tsx => "TSX",
            Adapter::JavaScript => "JavaScript",
            Adapter::Python => "Python",
            Adapter::Go => "Go",
        }
    }

    /// The syntax-node kinds that declare functions in this language.
    pub fn function_kinds(self) -> (res: Vec<&'static str>)
        ensures
            strs_view(res@) == function_kind_list(self),
    {
        let v: Vec<&'static str> = match self {
            Adapter::Rust => vec!["function_item"],
            Adapter::TypeScript | Adapter::Tsx | Adapter::JavaScript => vec![
                "function_declaration",
                "method_definition",
            ],
            Adapter::Python => vec!["function_definition"],
            Adapter::Go => vec!["function_declaration", "method_declaration"],
        };
        assert(strs_view(v@) =~= function_kind_list(self));
        v
    }

    /// The syntax-node kinds that declare types in this language.
    pub fn type_kinds(self) -> (res: Vec<&'static str>)
        ensures
            strs_view(res@) == type_kind_list(self),
    {
        let v: Vec<&'static str> = match self {
            Adapter::Rust => vec!["struct_item", "enum_item", "trait_item", "type_item"],
            Adapter::TypeScript | Adapter::Tsx | Adapter::JavaScript => vec![
                "class_declaration",
                "interface_declaration",
                "type_alias_declaration",
                "enum_declaration",
            ],
            Adapter::Python => vec!["class_definition"],
            Adapter::Go => vec!["type_declaration", "type_spec"],
        };
        assert(strs_view(v@) =~= type_kind_list(self));
        v
    }
}

/// The data boundary that a call named `name` suggests, if any.
pub fn boundary_for(name: &str) -> (res: Option<String>)
    ensures
        opt_seq(res) == boundary_of(name@),
{
    let lower = to_lower(name);
    let l = lower.as_str();
    let network: Vec<&str> = vec!["fetch", "request", "send", "recv", "connect"];
    let filesystem: Vec<&str> = vec!["read", "write", "open", "file", "mkdir"];
    let database: Vec<&str> = vec!["query", "execute", "insert", "update", "transaction"];
    let serialization: Vec<&str> = vec!["serialize", "deserialize", "parse", "decode", "encode"];
    let environment: Vec<&str> = vec!["getenv", "var", "environment"];
    assert(strs_view(network@) =~= network_words());
    assert(strs_view(filesystem@) =~= filesystem_words());
    assert(strs_view(database@) =~= database_words());
    assert(strs_view(serialization@) =~= serialization_words());
    assert(strs_view(environment@) =~= environment_words());
    let label = if contains_any(l, &network) {
        "network I/O"
    } else if contains_any(l, &filesystem) {
        "filesystem I/O"
    } else if contains_any(l, &database) {
        "database I/O"
    } else if contains_any(l, &serialization) {
        "serialization"
    } else if contains_any(l, &environment) {
        "process environment"
    } else {
        return None;
    };
    Some(owned(label))
}

/// Whether `name` is a built-in type name that is not worth a type node.
pub fn is_primitive(name: &str) -> (res: bool)
    ensures
        res == primitive_names().contains(name@),
{
    let names: Vec<&str> = vec![
        "String",
        "str",
        "bool",
        "usize",
        "isize",
        "i8",
        "i16",
        "i32",
        "i64",
        "i128",
        "u8",
        "u16",
        "u32",
        "u64",
        "u128",
        "f32",
        "f64",
        "None",
        "Any",
        "unknown",
        "number",
        "string",
        "void",
    ];
    assert(strs_view(names@) =~= primitive_names());
    list_contains(&names, name)
}

pub open spec fn opt_seq(o: Option<String>) -> Option<Seq<char>> {
    match o {
        Some(s) => Some(s@),
        None => None,
    }
}


// ----------------------------------------------------------------------------
// Declarations and the evidence inside them
// ----------------------------------------------------------------------------

/// What a declaration scan knows besides the tree: the language, the source's lines
/// and the file's two paths.
pub ghost struct DeclContext {
    pub adapter: Adapter,
    pub lines: Seq<Seq<char>>,
    pub rel_path: Seq<char>,
    pub abs_path: Seq<char>,
}

pub open spec fn is_script(a: Adapter) -> bool {
    a == Adapter::TypeScript || a == Adapter::Tsx || a == Adapter::JavaScript
}

/// A script variable whose value is an arrow function or function expression.
pub open spec fn is_function_variable_spec(n: SyntaxNode, a: Adapter) -> bool {
    &&& is_script(a)
    &&& n.kind@ == "variable_declarator"@
    &&& match field_child(n, "value"@) {
        Some(v) => v.kind@ == "arrow_function"@ || v.kind@ == "function_expression"@,
        None => false,
    }
}

/// What the node declares in language `a`, if anything.
pub open spec fn parsed_kind_of(n: SyntaxNode, a: Adapter) -> Option<ParsedKind> {
    if function_kind_list(a).contains(n.kind@) || is_function_variable_spec(n, a) {
        Some(ParsedKind::Function)
    } else if type_kind_list(a).contains(n.kind@) {
        Some(ParsedKind::Type)
    } else {
        None
    }
}

pub open spec fn name_kinds() -> Seq<Seq<char>> {
    seq!["type_identifier"@, "identifier"@, "field_identifier"@]
}

/// The declared name: the `name` child's text, else the first identifier below the
/// node, trimmed and not empty.
pub open spec fn decl_name(n: SyntaxNode) -> Option<Seq<char>> {
    let holder = match field_child(n, "name"@) {
        Some(c) => Some(c),
        None => find_kind_in(n.children@, name_kinds()),
    };
    match holder {
        Some(c) => trimmed_text(c),
        None => None,
    }
}

/// The node a call expression calls: its `function` child, else its first named child.
pub open spec fn callee_of(n: SyntaxNode) -> Option<SyntaxNode> {
    match field_child(n, "function"@) {
        Some(c) => Some(c),
        None => first_named(n.children@),
    }
}

/// The call site that the node itself records.
pub open spec fn node_call(n: SyntaxNode) -> Seq<CallSiteV> {
    if n.kind@ == "call_expression"@ {
        match callee_of(n) {
            Some(c) => match final_ident(c) {
                Some(name) => seq![CallSiteV { name, line: n.start_line, boundary: boundary_of(name) }],
                None => seq![],
            },
            None => seq![],
        }
    } else {
        seq![]
    }
}

/// The call sites in the trees `cs`, in source order.
pub open spec fn calls_in(cs: Seq<SyntaxNode>) -> Seq<CallSiteV>
    decreases cs,
{
    if cs.len() == 0 {
        seq![]
    } else {
        node_call(cs[0]) + calls_in(cs[0].children@) + calls_in(cs.subrange(1, cs.len() as int))
    }
}

pub open spec fn type_evidence_kinds() -> Seq<Seq<char>> {
    seq!["type_identifier"@, "generic_type"@, "scoped_type_identifier"@]
}

/// The type name that the node itself records, for a declaration on line `decl_line`:
/// only type references that start within eight rows of it, and no primitives.
pub open spec fn node_type_name(n: SyntaxNode, decl_line: int) -> Seq<Seq<char>> {
    if type_evidence_kinds().contains(n.kind@) && n.start_line - 1 < decl_line + 8 {
        match final_ident(n) {
            Some(name) => if primitive_names().contains(name) {
                seq![]
            } else {
                seq![name]
            },
            None => seq![],
        }
    } else {
        seq![]
    }
}

/// The type names in the trees `cs`, in source order, repeats included.
pub open spec fn types_in(cs: Seq<SyntaxNode>, decl_line: int) -> Seq<Seq<char>>
    decreases cs,
{
    if cs.len() == 0 {
        seq![]
    } else {
        node_type_name(cs[0], decl_line) + types_in(cs[0].children@, decl_line) + types_in(
            cs.subrange(1, cs.len() as int),
            decl_line,
        )
    }
}

/// `x` added to the strictly ascending `r`, unless already there.
pub open spec fn insert_sorted(r: Seq<Seq<char>>, x: Seq<char>) -> Seq<Seq<char>>
    decreases r.len(),
{
    if r.len() == 0 {
        seq![x]
    } else if r[0] == x {
        r
    } else if seq_lt(x, r[0]) {
        seq![x] + r
    } else {
        seq![r[0]] + insert_sorted(r.subrange(1, r.len() as int), x)
    }
}

/// The distinct texts of `xs` in ascending order (what a `BTreeSet` holds).
pub open spec fn sorted_unique(xs: Seq<Seq<char>>) -> Seq<Seq<char>>
    decreases xs.len(),
{
    if xs.len() == 0 {
        seq![]
    } else {
        insert_sorted(sorted_unique(xs.drop_last()), xs.last())
    }
}

pub open spec fn min_int(a: int, b: int) -> int {
    if a <= b {
        a
    } else {
        b
    }
}

/// Line `i` of an excerpt: the line number right-aligned in four columns, a bar,
/// and the line.
pub open spec fn excerpt_line(lines: Seq<Seq<char>>, start: int, i: int) -> Seq<char> {
    let b = if start >= 1 {
        start - 1
    } else {
        0
    };
    pad_left(decimal((start + i) as nat), 4) + " \u{2502} "@ + lines[b + i]
}

/// The lines `start..=end` (counted from 1) of `lines`, at most eighteen of them,
/// each numbered, joined by newlines.
/// The lines `start..=end` (counted from 1, and cut after 18) begin no later than
/// they end: `start - 1` (or 0) is at most `end`, `start + 17` and the line count.
pub open spec fn excerpt_in_range(line_count: int, start: int, end: int) -> bool {
    (if start >= 1 {
        start - 1
    } else {
        0
    }) <= min_int(min_int(end, start + 17), line_count)
}

pub open spec fn excerpt_of(lines: Seq<Seq<char>>, start: int, end: int) -> Seq<char> {
    let e = min_int(min_int(end, start + 17), lines.len() as int);
    let b = if start >= 1 {
        start - 1
    } else {
        0
    };
    joined(Seq::new((e - b) as nat, |i: int| excerpt_line(lines, start, i)), "\n"@)
}

/// The symbol that node `n`, declaring a `pk` named `name`, gives.
pub open spec fn symbol_of(n: SyntaxNode, pk: ParsedKind, name: Seq<char>, ctx: DeclContext) -> ParsedSymbolV {
    ParsedSymbolV {
        id: ctx.rel_path + ":"@ + decimal(n.start_line as nat) + ":"@ + name,
        name,
        kind: pk,
        language: label_of(ctx.adapter),
        rel_path: ctx.rel_path,
        abs_path: ctx.abs_path,
        line: n.start_line,
        end_line: n.end_line,
        excerpt: excerpt_of(ctx.lines, n.start_line as int, n.end_line as int),
        calls: if pk == ParsedKind::Function {
            calls_in(seq![n])
        } else {
            seq![]
        },
        type_names: if pk == ParsedKind::Function {
            sorted_unique(types_in(seq![n], n.start_line as int))
        } else {
            seq![]
        },
    }
}

/// The symbol that the node itself declares, if any.
pub open spec fn own_decl(n: SyntaxNode, ctx: DeclContext) -> Seq<ParsedSymbolV> {
    match parsed_kind_of(n, ctx.adapter) {
        Some(pk) => match decl_name(n) {
            Some(name) => seq![symbol_of(n, pk, name, ctx)],
            None => seq![],
        },
        None => seq![],
    }
}

/// The symbols declared in the tree of `n`, in source order; a function's body is
/// not searched for nested declarations.
pub open spec fn decls_of(n: SyntaxNode, ctx: DeclContext) -> Seq<ParsedSymbolV>
    decreases n, 1int,
{
    if function_kind_list(ctx.adapter).contains(n.kind@) {
        own_decl(n, ctx)
    } else {
        own_decl(n, ctx) + decls_in(n.children@, ctx)
    }
}

pub open spec fn decls_in(cs: Seq<SyntaxNode>, ctx: DeclContext) -> Seq<ParsedSymbolV>
    decreases cs, 0int,
{
    if cs.len() == 0 {
        seq![]
    } else {
        decls_of(cs[0], ctx) + decls_in(cs.subrange(1, cs.len() as int), ctx)
    }
}

impl KeyOrder for ParsedSymbol {
    open spec fn precedes(a: ParsedSymbolV, b: ParsedSymbolV) -> bool {
        seq_lt(a.id, b.id)
    }

    fn precedes_exec(&self, other: &Self) -> (res: bool) {
        text_lt(self.id.as_str(), other.id.as_str())
    }

    proof fn lemma_precedes_asymmetric(a: ParsedSymbolV, b: ParsedSymbolV) {
        lemma_seq_lt_asymmetric(a.id, b.id);
    }

    proof fn lemma_precedes_transitive(a: ParsedSymbolV, b: ParsedSymbolV, c: ParsedSymbolV) {
        lemma_seq_lt_transitive(a.id, b.id, c.id);
    }
}

/// The symbols that a tree declares, ordered by id.
pub open spec fn declarations_of(
    tree: SyntaxNode,
    adapter: Adapter,
    source: Seq<char>,
    rel_path: Seq<char>,
    abs_path: Seq<char>,
) -> Seq<ParsedSymbolV> {
    let ctx = DeclContext { adapter, lines: lines_of(source), rel_path, abs_path };
    sorted_in_order::<ParsedSymbol>(decls_of(tree, ctx))
}

pub proof fn lemma_calls_in_split(a: Seq<SyntaxNode>, b: Seq<SyntaxNode>)
    ensures
        calls_in(a + b) == calls_in(a) + calls_in(b),
    decreases a.len(),
{
    if a.len() == 0 {
        assert(a + b =~= b);
    } else {
        let a1 = a.subrange(1, a.len() as int);
        lemma_calls_in_split(a1, b);
        assert((a + b).subrange(1, (a + b).len() as int) =~= a1 + b);
        assert((a + b)[0] == a[0]);
    }
}

pub proof fn lemma_types_in_split(a: Seq<SyntaxNode>, b: Seq<SyntaxNode>, dl: int)
    ensures
        types_in(a + b, dl) == types_in(a, dl) + types_in(b, dl),
    decreases a.len(),
{
    if a.len() == 0 {
        assert(a + b =~= b);
    } else {
        let a1 = a.subrange(1, a.len() as int);
        lemma_types_in_split(a1, b, dl);
        assert((a + b).subrange(1, (a + b).len() as int) =~= a1 + b);
        assert((a + b)[0] == a[0]);
    }
}

pub proof fn lemma_decls_in_split(a: Seq<SyntaxNode>, b: Seq<SyntaxNode>, ctx: DeclContext)
    ensures
        decls_in(a + b, ctx) == decls_in(a, ctx) + decls_in(b, ctx),
    decreases a.len(),
{
    if a.len() == 0 {
        assert(a + b =~= b);
    } else {
        let a1 = a.subrange(1, a.len() as int);
        lemma_decls_in_split(a1, b, ctx);
        assert((a + b).subrange(1, (a + b).len() as int) =~= a1 + b);
        assert((a + b)[0] == a[0]);
    }
}

proof fn lemma_single(n: SyntaxNode)
    ensures
        seq![n].subrange(1, 1) == Seq::<SyntaxNode>::empty(),
        seq![n][0] == n,
{
    assert(seq![n].subrange(1, 1) =~= Seq::<SyntaxNode>::empty());
}

proof fn lemma_prefix_step(cs: Seq<SyntaxNode>, i: int)
    requires
        0 <= i < cs.len(),
    ensures
        cs.subrange(0, i + 1) == cs.subrange(0, i) + seq![cs[i]],
{
    assert(cs.subrange(0, i + 1) =~= cs.subrange(0, i) + seq![cs[i]]);
}

impl SyntaxNode {
    /// The declared name (see `decl_name`).
    pub fn declaration_name(&self) -> (res: Option<String>)
        ensures
            crate::syntax::opt_text(res) == decl_name(*self),
    {
        let kinds: Vec<&str> = vec!["type_identifier", "identifier", "field_identifier"];
        assert(strs_view(kinds@) =~= name_kinds());
        let holder = match self.child_by_field("name") {
            Some(c) => Some(c),
            None => self.find_first_kind(&kinds),
        };
        match holder {
            Some(c) => c.trimmed_text(),
            None => None,
        }
    }

    /// Whether the node is a script variable bound to a function.
    pub fn is_function_variable(&self, adapter: Adapter) -> (res: bool)
        ensures
            res == is_function_variable_spec(*self, adapter),
    {
        if !(adapter == Adapter::TypeScript || adapter == Adapter::Tsx || adapter == Adapter::JavaScript) {
            return false;
        }
        if !text_eq(self.kind.as_str(), "variable_declarator") {
            return false;
        }
        match self.child_by_field("value") {
            Some(v) => text_eq(v.kind.as_str(), "arrow_function") || text_eq(
                v.kind.as_str(),
                "function_expression",
            ),
            None => false,
        }
    }

    /// The callee of a call expression (see `callee_of`).
    pub fn callee(&self) -> (res: Option<&SyntaxNode>)
        ensures
            match res {
                Some(c) => callee_of(*self) == Some(*c),
                None => callee_of(*self) is None,
            },
    {
        match self.child_by_field("function") {
            Some(c) => Some(c),
            None => self.first_named_child(),
        }
    }
}

/// Appends to `calls` and `types` the call sites and type names of the tree of
/// `node`, a part of the declaration that starts on line `decl_line`.
pub fn collect_evidence(
    node: &SyntaxNode,
    decl_line: usize,
    calls: &mut Vec<CallSite>,
    types: &mut Vec<String>,
)
    requires
        forest_fits(seq![*node], usize::MAX as int),
        decl_line + 8 <= usize::MAX,
    ensures
        calls_view(final(calls)@) == calls_view(old(calls)@) + calls_in(seq![*node]),
        strings_view(final(types)@) == strings_view(old(types)@) + types_in(seq![*node], decl_line as int),
    decreases *node,
{
    proof {
        lemma_single(*node);
    }
    let ghost calls0 = calls_view(calls@);
    let ghost types0 = strings_view(types@);
    if text_eq(node.kind.as_str(), "call_expression") {
        match node.callee() {
            Some(callee) => match callee.final_identifier() {
                Some(name) => {
                    let boundary = boundary_for(name.as_str());
                    let site = CallSite { boundary, name, line: node.start_line };
                    calls.push(site);
                    assert(calls_view(calls@) =~= calls0 + node_call(*node));
                },
                None => {},
            },
            None => {},
        }
    }
    assert(calls_view(calls@) =~= calls0 + node_call(*node));
    let kinds: Vec<&str> = vec!["type_identifier", "generic_type", "scoped_type_identifier"];
    assert(strs_view(kinds@) =~= type_evidence_kinds());
    if list_contains(&kinds, node.kind.as_str()) && node.start_line - 1 < decl_line + 8 {
        match node.final_identifier() {
            Some(name) => {
                if !is_primitive(name.as_str()) {
                    types.push(name);
                    assert(strings_view(types@) =~= types0 + node_type_name(*node, decl_line as int));
                }
            },
            None => {},
        }
    }
    assert(strings_view(types@) =~= types0 + node_type_name(*node, decl_line as int));
    let cs = &node.children;
    let mut i: usize = 0;
    assert(cs@.subrange(0, 0) =~= Seq::<SyntaxNode>::empty());
    while i < cs.len()
        invariant
            i <= cs.len(),
            cs@ == node.children@,
            forest_fits(cs@, usize::MAX as int),
            decl_line + 8 <= usize::MAX,
            calls_view(calls@) == calls0 + node_call(*node) + calls_in(cs@.subrange(0, i as int)),
            strings_view(types@) == types0 + node_type_name(*node, decl_line as int) + types_in(
                cs@.subrange(0, i as int),
                decl_line as int,
            ),
        decreases cs.len() - i,
    {
        proof {
            lemma_forest_fits_each(cs@, usize::MAX as int, i as int);
            lemma_prefix_step(cs@, i as int);
            lemma_calls_in_split(cs@.subrange(0, i as int), seq![cs@[i as int]]);
            lemma_types_in_split(cs@.subrange(0, i as int), seq![cs@[i as int]], decl_line as int);
        }
        collect_evidence(&cs[i], decl_line, calls, types);
        i = i + 1;
    }
    assert(cs@.subrange(0, i as int) =~= cs@);
    assert(calls_in(Seq::<SyntaxNode>::empty()) == Seq::<CallSiteV>::empty());
    assert(types_in(Seq::<SyntaxNode>::empty(), decl_line as int) == Seq::<Seq<char>>::empty());
    assert(calls_view(calls@) =~= calls0 + calls_in(seq![*node]));
    assert(strings_view(types@) =~= types0 + types_in(seq![*node], decl_line as int));
}

/// Every text comes before each later one.
pub open spec fn strictly_ascending(r: Seq<Seq<char>>) -> bool {
    forall|i: int, j: int| 0 <= i < j < r.len() ==> seq_lt(#[trigger] r[i], #[trigger] r[j])
}

proof fn lemma_insert_sorted_props(r: Seq<Seq<char>>, x: Seq<char>)
    requires
        strictly_ascending(r),
    ensures
        strictly_ascending(insert_sorted(r, x)),
        forall|y: Seq<char>| #[trigger] insert_sorted(r, x).contains(y) <==> (r.contains(y) || y == x),
    decreases r.len(),
{
    let res = insert_sorted(r, x);
    if r.len() == 0 {
        assert(res =~= seq![x]);
        assert forall|y: Seq<char>| #[trigger] res.contains(y) <==> (r.contains(y) || y == x) by {
            if y == x {
                assert(res[0] == y);
            }
        }
    } else if r[0] == x {
        assert forall|y: Seq<char>| #[trigger] res.contains(y) <==> (r.contains(y) || y == x) by {
            if y == x {
                assert(r[0] == y);
            }
        }
    } else if seq_lt(x, r[0]) {
        assert forall|i: int, j: int| 0 <= i < j < res.len() implies seq_lt(#[trigger] res[i], #[trigger] res[j]) by {
            if i == 0 {
                assert(res[j] == r[j - 1]);
                if j > 1 {
                    lemma_seq_lt_transitive(x, r[0], r[j - 1]);
                }
            } else {
                assert(res[i] == r[i - 1] && res[j] == r[j - 1]);
            }
        }
        assert forall|y: Seq<char>| #[trigger] res.contains(y) <==> (r.contains(y) || y == x) by {
            if res.contains(y) {
                let k = choose|k: int| 0 <= k < res.len() && res[k] == y;
                if k > 0 {
                    assert(r[k - 1] == y);
                }
            }
            if r.contains(y) {
                let k = choose|k: int| 0 <= k < r.len() && r[k] == y;
                assert(res[k + 1] == y);
            }
            if y == x {
                assert(res[0] == y);
            }
        }
    } else {
        let r1 = r.subrange(1, r.len() as int);
        assert(strictly_ascending(r1)) by {
            assert forall|i: int, j: int| 0 <= i < j < r1.len() implies seq_lt(#[trigger] r1[i], #[trigger] r1[j]) by {
                assert(r1[i] == r[i + 1] && r1[j] == r[j + 1]);
            }
        }
        lemma_insert_sorted_props(r1, x);
        let t = insert_sorted(r1, x);
        assert(res == seq![r[0]] + t);
        lemma_seq_lt_total(r[0], x);
        assert forall|y: Seq<char>| #[trigger] res.contains(y) <==> (r.contains(y) || y == x) by {
            if res.contains(y) {
                let k = choose|k: int| 0 <= k < res.len() && res[k] == y;
                if k == 0 {
                    assert(r[0] == y);
                } else {
                    assert(t[k - 1] == y);
                    assert(t.contains(y));
                    if r1.contains(y) {
                        let m = choose|m: int| 0 <= m < r1.len() && r1[m] == y;
                        assert(r[m + 1] == y);
                    }
                }
            }
            if r.contains(y) {
                let k = choose|k: int| 0 <= k < r.len() && r[k] == y;
                if k == 0 {
                    assert(res[0] == y);
                } else {
                    assert(r1[k - 1] == y);
                    assert(t.contains(y));
                    let m = choose|m: int| 0 <= m < t.len() && t[m] == y;
                    assert(res[m + 1] == y);
                }
            }
            if y == x {
                assert(t.contains(y));
                let m = choose|m: int| 0 <= m < t.len() && t[m] == y;
                assert(res[m + 1] == y);
            }
        }
        assert forall|i: int, j: int| 0 <= i < j < res.len() implies seq_lt(#[trigger] res[i], #[trigger] res[j]) by {
            assert(res[j] == t[j - 1]);
            if i == 0 {
                assert(res[0] == r[0]);
                assert(t.contains(t[j - 1]));
                if t[j - 1] != x {
                    assert(r1.contains(t[j - 1]));
                    let k = choose|k: int| 0 <= k < r1.len() && r1[k] == t[j - 1];
                    assert(r[k + 1] == t[j - 1]);
                }
            } else {
                assert(res[i] == t[i - 1]);
            }
        }
    }
}

/// The type names of a declaration come out as a set: ascending, each once, and
/// exactly the names that were found.
pub proof fn lemma_sorted_unique_is_a_set(xs: Seq<Seq<char>>)
    ensures
        strictly_ascending(sorted_unique(xs)),
        forall|y: Seq<char>| #[trigger] sorted_unique(xs).contains(y) <==> xs.contains(y),
    decreases xs.len(),
{
    if xs.len() > 0 {
        let init = xs.drop_last();
        lemma_sorted_unique_is_a_set(init);
        lemma_insert_sorted_props(sorted_unique(init), xs.last());
        assert forall|y: Seq<char>| #[trigger] sorted_unique(xs).contains(y) <==> xs.contains(y) by {
            if init.contains(y) {
                let k = choose|k: int| 0 <= k < init.len() && init[k] == y;
                assert(xs[k] == y);
            }
            if xs.contains(y) && y != xs.last() {
                let k = choose|k: int| 0 <= k < xs.len() && xs[k] == y;
                assert(k != xs.len() - 1);
                assert(init[k] == y);
            }
            if y == xs.last() {
                assert(xs[xs.len() - 1] == y);
            }
        }
    }
}

proof fn lemma_insert_sorted_at(r: Seq<Seq<char>>, x: Seq<char>, p: int)
    requires
        0 <= p <= r.len(),
        forall|j: int| 0 <= j < p ==> seq_lt(r[j], x),
        p < r.len() ==> !seq_lt(r[p], x),
    ensures
        p < r.len() && r[p] == x ==> insert_sorted(r, x) == r,
        !(p < r.len() && r[p] == x) ==> insert_sorted(r, x) == r.subrange(0, p).push(x) + r.subrange(
            p,
            r.len() as int,
        ),
    decreases p,
{
    if p == 0 {
        if r.len() == 0 {
            assert(r.subrange(0, 0).push(x) + r.subrange(0, 0) =~= seq![x]);
        } else if r[0] != x {
            lemma_seq_lt_total(r[0], x);
            assert(r.subrange(0, 0).push(x) + r.subrange(0, r.len() as int) =~= seq![x] + r);
        }
    } else {
        let r1 = r.subrange(1, r.len() as int);
        assert forall|j: int| 0 <= j < p - 1 implies seq_lt(r1[j], x) by {
            assert(r1[j] == r[j + 1]);
        }
        if p - 1 < r1.len() {
            assert(r1[p - 1] == r[p]);
        }
        lemma_insert_sorted_at(r1, x, p - 1);
        lemma_seq_lt_irreflexive(x);
        lemma_seq_lt_asymmetric(r[0], x);
        assert(r[0] != x);
        assert(!seq_lt(x, r[0]));
        if p < r.len() && r[p] == x {
            assert(seq![r[0]] + r1 =~= r);
        } else {
            assert(seq![r[0]] + (r1.subrange(0, p - 1).push(x) + r1.subrange(p - 1, r1.len() as int))
                =~= r.subrange(0, p).push(x) + r.subrange(p, r.len() as int));
        }
    }
}

/// The distinct texts of `xs` in ascending order.
pub fn sorted_unique_exec(xs: &Vec<String>) -> (res: Vec<String>)
    ensures
        strings_view(res@) == sorted_unique(strings_view(xs@)),
        strictly_ascending(strings_view(res@)),
        forall|y: Seq<char>| #[trigger] strings_view(res@).contains(y) <==> strings_view(xs@).contains(y),
{
    proof {
        lemma_sorted_unique_is_a_set(strings_view(xs@));
    }
    let ghost xv = strings_view(xs@);
    let mut out: Vec<String> = Vec::new();
    let mut k: usize = 0;
    assert(xv.subrange(0, 0) =~= Seq::<Seq<char>>::empty());
    while k < xs.len()
        invariant
            k <= xs.len(),
            xv == strings_view(xs@),
            strings_view(out@) == sorted_unique(xv.subrange(0, k as int)),
        decreases xs.len() - k,
    {
        let x = &xs[k];
        let ghost r = strings_view(out@);
        let mut p: usize = 0;
        while p < out.len() && text_lt(out[p].as_str(), x.as_str())
            invariant
                p <= out.len(),
                r == strings_view(out@),
                forall|j: int| 0 <= j < p ==> seq_lt(#[trigger] r[j], x@),
            decreases out.len() - p,
        {
            p = p + 1;
        }
        proof {
            lemma_insert_sorted_at(r, x@, p as int);
            let ys = xv.subrange(0, k + 1);
            assert(ys.drop_last() =~= xv.subrange(0, k as int));
            assert(ys.last() == x@);
        }
        if p < out.len() && text_eq(out[p].as_str(), x.as_str()) {
        } else {
            out.insert(p, x.clone());
            assert(strings_view(out@) =~= r.subrange(0, p as int).push(x@) + r.subrange(p as int, r.len() as int));
        }
        k = k + 1;
    }
    assert(xv.subrange(0, k as int) =~= xv);
    out
}

/// The numbered excerpt of lines `start..=end` of `lines` (see `excerpt_of`).
pub fn excerpt_from_lines(lines: &Vec<String>, start: usize, end: usize) -> (res: String)
    requires
        excerpt_in_range(lines.len() as int, start as int, end as int),
        start + 17 <= usize::MAX,
    ensures
        res@ == excerpt_of(texts_view(lines@), start as int, end as int),
{
    let ghost ls = texts_view(lines@);
    let mut e = end;
    if start + 17 < e {
        e = start + 17;
    }
    if lines.len() < e {
        e = lines.len();
    }
    let b: usize = if start >= 1 {
        start - 1
    } else {
        0
    };
    let ghost parts = Seq::new((e - b) as nat, |i: int| excerpt_line(ls, start as int, i));
    let mut res = String::new();
    let mut i: usize = 0;
    assert(parts.subrange(0, 0) =~= Seq::<Seq<char>>::empty());
    while i < e - b
        invariant
            b == (if start >= 1 {
                start - 1
            } else {
                0
            }),
            b <= e <= lines.len(),
            start + 17 <= usize::MAX,
            e <= start + 17,
            i <= e - b,
            ls == texts_view(lines@),
            parts == Seq::new((e - b) as nat, |i: int| excerpt_line(ls, start as int, i)),
            res@ == joined(parts.subrange(0, i as int), "\n"@),
        decreases e - b - i,
    {
        let ghost before = res@;
        if i > 0 {
            push_str(&mut res, "\n");
        }
        let number = pad_left_string(decimal_string(start + i), 4);
        push_str(&mut res, number.as_str());
        push_str(&mut res, " \u{2502} ");
        push_str(&mut res, lines[b + i].as_str());
        proof {
            let t = parts.subrange(0, i + 1);
            assert(t.drop_last() =~= parts.subrange(0, i as int));
            assert(t.last() == parts[i as int]);
            assert(parts[i as int] == number@ + " \u{2502} "@ + lines@[b + i]@);
            if i == 0 {
                assert(t.len() == 1);
                assert(res@ =~= parts[0]);
            } else {
                assert(res@ =~= before + "\n"@ + parts[i as int]);
            }
        }
        i = i + 1;
    }
    assert(parts.subrange(0, i as int) =~= parts);
    res
}

/// The numbered excerpt of lines `start..=end` of `source` (see `excerpt_of`).
pub fn source_excerpt(source: &str, start: usize, end: usize) -> (res: String)
    requires
        excerpt_in_range(lines_of(source@).len() as int, start as int, end as int),
        start + 17 <= usize::MAX,
    ensures
        res@ == excerpt_of(lines_of(source@), start as int, end as int),
{
    let lines = lines_vec(source);
    excerpt_from_lines(&lines, start, end)
}

/// Appends to `out` the symbols declared in the tree of `node` (see `decls_of`).
pub fn visit_declarations(
    node: &SyntaxNode,
    adapter: Adapter,
    lines: &Vec<String>,
    rel_path: &str,
    abs_path: &str,
    out: &mut Vec<ParsedSymbol>,
)
    requires
        forest_fits(seq![*node], lines.len() as int),
    ensures
        symbols_view(final(out)@) == symbols_view(old(out)@) + decls_of(
            *node,
            DeclContext { adapter, lines: texts_view(lines@), rel_path: rel_path@, abs_path: abs_path@ },
        ),
    decreases *node,
{
    let ghost ctx = DeclContext { adapter, lines: texts_view(lines@), rel_path: rel_path@, abs_path: abs_path@ };
    let ghost out0 = symbols_view(out@);
    proof {
        lemma_single(*node);
    }
    let kind = node.kind.as_str();
    let functions = adapter.function_kinds();
    let is_function_kind = list_contains(&functions, kind);
    let parsed_kind = if is_function_kind || node.is_function_variable(adapter) {
        Some(ParsedKind::Function)
    } else if list_contains(&adapter.type_kinds(), kind) {
        Some(ParsedKind::Type)
    } else {
        None
    };
    assert(parsed_kind == parsed_kind_of(*node, adapter));
    match parsed_kind {
        Some(pk) => {
            match node.declaration_name() {
                Some(name) => {
                    let start = node.start_line;
                    let end = node.end_line;
                    let excerpt = excerpt_from_lines(lines, start, end);
                    let mut calls: Vec<CallSite> = Vec::new();
                    let mut raw_types: Vec<String> = Vec::new();
                    if pk == ParsedKind::Function {
                        proof {
                            assert(forest_fits(seq![*node], usize::MAX as int)) by {
                                lemma_fits_weaken(seq![*node], lines.len() as int, usize::MAX as int);
                            }
                        }
                        collect_evidence(node, start, &mut calls, &mut raw_types);
                        assert(calls_view(calls@) =~= calls_in(seq![*node]));
                        assert(strings_view(raw_types@) =~= types_in(seq![*node], start as int));
                    } else {
                        assert(calls_view(calls@) =~= Seq::<CallSiteV>::empty());
                    }
                    let type_names = sorted_unique_exec(&raw_types);
                    proof {
                        if pk != ParsedKind::Function {
                            assert(strings_view(raw_types@) =~= Seq::<Seq<char>>::empty());
                        }
                    }
                    let mut id = owned(rel_path);
                    push_str(&mut id, ":");
                    let line_text = decimal_string(start);
                    push_str(&mut id, line_text.as_str());
                    push_str(&mut id, ":");
                    push_str(&mut id, name.as_str());
                    let symbol = ParsedSymbol {
                        id,
                        name,
                        kind: pk,
                        language: owned(adapter.label()),
                        rel_path: owned(rel_path),
                        abs_path: owned(abs_path),
                        line: start,
                        end_line: end,
                        excerpt,
                        calls,
                        type_names,
                    };
                    assert(symbol@ == symbol_of(*node, pk, decl_name(*node)->0, ctx));
                    out.push(symbol);
                    assert(symbols_view(out@) =~= out0 + own_decl(*node, ctx));
                },
                None => {},
            }
        },
        None => {},
    }
    assert(symbols_view(out@) =~= out0 + own_decl(*node, ctx));
    if is_function_kind {
        return;
    }
    let cs = &node.children;
    let mut i: usize = 0;
    assert(cs@.subrange(0, 0) =~= Seq::<SyntaxNode>::empty());
    while i < cs.len()
        invariant
            i <= cs.len(),
            cs@ == node.children@,
            forest_fits(cs@, lines.len() as int),
            ctx == (DeclContext { adapter, lines: texts_view(lines@), rel_path: rel_path@, abs_path: abs_path@ }),
            symbols_view(out@) == out0 + own_decl(*node, ctx) + decls_in(cs@.subrange(0, i as int), ctx),
        decreases cs.len() - i,
    {
        proof {
            lemma_forest_fits_each(cs@, lines.len() as int, i as int);
            lemma_prefix_step(cs@, i as int);
            lemma_decls_in_split(cs@.subrange(0, i as int), seq![cs@[i as int]], ctx);
            let one = seq![cs@[i as int]];
            assert(one.subrange(1, 1) =~= Seq::<SyntaxNode>::empty());
            assert(decls_in(Seq::<SyntaxNode>::empty(), ctx) == Seq::<ParsedSymbolV>::empty());
            assert(decls_in(one, ctx) =~= decls_of(cs@[i as int], ctx));
        }
        visit_declarations(&cs[i], adapter, lines, rel_path, abs_path, out);
        i = i + 1;
    }
    assert(cs@.subrange(0, i as int) =~= cs@);
}

pub proof fn lemma_fits_weaken(cs: Seq<SyntaxNode>, a: int, b: int)
    requires
        forest_fits(cs, a),
        a <= b,
    ensures
        forest_fits(cs, b),
    decreases cs,
{
    if cs.len() > 0 {
        lemma_fits_weaken(cs[0].children@, a, b);
        lemma_fits_weaken(cs.subrange(1, cs.len() as int), a, b);
    }
}

/// The symbols that the syntax tree `tree` of `source` declares, ordered by id.
pub fn declarations(
    tree: &SyntaxNode,
    adapter: Adapter,
    source: &str,
    rel_path: &str,
    abs_path: &str,
) -> (res: Vec<ParsedSymbol>)
    requires
        forest_fits(seq![*tree], lines_of(source@).len() as int),
    ensures
        symbols_view(res@) == declarations_of(*tree, adapter, source@, rel_path@, abs_path@),
{
    let lines = lines_vec(source);
    let mut out: Vec<ParsedSymbol> = Vec::new();
    visit_declarations(tree, adapter, &lines, rel_path, abs_path, &mut out);
    assert(symbols_view(out@) =~= views_of(out@));
    let sorted = sort_in_order(out);
    assert(symbols_view(sorted@) =~= views_of(sorted@));
    assert(symbols_view(Seq::<ParsedSymbol>::empty()) =~= Seq::<ParsedSymbolV>::empty());
    sorted
}


// ----------------------------------------------------------------------------
// Parsing a file
// ----------------------------------------------------------------------------

/// The grammar of each adapter; JavaScript is read with the TypeScript grammar.
pub open spec fn grammar_of(a: Adapter) -> Grammar {
    match a {
        Adapter::Rust => Grammar::Rust,
        Adapter::TypeScript => Grammar::TypeScript,
        Adapter::Tsx => Grammar::Tsx,
        Adapter::JavaScript => Grammar::TypeScript,
        Adapter::Python => Grammar::Python,
        Adapter::Go => Grammar::Go,
    }
}

impl Adapter {
    /// The grammar that parses this language (see `grammar_of`).
    pub fn grammar(self) -> (res: Grammar)
        ensures
            res == grammar_of(self),
    {
        match self {
            Adapter::Rust => Grammar::Rust,
            Adapter::TypeScript => Grammar::TypeScript,
            Adapter::Tsx => Grammar::Tsx,
            Adapter::JavaScript => Grammar::TypeScript,
            Adapter::Python => Grammar::Python,
            Adapter::Go => Grammar::Go,
        }
    }

    /// The tree-sitter language of this adapter's grammar (`grammar`).
    pub(crate) fn language(self) -> (res: GrammarHandle)
        ensures
            res.grammar() == grammar_of(self),
    {
        match self.grammar() {
            Grammar::Rust => rust_language(),
            Grammar::TypeScript => typescript_language(),
            Grammar::Tsx => tsx_language(),
            Grammar::Python => python_language(),
            Grammar::Go => go_language(),
        }
    }
}

/// Each call of the symbol lies within the symbol's lines.
pub open spec fn calls_within(s: ParsedSymbolV) -> bool {
    forall|j: int| 0 <= j < s.calls.len() ==> s.line <= #[trigger] s.calls[j].line <= s.end_line
}

proof fn lemma_calls_in_lines(cs: Seq<SyntaxNode>, lc: int, lo: int, hi: int)
    requires
        forest_fits(cs, lc),
        forest_nests(cs, lo, hi),
    ensures
        forall|j: int| 0 <= j < calls_in(cs).len() ==> lo <= #[trigger] calls_in(cs)[j].line <= hi,
    decreases cs,
{
    if cs.len() > 0 {
        let n = cs[0];
        let rest = cs.subrange(1, cs.len() as int);
        lemma_calls_in_lines(n.children@, lc, n.start_line as int, n.end_line as int);
        lemma_calls_in_lines(rest, lc, lo, hi);
        let a = node_call(n);
        let b = calls_in(n.children@);
        let c = calls_in(rest);
        assert(calls_in(cs) == a + b + c);
        assert forall|j: int| 0 <= j < a.len() implies (#[trigger] a[j]).line == n.start_line by {}
        assert forall|j: int| 0 <= j < calls_in(cs).len() implies lo <= #[trigger] calls_in(cs)[j].line <= hi by {
            if j < a.len() {
                assert(calls_in(cs)[j] == a[j]);
            } else if j < a.len() + b.len() {
                assert(calls_in(cs)[j] == b[j - a.len()]);
            } else {
                assert(calls_in(cs)[j] == c[j - a.len() - b.len()]);
            }
        }
    }
}

proof fn lemma_nests_first(cs: Seq<SyntaxNode>, lo: int, hi: int)
    requires
        cs.len() > 0,
        forest_nests(cs, lo, hi),
    ensures
        forest_nests(seq![cs[0]], lo, hi),
        forest_nests(seq![cs[0]], cs[0].start_line as int, cs[0].end_line as int),
        forest_nests(cs.subrange(1, cs.len() as int), lo, hi),
        forest_nests(cs[0].children@, cs[0].start_line as int, cs[0].end_line as int),
{
    let one = seq![cs[0]];
    assert(one[0] == cs[0]);
    assert(one.subrange(1, 1) =~= Seq::<SyntaxNode>::empty());
    assert(forest_nests(Seq::<SyntaxNode>::empty(), lo, hi));
    assert(forest_nests(Seq::<SyntaxNode>::empty(), cs[0].start_line as int, cs[0].end_line as int));
}

proof fn lemma_decls_calls_within(n: SyntaxNode, ctx: DeclContext, lc: int, lo: int, hi: int)
    requires
        forest_fits(seq![n], lc),
        forest_nests(seq![n], lo, hi),
    ensures
        forall|k: int| 0 <= k < decls_of(n, ctx).len() ==> calls_within(#[trigger] decls_of(n, ctx)[k]),
    decreases n, 1int,
{
    let one = seq![n];
    assert(one[0] == n);
    assert(one.subrange(1, 1) =~= Seq::<SyntaxNode>::empty());
    lemma_nests_first(one, lo, hi);
    lemma_calls_in_lines(one, lc, n.start_line as int, n.end_line as int);
    let own = own_decl(n, ctx);
    assert forall|k: int| 0 <= k < own.len() implies calls_within(#[trigger] own[k]) by {}
    if !function_kind_list(ctx.adapter).contains(n.kind@) {
        lemma_decls_in_calls_within(n.children@, ctx, lc, n.start_line as int, n.end_line as int);
        let rest = decls_in(n.children@, ctx);
        assert(decls_of(n, ctx) == own + rest);
        assert forall|k: int| 0 <= k < decls_of(n, ctx).len() implies calls_within(#[trigger] decls_of(n, ctx)[k]) by {
            if k < own.len() {
                assert(decls_of(n, ctx)[k] == own[k]);
            } else {
                assert(decls_of(n, ctx)[k] == rest[k - own.len()]);
            }
        }
    }
}

proof fn lemma_decls_in_calls_within(cs: Seq<SyntaxNode>, ctx: DeclContext, lc: int, lo: int, hi: int)
    requires
        forest_fits(cs, lc),
        forest_nests(cs, lo, hi),
    ensures
        forall|k: int| 0 <= k < decls_in(cs, ctx).len() ==> calls_within(#[trigger] decls_in(cs, ctx)[k]),
    decreases cs, 0int,
{
    if cs.len() > 0 {
        let rest = cs.subrange(1, cs.len() as int);
        lemma_forest_fits_each(cs, lc, 0);
        lemma_nests_first(cs, lo, hi);
        lemma_decls_calls_within(cs[0], ctx, lc, lo, hi);
        lemma_decls_in_calls_within(rest, ctx, lc, lo, hi);
        let a = decls_of(cs[0], ctx);
        let b = decls_in(rest, ctx);
        assert(decls_in(cs, ctx) == a + b);
        assert forall|k: int| 0 <= k < decls_in(cs, ctx).len() implies calls_within(#[trigger] decls_in(cs, ctx)[k]) by {
            if k < a.len() {
                assert(decls_in(cs, ctx)[k] == a[k]);
            } else {
                assert(decls_in(cs, ctx)[k] == b[k - a.len()]);
            }
        }
    }
}

/// tree-sitter accepts the adapter's grammar, and the tree it parses from `source`
/// has rows that fit in `usize` and lines within the source's.
pub open spec fn parse_succeeds(adapter: Adapter, source: Seq<char>) -> bool {
    let g = grammar_of(adapter);
    &&& grammar_loads(g)
    &&& tree_parse_fits(g, source, lines_of(source).len() as int)
}

/// `f` is the failure that parsing `source` with `adapter` gives: the grammar is
/// refused, or the tree does not fit the source.
pub open spec fn parse_fails_with(f: ParseFailure, adapter: Adapter, source: Seq<char>) -> bool {
    match f {
        ParseFailure::LanguageUnavailable(a, detail) => a == adapter && !grammar_loads(grammar_of(adapter)) && detail@
            == grammar_load_error(grammar_of(adapter)),
        ParseFailure::NoTree(a) => a == adapter && grammar_loads(grammar_of(adapter)) && !parse_succeeds(adapter, source),
    }
}

/// Why a file could not be parsed.
#[derive(Debug)]
pub enum ParseFailure {
    /// The grammar was refused by the parser, for the reason given.
    LanguageUnavailable(Adapter, String),
    /// The parser produced no usable tree.
    NoTree(Adapter),
}

pub open spec fn parse_failure_message(f: ParseFailure) -> Seq<char> {
    match f {
        ParseFailure::LanguageUnavailable(a, detail) => "could not load the "@ + label_of(a) + " parser: "@ + detail@,
        ParseFailure::NoTree(a) => label_of(a) + " parser returned no tree"@,
    }
}


impl ParseFailure {
    /// The failure in words.
    pub fn message(&self) -> (res: String)
        ensures
            res@ == parse_failure_message(*self),
    {
        match self {
            ParseFailure::LanguageUnavailable(a, detail) => {
                let mut s = owned("could not load the ");
                push_str(&mut s, a.label());
                push_str(&mut s, " parser: ");
                push_str(&mut s, detail.as_str());
                s
            },
            ParseFailure::NoTree(a) => {
                let mut s = owned(a.label());
                push_str(&mut s, " parser returned no tree");
                s
            },
        }
    }
}

/// Parses `source` with the adapter's grammar and returns the functions and types
/// it declares, ordered by id.
pub fn parse_file(adapter: Adapter, source: &str, rel_path: &str, abs_path: &str) -> (res: Result<
    Vec<ParsedSymbol>,
    ParseFailure,
>)
    ensures
        match res {
            Ok(v) => parse_succeeds(adapter, source@) && (exists|t: SyntaxNode|
                built(t, parsed_entries(grammar_of(adapter), source@), 0) && symbols_view(v@)
                    == #[trigger] declarations_of(t, adapter, source@, rel_path@, abs_path@))
                && is_sorted_by::<ParsedSymbol>(symbols_view(v@)) && forall|k: int|
                0 <= k < v.len() ==> calls_within(#[trigger] symbols_view(v@)[k]),
            Err(f) => parse_fails_with(f, adapter, source@),
        },
{
    let handle = adapter.language();
    let mut parser = match set_parser_language(new_parser(), &handle) {
        Ok(p) => p,
        Err(detail) => {
            return Err(ParseFailure::LanguageUnavailable(adapter, detail));
        },
    };
    let tree = match parse_text(&mut parser, source) {
        Some(t) => t,
        None => {
            return Err(ParseFailure::NoTree(adapter));
        },
    };
    let line_count = lines_vec(source).len();
    let syntax = match syntax_tree(&tree, line_count) {
        Some(t) => t,
        None => {
            return Err(ParseFailure::NoTree(adapter));
        },
    };
    let found = declarations(&syntax, adapter, source, rel_path, abs_path);
    proof {
        let ctx = DeclContext { adapter, lines: lines_of(source@), rel_path: rel_path@, abs_path: abs_path@ };
        lemma_sorted_is_sorted::<ParsedSymbol>(decls_of(syntax, ctx));
        let lc = lines_of(source@).len() as int;
        let one = seq![syntax];
        assert(one[0] == syntax);
        assert(one.subrange(1, 1) =~= Seq::<SyntaxNode>::empty());
        assert(forest_nests(Seq::<SyntaxNode>::empty(), syntax.start_line as int, syntax.end_line as int));
        assert(forest_nests(one, syntax.start_line as int, syntax.end_line as int));
        lemma_decls_calls_within(syntax, ctx, lc, syntax.start_line as int, syntax.end_line as int);
        let ds = decls_of(syntax, ctx);
        let sv = symbols_view(found@);
        lemma_sorted_elements::<ParsedSymbol>(ds);
        assert forall|k: int| 0 <= k < found.len() implies calls_within(#[trigger] sv[k]) by {
            assert(sv.contains(sv[k]));
            assert(ds.contains(sv[k]));
            let j = choose|j: int| 0 <= j < ds.len() && ds[j] == sv[k];
            assert(calls_within(ds[j]));
        }
    }
    Ok(found)
}

} // verus!
