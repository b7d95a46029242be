//! Which files of a repository are read, and how each one read adds to the scan.
use vstd::prelude::*;

use crate::adapters::{
    Adapter, DeclContext, adapter_for_path, declarations_of, file_name, file_name_chars, grammar_of, has_any_infix,
    parse_fails_with, parse_failure_message, parse_file, parse_succeeds, strs_view,
};
use crate::analyzer::ScanOutcome;
use crate::model::{ParsedSymbol, ScanSummary, strings_view, symbols_view};
use crate::sort::{is_sorted_by, lemma_sorted_is_sorted, sort_in_order, sorted_in_order, views_of};
use crate::syntax::{SyntaxNode, built, forest_fits, parsed_entries};
use crate::text::{
    chars_of, contains, ends_with, has_infix, has_suffix, lines_of, lines_vec, lower_seq, occurs_at, occurs_at_exec, owned,
    push_str, replace, replaced, string_of, texts_view, to_lower,
};

verus! {

// ----------------------------------------------------------------------------
// Default exclusions and generated files
// ----------------------------------------------------------------------------

/// Directory names that are never scanned.
pub open spec fn default_excluded_names() -> Seq<Seq<char>> {
    seq!["node_modules"@, "target"@, "dist"@, "build"@, "vendor"@, ".next"@, "coverage"@]
}

/// `name` is a whole `/`-separated component of `p` at position `i`.
pub open spec fn segment_at(p: Seq<char>, name: Seq<char>, i: int) -> bool {
    &&& occurs_at(p, name, i)
    &&& (i == 0 || p[i - 1] == '/')
    &&& (i + name.len() == p.len() || p[i + name.len()] == '/')
}

pub open spec fn has_segment(p: Seq<char>, name: Seq<char>) -> bool {
    exists|i: int| segment_at(p, name, i)
}

/// Some component of the path is a default-excluded directory name.
pub open spec fn excluded_by_default_spec(p: Seq<char>) -> bool {
    exists|k: int| 0 <= k < default_excluded_names().len() && has_segment(p, #[trigger] default_excluded_names()[k])
}

/// A path with a whole `/`-separated component named `node_modules`, `target`,
/// `dist`, `build`, `vendor`, `.next` or `coverage` is excluded by default, and
/// only such a path is.
pub proof fn lemma_default_exclusions(p: Seq<char>)
    ensures
        ({
            let names = seq!["node_modules"@, "target"@, "dist"@, "build"@, "vendor"@, ".next"@, "coverage"@];
            &&& forall|k: int, i: int| 0 <= k < names.len() && #[trigger] segment_at(p, names[k], i) ==> excluded_by_default_spec(p)
            &&& excluded_by_default_spec(p) ==> exists|k: int, i: int| 0 <= k < names.len() && #[trigger] segment_at(p, names[k], i)
        }),
{
    let names = seq!["node_modules"@, "target"@, "dist"@, "build"@, "vendor"@, ".next"@, "coverage"@];
    assert(default_excluded_names() =~= names);
    assert forall|k: int, i: int| 0 <= k < names.len() && #[trigger] segment_at(p, names[k], i) implies excluded_by_default_spec(p) by {
        assert(has_segment(p, default_excluded_names()[k]));
    }
    if excluded_by_default_spec(p) {
        let k = choose|k: int| 0 <= k < default_excluded_names().len() && has_segment(p, #[trigger] default_excluded_names()[k]);
        let i = choose|i: int| segment_at(p, default_excluded_names()[k], i);
        assert(segment_at(p, names[k], i));
    }
}

/// In particular, anything under a `vendor` directory is excluded by default.
pub proof fn lemma_vendor_is_excluded(p: Seq<char>, i: int)
    requires
        segment_at(p, "vendor"@, i),
    ensures
        excluded_by_default_spec(p),
{
    lemma_default_exclusions(p);
    let names = seq!["node_modules"@, "target"@, "dist"@, "build"@, "vendor"@, ".next"@, "coverage"@];
    assert(names[4] == "vendor"@);
}

/// A file is generated when its name ends with `.generated.rs`, `.generated.ts`,
/// `.generated.go`, `_pb2.py` or `.min.js`, or when one of its first eight lines,
/// in lower case, contains `code generated`, `@generated` or `do not edit`; and
/// only then.
pub proof fn lemma_generated_files(rel: Seq<char>, source: Seq<char>)
    ensures
        ({
            let name = match file_name(rel) {
                Some(n) => n,
                None => seq![],
            };
            let lines = lines_of(source);
            let suffixes = seq![".generated.rs"@, ".generated.ts"@, ".generated.go"@, "_pb2.py"@, ".min.js"@];
            let markers = seq!["code generated"@, "@generated"@, "do not edit"@];
            is_generated_spec(rel, source) <==> ((exists|k: int| 0 <= k < suffixes.len() && has_suffix(name, #[trigger] suffixes[k]))
                || (exists|j: int, m: int|
                0 <= j < 8 && j < lines.len() && 0 <= m < markers.len() && has_infix(lower_seq(#[trigger] lines[j]), #[trigger] markers[m])))
        }),
{
    let name = match file_name(rel) {
        Some(n) => n,
        None => seq![],
    };
    let lines = lines_of(source);
    let suffixes = seq![".generated.rs"@, ".generated.ts"@, ".generated.go"@, "_pb2.py"@, ".min.js"@];
    let markers = seq!["code generated"@, "@generated"@, "do not edit"@];
    assert(generated_suffixes() =~= suffixes);
    assert(generated_markers() =~= markers);
    if exists|j: int, m: int|
        0 <= j < 8 && j < lines.len() && 0 <= m < markers.len() && has_infix(lower_seq(#[trigger] lines[j]), #[trigger] markers[m]) {
        let (j, m) = choose|j: int, m: int|
            0 <= j < 8 && j < lines.len() && 0 <= m < markers.len() && has_infix(lower_seq(#[trigger] lines[j]), #[trigger] markers[m]);
        assert(has_any_infix(lower_seq(lines[j]), generated_markers()));
    }
}

pub open spec fn generated_suffixes() -> Seq<Seq<char>> {
    seq![".generated.rs"@, ".generated.ts"@, ".generated.go"@, "_pb2.py"@, ".min.js"@]
}

pub open spec fn generated_markers() -> Seq<Seq<char>> {
    seq!["code generated"@, "@generated"@, "do not edit"@]
}

pub open spec fn has_any_suffix(s: Seq<char>, ps: Seq<Seq<char>>) -> bool {
    exists|k: int| 0 <= k < ps.len() && has_suffix(s, #[trigger] ps[k])
}

/// A file is generated when its name has a generated suffix, or one of the first
/// eight lines of its source carries a generated-code marker (ignoring ASCII case).
pub open spec fn is_generated_spec(rel: Seq<char>, source: Seq<char>) -> bool {
    let name = match file_name(rel) {
        Some(n) => n,
        None => seq![],
    };
    let lines = lines_of(source);
    has_any_suffix(name, generated_suffixes()) || exists|j: int|
        0 <= j < 8 && j < lines.len() && has_any_infix(lower_seq(#[trigger] lines[j]), generated_markers())
}

/// Whether `name` is a whole component of `p`.
pub fn has_segment_exec(p: &Vec<char>, name: &Vec<char>) -> (res: bool)
    requires
        name.len() > 0,
    ensures
        res == has_segment(p@, name@),
{
    if name.len() > p.len() {
        return false;
    }
    let last = p.len() - name.len();
    let mut i: usize = 0;
    loop
        invariant
            name.len() <= p.len(),
            last == p.len() - name.len(),
            i <= last,
            forall|j: int| 0 <= j < i ==> !segment_at(p@, name@, j),
        decreases last - i,
    {
        if occurs_at_exec(p, name, i) && (i == 0 || p[i - 1] == '/') && (i == last || p[i + name.len()] == '/') {
            assert(segment_at(p@, name@, i as int));
            return true;
        }
        if i == last {
            assert forall|j: int| segment_at(p@, name@, j) implies false by {
                assert(0 <= j <= last);
            }
            return false;
        }
        i = i + 1;
    }
}

/// Whether a component of the relative path `rel` is a default-excluded directory.
pub fn excluded_by_default(rel: &str) -> (res: bool)
    ensures
        res == excluded_by_default_spec(rel@),
{
    let p = chars_of(rel);
    let names: Vec<&str> = vec!["node_modules", "target", "dist", "build", "vendor", ".next", "coverage"];
    assert(strs_view(names@) =~= default_excluded_names());
    let mut k: usize = 0;
    while k < names.len()
        invariant
            k <= names.len(),
            names.len() == 7,
            p@ == rel@,
            strs_view(names@) == default_excluded_names(),
            forall|j: int| 0 <= j < k ==> !has_segment(p@, #[trigger] default_excluded_names()[j]),
        decreases names.len() - k,
    {
        let name = chars_of(names[k]);
        proof {
            reveal_strlit("node_modules");
            reveal_strlit("target");
            reveal_strlit("dist");
            reveal_strlit("build");
            reveal_strlit("vendor");
            reveal_strlit(".next");
            reveal_strlit("coverage");
            assert(name@ == default_excluded_names()[k as int]);
            if k == 0 {
                assert(name@.len() == 12);
            } else if k == 1 {
                assert(name@.len() == 6);
            } else if k == 2 {
                assert(name@.len() == 4);
            } else if k == 3 {
                assert(name@.len() == 5);
            } else if k == 4 {
                assert(name@.len() == 6);
            } else if k == 5 {
                assert(name@.len() == 5);
            } else {
                assert(name@.len() == 8);
            }
        }
        if has_segment_exec(&p, &name) {
            return true;
        }
        k = k + 1;
    }
    false
}

/// Whether `s` ends with one of `ps`.
pub fn ends_with_any(s: &str, ps: &Vec<&str>) -> (res: bool)
    ensures
        res == has_any_suffix(s@, strs_view(ps@)),
{
    let mut k: usize = 0;
    while k < ps.len()
        invariant
            k <= ps.len(),
            forall|j: int| 0 <= j < k ==> !has_suffix(s@, #[trigger] strs_view(ps@)[j]),
        decreases ps.len() - k,
    {
        if ends_with(s, ps[k]) {
            assert(has_suffix(s@, strs_view(ps@)[k as int]));
            return true;
        }
        k = k + 1;
    }
    false
}

/// Whether the file at `rel` with this source looks generated (see `is_generated_spec`).
pub fn is_generated(rel: &str, source: &str) -> (res: bool)
    ensures
        res == is_generated_spec(rel@, source@),
{
    let p = chars_of(rel);
    let name = match file_name_chars(&p) {
        Some(n) => string_of(&n),
        None => String::new(),
    };
    let suffixes: Vec<&str> = vec![".generated.rs", ".generated.ts", ".generated.go", "_pb2.py", ".min.js"];
    assert(strs_view(suffixes@) =~= generated_suffixes());
    if ends_with_any(name.as_str(), &suffixes) {
        return true;
    }
    let markers: Vec<&str> = vec!["code generated", "@generated", "do not edit"];
    assert(strs_view(markers@) =~= generated_markers());
    let lines = lines_vec(source);
    let ghost ls = lines_of(source@);
    let mut j: usize = 0;
    while j < 8 && j < lines.len()
        invariant
            j <= 8,
            j <= lines.len(),
            ls == texts_view(lines@),
            ls == lines_of(source@),
            strs_view(markers@) == generated_markers(),
            forall|i: int| 0 <= i < j ==> !has_any_infix(lower_seq(#[trigger] ls[i]), generated_markers()),
        decreases 8 - j,
    {
        let lower = to_lower(lines[j].as_str());
        assert(ls[j as int] == lines@[j as int]@);
        if crate::adapters::contains_any(lower.as_str(), &markers) {
            assert(has_any_infix(lower_seq(ls[j as int]), generated_markers()));
            assert(ls.len() == lines.len());
            assert(is_generated_spec(rel@, source@));
            return true;
        }
        j = j + 1;
    }
    false
}

// ----------------------------------------------------------------------------
// Exclusion globs
// ----------------------------------------------------------------------------

#[verifier::external_type_specification]
#[verifier::external_body]
pub struct ExGlobSetBuilder(globset::GlobSetBuilder);

#[verifier::external_type_specification]
#[verifier::external_body]
pub struct ExGlobSet(globset::GlobSet);

/// The patterns added to a `GlobSetBuilder`, in order.
pub uninterp spec fn builder_patterns(b: globset::GlobSetBuilder) -> Seq<Seq<char>>;

/// The patterns of a `GlobSet`, in order.
pub uninterp spec fn set_patterns(s: globset::GlobSet) -> Seq<Seq<char>>;

/// Whether `Glob::new` accepts the pattern.
pub uninterp spec fn glob_valid(pattern: Seq<char>) -> bool;

/// Whether the glob built from `pattern` with default options matches `path`.
pub uninterp spec fn glob_matches(pattern: Seq<char>, path: Seq<char>) -> bool;

/// Whether `GlobSetBuilder::build` compiles a set from the globs of these
/// patterns, in this order; this depends on the patterns alone.
pub uninterp spec fn globs_build(patterns: Seq<Seq<char>>) -> bool;

/// Some pattern of `patterns` matches `path`.
pub open spec fn set_matches(patterns: Seq<Seq<char>>, path: Seq<char>) -> bool {
    exists|k: int| 0 <= k < patterns.len() && glob_matches(#[trigger] patterns[k], path)
}

/// `GlobSetBuilder::new`: a builder with no patterns.
#[verifier::external_body]
fn new_glob_builder() -> (res: globset::GlobSetBuilder)
    ensures
        builder_patterns(res) == Seq::<Seq<char>>::empty(),
{
    globset::GlobSetBuilder::new()
}

/// `GlobSetBuilder::add` of the pattern that `Glob::new` builds from the text; when
/// `Glob::new` refuses it, nothing is added and the result is `false`.
#[verifier::external_body]
fn add_glob(builder: &mut globset::GlobSetBuilder, pattern: &str) -> (res: bool)
    ensures
        res == glob_valid(pattern@),
        res ==> builder_patterns(*final(builder)) == builder_patterns(*old(builder)).push(pattern@),
        !res ==> builder_patterns(*final(builder)) == builder_patterns(*old(builder)),
{
    match globset::Glob::new(pattern) {
        Ok(glob) => {
            builder.add(glob);
            true
        },
        Err(_) => false,
    }
}

/// `GlobSetBuilder::build`: the set of the builder's patterns, or `None` when the
/// matcher could not be compiled.
#[verifier::external_body]
fn build_glob_set(builder: &globset::GlobSetBuilder) -> (res: Option<globset::GlobSet>)
    ensures
        res is Some == globs_build(builder_patterns(*builder)),
        res matches Some(set) ==> set_patterns(set) == builder_patterns(*builder),
{
    match builder.build() {
        Ok(set) => Some(set),
        Err(_) => None,
    }
}

/// `GlobSet::is_match`: whether some pattern of the set matches the path.
#[verifier::external_body]
fn glob_set_matches(set: &globset::GlobSet, path: &str) -> (res: bool)
    ensures
        res == (exists|k: int| 0 <= k < set_patterns(*set).len() && glob_matches(#[trigger] set_patterns(*set)[k], path@)),
{
    set.is_match(path)
}

/// Why the exclusion globs could not be compiled.
#[derive(Debug)]
pub enum ExcludeError {
    /// This pattern is not a glob.
    InvalidGlob(String),
    /// The globs could not be compiled together.
    Compile,
}

pub open spec fn exclude_error_message(e: ExcludeError) -> Seq<char> {
    match e {
        ExcludeError::InvalidGlob(p) => "invalid --exclude glob `"@ + p@ + "`"@,
        ExcludeError::Compile => "could not compile exclusion globs"@,
    }
}

impl ExcludeError {
    /// The error in words.
    pub fn message(&self) -> (res: String)
        ensures
            res@ == exclude_error_message(*self),
    {
        match self {
            ExcludeError::InvalidGlob(p) => {
                let mut m = owned("invalid --exclude glob `");
                push_str(&mut m, p.as_str());
                push_str(&mut m, "`");
                m
            },
            ExcludeError::Compile => owned("could not compile exclusion globs"),
        }
    }
}

/// The exclusion globs compiled into one set; the first pattern that is not a glob
/// is reported.
pub fn compile_excludes(patterns: &Vec<String>) -> (res: Result<globset::GlobSet, ExcludeError>)
    ensures
        match res {
            Ok(set) => set_patterns(set) == strings_view(patterns@) && globs_build(strings_view(patterns@))
                && forall|k: int| 0 <= k < patterns.len() ==> glob_valid(#[trigger] strings_view(patterns@)[k]),
            Err(ExcludeError::InvalidGlob(p)) => exists|k: int|
                0 <= k < patterns.len() && !glob_valid(#[trigger] strings_view(patterns@)[k]) && p@ == strings_view(patterns@)[k]
                    && forall|j: int| 0 <= j < k ==> glob_valid(#[trigger] strings_view(patterns@)[j]),
            Err(ExcludeError::Compile) => !globs_build(strings_view(patterns@)) && forall|k: int|
                0 <= k < patterns.len() ==> glob_valid(#[trigger] strings_view(patterns@)[k]),
        },
{
    let ghost pv = strings_view(patterns@);
    let mut builder = new_glob_builder();
    let mut i: usize = 0;
    while i < patterns.len()
        invariant
            i <= patterns.len(),
            pv == strings_view(patterns@),
            builder_patterns(builder) == pv.subrange(0, i as int),
            forall|j: int| 0 <= j < i ==> glob_valid(#[trigger] pv[j]),
        decreases patterns.len() - i,
    {
        let pattern = patterns[i].as_str();
        assert(pv[i as int] == pattern@);
        if !add_glob(&mut builder, pattern) {
            return Err(ExcludeError::InvalidGlob(patterns[i].clone()));
        }
        assert(builder_patterns(builder) =~= pv.subrange(0, i + 1));
        i = i + 1;
    }
    assert(pv.subrange(0, i as int) =~= pv);
    match build_glob_set(&builder) {
        Some(set) => Ok(set),
        None => Err(ExcludeError::Compile),
    }
}

// ----------------------------------------------------------------------------
// The scan, file by file
// ----------------------------------------------------------------------------

/// What a scan has gathered so far.
pub struct Scanner {
    pub summary: ScanSummary,
    pub symbols: Vec<ParsedSymbol>,
    pub warnings: Vec<String>,
    /// Files that `file` accepted and that were not yet read or reported unreadable.
    pub pending: usize,
}

/// The symbols that parsing `source` gives: parsing succeeds, and they are the
/// declarations of the tree built from tree-sitter's parse.
pub open spec fn parse_outcome(v: Seq<crate::model::ParsedSymbolV>, adapter: Adapter, source: Seq<char>, rel: Seq<char>, abs: Seq<char>) -> bool {
    &&& parse_succeeds(adapter, source)
    &&& exists|t: SyntaxNode|
        built(t, parsed_entries(grammar_of(adapter), source), 0) && v == #[trigger] declarations_of(t, adapter, source, rel, abs)
}

impl Scanner {
    /// How many accepted files wait to be read.
    pub open spec fn pending(&self) -> nat {
        self.pending as nat
    }

    /// Every file parsed, skipped as generated, counted unsupported or waiting to be
    /// read was counted by `file`.
    pub open spec fn wf(&self) -> bool {
        self.summary.parsed_files + self.summary.skipped_generated + self.summary.unsupported_files + self.pending
            <= self.summary.files
    }

    /// An empty scan.
    pub fn new() -> (res: Scanner)
        ensures
            res.summary == (ScanSummary { files: 0, parsed_files: 0, skipped_generated: 0, unsupported_files: 0 }),
            res.symbols@.len() == 0,
            res.warnings@.len() == 0,
            res.pending() == 0,
            res.wf(),
    {
        Scanner {
            summary: ScanSummary { files: 0, parsed_files: 0, skipped_generated: 0, unsupported_files: 0 },
            symbols: Vec::new(),
            warnings: Vec::new(),
            pending: 0,
        }
    }

    /// Records that the directory walk reported an error.
    pub fn walk_warning(&mut self, error: &str)
        ensures
            final(self).summary == old(self).summary,
            final(self).symbols == old(self).symbols,
            final(self).pending() == old(self).pending(),
            old(self).wf() ==> final(self).wf(),
            strings_view(final(self).warnings@) == strings_view(old(self).warnings@).push("walk warning: "@ + error@),
    {
        let mut w = owned("walk warning: ");
        push_str(&mut w, error);
        let ghost before = strings_view(self.warnings@);
        self.warnings.push(w);
        assert(strings_view(self.warnings@) =~= before.push("walk warning: "@ + error@));
    }

    /// Counts a file found by the walk and decides whether to read it: not when a
    /// component is a default-excluded directory or an exclusion glob matches its
    /// relative path; otherwise its adapter, or `None` (counted as unsupported).
    pub fn file(&mut self, rel: &str, path: &str, excludes: &globset::GlobSet) -> (res: Option<Adapter>)
        requires
            old(self).summary.files < usize::MAX,
            old(self).summary.unsupported_files < usize::MAX,
            old(self).wf(),
        ensures
            final(self).wf(),
            final(self).pending() == old(self).pending() + if res is Some {
                1nat
            } else {
                0nat
            },
            final(self).symbols == old(self).symbols,
            final(self).warnings == old(self).warnings,
            final(self).summary.files == old(self).summary.files + 1,
            final(self).summary.parsed_files == old(self).summary.parsed_files,
            final(self).summary.skipped_generated == old(self).summary.skipped_generated,
            ({
                let excluded = excluded_by_default_spec(rel@) || set_matches(set_patterns(*excludes), rel@);
                &&& excluded ==> res is None && final(self).summary.unsupported_files == old(self).summary.unsupported_files
                &&& !excluded ==> res == adapter_for_path(path@)
                &&& !excluded ==> final(self).summary.unsupported_files == old(self).summary.unsupported_files + if res is None {
                    1int
                } else {
                    0int
                }
            }),
    {
        self.summary.files = self.summary.files + 1;
        if excluded_by_default(rel) || glob_set_matches(excludes, rel) {
            return None;
        }
        let adapter = Adapter::for_path(path);
        if adapter.is_none() {
            self.summary.unsupported_files = self.summary.unsupported_files + 1;
        } else {
            self.pending = self.pending + 1;
        }
        adapter
    }

    /// Records that a file could not be read.
    pub fn read_warning(&mut self, rel: &str, error: &str)
        requires
            old(self).wf(),
            old(self).pending() > 0,
        ensures
            final(self).wf(),
            final(self).pending() == old(self).pending() - 1,
            final(self).summary == old(self).summary,
            final(self).symbols == old(self).symbols,
            strings_view(final(self).warnings@) == strings_view(old(self).warnings@).push(
                "could not read "@ + rel@ + ": "@ + error@,
            ),
    {
        self.pending = self.pending - 1;
        let mut w = owned("could not read ");
        push_str(&mut w, rel);
        push_str(&mut w, ": ");
        push_str(&mut w, error);
        let ghost before = strings_view(self.warnings@);
        self.warnings.push(w);
        assert(strings_view(self.warnings@) =~= before.push("could not read "@ + rel@ + ": "@ + error@));
    }

    /// Adds what a read file holds: a generated file (unless `include_generated`)
    /// is only counted; otherwise it is parsed, with `\` in its relative path
    /// written as `/`, and its symbols added, or a warning when it does not parse.
    pub fn source(
        &mut self,
        adapter: Adapter,
        rel: &str,
        abs: &str,
        source: &str,
        include_generated: bool,
    )
        requires
            old(self).summary.skipped_generated < usize::MAX,
            old(self).summary.parsed_files < usize::MAX,
            old(self).wf(),
            old(self).pending() > 0,
        ensures
            final(self).wf(),
            final(self).pending() == old(self).pending() - 1,
            final(self).summary.files == old(self).summary.files,
            final(self).summary.unsupported_files == old(self).summary.unsupported_files,
            !include_generated && is_generated_spec(rel@, source@) ==> {
                &&& final(self).summary.skipped_generated == old(self).summary.skipped_generated + 1
                &&& final(self).summary.parsed_files == old(self).summary.parsed_files
                &&& final(self).symbols == old(self).symbols
                &&& final(self).warnings == old(self).warnings
            },
            !(!include_generated && is_generated_spec(rel@, source@)) ==> {
                &&& final(self).summary.skipped_generated == old(self).summary.skipped_generated
                &&& final(self).summary.parsed_files == old(self).summary.parsed_files + 1
                &&& symbols_view(final(self).symbols@).subrange(0, old(self).symbols.len() as int) == symbols_view(old(self).symbols@)
                &&& ({
                    let added = symbols_view(final(self).symbols@).subrange(
                        old(self).symbols.len() as int,
                        final(self).symbols.len() as int,
                    );
                    ||| (final(self).warnings == old(self).warnings && parse_outcome(
                        added,
                        adapter,
                        source@,
                        replaced(rel@, "\\"@, "/"@),
                        abs@,
                    ))
                    ||| (added.len() == 0 && exists|f: crate::adapters::ParseFailure|
                        parse_fails_with(f, adapter, source@) && strings_view(final(self).warnings@)
                            == strings_view(old(self).warnings@).push(
                            "could not parse "@ + rel@ + ": "@ + #[trigger] parse_failure_message(f),
                        ))
                })
            },
    {
        self.pending = self.pending - 1;
        if !include_generated && is_generated(rel, source) {
            self.summary.skipped_generated = self.summary.skipped_generated + 1;
            return;
        }
        self.summary.parsed_files = self.summary.parsed_files + 1;
        proof {
            reveal_strlit("\\");
        }
        let unix_rel = replace(rel, "\\", "/");
        let ghost old_symbols = symbols_view(self.symbols@);
        let ghost n0 = self.symbols.len();
        match parse_file(adapter, source, unix_rel.as_str(), abs) {
            Ok(found) => {
                let mut found = found;
                let ghost fv = symbols_view(found@);
                let ghost fs = found@;
                let ghost before = self.symbols@;
                self.symbols.append(&mut found);
                assert(self.symbols@ == before + fs);
                assert(symbols_view(self.symbols@).subrange(0, n0 as int) =~= old_symbols);
                assert(symbols_view(self.symbols@).subrange(n0 as int, self.symbols.len() as int) =~= fv);
            },
            Err(failure) => {
                let mut w = owned("could not parse ");
                push_str(&mut w, rel);
                push_str(&mut w, ": ");
                let m = failure.message();
                push_str(&mut w, m.as_str());
                let ghost before = strings_view(self.warnings@);
                self.warnings.push(w);
                assert(strings_view(self.warnings@) =~= before.push("could not parse "@ + rel@ + ": "@ + parse_failure_message(failure)));
                assert(symbols_view(self.symbols@).subrange(0, n0 as int) =~= old_symbols);
                assert(symbols_view(self.symbols@).subrange(n0 as int, self.symbols.len() as int) =~= Seq::<crate::model::ParsedSymbolV>::empty());
            },
        }
    }

    /// The finished scan, its symbols ordered by id.
    pub fn finish(self) -> (res: ScanOutcome)
        requires
            self.wf(),
        ensures
            res.summary.parsed_files + res.summary.skipped_generated + res.summary.unsupported_files
                <= res.summary.files,
            res.summary == self.summary,
            res.warnings == self.warnings,
            symbols_view(res.symbols@) == sorted_in_order::<ParsedSymbol>(symbols_view(self.symbols@)),
            is_sorted_by::<ParsedSymbol>(symbols_view(res.symbols@)),
    {
        proof {
            lemma_sorted_is_sorted::<ParsedSymbol>(symbols_view(self.symbols@));
        }
        let Scanner { summary, symbols, warnings, pending } = self;
        assert(symbols_view(symbols@) =~= views_of(symbols@));
        let sorted = sort_in_order(symbols);
        assert(symbols_view(sorted@) =~= views_of(sorted@));
        ScanOutcome { symbols: sorted, summary, warnings }
    }
}

} // verus!
