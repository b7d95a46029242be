//! The command line's rules: the free and Pro bounds, option values, output names
//! and exit codes.
use vstd::prelude::*;

use crate::text::{
    chars_of, lower, owned, push_char, push_str, string_of, string_of_range,
};

verus! {

pub const FREE_DEPTH: usize = 2;

pub const FREE_NODES: usize = 40;

pub const PRO_DEPTH: usize = 8;

pub const PRO_NODES: usize = 250;

/// Whether the requested bounds go beyond the free ones and need a Pro license.
pub fn needs_pro(depth: usize, max_nodes: usize) -> (res: bool)
    ensures
        res == (depth > FREE_DEPTH || max_nodes > FREE_NODES),
{
    depth > FREE_DEPTH || max_nodes > FREE_NODES
}

pub open spec fn is_digit(c: char) -> bool {
    '0' <= c && c <= '9'
}

/// The number that a string of decimal digits writes.
pub open spec fn digits_value(s: Seq<char>) -> nat
    decreases s.len(),
{
    if s.len() == 0 {
        0
    } else {
        digits_value(s.drop_last()) * 10 + ((s.last() as int) - 48) as nat
    }
}

/// The digits of an unsigned integer as `usize::from_str` reads them: one optional
/// leading `+`, then at least one decimal digit and nothing else.
pub open spec fn unsigned_digits(s: Seq<char>) -> Option<Seq<char>> {
    let d = without_plus(s);
    if d.len() > 0 && all_digits(d) {
        Some(d)
    } else {
        None
    }
}

/// `s` without one leading `+`.
pub open spec fn without_plus(s: Seq<char>) -> Seq<char> {
    if s.len() > 0 && s[0] == '+' {
        s.subrange(1, s.len() as int)
    } else {
        s
    }
}

pub open spec fn all_digits(d: Seq<char>) -> bool {
    forall|i: int| 0 <= i < d.len() ==> is_digit(#[trigger] d[i])
}

/// The value `usize::from_str` gives: `None` for a malformed text or a value
/// above `usize::MAX`.
pub open spec fn parse_usize_spec(s: Seq<char>) -> Option<nat> {
    match unsigned_digits(s) {
        Some(d) => if digits_value(d) <= usize::MAX {
            Some(digits_value(d))
        } else {
            None
        },
        None => None,
    }
}

proof fn lemma_digits_value_monotone(s: Seq<char>, i: int)
    requires
        0 <= i <= s.len(),
        forall|j: int| 0 <= j < s.len() ==> is_digit(#[trigger] s[j]),
    ensures
        digits_value(s.subrange(0, i)) <= digits_value(s),
    decreases s.len() - i,
{
    if i < s.len() {
        lemma_digits_value_monotone(s, i + 1);
        let t = s.subrange(0, i + 1);
        assert(t.drop_last() =~= s.subrange(0, i));
        assert(is_digit(t.last()));
    } else {
        assert(s.subrange(0, i) =~= s);
    }
}

/// An unsigned integer read as `usize::from_str` reads it.
pub fn parse_usize(value: &str) -> (res: Option<usize>)
    ensures
        match res {
            Some(n) => parse_usize_spec(value@) == Some(n as nat),
            None => parse_usize_spec(value@) is None,
        },
{
    let v = chars_of(value);
    let start: usize = if v.len() > 0 && v[0] == '+' {
        1
    } else {
        0
    };
    let ghost d = v@.subrange(start as int, v.len() as int);
    assert(unsigned_digits(value@) is Some ==> unsigned_digits(value@) == Some(d)) by {
        if !(v@.len() > 0 && v@[0] == '+') {
            assert(d =~= v@);
        }
    }
    if start == v.len() {
        return None;
    }
    let mut acc: usize = 0;
    let mut i = start;
    while i < v.len()
        invariant
            start <= i <= v.len(),
            v@ == value@,
            d == v@.subrange(start as int, v.len() as int),
            unsigned_digits(value@) is Some ==> unsigned_digits(value@) == Some(d),
            forall|j: int| start <= j < i ==> is_digit(#[trigger] v@[j]),
            acc as nat == digits_value(v@.subrange(start as int, i as int)),
        decreases v.len() - i,
    {
        let c = v[i];
        assert(d[i - start] == v@[i as int]);
        if !('0' <= c && c <= '9') {
            assert(!is_digit(d[i - start]));
            proof {
                if unsigned_digits(value@) is Some {
                    assert(without_plus(value@) =~= d);
                    assert(all_digits(d));
                    assert(is_digit(d[i - start]));
                }
            }
            return None;
        }
        let digit: u8 = (c as u8) - 48;
        assert(digit as int == (c as int) - 48);
        let ghost t = v@.subrange(start as int, i + 1);
        assert(t.drop_last() =~= v@.subrange(start as int, i as int));
        if acc > (usize::MAX - digit as usize) / 10 {
            proof {
                assert(forall|j: int| 0 <= j < d.len() ==> is_digit(#[trigger] d[j]) || j >= i - start + 1);
                if unsigned_digits(value@) is Some {
                    assert(without_plus(value@) =~= d);
                    assert(all_digits(d));
                    lemma_digits_value_monotone(d, i - start + 1);
                    assert(d.subrange(0, i - start + 1) =~= t);
                    assert(digits_value(t) == acc * 10 + digit) by (nonlinear_arith)
                        requires
                            digits_value(t) == digits_value(t.drop_last()) * 10 + digit,
                            digits_value(t.drop_last()) == acc,
                    ;
                    assert(acc * 10 + digit > usize::MAX) by (nonlinear_arith)
                        requires
                            acc > (usize::MAX - digit) / 10,
                            digit <= 9,
                    ;
                }
            }
            return None;
        }
        assert(acc * 10 + digit <= usize::MAX) by (nonlinear_arith)
            requires
                acc <= (usize::MAX - digit) / 10,
                digit <= 9,
        ;
        acc = acc * 10 + digit as usize;
        i = i + 1;
    }
    assert(v@.subrange(start as int, i as int) =~= d);
    Some(acc)
}

/// The depth option: an integer from 0 to `PRO_DEPTH`.
pub fn parse_depth(value: &str) -> (res: Result<usize, String>)
    ensures
        match res {
            Ok(n) => parse_usize_spec(value@) == Some(n as nat) && n <= PRO_DEPTH,
            Err(m) => match parse_usize_spec(value@) {
                None => m@ == "depth must be an integer"@,
                Some(n) => n > PRO_DEPTH && m@ == "depth must be between 0 and 8"@,
            },
        },
{
    match parse_usize(value) {
        None => Err(owned("depth must be an integer")),
        Some(n) => if n <= PRO_DEPTH {
            Ok(n)
        } else {
            Err(owned("depth must be between 0 and 8"))
        },
    }
}

/// The node budget option: an integer from 1 to `PRO_NODES`.
pub fn parse_nodes(value: &str) -> (res: Result<usize, String>)
    ensures
        match res {
            Ok(n) => parse_usize_spec(value@) == Some(n as nat) && 1 <= n <= PRO_NODES,
            Err(m) => match parse_usize_spec(value@) {
                None => m@ == "max-nodes must be an integer"@,
                Some(n) => (n < 1 || n > PRO_NODES) && m@ == "max-nodes must be between 1 and 250"@,
            },
        },
{
    match parse_usize(value) {
        None => Err(owned("max-nodes must be an integer")),
        Some(n) => if 1 <= n && n <= PRO_NODES {
            Ok(n)
        } else {
            Err(owned("max-nodes must be between 1 and 250"))
        },
    }
}

pub open spec fn is_ascii_alphanumeric(c: char) -> bool {
    ('0' <= c && c <= '9') || ('a' <= c && c <= 'z') || ('A' <= c && c <= 'Z')
}

pub open spec fn portable_char(c: char) -> char {
    if is_ascii_alphanumeric(c) || c == '-' || c == '_' {
        c
    } else {
        '-'
    }
}

/// The first index of `s` at or after `i` that is not `c`.
pub open spec fn skip_from(s: Seq<char>, c: char, i: int) -> int
    decreases s.len() - i,
{
    if i < s.len() && s[i] == c {
        skip_from(s, c, i + 1)
    } else {
        i
    }
}

/// One past the last index of `s[..end]` that is not `c`, or `start`.
pub open spec fn skip_back(s: Seq<char>, c: char, start: int, end: int) -> int
    decreases end - start,
{
    if end > start && s[end - 1] == c {
        skip_back(s, c, start, end - 1)
    } else {
        end
    }
}

/// `s` without leading and trailing `c` (`str::trim_matches`).
pub open spec fn trim_char(s: Seq<char>, c: char) -> Seq<char> {
    let a = skip_from(s, c, 0);
    let b = skip_back(s, c, a, s.len() as int);
    s.subrange(a, b)
}

/// A portable file-name stem for a symbol: every character that is not ASCII
/// alphanumeric, `-` or `_` becomes `-`; leading and trailing `-` are dropped; at
/// most 80 characters remain, in lower case.
pub open spec fn safe_filename_spec(value: Seq<char>) -> Seq<char> {
    let mapped = Seq::new(value.len(), |i: int| portable_char(value[i]));
    let trimmed = trim_char(mapped, '-');
    let kept = if trimmed.len() > 80 {
        trimmed.subrange(0, 80)
    } else {
        trimmed
    };
    Seq::new(kept.len(), |i: int| lower(kept[i]))
}

pub proof fn lemma_skip_from(s: Seq<char>, c: char, i: int)
    requires
        0 <= i <= s.len(),
    ensures
        i <= skip_from(s, c, i) <= s.len(),
    decreases s.len() - i,
{
    if i < s.len() && s[i] == c {
        lemma_skip_from(s, c, i + 1);
    }
}

pub proof fn lemma_skip_back(s: Seq<char>, c: char, start: int, end: int)
    requires
        start <= end,
    ensures
        start <= skip_back(s, c, start, end) <= end,
    decreases end - start,
{
    if end > start && s[end - 1] == c {
        lemma_skip_back(s, c, start, end - 1);
    }
}

/// A character that a portable file-name stem may hold.
pub open spec fn stem_char(c: char) -> bool {
    ('0' <= c && c <= '9') || ('a' <= c && c <= 'z') || c == '-' || c == '_'
}

proof fn lemma_skip_from_stops(s: Seq<char>, c: char, i: int)
    requires
        0 <= i <= s.len(),
    ensures
        skip_from(s, c, i) == s.len() || s[skip_from(s, c, i)] != c,
    decreases s.len() - i,
{
    if i < s.len() && s[i] == c {
        lemma_skip_from_stops(s, c, i + 1);
    }
}

/// A file-name stem has at most 80 characters, all ASCII lower-case letters,
/// digits, `-` or `_`, and does not start with `-`.
pub proof fn lemma_safe_filename_is_portable(value: Seq<char>)
    ensures
        safe_filename_spec(value).len() <= 80,
        forall|i: int| 0 <= i < safe_filename_spec(value).len() ==> stem_char(#[trigger] safe_filename_spec(value)[i]),
        safe_filename_spec(value).len() > 0 ==> safe_filename_spec(value)[0] != '-',
{
    let mapped = Seq::new(value.len(), |i: int| portable_char(value[i]));
    let a = skip_from(mapped, '-', 0);
    lemma_skip_from(mapped, '-', 0);
    lemma_skip_from_stops(mapped, '-', 0);
    let b = skip_back(mapped, '-', a, mapped.len() as int);
    lemma_skip_back(mapped, '-', a, mapped.len() as int);
    let trimmed = trim_char(mapped, '-');
    assert(trimmed == mapped.subrange(a, b));
    let kept = if trimmed.len() > 80 {
        trimmed.subrange(0, 80)
    } else {
        trimmed
    };
    let res = safe_filename_spec(value);
    assert(res == Seq::new(kept.len(), |i: int| lower(kept[i])));
    assert forall|i: int| 0 <= i < res.len() implies stem_char(#[trigger] res[i]) by {
        assert(kept[i] == mapped[a + i]);
        let c = value[a + i];
        assert(mapped[a + i] == portable_char(c));
    }
    if res.len() > 0 {
        assert(kept[0] == mapped[a]);
    }
}

/// A portable file-name stem for `value` (see `safe_filename_spec`).
pub fn safe_filename(value: &str) -> (res: String)
    ensures
        res@ == safe_filename_spec(value@),
        res@.len() <= 80,
        forall|i: int| 0 <= i < res@.len() ==> stem_char(#[trigger] res@[i]),
        res@.len() > 0 ==> res@[0] != '-',
{
    proof {
        lemma_safe_filename_is_portable(value@);
    }
    let v = chars_of(value);
    let ghost mapped = Seq::new(value@.len(), |i: int| portable_char(value@[i]));
    let mut m: Vec<char> = Vec::new();
    let mut i: usize = 0;
    while i < v.len()
        invariant
            i <= v.len(),
            v@ == value@,
            mapped == Seq::new(value@.len(), |i: int| portable_char(value@[i])),
            m@ == mapped.subrange(0, i as int),
        decreases v.len() - i,
    {
        let c = v[i];
        let keep = ('0' <= c && c <= '9') || ('a' <= c && c <= 'z') || ('A' <= c && c <= 'Z') || c == '-'
            || c == '_';
        m.push(if keep {
            c
        } else {
            '-'
        });
        i = i + 1;
        assert(m@ =~= mapped.subrange(0, i as int));
    }
    assert(m@ =~= mapped);
    let mut a: usize = 0;
    while a < m.len() && m[a] == '-'
        invariant
            a <= m.len(),
            skip_from(m@, '-', 0) == skip_from(m@, '-', a as int),
        decreases m.len() - a,
    {
        a = a + 1;
    }
    let mut b: usize = m.len();
    while b > a && m[b - 1] == '-'
        invariant
            a <= b <= m.len(),
            skip_back(m@, '-', a as int, m.len() as int) == skip_back(m@, '-', a as int, b as int),
        decreases b,
    {
        b = b - 1;
    }
    let ghost trimmed = m@.subrange(a as int, b as int);
    assert(trimmed == trim_char(mapped, '-'));
    let end = if b - a > 80 {
        a + 80
    } else {
        b
    };
    let ghost kept = m@.subrange(a as int, end as int);
    assert(kept =~= (if trimmed.len() > 80 {
        trimmed.subrange(0, 80)
    } else {
        trimmed
    }));
    let mut res = String::new();
    let mut k = a;
    while k < end
        invariant
            a <= k <= end <= m.len(),
            kept == m@.subrange(a as int, end as int),
            res@ == Seq::new((k - a) as nat, |i: int| lower(kept[i])),
        decreases end - k,
    {
        let c = crate::text::lower_char(m[k]);
        push_char(&mut res, c);
        k = k + 1;
        assert(res@ =~= Seq::new((k - a) as nat, |i: int| lower(kept[i])));
    }
    res
}

/// The output formats.
#[derive(Clone, Copy, Debug, PartialEq, Eq, Structural)]
pub enum OutputFormat {
    Html,
    Json,
    Dot,
}

/// Where output goes when no `--output` is given: HTML and DOT to a file named
/// after the symbol, JSON to standard output (`-`).
pub open spec fn default_output_spec(format: OutputFormat, symbol: Seq<char>) -> Seq<char> {
    match format {
        OutputFormat::Html => safe_filename_spec(symbol) + "-lens.html"@,
        OutputFormat::Json => "-"@,
        OutputFormat::Dot => safe_filename_spec(symbol) + "-lens.dot"@,
    }
}

/// The default output path (see `default_output_spec`).
pub fn default_output(format: OutputFormat, symbol: &str) -> (res: String)
    ensures
        res@ == default_output_spec(format, symbol@),
{
    match format {
        OutputFormat::Html => {
            let mut s = safe_filename(symbol);
            push_str(&mut s, "-lens.html");
            s
        },
        OutputFormat::Json => owned("-"),
        OutputFormat::Dot => {
            let mut s = safe_filename(symbol);
            push_str(&mut s, "-lens.dot");
            s
        },
    }
}

/// The format used: JSON when `--json` is given, else the chosen one.
pub fn effective_format(json: bool, format: OutputFormat) -> (res: OutputFormat)
    ensures
        res == (if json {
            OutputFormat::Json
        } else {
            format
        }),
{
    if json {
        OutputFormat::Json
    } else {
        format
    }
}

/// Why a run failed.
#[derive(Clone, Copy, Debug, PartialEq, Eq, Structural)]
pub enum FailureKind {
    /// An analysis or I/O error.
    Analysis,
    /// The symbol is missing or ambiguous.
    Symbol,
    /// The requested bounds need a valid Pro license.
    License,
}

/// The process exit code for a failed run: 1 for an analysis or I/O error, 3 for a
/// missing or ambiguous symbol, 4 when the bounds need a valid license.
pub open spec fn exit_code_spec(kind: FailureKind) -> u8 {
    match kind {
        FailureKind::Analysis => 1,
        FailureKind::Symbol => 3,
        FailureKind::License => 4,
    }
}

/// The exit code for a failed run (see `exit_code_spec`).
pub fn exit_code(kind: FailureKind) -> (res: u8)
    ensures
        res == exit_code_spec(kind),
{
    match kind {
        FailureKind::Analysis => 1,
        FailureKind::Symbol => 3,
        FailureKind::License => 4,
    }
}

} // verus!
