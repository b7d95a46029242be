//! Character-level text operations, each stated over `Seq<char>`.
use vstd::prelude::*;

verus! {

// ----------------------------------------------------------------------------
// Mathematical model
// ----------------------------------------------------------------------------

/// ASCII lower-casing of one character; other characters are unchanged.
pub open spec fn lower(c: char) -> char {
    if 'A' <= c && c <= 'Z' {
        ((c as int) + 32) as char
    } else {
        c
    }
}

/// ASCII lower-casing of a whole text.
pub open spec fn lower_seq(s: Seq<char>) -> Seq<char> {
    Seq::new(s.len(), |i: int| lower(s[i]))
}

/// `p` occurs in `s` starting at position `i`.
pub open spec fn occurs_at(s: Seq<char>, p: Seq<char>, i: int) -> bool {
    0 <= i && i + p.len() <= s.len() && s.subrange(i, i + p.len()) == p
}

/// `p` occurs somewhere in `s`.
pub open spec fn has_infix(s: Seq<char>, p: Seq<char>) -> bool {
    exists|i: int| occurs_at(s, p, i)
}

pub open spec fn has_prefix(s: Seq<char>, p: Seq<char>) -> bool {
    occurs_at(s, p, 0)
}

pub open spec fn has_suffix(s: Seq<char>, p: Seq<char>) -> bool {
    p.len() <= s.len() && occurs_at(s, p, s.len() - p.len())
}

/// Left-to-right replacement of every non-overlapping occurrence of `p` by `r`.
pub open spec fn replaced(s: Seq<char>, p: Seq<char>, r: Seq<char>) -> Seq<char>
    decreases s.len(),
{
    if p.len() == 0 || s.len() < p.len() {
        s
    } else if s.subrange(0, p.len() as int) == p {
        r + replaced(s.subrange(p.len() as int, s.len() as int), p, r)
    } else {
        seq![s[0]] + replaced(s.subrange(1, s.len() as int), p, r)
    }
}

/// The Unicode `White_Space` property.
pub open spec fn is_ws(c: char) -> bool {
    ||| ('\u{9}' <= c && c <= '\u{d}')
    ||| c == ' '
    ||| c == '\u{85}'
    ||| c == '\u{a0}'
    ||| c == '\u{1680}'
    ||| ('\u{2000}' <= c && c <= '\u{200a}')
    ||| c == '\u{2028}'
    ||| c == '\u{2029}'
    ||| c == '\u{202f}'
    ||| c == '\u{205f}'
    ||| c == '\u{3000}'
}

/// `s` without its leading whitespace.
pub open spec fn trim_start(s: Seq<char>) -> Seq<char>
    decreases s.len(),
{
    if s.len() > 0 && is_ws(s[0]) {
        trim_start(s.subrange(1, s.len() as int))
    } else {
        s
    }
}

/// `s` without its trailing whitespace.
pub open spec fn trim_end(s: Seq<char>) -> Seq<char>
    decreases s.len(),
{
    if s.len() > 0 && is_ws(s[s.len() - 1]) {
        trim_end(s.subrange(0, s.len() - 1))
    } else {
        s
    }
}

/// `s` without leading and trailing whitespace.
pub open spec fn trimmed(s: Seq<char>) -> Seq<char> {
    trim_end(trim_start(s))
}

pub open spec fn digit(d: nat) -> char {
    ((d as int) + 48) as char
}

/// The decimal representation of `n`, without leading zeros.
pub open spec fn decimal(n: nat) -> Seq<char>
    decreases n,
{
    if n < 10 {
        seq![digit(n)]
    } else {
        decimal(n / 10).push(digit(n % 10))
    }
}

/// `s` right-aligned with spaces in a field of `width` characters.
pub open spec fn pad_left(s: Seq<char>, width: nat) -> Seq<char> {
    if s.len() >= width {
        s
    } else {
        Seq::new((width - s.len()) as nat, |i: int| ' ') + s
    }
}

/// Lexicographic order of texts by character code (the order of `str`).
pub open spec fn seq_lt(a: Seq<char>, b: Seq<char>) -> bool
    decreases a.len(),
{
    if a.len() == 0 {
        b.len() > 0
    } else if b.len() == 0 {
        false
    } else if a[0] != b[0] {
        (a[0] as int) < (b[0] as int)
    } else {
        seq_lt(a.subrange(1, a.len() as int), b.subrange(1, b.len() as int))
    }
}

/// The position of the first `'\n'` in `s`, if any.
pub open spec fn first_newline(s: Seq<char>) -> Option<int>
    decreases s.len(),
{
    if s.len() == 0 {
        None
    } else if s[0] == '\n' {
        Some(0)
    } else {
        match first_newline(s.subrange(1, s.len() as int)) {
            Some(i) => Some(i + 1),
            None => None,
        }
    }
}

/// `line` without one trailing carriage return.
pub open spec fn strip_cr(line: Seq<char>) -> Seq<char> {
    if line.len() > 0 && line[line.len() - 1] == '\r' {
        line.subrange(0, line.len() - 1)
    } else {
        line
    }
}

/// The lines of `s` as `str::lines` yields them: split at `'\n'`, a `'\r'`
/// just before the `'\n'` dropped, and no final empty line after a last `'\n'`.
pub open spec fn lines_of(s: Seq<char>) -> Seq<Seq<char>>
    decreases s.len(),
{
    if s.len() == 0 {
        seq![]
    } else {
        match first_newline(s) {
            None => seq![s],
            Some(i) => {
                if 0 <= i < s.len() {
                    seq![strip_cr(s.subrange(0, i))] + lines_of(s.subrange(i + 1, s.len() as int))
                } else {
                    seq![]
                }
            },
        }
    }
}

/// `parts` joined with `sep` between consecutive parts.
pub open spec fn joined(parts: Seq<Seq<char>>, sep: Seq<char>) -> Seq<char>
    decreases parts.len(),
{
    if parts.len() == 0 {
        seq![]
    } else if parts.len() == 1 {
        parts[0]
    } else {
        joined(parts.drop_last(), sep) + sep + parts.last()
    }
}

// ----------------------------------------------------------------------------
// Lemmas
// ----------------------------------------------------------------------------

pub proof fn lemma_first_newline(s: Seq<char>)
    ensures
        match first_newline(s) {
            Some(i) => 0 <= i < s.len() && s[i] == '\n' && forall|j: int| 0 <= j < i ==> s[j] != '\n',
            None => forall|j: int| 0 <= j < s.len() ==> s[j] != '\n',
        },
    decreases s.len(),
{
    if s.len() > 0 && s[0] != '\n' {
        let t = s.subrange(1, s.len() as int);
        lemma_first_newline(t);
        assert forall|j: int| 1 <= j < s.len() implies s[j] == t[j - 1] by {}
    }
}

/// `c` does not occur in `s`.
pub open spec fn lacks(s: Seq<char>, c: char) -> bool {
    forall|i: int| 0 <= i < s.len() ==> s[i] != c
}

/// Replacing `c` itself, or anything in a text without `c`, by a text without `c`
/// leaves no `c`.
pub proof fn lemma_replaced_lacks(s: Seq<char>, p: Seq<char>, r: Seq<char>, c: char)
    requires
        lacks(r, c),
        p == seq![c] || lacks(s, c),
    ensures
        lacks(replaced(s, p, r), c),
    decreases s.len(),
{
    if p.len() == 0 || s.len() < p.len() {
    } else {
        let rest = if s.subrange(0, p.len() as int) == p {
            s.subrange(p.len() as int, s.len() as int)
        } else {
            s.subrange(1, s.len() as int)
        };
        assert(p == seq![c] || lacks(rest, c)) by {
            if lacks(s, c) {
                assert forall|i: int| 0 <= i < rest.len() implies rest[i] != c by {
                    if s.subrange(0, p.len() as int) == p {
                        assert(rest[i] == s[i + p.len()]);
                    } else {
                        assert(rest[i] == s[i + 1]);
                    }
                }
            }
        }
        lemma_replaced_lacks(rest, p, r, c);
        let tail = replaced(rest, p, r);
        if s.subrange(0, p.len() as int) == p {
            assert forall|i: int| 0 <= i < r.len() + tail.len() implies (r + tail)[i] != c by {
                if i < r.len() {
                    assert((r + tail)[i] == r[i]);
                } else {
                    assert((r + tail)[i] == tail[i - r.len()]);
                }
            }
        } else {
            assert(s[0] != c) by {
                if p == seq![c] && s[0] == c {
                    assert(s.subrange(0, 1) =~= p);
                }
            }
            assert forall|i: int| 0 <= i < 1 + tail.len() implies (seq![s[0]] + tail)[i] != c by {
                if i >= 1 {
                    assert((seq![s[0]] + tail)[i] == tail[i - 1]);
                }
            }
        }
    }
}

pub proof fn lemma_seq_lt_irreflexive(a: Seq<char>)
    ensures
        !seq_lt(a, a),
    decreases a.len(),
{
    if a.len() > 0 {
        lemma_seq_lt_irreflexive(a.subrange(1, a.len() as int));
    }
}

pub proof fn lemma_seq_lt_asymmetric(a: Seq<char>, b: Seq<char>)
    requires
        seq_lt(a, b),
    ensures
        !seq_lt(b, a),
    decreases a.len(),
{
    if a.len() > 0 && b.len() > 0 && a[0] == b[0] {
        lemma_seq_lt_asymmetric(a.subrange(1, a.len() as int), b.subrange(1, b.len() as int));
    }
}

pub proof fn lemma_seq_lt_transitive(a: Seq<char>, b: Seq<char>, c: Seq<char>)
    requires
        seq_lt(a, b),
        seq_lt(b, c),
    ensures
        seq_lt(a, c),
    decreases a.len(),
{
    if a.len() > 0 && b.len() > 0 && c.len() > 0 && a[0] == b[0] && b[0] == c[0] {
        lemma_seq_lt_transitive(
            a.subrange(1, a.len() as int),
            b.subrange(1, b.len() as int),
            c.subrange(1, c.len() as int),
        );
    }
}

pub proof fn lemma_seq_lt_total(a: Seq<char>, b: Seq<char>)
    ensures
        seq_lt(a, b) || seq_lt(b, a) || a == b,
    decreases a.len(),
{
    if a.len() > 0 && b.len() > 0 && a[0] == b[0] {
        let a1 = a.subrange(1, a.len() as int);
        let b1 = b.subrange(1, b.len() as int);
        lemma_seq_lt_total(a1, b1);
        if a1 == b1 {
            assert(a =~= seq![a[0]] + a1);
            assert(b =~= seq![b[0]] + b1);
        }
    } else if a.len() == 0 && b.len() == 0 {
        assert(a =~= b);
    } else if a.len() > 0 && b.len() > 0 {
        assert((a[0] as int) != (b[0] as int));
    }
}

// ----------------------------------------------------------------------------
// Executable operations
// ----------------------------------------------------------------------------

/// The characters of `s`, in order.
pub fn chars_of(s: &str) -> (res: Vec<char>)
    ensures
        res@ == s@,
{
    let mut res: Vec<char> = Vec::new();
    for c in it: s.chars()
        invariant
            res@ == it.seq().take(it.index() as int),
            it.seq() == s@,
    {
        res.push(c);
    }
    res
}

/// Appends one character to a `String` (`String::push`).
#[verifier::external_body]
pub(crate) fn push_char(s: &mut String, c: char)
    ensures
        final(s)@ == old(s)@.push(c),
{
    s.push(c);
}

/// Appends a text to a `String` (`String::push_str`).
#[verifier::external_body]
pub(crate) fn push_str(s: &mut String, t: &str)
    ensures
        final(s)@ == old(s)@ + t@,
{
    s.push_str(t);
}

/// A `String` holding exactly the characters `v[from..to]`.
pub fn string_of_range(v: &Vec<char>, from: usize, to: usize) -> (res: String)
    requires
        from <= to <= v.len(),
    ensures
        res@ == v@.subrange(from as int, to as int),
{
    let mut res = String::new();
    let mut i = from;
    while i < to
        invariant
            from <= i <= to <= v.len(),
            res@ == v@.subrange(from as int, i as int),
        decreases to - i,
    {
        push_char(&mut res, v[i]);
        i = i + 1;
        assert(res@ =~= v@.subrange(from as int, i as int));
    }
    res
}

/// A `String` holding exactly the characters of `v`.
pub fn string_of(v: &Vec<char>) -> (res: String)
    ensures
        res@ == v@,
{
    let r = string_of_range(v, 0, v.len());
    assert(v@.subrange(0, v@.len() as int) =~= v@);
    r
}

/// An owned copy of `s`.
pub fn owned(s: &str) -> (res: String)
    ensures
        res@ == s@,
{
    s.to_owned()
}

/// Whether two texts are equal.
pub fn text_eq(a: &str, b: &str) -> (res: bool)
    ensures
        res == (a@ == b@),
{
    a.to_owned() == b.to_owned()
}

/// Whether `v[at..]` starts with `p`.
pub fn occurs_at_exec(v: &Vec<char>, p: &Vec<char>, at: usize) -> (res: bool)
    ensures
        res == occurs_at(v@, p@, at as int),
{
    if at > v.len() || p.len() > v.len() - at {
        return false;
    }
    let mut k: usize = 0;
    while k < p.len()
        invariant
            at + p.len() <= v.len(),
            k <= p.len(),
            forall|j: int| 0 <= j < k ==> v@[at + j] == p@[j],
        decreases p.len() - k,
    {
        if v[at + k] != p[k] {
            assert(v@.subrange(at as int, at + p.len())[k as int] != p@[k as int]);
            return false;
        }
        k = k + 1;
    }
    assert(v@.subrange(at as int, at + p.len()) =~= p@);
    true
}

/// Whether `p` occurs in `s`.
pub fn contains(s: &str, p: &str) -> (res: bool)
    ensures
        res == has_infix(s@, p@),
{
    let v = chars_of(s);
    let w = chars_of(p);
    contains_chars(&v, &w)
}

/// Whether `p` occurs in `v`.
pub fn contains_chars(v: &Vec<char>, p: &Vec<char>) -> (res: bool)
    ensures
        res == has_infix(v@, p@),
{
    if p.len() > v.len() {
        return false;
    }
    let last = v.len() - p.len();
    let mut i: usize = 0;
    loop
        invariant
            p.len() <= v.len(),
            last == v.len() - p.len(),
            i <= last,
            forall|j: int| 0 <= j < i ==> !occurs_at(v@, p@, j),
        decreases last - i,
    {
        if occurs_at_exec(v, p, i) {
            return true;
        }
        if i == last {
            assert forall|j: int| occurs_at(v@, p@, j) implies false by {
                assert(0 <= j <= last);
            }
            return false;
        }
        i = i + 1;
    }
}

/// Whether `s` ends with `p`.
pub fn ends_with(s: &str, p: &str) -> (res: bool)
    ensures
        res == has_suffix(s@, p@),
{
    let v = chars_of(s);
    let w = chars_of(p);
    if w.len() > v.len() {
        return false;
    }
    occurs_at_exec(&v, &w, v.len() - w.len())
}

/// Whether `s` starts with `p`.
pub fn starts_with(s: &str, p: &str) -> (res: bool)
    ensures
        res == has_prefix(s@, p@),
{
    let v = chars_of(s);
    let w = chars_of(p);
    occurs_at_exec(&v, &w, 0)
}

pub fn lower_char(c: char) -> (res: char)
    ensures
        res == lower(c),
{
    if 'A' <= c && c <= 'Z' {
        let b: u8 = c as u8;
        assert(b as int == c as int);
        ((b + 32) as u8) as char
    } else {
        c
    }
}

/// ASCII lower-casing (`str::to_ascii_lowercase`).
pub fn to_lower(s: &str) -> (res: String)
    ensures
        res@ == lower_seq(s@),
{
    let v = chars_of(s);
    let mut res = String::new();
    let mut i: usize = 0;
    while i < v.len()
        invariant
            v@ == s@,
            i <= v.len(),
            res@ == lower_seq(s@).subrange(0, i as int),
        decreases v.len() - i,
    {
        let c = lower_char(v[i]);
        push_char(&mut res, c);
        i = i + 1;
        assert(res@ =~= lower_seq(s@).subrange(0, i as int));
    }
    assert(lower_seq(s@).subrange(0, i as int) =~= lower_seq(s@));
    res
}

/// Every non-overlapping occurrence of `p` in `s`, left to right, replaced by `r`
/// (`str::replace` with a non-empty pattern).
pub fn replace(s: &str, p: &str, r: &str) -> (res: String)
    requires
        p@.len() > 0,
    ensures
        res@ == replaced(s@, p@, r@),
{
    let v = chars_of(s);
    let w = chars_of(p);
    let mut res = String::new();
    let mut i: usize = 0;
    assert(v@.subrange(0, v.len() as int) =~= v@);
    assert(res@ + replaced(v@, w@, r@) =~= replaced(v@, w@, r@));
    while i < v.len()
        invariant
            v@ == s@,
            w@ == p@,
            w.len() > 0,
            i <= v.len(),
            res@ + replaced(v@.subrange(i as int, v.len() as int), w@, r@) == replaced(v@, w@, r@),
        decreases v.len() - i,
    {
        let ghost rest = v@.subrange(i as int, v.len() as int);
        if w.len() <= v.len() - i && occurs_at_exec(&v, &w, i) {
            assert(rest.subrange(0, w@.len() as int) =~= v@.subrange(i as int, i + w@.len()));
            assert(rest.subrange(w@.len() as int, rest.len() as int) =~= v@.subrange(
                i + w@.len(),
                v.len() as int,
            ));
            push_str(&mut res, r);
            i = i + w.len();
        } else {
            if w.len() <= v.len() - i {
                assert(rest.subrange(0, w@.len() as int) =~= v@.subrange(i as int, i + w@.len()));
                assert(rest.subrange(0, w@.len() as int) != w@);
                assert(rest.subrange(1, rest.len() as int) =~= v@.subrange(i + 1, v.len() as int));
                push_char(&mut res, v[i]);
                i = i + 1;
            } else {
                let ghost before = res@;
                while i < v.len()
                    invariant
                        v@ == s@,
                        w@ == p@,
                        i <= v.len(),
                        v.len() - i < w.len(),
                        res@ + v@.subrange(i as int, v.len() as int) == before + rest,
                    decreases v.len() - i,
                {
                    push_char(&mut res, v[i]);
                    i = i + 1;
                    assert(res@ + v@.subrange(i as int, v.len() as int) =~= before + rest);
                }
                assert(res@ =~= before + rest);
            }
        }
    }
    assert(v@.subrange(i as int, v.len() as int) =~= Seq::<char>::empty());
    assert(res@ + Seq::<char>::empty() =~= res@);
    res
}

pub fn is_ws_char(c: char) -> (res: bool)
    ensures
        res == is_ws(c),
{
    ('\u{9}' <= c && c <= '\u{d}') || c == ' ' || c == '\u{85}' || c == '\u{a0}' || c
        == '\u{1680}' || ('\u{2000}' <= c && c <= '\u{200a}') || c == '\u{2028}' || c
        == '\u{2029}' || c == '\u{202f}' || c == '\u{205f}' || c == '\u{3000}'
}

proof fn lemma_trim_start_skip(s: Seq<char>, i: int)
    requires
        0 <= i <= s.len(),
        forall|j: int| 0 <= j < i ==> is_ws(s[j]),
    ensures
        trim_start(s) == trim_start(s.subrange(i, s.len() as int)),
    decreases i,
{
    if i > 0 {
        let t = s.subrange(1, s.len() as int);
        lemma_trim_start_skip(t, i - 1);
        assert(t.subrange(i - 1, t.len() as int) =~= s.subrange(i, s.len() as int));
    } else {
        assert(s.subrange(0, s.len() as int) =~= s);
    }
}

proof fn lemma_trim_end_cut(s: Seq<char>, k: int)
    requires
        0 <= k <= s.len(),
        forall|j: int| k <= j < s.len() ==> is_ws(s[j]),
    ensures
        trim_end(s) == trim_end(s.subrange(0, k)),
    decreases s.len() - k,
{
    if k < s.len() {
        let t = s.subrange(0, s.len() - 1);
        lemma_trim_end_cut(t, k);
        assert(t.subrange(0, k) =~= s.subrange(0, k));
    } else {
        assert(s.subrange(0, k) =~= s);
    }
}

/// `s` without leading and trailing whitespace (`str::trim`).
pub fn trim(s: &str) -> (res: String)
    ensures
        res@ == trimmed(s@),
{
    let v = chars_of(s);
    let mut i: usize = 0;
    while i < v.len() && is_ws_char(v[i])
        invariant
            v@ == s@,
            i <= v.len(),
            forall|j: int| 0 <= j < i ==> is_ws(v@[j]),
        decreases v.len() - i,
    {
        i = i + 1;
    }
    proof {
        lemma_trim_start_skip(v@, i as int);
        let t = v@.subrange(i as int, v.len() as int);
        if t.len() > 0 {
            assert(t[0] == v@[i as int]);
        }
    }
    let mut k: usize = v.len();
    while k > i && is_ws_char(v[k - 1])
        invariant
            v@ == s@,
            i <= k <= v.len(),
            forall|j: int| k <= j < v.len() ==> is_ws(v@[j]),
        decreases k,
    {
        k = k - 1;
    }
    proof {
        let t = v@.subrange(i as int, v.len() as int);
        assert(trim_start(s@) == t);
        lemma_trim_end_cut(t, k - i);
        let u = t.subrange(0, k - i);
        assert(u =~= v@.subrange(i as int, k as int));
        if u.len() > 0 {
            assert(u[u.len() - 1] == v@[k - 1]);
        }
    }
    string_of_range(&v, i, k)
}

pub fn digit_char(d: usize) -> (res: char)
    requires
        d < 10,
    ensures
        res == digit(d as nat),
{
    let b: u8 = d as u8;
    ((b + 48) as u8) as char
}

/// The decimal representation of `n` (`usize::to_string`).
pub fn decimal_string(n: usize) -> (res: String)
    ensures
        res@ == decimal(n as nat),
    decreases n,
{
    if n < 10 {
        let mut s = String::new();
        push_char(&mut s, digit_char(n));
        assert(s@ =~= seq![digit(n as nat)]);
        s
    } else {
        let mut s = decimal_string(n / 10);
        push_char(&mut s, digit_char(n % 10));
        s
    }
}

/// `s` right-aligned with spaces in a field of `width` characters (`{:>width}`).
pub fn pad_left_string(s: String, width: usize) -> (res: String)
    ensures
        res@ == pad_left(s@, width as nat),
{
    let v = chars_of(s.as_str());
    if v.len() >= width {
        return s;
    }
    let mut res = String::new();
    let mut i: usize = 0;
    let fill = width - v.len();
    while i < fill
        invariant
            fill == width - v.len(),
            i <= fill,
            res@ == Seq::new(i as nat, |j: int| ' '),
        decreases fill - i,
    {
        push_char(&mut res, ' ');
        i = i + 1;
        assert(res@ =~= Seq::new(i as nat, |j: int| ' '));
    }
    push_str(&mut res, s.as_str());
    res
}

/// Whether `a` comes before `b` in the order of `str`.
pub fn text_lt(a: &str, b: &str) -> (res: bool)
    ensures
        res == seq_lt(a@, b@),
{
    let v = chars_of(a);
    let w = chars_of(b);
    let mut i: usize = 0;
    assert(v@.subrange(0, v.len() as int) =~= v@);
    assert(w@.subrange(0, w.len() as int) =~= w@);
    while i < v.len() && i < w.len() && v[i] == w[i]
        invariant
            v@ == a@,
            w@ == b@,
            i <= v.len(),
            i <= w.len(),
            seq_lt(a@, b@) == seq_lt(
                v@.subrange(i as int, v.len() as int),
                w@.subrange(i as int, w.len() as int),
            ),
        decreases v.len() - i,
    {
        let ghost x = v@.subrange(i as int, v.len() as int);
        let ghost y = w@.subrange(i as int, w.len() as int);
        assert(x.subrange(1, x.len() as int) =~= v@.subrange(i + 1, v.len() as int));
        assert(y.subrange(1, y.len() as int) =~= w@.subrange(i + 1, w.len() as int));
        i = i + 1;
    }
    let ghost x = v@.subrange(i as int, v.len() as int);
    let ghost y = w@.subrange(i as int, w.len() as int);
    if i == v.len() {
        i < w.len()
    } else if i == w.len() {
        false
    } else {
        assert(x[0] == v@[i as int] && y[0] == w@[i as int]);
        v[i] < w[i]
    }
}

} // verus!

verus! {

pub open spec fn texts_view(v: Seq<String>) -> Seq<Seq<char>> {
    v.map_values(|s: String| s@)
}

pub proof fn lemma_first_newline_at(s: Seq<char>, i: int)
    requires
        0 <= i < s.len(),
        s[i] == '\n',
        forall|j: int| 0 <= j < i ==> s[j] != '\n',
    ensures
        first_newline(s) == Some(i),
{
    lemma_first_newline(s);
    match first_newline(s) {
        Some(k) => {
            if k < i {
                assert(s[k] != '\n');
            } else if k > i {
                assert(s[i] != '\n');
            }
        },
        None => {
            assert(s[i] != '\n');
        },
    }
}

/// The lines of `s` (`str::lines`).
pub fn lines_vec(s: &str) -> (res: Vec<String>)
    ensures
        texts_view(res@) == lines_of(s@),
{
    let v = chars_of(s);
    let mut res: Vec<String> = Vec::new();
    let mut pos: usize = 0;
    assert(v@.subrange(0, v.len() as int) =~= v@);
    assert(texts_view(res@) + lines_of(v@) =~= lines_of(v@));
    while pos < v.len()
        invariant
            v@ == s@,
            pos <= v.len(),
            texts_view(res@) + lines_of(v@.subrange(pos as int, v.len() as int)) == lines_of(v@),
        decreases v.len() - pos,
    {
        let ghost rest = v@.subrange(pos as int, v.len() as int);
        let mut j = pos;
        while j < v.len() && v[j] != '\n'
            invariant
                pos <= j <= v.len(),
                forall|k: int| pos <= k < j ==> v@[k] != '\n',
            decreases v.len() - j,
        {
            j = j + 1;
        }
        if j == v.len() {
            proof {
                lemma_first_newline(rest);
                if let Some(k) = first_newline(rest) {
                    assert(rest[k] == v@[pos + k]);
                }
            }
            let piece = string_of_range(&v, pos, j);
            let ghost before = texts_view(res@);
            res.push(piece);
            assert(texts_view(res@) =~= before.push(rest));
            assert(lines_of(rest) == seq![rest]);
            assert(v@.subrange(j as int, v.len() as int) =~= Seq::<char>::empty());
            assert(texts_view(res@) + lines_of(v@.subrange(j as int, v.len() as int)) =~= before + seq![rest]);
            pos = j;
        } else {
            proof {
                assert forall|k: int| 0 <= k < j - pos implies rest[k] != '\n' by {
                    assert(rest[k] == v@[pos + k]);
                }
                assert(rest[j - pos] == v@[j as int]);
                lemma_first_newline_at(rest, j - pos);
            }
            let end = if j > pos && v[j - 1] == '\r' {
                j - 1
            } else {
                j
            };
            let piece = string_of_range(&v, pos, end);
            assert(piece@ == strip_cr(rest.subrange(0, j - pos)));
            let ghost before = texts_view(res@);
            res.push(piece);
            assert(texts_view(res@) =~= before.push(piece@));
            assert(rest.subrange(j - pos + 1, rest.len() as int) =~= v@.subrange(j + 1, v.len() as int));
            assert(lines_of(rest) == seq![piece@] + lines_of(v@.subrange(j + 1, v.len() as int)));
            assert(texts_view(res@) + lines_of(v@.subrange(j + 1, v.len() as int)) =~= before + lines_of(rest));
            pos = j + 1;
        }
    }
    assert(v@.subrange(pos as int, v.len() as int) =~= Seq::<char>::empty());
    assert(texts_view(res@) + lines_of(Seq::<char>::empty()) =~= texts_view(res@));
    res
}

} // verus!
