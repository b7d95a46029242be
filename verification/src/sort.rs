//! Stable insertion sort over values ordered by a key of their view.
use vstd::prelude::*;

verus! {

/// A strict order on the views of a type, decided by `precedes_exec`.
pub trait KeyOrder: View + Sized {
    spec fn precedes(a: Self::V, b: Self::V) -> bool;

    fn precedes_exec(&self, other: &Self) -> (res: bool)
        ensures
            res == Self::precedes(self@, other@),
    ;

    proof fn lemma_precedes_asymmetric(a: Self::V, b: Self::V)
        requires
            Self::precedes(a, b),
        ensures
            !Self::precedes(b, a),
    ;

    proof fn lemma_precedes_transitive(a: Self::V, b: Self::V, c: Self::V)
        requires
            Self::precedes(a, b),
            Self::precedes(b, c),
        ensures
            Self::precedes(a, c),
    ;
}

/// No element precedes an element placed before it.
pub open spec fn is_sorted_by<T: KeyOrder>(s: Seq<T::V>) -> bool {
    forall|i: int, j: int| 0 <= i < j < s.len() ==> !T::precedes(#[trigger] s[j], #[trigger] s[i])
}

/// `r(s[i], s[j])` for every two positions `i != j`.
pub open spec fn pairwise<A>(s: Seq<A>, r: spec_fn(A, A) -> bool) -> bool {
    forall|i: int, j: int| 0 <= i < s.len() && 0 <= j < s.len() && i != j ==> #[trigger] r(s[i], s[j])
}

pub open spec fn views_of<T: View>(v: Seq<T>) -> Seq<T::V> {
    v.map_values(|t: T| t@)
}

/// `x` inserted into `r` just before the first element that it precedes.
pub open spec fn insert_in_order<T: KeyOrder>(r: Seq<T::V>, x: T::V) -> Seq<T::V>
    decreases r.len(),
{
    if r.len() == 0 {
        seq![x]
    } else if T::precedes(x, r[0]) {
        seq![x] + r
    } else {
        seq![r[0]] + insert_in_order::<T>(r.subrange(1, r.len() as int), x)
    }
}

/// The stable sort of `xs`: its elements inserted one after another, in order.
pub open spec fn sorted_in_order<T: KeyOrder>(xs: Seq<T::V>) -> Seq<T::V>
    decreases xs.len(),
{
    if xs.len() == 0 {
        seq![]
    } else {
        insert_in_order::<T>(sorted_in_order::<T>(xs.drop_last()), xs.last())
    }
}

proof fn lemma_insert_at<T: KeyOrder>(r: Seq<T::V>, x: T::V, p: int)
    requires
        0 <= p <= r.len(),
        forall|j: int| 0 <= j < p ==> !T::precedes(x, r[j]),
        p < r.len() ==> T::precedes(x, r[p]),
    ensures
        insert_in_order::<T>(r, x) == r.subrange(0, p).push(x) + r.subrange(p, r.len() as int),
    decreases p,
{
    if p == 0 {
        if r.len() == 0 {
            assert(r.subrange(0, 0).push(x) + r.subrange(0, 0) =~= seq![x]);
        } else {
            assert(r.subrange(0, 0).push(x) + r.subrange(0, r.len() as int) =~= seq![x] + r);
        }
    } else {
        let r1 = r.subrange(1, r.len() as int);
        assert forall|j: int| 0 <= j < p - 1 implies !T::precedes(x, r1[j]) by {
            assert(r1[j] == r[j + 1]);
        }
        if p - 1 < r1.len() {
            assert(r1[p - 1] == r[p]);
        }
        lemma_insert_at::<T>(r1, x, p - 1);
        assert(!T::precedes(x, r[0]));
        assert(seq![r[0]] + (r1.subrange(0, p - 1).push(x) + r1.subrange(p - 1, r1.len() as int))
            =~= r.subrange(0, p).push(x) + r.subrange(p, r.len() as int));
    }
}

proof fn lemma_insert_elements<T: KeyOrder>(r: Seq<T::V>, x: T::V)
    ensures
        insert_in_order::<T>(r, x).len() == r.len() + 1,
        forall|y: T::V| #[trigger] insert_in_order::<T>(r, x).contains(y) <==> (r.contains(y) || y == x),
    decreases r.len(),
{
    let res = insert_in_order::<T>(r, x);
    if r.len() == 0 {
        assert forall|y: T::V| res.contains(y) <==> (r.contains(y) || y == x) by {
            if res.contains(y) {
                assert(res[0] == x);
            }
            if y == x {
                assert(res[0] == y);
            }
        }
    } else if T::precedes(x, r[0]) {
        assert forall|y: T::V| res.contains(y) <==> (r.contains(y) || y == x) by {
            if res.contains(y) {
                let k = choose|k: int| 0 <= k < res.len() && res[k] == y;
                if k > 0 {
                    assert(r[k - 1] == y);
                }
            }
            if r.contains(y) {
                let k = choose|k: int| 0 <= k < r.len() && r[k] == y;
                assert(res[k + 1] == y);
            }
            if y == x {
                assert(res[0] == y);
            }
        }
    } else {
        let r1 = r.subrange(1, r.len() as int);
        let t = insert_in_order::<T>(r1, x);
        lemma_insert_elements::<T>(r1, x);
        assert forall|y: T::V| res.contains(y) <==> (r.contains(y) || y == x) by {
            if res.contains(y) {
                let k = choose|k: int| 0 <= k < res.len() && res[k] == y;
                if k == 0 {
                    assert(r[0] == y);
                } else {
                    assert(t[k - 1] == y);
                    assert(t.contains(y));
                    if r1.contains(y) {
                        let m = choose|m: int| 0 <= m < r1.len() && r1[m] == y;
                        assert(r[m + 1] == y);
                    }
                }
            }
            if r.contains(y) {
                let k = choose|k: int| 0 <= k < r.len() && r[k] == y;
                if k == 0 {
                    assert(res[0] == y);
                } else {
                    assert(r1[k - 1] == y);
                    assert(t.contains(y));
                    let m = choose|m: int| 0 <= m < t.len() && t[m] == y;
                    assert(res[m + 1] == y);
                }
            }
            if y == x {
                assert(t.contains(y));
                let m = choose|m: int| 0 <= m < t.len() && t[m] == y;
                assert(res[m + 1] == y);
            }
        }
    }
}

/// Sorting keeps the number of elements and which values occur.
pub proof fn lemma_sorted_elements<T: KeyOrder>(xs: Seq<T::V>)
    ensures
        sorted_in_order::<T>(xs).len() == xs.len(),
        forall|y: T::V| #[trigger] sorted_in_order::<T>(xs).contains(y) <==> xs.contains(y),
    decreases xs.len(),
{
    if xs.len() > 0 {
        let init = xs.drop_last();
        lemma_sorted_elements::<T>(init);
        lemma_insert_elements::<T>(sorted_in_order::<T>(init), xs.last());
        assert forall|y: T::V| #[trigger] sorted_in_order::<T>(xs).contains(y) <==> xs.contains(y) by {
            if init.contains(y) {
                let k = choose|k: int| 0 <= k < init.len() && init[k] == y;
                assert(xs[k] == y);
            }
            if xs.contains(y) && y != xs.last() {
                let k = choose|k: int| 0 <= k < xs.len() && xs[k] == y;
                assert(k != xs.len() - 1);
                assert(init[k] == y);
            }
            if y == xs.last() {
                assert(xs[xs.len() - 1] == y);
            }
        }
    }
}

proof fn lemma_insert_pairwise<T: KeyOrder>(r: Seq<T::V>, x: T::V, rel: spec_fn(T::V, T::V) -> bool)
    requires
        pairwise(r, rel),
        forall|y: T::V| #[trigger] r.contains(y) ==> rel(x, y) && rel(y, x),
    ensures
        pairwise(insert_in_order::<T>(r, x), rel),
    decreases r.len(),
{
    let res = insert_in_order::<T>(r, x);
    if r.len() == 0 {
    } else if T::precedes(x, r[0]) {
        assert forall|i: int, j: int| 0 <= i < res.len() && 0 <= j < res.len() && i != j implies #[trigger] rel(res[i], res[j]) by {
            if i > 0 {
                assert(res[i] == r[i - 1]);
            }
            if j > 0 {
                assert(res[j] == r[j - 1]);
            }
            if i == 0 {
                assert(r.contains(r[j - 1]));
            }
            if j == 0 {
                assert(r.contains(r[i - 1]));
            }
        }
    } else {
        let r1 = r.subrange(1, r.len() as int);
        assert(pairwise(r1, rel)) by {
            assert forall|i: int, j: int| 0 <= i < r1.len() && 0 <= j < r1.len() && i != j implies #[trigger] rel(r1[i], r1[j]) by {
                assert(r1[i] == r[i + 1] && r1[j] == r[j + 1]);
            }
        }
        assert forall|y: T::V| #[trigger] r1.contains(y) implies rel(x, y) && rel(y, x) by {
            let k = choose|k: int| 0 <= k < r1.len() && r1[k] == y;
            assert(r[k + 1] == y);
            assert(r.contains(y));
        }
        lemma_insert_pairwise::<T>(r1, x, rel);
        lemma_insert_elements::<T>(r1, x);
        let t = insert_in_order::<T>(r1, x);
        assert forall|i: int, j: int| 0 <= i < res.len() && 0 <= j < res.len() && i != j implies #[trigger] rel(res[i], res[j]) by {
            if i > 0 {
                assert(res[i] == t[i - 1]);
            }
            if j > 0 {
                assert(res[j] == t[j - 1]);
            }
            if i == 0 {
                assert(t.contains(t[j - 1]));
                if r1.contains(t[j - 1]) {
                    let k = choose|k: int| 0 <= k < r1.len() && r1[k] == t[j - 1];
                    assert(rel(r[0], r[k + 1]));
                } else {
                    assert(r.contains(r[0]));
                }
            }
            if j == 0 {
                assert(t.contains(t[i - 1]));
                if r1.contains(t[i - 1]) {
                    let k = choose|k: int| 0 <= k < r1.len() && r1[k] == t[i - 1];
                    assert(rel(r[k + 1], r[0]));
                } else {
                    assert(r.contains(r[0]));
                }
            }
        }
    }
}

/// A relation that holds between every two elements at different places still
/// holds after sorting.
pub proof fn lemma_sorted_pairwise<T: KeyOrder>(xs: Seq<T::V>, rel: spec_fn(T::V, T::V) -> bool)
    requires
        pairwise(xs, rel),
    ensures
        pairwise(sorted_in_order::<T>(xs), rel),
    decreases xs.len(),
{
    if xs.len() > 0 {
        let init = xs.drop_last();
        assert(pairwise(init, rel)) by {
            assert forall|i: int, j: int| 0 <= i < init.len() && 0 <= j < init.len() && i != j implies #[trigger] rel(init[i], init[j]) by {
                assert(init[i] == xs[i] && init[j] == xs[j]);
            }
        }
        lemma_sorted_pairwise::<T>(init, rel);
        lemma_sorted_elements::<T>(init);
        let s = sorted_in_order::<T>(init);
        assert forall|y: T::V| #[trigger] s.contains(y) implies rel(xs.last(), y) && rel(y, xs.last()) by {
            assert(init.contains(y));
            let k = choose|k: int| 0 <= k < init.len() && init[k] == y;
            assert(xs[k] == y);
            assert(rel(xs[xs.len() - 1], xs[k]));
            assert(rel(xs[k], xs[xs.len() - 1]));
        }
        lemma_insert_pairwise::<T>(s, xs.last(), rel);
    }
}

proof fn lemma_insert_sorted<T: KeyOrder>(r: Seq<T::V>, x: T::V)
    requires
        is_sorted_by::<T>(r),
    ensures
        is_sorted_by::<T>(insert_in_order::<T>(r, x)),
    decreases r.len(),
{
    let res = insert_in_order::<T>(r, x);
    if r.len() == 0 {
    } else if T::precedes(x, r[0]) {
        assert forall|i: int, j: int| 0 <= i < j < res.len() implies !T::precedes(#[trigger] res[j], #[trigger] res[i]) by {
            if i == 0 {
                assert(res[j] == r[j - 1]);
                if T::precedes(r[j - 1], x) {
                    T::lemma_precedes_transitive(r[j - 1], x, r[0]);
                    if j - 1 == 0 {
                        T::lemma_precedes_asymmetric(x, r[0]);
                    } else {
                        assert(!T::precedes(r[j - 1], r[0]));
                    }
                }
            } else {
                assert(res[i] == r[i - 1] && res[j] == r[j - 1]);
            }
        }
    } else {
        let r1 = r.subrange(1, r.len() as int);
        assert(is_sorted_by::<T>(r1)) by {
            assert forall|i: int, j: int| 0 <= i < j < r1.len() implies !T::precedes(#[trigger] r1[j], #[trigger] r1[i]) by {
                assert(r1[i] == r[i + 1] && r1[j] == r[j + 1]);
            }
        }
        lemma_insert_sorted::<T>(r1, x);
        lemma_insert_elements::<T>(r1, x);
        let t = insert_in_order::<T>(r1, x);
        assert forall|i: int, j: int| 0 <= i < j < res.len() implies !T::precedes(#[trigger] res[j], #[trigger] res[i]) by {
            assert(res[j] == t[j - 1]);
            if i == 0 {
                assert(res[0] == r[0]);
                assert(t.contains(t[j - 1]));
                if t[j - 1] == x {
                } else {
                    assert(r1.contains(t[j - 1]));
                    let k = choose|k: int| 0 <= k < r1.len() && r1[k] == t[j - 1];
                    assert(r[k + 1] == t[j - 1]);
                }
            } else {
                assert(res[i] == t[i - 1]);
            }
        }
    }
}

/// The result of sorting is ordered: no element precedes one placed before it.
pub proof fn lemma_sorted_is_sorted<T: KeyOrder>(xs: Seq<T::V>)
    ensures
        is_sorted_by::<T>(sorted_in_order::<T>(xs)),
    decreases xs.len(),
{
    if xs.len() > 0 {
        lemma_sorted_is_sorted::<T>(xs.drop_last());
        lemma_insert_sorted::<T>(sorted_in_order::<T>(xs.drop_last()), xs.last());
    }
}

/// `v` sorted stably by `KeyOrder::precedes`.
pub fn sort_in_order<T: KeyOrder>(v: Vec<T>) -> (res: Vec<T>)
    ensures
        views_of(res@) == sorted_in_order::<T>(views_of(v@)),
{
    let ghost orig = views_of(v@);
    let mut rest = v;
    let mut out: Vec<T> = Vec::new();
    let ghost mut k: int = 0;
    assert(orig.subrange(0, 0) =~= Seq::<T::V>::empty());
    assert(views_of(rest@) =~= orig.subrange(0, orig.len() as int));
    while rest.len() > 0
        invariant
            0 <= k <= orig.len(),
            rest.len() == orig.len() - k,
            out.len() == k,
            views_of(rest@) == orig.subrange(k, orig.len() as int),
            views_of(out@) == sorted_in_order::<T>(orig.subrange(0, k)),
        decreases rest.len(),
    {
        let ghost before_rest = rest@;
        let x = rest.remove(0);
        assert(x@ == views_of(before_rest)[0]);
        assert(x@ == orig[k]);
        assert forall|j: int| 0 <= j < rest.len() implies #[trigger] views_of(rest@)[j] == orig[k + 1 + j] by {
            assert(rest@[j] == before_rest[j + 1]);
            assert(views_of(before_rest)[j + 1] == orig.subrange(k, orig.len() as int)[j + 1]);
        }
        assert(views_of(rest@) =~= orig.subrange(k + 1, orig.len() as int));
        let mut p: usize = 0;
        while p < out.len() && !x.precedes_exec(&out[p])
            invariant
                p <= out.len(),
                forall|j: int| 0 <= j < p ==> !T::precedes(x@, #[trigger] views_of(out@)[j]),
            decreases out.len() - p,
        {
            p = p + 1;
        }
        let ghost r = views_of(out@);
        proof {
            lemma_insert_at::<T>(r, x@, p as int);
            let xs = orig.subrange(0, k + 1);
            assert(xs.drop_last() =~= orig.subrange(0, k));
            assert(xs.last() == x@);
        }
        out.insert(p, x);
        assert(views_of(out@) =~= r.subrange(0, p as int).push(x@) + r.subrange(p as int, r.len() as int));
        proof {
            k = k + 1;
        }
    }
    assert(orig.subrange(0, k) =~= orig);
    out
}

} // verus!
