use vstd::prelude::*;
use vstd::relations::{sorted_by, total_ordering};
use crate::types::DocId;
use crate::util::{ascending, strictly_ascending, dedup_adjacent, lemma_dedup_elements, lemma_dedup_sorted_strict, keep_unique};

verus! {

broadcast use vstd::seq_lib::group_to_multiset_ensures;

/// The usual order of document ids.
pub open spec fn doc_leq() -> spec_fn(DocId, DocId) -> bool {
    |x: DocId, y: DocId| x <= y
}

/// `s` in non-decreasing order.
pub open spec fn sorted_docs(s: Seq<DocId>) -> Seq<DocId> {
    s.sort_by(doc_leq())
}

/// The distinct elements of `s`, in increasing order.
pub open spec fn sorted_unique(s: Seq<DocId>) -> Seq<DocId> {
    dedup_adjacent(sorted_docs(s))
}

pub proof fn lemma_doc_leq_total()
    ensures
        total_ordering(doc_leq()),
{
}

proof fn lemma_sorted_by_ascending(s: Seq<DocId>)
    requires
        sorted_by(s, doc_leq()),
    ensures
        ascending(s),
{
    assert forall|i: int, j: int| 0 <= i <= j < s.len() implies s[i] <= s[j] by {
        if i < j {
            assert(doc_leq()(s[i], s[j]));
        }
    }
}

/// Facts about sorting.
pub proof fn lemma_sorted_docs(s: Seq<DocId>)
    ensures
        ascending(sorted_docs(s)),
        sorted_docs(s).to_multiset() == s.to_multiset(),
        forall|x: DocId| #[trigger] sorted_docs(s).contains(x) <==> s.contains(x),
{
    s.lemma_sort_by_ensures(doc_leq());
    lemma_sorted_by_ascending(sorted_docs(s));
    assert forall|x: DocId| #[trigger] sorted_docs(s).contains(x) <==> s.contains(x) by {
        assert(sorted_docs(s).to_multiset().count(x) == s.to_multiset().count(x));
    }
}

/// The distinct elements in order: strictly increasing, with exactly the elements of `s`.
pub proof fn lemma_sorted_unique(s: Seq<DocId>)
    ensures
        strictly_ascending(sorted_unique(s)),
        forall|x: DocId| #[trigger] sorted_unique(s).contains(x) <==> s.contains(x),
{
    lemma_sorted_docs(s);
    lemma_dedup_sorted_strict(sorted_docs(s));
    lemma_dedup_elements(sorted_docs(s));
}

/// Two strictly increasing sequences with the same elements are equal.
pub proof fn lemma_strict_same_elements(a: Seq<DocId>, b: Seq<DocId>)
    requires
        strictly_ascending(a),
        strictly_ascending(b),
        forall|x: DocId| a.contains(x) <==> b.contains(x),
    ensures
        a == b,
    decreases a.len(),
{
    if a.len() == 0 {
        if b.len() > 0 {
            assert(b.contains(b[0]));
        }
        assert(a =~= b);
    } else {
        assert(a.contains(a[0]));
        assert(b.contains(a[0]));
        assert(b.len() > 0);
        assert(b.contains(b[0]));
        assert(a.contains(b[0]));
        let i = choose|i: int| 0 <= i < a.len() && a[i] == b[0];
        let j = choose|j: int| 0 <= j < b.len() && b[j] == a[0];
        if i > 0 {
            assert(a[0] < a[i]);
        }
        if j > 0 {
            assert(b[0] < b[j]);
        }
        assert(a[0] == b[0]);
        let a1 = a.drop_first();
        let b1 = b.drop_first();
        assert forall|x: DocId| a1.contains(x) <==> b1.contains(x) by {
            if a1.contains(x) {
                let k = choose|k: int| 0 <= k < a1.len() && a1[k] == x;
                assert(a[k + 1] == x);
                assert(a[0] < x);
                assert(b.contains(x));
                let m = choose|m: int| 0 <= m < b.len() && b[m] == x;
                assert(m != 0);
                assert(b1[m - 1] == x);
            }
            if b1.contains(x) {
                let k = choose|k: int| 0 <= k < b1.len() && b1[k] == x;
                assert(b[k + 1] == x);
                assert(b[0] < x);
                assert(a.contains(x));
                let m = choose|m: int| 0 <= m < a.len() && a[m] == x;
                assert(m != 0);
                assert(a1[m - 1] == x);
            }
        }
        lemma_strict_same_elements(a1, b1);
        assert(a =~= seq![a[0]] + a1);
        assert(b =~= seq![b[0]] + b1);
    }
}

/// `sorted_unique` depends only on which elements occur.
pub proof fn lemma_sorted_unique_same_elements(a: Seq<DocId>, b: Seq<DocId>)
    requires
        forall|x: DocId| a.contains(x) <==> b.contains(x),
    ensures
        sorted_unique(a) == sorted_unique(b),
{
    lemma_sorted_unique(a);
    lemma_sorted_unique(b);
    lemma_strict_same_elements(sorted_unique(a), sorted_unique(b));
}

/// A strictly increasing sequence is its own `sorted_unique`.
pub proof fn lemma_sorted_unique_of_strict(a: Seq<DocId>)
    requires
        strictly_ascending(a),
    ensures
        sorted_unique(a) == a,
{
    lemma_sorted_unique(a);
    lemma_strict_same_elements(sorted_unique(a), a);
}

/// Sorts `v` into non-decreasing order.
pub fn sort_docs(v: &mut Vec<DocId>)
    ensures
        final(v)@ == sorted_docs(old(v)@),
{
    let n = v.len();
    if n > 1 {
        let mut i: usize = 1;
        while i < n
            invariant
                1 <= i <= n,
                v@.len() == n,
                v@.to_multiset() == old(v)@.to_multiset(),
                ascending(v@.take(i as int)),
            decreases n - i,
        {
            let ghost before = v@;
            let x = v.remove(i);
            proof {
                vstd::seq_lib::to_multiset_remove(before, i as int);
                assert(v@.take(i as int) =~= before.take(i as int));
            }
            let mut p: usize = i;
            while p > 0 && v[p - 1] > x
                invariant
                    p <= i,
                    i < n,
                    v@.len() == n - 1,
                    v@ == before.remove(i as int),
                    forall|k: int| p <= k < i ==> #[trigger] v@[k] > x,
                decreases p,
            {
                p -= 1;
            }
            let ghost mid = v@;
            v.insert(p, x);
            proof {
                vstd::seq_lib::to_multiset_insert(mid, p as int, x);
                assert(mid.take(i as int) =~= before.take(i as int));
                let t = v@.take(i + 1);
                assert forall|a: int, b: int| 0 <= a <= b < t.len() implies t[a] <= t[b] by {
                    if a < p && b < p {
                        assert(t[a] == mid[a] && t[b] == mid[b]);
                    } else if a < p && b == p {
                        assert(t[a] == mid[a]);
                        assert(mid[a] <= mid[p - 1]);
                    } else if a < p && b > p {
                        assert(t[a] == mid[a] && t[b] == mid[b - 1]);
                    } else if a == p && b == p {
                    } else if a == p {
                        assert(t[b] == mid[b - 1]);
                    } else {
                        assert(t[a] == mid[a - 1] && t[b] == mid[b - 1]);
                    }
                }
            }
            i += 1;
        }
        assert(v@.take(n as int) =~= v@);
    }
    proof {
        lemma_doc_leq_total();
        lemma_sorted_docs(old(v)@);
        old(v)@.lemma_sort_by_ensures(doc_leq());
        assert(sorted_by(v@, doc_leq())) by {
            if n > 1 {
                assert forall|a: int, b: int| 0 <= a < b < v@.len() implies #[trigger] doc_leq()(v@[a], v@[b]) by {
                    assert(v@.take(n as int)[a] <= v@.take(n as int)[b]);
                }
            }
        }
        vstd::seq_lib::lemma_sorted_unique(v@, sorted_docs(old(v)@), doc_leq());
    }
}

/// The distinct elements of `v`, in increasing order.
pub fn sort_unique(v: &mut Vec<DocId>) -> (r: Vec<DocId>)
    ensures
        r@ == sorted_unique(old(v)@),
{
    sort_docs(v);
    keep_unique(v.as_slice())
}

} // verus!
