use vstd::prelude::*;
use crate::types::DocId;
use crate::util::dedup_adjacent;
use crate::sorted::{sorted_unique, sorted_docs, lemma_sorted_unique, lemma_sorted_docs};
use crate::postings::{
    VecPostings, Entry, Group, pview, add_entry, add_entries, group_entries, empty_view, raw_groups,
    offsets_ok, Postings, RawCursor, PostingsCursor,
};
use crate::merge::{
    merged_groups, entry_docs, positions_for, groups_ok, cursor_entries, lemma_entry_docs_contains,
    lemma_positions_for_contains, MergerWithoutDuplicatesUnrolled,
};
use crate::stored_postings::{
    plain_ok, stored_ok, stored_tfs, tf_sum, segment, PostingsView, lemma_stored_of_plain,
    lemma_tf_sum_bounds, lemma_tf_sum_mono,
};
use crate::sequence::{Sequence, SliceSequence};

verus! {

broadcast use vstd::seq_lib::group_to_multiset_ensures;

// ---------------------------------------------------------------------------
// Postings lists in stored form as cursors
// ---------------------------------------------------------------------------

/// A cursor over postings in stored form produces one well-ordered group per document.
pub proof fn lemma_stored_cursor<'a>(p: VecPostings, ps: SliceSequence<'a>)
    requires
        stored_ok(p.docs@, p.tfs@, p.positions@),
        p.positions@.len() <= usize::MAX,
        ps.base() == p.positions@,
    ensures
        offsets_ok(p.tfs@, 0, p.docs@.len() as int, ps),
        groups_ok(raw_groups(p.docs@, p.tfs@, ps)),
        raw_groups(p.docs@, p.tfs@, ps).len() == p.docs@.len(),
        group_entries(raw_groups(p.docs@, p.tfs@, ps)) == stored_list_entries(p),
{
    let t = p.tfs@;
    let n = p.docs@.len() as int;
    assert forall|i: int, j: int| 0 <= i <= j <= n implies t[i] <= t[j] by {
        if i < j {
            assert(t[i] < t[j]);
        }
    }
    assert forall|j: int| 0 <= j <= n implies #[trigger] t[j] <= usize::MAX by {
        if j < n {
            assert(t[j] < t[n]);
        }
    }
    assert forall|j: int| 0 <= j < n implies #[trigger] ps.sub_ok(t[j] as int, t[j + 1] - t[j]) by {
        ps.lemma_sub(t[j] as int, t[j + 1] - t[j]);
        assert(t[j] < t[j + 1]);
        if j + 1 < n {
            assert(t[j + 1] < t[n]);
        }
    }
    let gs = raw_groups(p.docs@, t, ps);
    assert forall|i: int, k: int|
        #![trigger gs[i].1[k]]
        0 <= i < gs.len() && 0 <= k < gs[i].1.len() implies gs[i].1[k].0 == gs[i].0 && gs[i].1[k].2.len() > 0 by {
        ps.lemma_sub(t[i] as int, t[i + 1] - t[i]);
        assert(t[i] < t[i + 1]);
        if i + 1 < n {
            assert(t[i + 1] < t[n]);
        }
    }
    lemma_one_entry_groups(gs);
    let es = stored_list_entries(p);
    assert forall|k: int| 0 <= k < n implies group_entries(gs)[k] == #[trigger] es[k] by {
        ps.lemma_sub(t[k] as int, t[k + 1] - t[k]);
    }
    assert(group_entries(gs) =~= es);
}

/// Groups of one posting each hold, in order, exactly those postings.
pub proof fn lemma_one_entry_groups(gs: Seq<Group>)
    requires
        forall|i: int| 0 <= i < gs.len() ==> (#[trigger] gs[i]).1.len() == 1,
    ensures
        group_entries(gs).len() == gs.len(),
        forall|k: int| 0 <= k < gs.len() ==> #[trigger] group_entries(gs)[k] == gs[k].1[0],
    decreases gs.len(),
{
    if gs.len() > 0 {
        lemma_one_entry_groups(gs.drop_last());
        assert forall|k: int| 0 <= k < gs.len() implies #[trigger] group_entries(gs)[k] == gs[k].1[0] by {
            if k < gs.len() - 1 {
                assert(gs.drop_last()[k] == gs[k]);
            }
        }
    }
}

/// One posting per document of a list in stored form: the document, its number of
/// positions and those positions.
pub open spec fn stored_list_entries(p: VecPostings) -> Seq<Entry> {
    Seq::new(
        p.docs@.len(),
        |k: int|
            (
                p.docs@[k],
                (p.tfs@[k + 1] - p.tfs@[k]) as DocId,
                p.positions@.subrange(p.tfs@[k] as int, p.tfs@[k + 1] as int),
            ),
    )
}


// ---------------------------------------------------------------------------
// Merging postings lists in plain form
// ---------------------------------------------------------------------------

/// The postings of a list in plain form: one per document, with its term frequency and
/// its positions.
pub open spec fn plain_entries(p: PostingsView) -> Seq<Entry> {
    Seq::new(p.0.len(), |k: int| (p.0[k], p.1[k], segment(p.1, p.2, k)))
}

/// The postings of several lists in plain form, one list after the other.
pub open spec fn plain_lists_entries(ps: Seq<&VecPostings>) -> Seq<Entry>
    decreases ps.len(),
{
    if ps.len() == 0 {
        Seq::empty()
    } else {
        plain_lists_entries(ps.drop_last()) + plain_entries(pview(ps.last()))
    }
}

/// The number of positions over all postings of `es`.
pub open spec fn positions_total(es: Seq<Entry>) -> int
    decreases es.len(),
{
    if es.len() == 0 {
        0
    } else {
        positions_total(es.drop_last()) + es.last().2.len()
    }
}

proof fn lemma_dedup_len(s: Seq<DocId>)
    ensures
        dedup_adjacent(s).len() <= s.len(),
    decreases s.len(),
{
    if s.len() > 0 {
        lemma_dedup_len(s.drop_last());
    }
}

/// Keeping the distinct elements never makes a sequence longer.
proof fn lemma_sorted_unique_len(s: Seq<DocId>)
    ensures
        sorted_unique(s).len() <= s.len(),
{
    lemma_sorted_docs(s);
    assert(sorted_docs(s).len() == s.len()) by {
        assert(sorted_docs(s).to_multiset().len() == sorted_docs(s).len());
        assert(s.to_multiset().len() == s.len());
    }
    lemma_dedup_len(sorted_docs(s));
}

/// The positions of one document are among all positions.
proof fn lemma_positions_for_len(es: Seq<Entry>, d: DocId)
    ensures
        positions_for(es, d).len() <= positions_total(es),
    decreases es.len(),
{
    if es.len() > 0 {
        lemma_positions_for_len(es.drop_last(), d);
    }
}

proof fn lemma_tf_sum_push(s: Seq<DocId>, x: DocId, k: int)
    requires
        0 <= k <= s.len(),
    ensures
        tf_sum(s.push(x), k) == tf_sum(s, k),
    decreases k,
{
    if k > 0 {
        lemma_tf_sum_push(s, x, k - 1);
    }
}

/// Postings whose term frequency is their number of positions, appended to an empty
/// list, give a list with their documents and frequencies, each document's positions
/// in turn.
pub proof fn lemma_add_entries_plain(es: Seq<Entry>)
    requires
        forall|i: int| 0 <= i < es.len() ==> (#[trigger] es[i]).1 == es[i].2.len(),
    ensures
        add_entries(empty_view(), es).0.len() == es.len(),
        add_entries(empty_view(), es).1.len() == es.len(),
        forall|i: int|
            0 <= i < es.len() ==> add_entries(empty_view(), es).0[i] == (#[trigger] es[i]).0
                && add_entries(empty_view(), es).1[i] == es[i].1,
        add_entries(empty_view(), es).2.len() == tf_sum(add_entries(empty_view(), es).1, es.len() as int),
        forall|i: int|
            0 <= i < es.len() ==> segment(add_entries(empty_view(), es).1, add_entries(empty_view(), es).2, i)
                == (#[trigger] es[i]).2,
    decreases es.len(),
{
    if es.len() > 0 {
        let init = es.drop_last();
        assert forall|i: int| 0 <= i < init.len() implies (#[trigger] init[i]).1 == init[i].2.len() by {
            assert(init[i] == es[i]);
        }
        lemma_add_entries_plain(init);
        let v0 = add_entries(empty_view(), init);
        let e = es.last();
        let v = add_entries(empty_view(), es);
        let n = init.len() as int;
        assert(v == add_entry(v0, e));
        assert(e == es[n]);
        assert forall|k: int| 0 <= k <= n implies tf_sum(v.1, k) == tf_sum(v0.1, k) by {
            lemma_tf_sum_push(v0.1, e.1, k);
        }
        assert(tf_sum(v.1, n + 1) == tf_sum(v.1, n) + v.1[n]);
        assert forall|i: int| 0 <= i < es.len() implies v.0[i] == (#[trigger] es[i]).0 && v.1[i] == es[i].1 by {
            if i < n {
                assert(init[i] == es[i]);
            }
        }
        assert forall|i: int| 0 <= i < es.len() implies segment(v.1, v.2, i) == (#[trigger] es[i]).2 by {
            if i < n {
                assert(init[i] == es[i]);
                lemma_tf_sum_mono(v0.1, 0, i);
                lemma_tf_sum_mono(v0.1, i, i + 1);
                lemma_tf_sum_mono(v0.1, i + 1, n);
                assert(segment(v0.1, v0.2, i) == init[i].2);
                assert(v.2.subrange(tf_sum(v.1, i), tf_sum(v.1, i + 1)) =~= v0.2.subrange(
                    tf_sum(v0.1, i),
                    tf_sum(v0.1, i + 1),
                ));
            } else {
                assert(v.2.subrange(tf_sum(v.1, i), tf_sum(v.1, i + 1)) =~= e.2);
            }
        }
    }
}

/// A merge lists each document of its postings exactly once, in increasing order.
pub proof fn lemma_merged_docs(es: Seq<Entry>)
    ensures
        crate::util::strictly_ascending(add_entries(empty_view(), group_entries(merged_groups(es))).0),
        forall|d: DocId|
            add_entries(empty_view(), group_entries(merged_groups(es))).0.contains(d) <==> exists|k: int|
                0 <= k < es.len() && #[trigger] es[k].0 == d,
{
    let docs = sorted_unique(entry_docs(es));
    let gs = merged_groups(es);
    lemma_sorted_unique(entry_docs(es));
    assert forall|i: int| 0 <= i < gs.len() implies (#[trigger] gs[i]).1.len() == 1 by {}
    lemma_one_entry_groups(gs);
    let ens = group_entries(gs);
    crate::postings::lemma_add_entries_parts(empty_view(), ens);
    let v = add_entries(empty_view(), ens);
    assert(v.0 =~= docs) by {
        assert forall|i: int| 0 <= i < docs.len() implies v.0[i] == docs[i] by {
            assert(ens[i] == gs[i].1[0]);
        }
    }
    assert forall|d: DocId| v.0.contains(d) <==> exists|k: int| 0 <= k < es.len() && #[trigger] es[k].0 == d by {
        lemma_entry_docs_contains(es, d);
    }
}

/// The merge of postings that all have positions is a list in plain form, as long as
/// all the positions together can be counted by a term frequency.
pub proof fn lemma_merged_plain(es: Seq<Entry>)
    requires
        es.len() > 0,
        forall|i: int| 0 <= i < es.len() ==> (#[trigger] es[i]).2.len() > 0,
        positions_total(es) <= u64::MAX,
    ensures
        plain_ok(
            add_entries(empty_view(), group_entries(merged_groups(es))).0,
            add_entries(empty_view(), group_entries(merged_groups(es))).1,
            add_entries(empty_view(), group_entries(merged_groups(es))).2,
        ),
{
    let docs = sorted_unique(entry_docs(es));
    let gs = merged_groups(es);
    lemma_sorted_unique(entry_docs(es));
    assert forall|i: int| 0 <= i < gs.len() implies (#[trigger] gs[i]).1.len() == 1 by {}
    lemma_one_entry_groups(gs);
    let ens = group_entries(gs);
    assert forall|i: int| 0 <= i < ens.len() implies (#[trigger] ens[i]).1 == ens[i].2.len() by {
        assert(ens[i] == gs[i].1[0]);
        lemma_positions_for_len(es, docs[i]);
        lemma_sorted_unique_len(positions_for(es, docs[i]));
    }
    lemma_add_entries_plain(ens);
    let v = add_entries(empty_view(), ens);
    assert(entry_docs(es)[0] == es[0].0);
    assert(entry_docs(es).contains(es[0].0));
    assert(docs.contains(es[0].0));
    assert forall|i: int, j: int| 0 <= i < j < v.0.len() implies v.0[i] < v.0[j] by {
        assert(ens[i] == gs[i].1[0]);
        assert(ens[j] == gs[j].1[0]);
    }
    assert forall|i: int| 0 <= i < v.1.len() implies #[trigger] v.1[i] > 0 by {
        assert(ens[i] == gs[i].1[0]);
        let d = docs[i];
        assert(docs.contains(d));
        assert(entry_docs(es).contains(d));
        lemma_entry_docs_contains(es, d);
        let k = choose|k: int| 0 <= k < es.len() && #[trigger] es[k].0 == d;
        assert(es[k].2.len() > 0);
        let p = es[k].2[0];
        assert(es[k].2.contains(p));
        lemma_positions_for_contains(es, d, p);
        lemma_sorted_unique(positions_for(es, d));
        assert(sorted_unique(positions_for(es, d)).contains(p));
    }
    assert forall|i: int| 0 <= i < v.1.len() implies crate::util::ascending(#[trigger] segment(v.1, v.2, i)) by {
        assert(ens[i] == gs[i].1[0]);
        lemma_sorted_unique(positions_for(es, docs[i]));
    }
}

/// The postings of a list in plain form, once it is in stored form.
proof fn lemma_stored_entries_of_plain(p: VecPostings, st: VecPostings)
    requires
        plain_ok(p.docs@, p.tfs@, p.positions@),
        p.positions@.len() <= u64::MAX,
        st.docs@ == p.docs@,
        st.positions@ == p.positions@,
        st.tfs@ == stored_tfs(p.tfs@),
    ensures
        stored_list_entries(st) == plain_entries(pview(&p)),
        forall|k: int| 0 <= k < plain_entries(pview(&p)).len() ==> (#[trigger] plain_entries(pview(&p))[k]).2.len()
            > 0,
        positions_total(plain_entries(pview(&p))) == p.positions@.len(),
{
    lemma_stored_of_plain(p.docs@, p.tfs@, p.positions@);
    lemma_tf_sum_bounds(p.tfs@, p.positions@.len() as int);
    let n = p.docs@.len() as int;
    let es = plain_entries(pview(&p));
    assert forall|k: int| 0 <= k < n implies #[trigger] stored_list_entries(st)[k] == es[k] by {
        assert(st.tfs@[k] == tf_sum(p.tfs@, k));
        assert(st.tfs@[k + 1] == tf_sum(p.tfs@, k + 1));
    }
    assert(stored_list_entries(st) =~= es);
    assert forall|k: int| 0 <= k < es.len() implies (#[trigger] es[k]).2.len() > 0 by {
        assert(p.tfs@[k] > 0);
    }
    lemma_positions_total_plain(pview(&p), n);
    assert(es.take(n) =~= es);
}

/// The positions of the first `k` documents of a plain list, counted.
proof fn lemma_positions_total_plain(p: PostingsView, k: int)
    requires
        plain_ok(p.0, p.1, p.2),
        0 <= k <= p.0.len(),
    ensures
        positions_total(plain_entries(p).take(k)) == tf_sum(p.1, k),
    decreases k,
{
    lemma_tf_sum_bounds(p.1, p.2.len() as int);
    if k > 0 {
        lemma_positions_total_plain(p, k - 1);
        let es = plain_entries(p);
        assert(es.take(k).drop_last() =~= es.take(k - 1));
        assert(es.take(k).last() == es[k - 1]);
        lemma_tf_sum_mono(p.1, k - 1, k);
    }
}

/// `p`, a list in plain form, in stored form: offsets in place of term frequencies.
fn to_stored(p: &VecPostings) -> (r: VecPostings)
    requires
        plain_ok(p.docs@, p.tfs@, p.positions@),
    ensures
        r.docs@ == p.docs@,
        r.positions@ == p.positions@,
        r.tfs@ == stored_tfs(p.tfs@),
        stored_ok(r.docs@, r.tfs@, r.positions@),
{
    let n = p.tfs.len();
    let np = p.positions.len();
    let ghost total = p.positions@.len() as int;
    proof {
        lemma_stored_of_plain(p.docs@, p.tfs@, p.positions@);
        lemma_tf_sum_bounds(p.tfs@, total);
    }
    let mut offs: Vec<DocId> = Vec::new();
    offs.push(0);
    let mut cum: DocId = 0;
    let mut i: usize = 0;
    while i < n
        invariant
            i <= n,
            n == p.tfs@.len(),
            total == p.positions@.len(),
            total <= usize::MAX,
            cum == tf_sum(p.tfs@, i as int),
            offs@.len() == i + 1,
            forall|k: int| 0 <= k <= i ==> #[trigger] offs@[k] == tf_sum(p.tfs@, k),
            forall|k: int| 0 <= k <= n ==> 0 <= #[trigger] tf_sum(p.tfs@, k) <= total,
        decreases n - i,
    {
        assert(tf_sum(p.tfs@, i + 1) == cum + p.tfs@[i as int]);
        cum = cum + p.tfs[i];
        offs.push(cum);
        i += 1;
    }
    proof {
        assert forall|k: int| 0 <= k <= n implies #[trigger] offs@[k] == stored_tfs(p.tfs@)[k] by {}
        assert(offs@ =~= stored_tfs(p.tfs@));
    }
    let docs = vstd::slice::slice_to_vec(p.docs.as_slice());
    let positions = vstd::slice::slice_to_vec(p.positions.as_slice());
    Postings { docs: docs, tfs: offs, positions: positions }
}

impl Postings<Vec<DocId>, Vec<DocId>, Vec<DocId>> {
    /// Merges postings lists in plain form into one that has, for every document of any
    /// of them in increasing order, its distinct positions in increasing order; the result
    /// is in plain form too when all positions together can be counted by a term frequency.
    pub fn merge(to_merge: &[&VecPostings]) -> (r: VecPostings)
        requires
            to_merge@.len() > 0,
            forall|i: int|
                0 <= i < to_merge@.len() ==> plain_ok(
                    (#[trigger] to_merge@[i]).docs@,
                    to_merge@[i].tfs@,
                    to_merge@[i].positions@,
                ),
            plain_lists_entries(to_merge@).len() < usize::MAX,
        ensures
            pview(&r) == add_entries(empty_view(), group_entries(merged_groups(plain_lists_entries(to_merge@)))),
            positions_total(plain_lists_entries(to_merge@)) <= u64::MAX ==> plain_ok(
                r.docs@,
                r.tfs@,
                r.positions@,
            ),
    {
        let n = to_merge.len();
        let mut stored: Vec<VecPostings> = Vec::new();
        let mut i: usize = 0;
        while i < n
            invariant
                i <= n,
                n == to_merge@.len(),
                stored@.len() == i,
                forall|j: int|
                    0 <= j < n ==> plain_ok(
                        (#[trigger] to_merge@[j]).docs@,
                        to_merge@[j].tfs@,
                        to_merge@[j].positions@,
                    ),
                forall|j: int|
                    0 <= j < i ==> {
                        &&& (#[trigger] stored@[j]).docs@ == to_merge@[j].docs@
                        &&& stored@[j].positions@ == to_merge@[j].positions@
                        &&& stored@[j].tfs@ == stored_tfs(to_merge@[j].tfs@)
                        &&& stored_ok(stored@[j].docs@, stored@[j].tfs@, stored@[j].positions@)
                    },
            decreases n - i,
        {
            let st = to_stored(to_merge[i]);
            stored.push(st);
            i += 1;
        }
        let mut cursors: Vec<RawCursor<SliceSequence, SliceSequence, SliceSequence>> = Vec::new();
        let mut j: usize = 0;
        proof {
            assert(to_merge@.take(0) =~= Seq::<&VecPostings>::empty());
        }
        while j < n
            invariant
                j <= n,
                n == to_merge@.len(),
                stored@.len() == n,
                forall|k: int|
                    0 <= k < n ==> plain_ok(
                        (#[trigger] to_merge@[k]).docs@,
                        to_merge@[k].tfs@,
                        to_merge@[k].positions@,
                    ),
                forall|k: int|
                    0 <= k < n ==> {
                        &&& (#[trigger] stored@[k]).docs@ == to_merge@[k].docs@
                        &&& stored@[k].positions@ == to_merge@[k].positions@
                        &&& stored@[k].tfs@ == stored_tfs(to_merge@[k].tfs@)
                        &&& stored_ok(stored@[k].docs@, stored@[k].tfs@, stored@[k].positions@)
                    },
                cursors@.len() == j,
                forall|k: int| 0 <= k < j ==> #[trigger] cursors@[k].wf(),
                forall|k: int| 0 <= k < j ==> #[trigger] cursors@[k].upcoming().len() > 0,
                forall|k: int| 0 <= k < j ==> groups_ok(#[trigger] cursors@[k].upcoming()),
                cursor_entries(cursors@) == plain_lists_entries(to_merge@.take(j as int)),
            decreases n - j,
        {
            let st = &stored[j];
            let np = st.positions.len();
            let docs = SliceSequence::new(st.docs.as_slice());
            let tfs = SliceSequence::new(st.tfs.as_slice());
            let positions = SliceSequence::new(st.positions.as_slice());
            proof {
                assert(stored_ok(st.docs@, st.tfs@, st.positions@));
                lemma_stored_cursor(*st, positions);
                lemma_stored_entries_of_plain(*to_merge@[j as int], *st);
            }
            let c = RawCursor::new(Postings { docs: docs, tfs: tfs, positions: positions });
            let ghost before = cursors@;
            cursors.push(c);
            proof {
                assert(cursors@.drop_last() =~= before);
                assert(to_merge@.take(j + 1).drop_last() =~= to_merge@.take(j as int));
                assert(to_merge@.take(j + 1).last() == to_merge@[j as int]);
            }
            j += 1;
        }
        proof {
            assert(to_merge@.take(n as int) =~= to_merge@);
            lemma_plain_lists_entries(to_merge@);
        }
        let mut merger = MergerWithoutDuplicatesUnrolled::new(cursors);
        let r = merger.collect();
        proof {
            let es = plain_lists_entries(to_merge@);
            if positions_total(es) <= u64::MAX {
                lemma_merged_plain(es);
            }
        }
        r
    }
}

/// Every posting of plain lists has positions, and there is at least one.
proof fn lemma_plain_lists_entries(ps: Seq<&VecPostings>)
    requires
        ps.len() > 0,
        forall|i: int| 0 <= i < ps.len() ==> plain_ok((#[trigger] ps[i]).docs@, ps[i].tfs@, ps[i].positions@),
    ensures
        plain_lists_entries(ps).len() > 0,
        forall|k: int|
            0 <= k < plain_lists_entries(ps).len() ==> (#[trigger] plain_lists_entries(ps)[k]).2.len() > 0,
    decreases ps.len(),
{
    let last = ps.last();
    assert(last == ps[ps.len() - 1]);
    let le = plain_entries(pview(last));
    assert forall|k: int| 0 <= k < le.len() implies (#[trigger] le[k]).2.len() > 0 by {
        assert(last.tfs@[k] > 0);
        lemma_tf_sum_bounds(last.tfs@, last.positions@.len() as int);
        lemma_tf_sum_mono(last.tfs@, k, k + 1);
        lemma_tf_sum_mono(last.tfs@, 0, k);
    }
    if ps.len() > 1 {
        let init = ps.drop_last();
        assert forall|i: int| 0 <= i < init.len() implies plain_ok((#[trigger] init[i]).docs@, init[i].tfs@, init[i].positions@) by {
            assert(init[i] == ps[i]);
        }
        lemma_plain_lists_entries(init);
    } else {
        assert(ps.drop_last() =~= Seq::<&VecPostings>::empty());
    }
    let all = plain_lists_entries(ps);
    let front = plain_lists_entries(ps.drop_last());
    assert forall|k: int| 0 <= k < all.len() implies (#[trigger] all[k]).2.len() > 0 by {
        if k < front.len() {
            assert(all[k] == front[k]);
        } else {
            assert(all[k] == le[k - front.len()]);
        }
    }
}

} // verus!
