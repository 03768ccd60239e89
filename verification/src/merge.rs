use vstd::prelude::*;
use crate::types::DocId;
use crate::util::strictly_ascending;
use crate::sorted::{
    sorted_unique, lemma_sorted_unique, lemma_sorted_unique_same_elements,
    lemma_sorted_unique_of_strict, sort_unique,
};
use crate::postings::{
    PostingsCursor, VecPostings, Entry, Group, pview, add_entry, add_entries, group_entries,
    empty_postings, push_entry, first_group_at_least, lemma_first_group_at_least, Postings,
    RawCursor, raw_groups, offsets_ok, empty_view,
};
use crate::sequence::Sequence;

verus! {

// ---------------------------------------------------------------------------
// Merging postings by document
// ---------------------------------------------------------------------------

/// Documents of a list of postings.
pub open spec fn entry_docs(es: Seq<Entry>) -> Seq<DocId> {
    es.map_values(|e: Entry| e.0)
}

/// All positions that the postings in `es` give for document `d`.
pub open spec fn positions_for(es: Seq<Entry>, d: DocId) -> Seq<DocId>
    decreases es.len(),
{
    if es.len() == 0 {
        Seq::empty()
    } else {
        positions_for(es.drop_last(), d) + (if es.last().0 == d {
            es.last().2
        } else {
            Seq::empty()
        })
    }
}

/// The merged posting of document `d`: its distinct positions in increasing order.
pub open spec fn merged_group(es: Seq<Entry>, d: DocId) -> Group {
    let ps = sorted_unique(positions_for(es, d));
    (d, seq![(d, ps.len() as DocId, ps)])
}

/// One merged posting per distinct document of `es`, in increasing document order.
pub open spec fn merged_groups(es: Seq<Entry>) -> Seq<Group> {
    let docs = sorted_unique(entry_docs(es));
    Seq::new(docs.len(), |i: int| merged_group(es, docs[i]))
}

pub proof fn lemma_entry_docs_contains(es: Seq<Entry>, d: DocId)
    ensures
        entry_docs(es).contains(d) <==> exists|k: int| 0 <= k < es.len() && #[trigger] es[k].0 == d,
{
    if entry_docs(es).contains(d) {
        let k = choose|k: int| 0 <= k < entry_docs(es).len() && entry_docs(es)[k] == d;
        assert(es[k].0 == d);
    }
    if exists|k: int| 0 <= k < es.len() && #[trigger] es[k].0 == d {
        let k = choose|k: int| 0 <= k < es.len() && #[trigger] es[k].0 == d;
        assert(entry_docs(es)[k] == d);
    }
}

pub proof fn lemma_positions_for_contains(es: Seq<Entry>, d: DocId, p: DocId)
    ensures
        positions_for(es, d).contains(p) <==> exists|k: int|
            0 <= k < es.len() && #[trigger] es[k].0 == d && es[k].2.contains(p),
    decreases es.len(),
{
    if es.len() > 0 {
        let init = es.drop_last();
        lemma_positions_for_contains(init, d, p);
        let tail = if es.last().0 == d {
            es.last().2
        } else {
            Seq::<DocId>::empty()
        };
        let whole = positions_for(init, d) + tail;
        if whole.contains(p) {
            let j = choose|j: int| 0 <= j < whole.len() && whole[j] == p;
            if j < positions_for(init, d).len() {
                assert(positions_for(init, d).contains(p));
                let k = choose|k: int| 0 <= k < init.len() && #[trigger] init[k].0 == d && init[k].2.contains(p);
                assert(es[k] == init[k]);
            } else {
                assert(tail[j - positions_for(init, d).len()] == p);
                assert(es.last().0 == d);
                assert(es.last().2.contains(p));
                assert(es[es.len() - 1] == es.last());
            }
        }
        if exists|k: int| 0 <= k < es.len() && #[trigger] es[k].0 == d && es[k].2.contains(p) {
            let k = choose|k: int| 0 <= k < es.len() && #[trigger] es[k].0 == d && es[k].2.contains(p);
            if k < es.len() - 1 {
                assert(init[k] == es[k]);
                assert(positions_for(init, d).contains(p));
                let j = choose|j: int| 0 <= j < positions_for(init, d).len() && positions_for(init, d)[j] == p;
                assert(whole[j] == p);
            } else {
                let j = choose|j: int| 0 <= j < es[k].2.len() && es[k].2[j] == p;
                assert(whole[positions_for(init, d).len() + j] == p);
            }
        }
    }
}

/// Merging depends only on which postings occur, not on their order.
pub proof fn lemma_merged_groups_same_entries(a: Seq<Entry>, b: Seq<Entry>)
    requires
        forall|e: Entry| a.contains(e) <==> b.contains(e),
    ensures
        merged_groups(a) == merged_groups(b),
{
    assert forall|d: DocId| entry_docs(a).contains(d) <==> entry_docs(b).contains(d) by {
        lemma_entry_docs_contains(a, d);
        lemma_entry_docs_contains(b, d);
        if exists|k: int| 0 <= k < a.len() && #[trigger] a[k].0 == d {
            let k = choose|k: int| 0 <= k < a.len() && #[trigger] a[k].0 == d;
            assert(a.contains(a[k]));
            let m = choose|m: int| 0 <= m < b.len() && b[m] == a[k];
            assert(b[m].0 == d);
        }
        if exists|k: int| 0 <= k < b.len() && #[trigger] b[k].0 == d {
            let k = choose|k: int| 0 <= k < b.len() && #[trigger] b[k].0 == d;
            assert(b.contains(b[k]));
            let m = choose|m: int| 0 <= m < a.len() && a[m] == b[k];
            assert(a[m].0 == d);
        }
    }
    lemma_sorted_unique_same_elements(entry_docs(a), entry_docs(b));
    assert forall|d: DocId| #[trigger] merged_group(a, d) == merged_group(b, d) by {
        assert forall|p: DocId| positions_for(a, d).contains(p) <==> positions_for(b, d).contains(p) by {
            lemma_positions_for_contains(a, d, p);
            lemma_positions_for_contains(b, d, p);
            if exists|k: int| 0 <= k < a.len() && #[trigger] a[k].0 == d && a[k].2.contains(p) {
                let k = choose|k: int| 0 <= k < a.len() && #[trigger] a[k].0 == d && a[k].2.contains(p);
                assert(a.contains(a[k]));
                let m = choose|m: int| 0 <= m < b.len() && b[m] == a[k];
                assert(b[m].0 == d && b[m].2.contains(p));
            }
            if exists|k: int| 0 <= k < b.len() && #[trigger] b[k].0 == d && b[k].2.contains(p) {
                let k = choose|k: int| 0 <= k < b.len() && #[trigger] b[k].0 == d && b[k].2.contains(p);
                assert(b.contains(b[k]));
                let m = choose|m: int| 0 <= m < a.len() && a[m] == b[k];
                assert(a[m].0 == d && a[m].2.contains(p));
            }
        }
        lemma_sorted_unique_same_elements(positions_for(a, d), positions_for(b, d));
    }
    assert(merged_groups(a) =~= merged_groups(b));
}

/// Taking away all postings of the smallest document removes the first merged group.
pub proof fn lemma_merged_groups_drop_min(a: Seq<Entry>, b: Seq<Entry>, d: DocId)
    requires
        exists|k: int| 0 <= k < a.len() && #[trigger] a[k].0 == d,
        forall|k: int| 0 <= k < a.len() ==> #[trigger] a[k].0 >= d,
        forall|e: Entry| b.contains(e) <==> (a.contains(e) && e.0 != d),
    ensures
        merged_groups(a).len() > 0,
        merged_groups(a)[0] == merged_group(a, d),
        merged_groups(b) == merged_groups(a).drop_first(),
{
    let da = sorted_unique(entry_docs(a));
    let db = sorted_unique(entry_docs(b));
    lemma_sorted_unique(entry_docs(a));
    lemma_sorted_unique(entry_docs(b));
    lemma_entry_docs_contains(a, d);
    assert(da.contains(d));
    assert forall|x: DocId| da.contains(x) implies x >= d by {
        lemma_entry_docs_contains(a, x);
        let k = choose|k: int| 0 <= k < a.len() && #[trigger] a[k].0 == x;
    }
    let i0 = choose|i: int| 0 <= i < da.len() && da[i] == d;
    if i0 > 0 {
        assert(da.contains(da[0]));
        assert(da[0] < da[i0]);
    }
    assert(da[0] == d);
    assert forall|x: DocId| db.contains(x) <==> da.drop_first().contains(x) by {
        lemma_entry_docs_contains(a, x);
        lemma_entry_docs_contains(b, x);
        if db.contains(x) {
            let k = choose|k: int| 0 <= k < b.len() && #[trigger] b[k].0 == x;
            assert(b.contains(b[k]));
            assert(a.contains(b[k]) && x != d);
            let m = choose|m: int| 0 <= m < a.len() && a[m] == b[k];
            assert(a[m].0 == x);
            assert(da.contains(x));
            let j = choose|j: int| 0 <= j < da.len() && da[j] == x;
            assert(j != 0);
            assert(da.drop_first()[j - 1] == x);
        }
        if da.drop_first().contains(x) {
            let j = choose|j: int| 0 <= j < da.drop_first().len() && da.drop_first()[j] == x;
            assert(da[j + 1] == x);
            assert(da[0] < da[j + 1]);
            assert(da.contains(x));
            let k = choose|k: int| 0 <= k < a.len() && #[trigger] a[k].0 == x;
            assert(a.contains(a[k]));
            assert(b.contains(a[k]));
            let m = choose|m: int| 0 <= m < b.len() && b[m] == a[k];
            assert(b[m].0 == x);
        }
    }
    assert(strictly_ascending(da.drop_first())) by {
        assert forall|i: int, j: int| 0 <= i < j < da.drop_first().len() implies da.drop_first()[i]
            < da.drop_first()[j] by {
            assert(da[i + 1] < da[j + 1]);
        }
    }
    crate::sorted::lemma_strict_same_elements(db, da.drop_first());
    assert forall|x: DocId| x != d implies #[trigger] merged_group(b, x) == merged_group(a, x) by {
        assert forall|p: DocId| positions_for(a, x).contains(p) <==> positions_for(b, x).contains(p) by {
            lemma_positions_for_contains(a, x, p);
            lemma_positions_for_contains(b, x, p);
            if exists|k: int| 0 <= k < a.len() && #[trigger] a[k].0 == x && a[k].2.contains(p) {
                let k = choose|k: int| 0 <= k < a.len() && #[trigger] a[k].0 == x && a[k].2.contains(p);
                assert(a.contains(a[k]));
                assert(b.contains(a[k]));
                let m = choose|m: int| 0 <= m < b.len() && b[m] == a[k];
                assert(b[m].0 == x && b[m].2.contains(p));
            }
            if exists|k: int| 0 <= k < b.len() && #[trigger] b[k].0 == x && b[k].2.contains(p) {
                let k = choose|k: int| 0 <= k < b.len() && #[trigger] b[k].0 == x && b[k].2.contains(p);
                assert(b.contains(b[k]));
                let m = choose|m: int| 0 <= m < a.len() && a[m] == b[k];
                assert(a[m].0 == x && a[m].2.contains(p));
            }
        }
        lemma_sorted_unique_same_elements(positions_for(a, x), positions_for(b, x));
    }
    assert forall|i: int| 0 <= i < db.len() implies #[trigger] merged_groups(b)[i]
        == merged_groups(a).drop_first()[i] by {
        assert(db[i] == da[i + 1]);
        assert(da[0] < da[i + 1]);
    }
    assert(merged_groups(b) =~= merged_groups(a).drop_first());
}

// ---------------------------------------------------------------------------
// Cursor streams
// ---------------------------------------------------------------------------

/// Groups in strictly increasing document order, each made of postings of its
/// own document that all have positions.
pub open spec fn groups_ok(gs: Seq<Group>) -> bool {
    &&& forall|i: int, j: int| 0 <= i < j < gs.len() ==> gs[i].0 < gs[j].0
    &&& forall|i: int| 0 <= i < gs.len() ==> #[trigger] gs[i].1.len() > 0
    &&& forall|i: int, k: int|
        #![trigger gs[i].1[k]]
        0 <= i < gs.len() && 0 <= k < gs[i].1.len() ==> gs[i].1[k].0 == gs[i].0 && gs[i].1[k].2.len()
            > 0
}

/// A cursor that stands on a group not yet copied out, followed by well-ordered groups.
pub open spec fn ptr_ok<C: PostingsCursor>(c: C) -> bool {
    &&& c.wf()
    &&& c.cur() is Some
    &&& c.pending()
    &&& groups_ok(seq![c.cur().unwrap()] + c.upcoming())
}

/// Everything a cursor that stands on a group still has to give.
pub open spec fn stream<C: PostingsCursor>(c: C) -> Seq<Entry> {
    c.cur().unwrap().1 + group_entries(c.upcoming())
}

/// The streams of several cursors, one after the other.
pub open spec fn pool<C: PostingsCursor>(ps: Seq<FrontierPointer<C>>) -> Seq<Entry>
    decreases ps.len(),
{
    if ps.len() == 0 {
        Seq::empty()
    } else {
        pool(ps.drop_last()) + stream(ps.last().cursor)
    }
}

pub proof fn lemma_group_entries_contains(gs: Seq<Group>, e: Entry)
    ensures
        group_entries(gs).contains(e) <==> exists|i: int| 0 <= i < gs.len() && #[trigger] gs[i].1.contains(e),
    decreases gs.len(),
{
    if gs.len() > 0 {
        let init = gs.drop_last();
        lemma_group_entries_contains(init, e);
        let w = group_entries(init) + gs.last().1;
        if w.contains(e) {
            let j = choose|j: int| 0 <= j < w.len() && w[j] == e;
            if j < group_entries(init).len() {
                assert(group_entries(init).contains(e));
                let i = choose|i: int| 0 <= i < init.len() && #[trigger] init[i].1.contains(e);
                assert(gs[i] == init[i]);
            } else {
                assert(gs.last().1[j - group_entries(init).len()] == e);
                assert(gs[gs.len() - 1].1.contains(e));
            }
        }
        if exists|i: int| 0 <= i < gs.len() && #[trigger] gs[i].1.contains(e) {
            let i = choose|i: int| 0 <= i < gs.len() && #[trigger] gs[i].1.contains(e);
            if i < gs.len() - 1 {
                assert(init[i] == gs[i]);
                assert(group_entries(init).contains(e));
                let j = choose|j: int| 0 <= j < group_entries(init).len() && group_entries(init)[j] == e;
                assert(w[j] == e);
            } else {
                let j = choose|j: int| 0 <= j < gs[i].1.len() && gs[i].1[j] == e;
                assert(w[group_entries(init).len() + j] == e);
            }
        }
    }
}

/// A stream holds exactly the postings of its groups, and those of the first group
/// have the smallest document.
pub proof fn lemma_stream_contains<C: PostingsCursor>(c: C, e: Entry)
    requires
        ptr_ok(c),
    ensures
        stream(c).contains(e) <==> (c.cur().unwrap().1.contains(e) || exists|i: int|
            0 <= i < c.upcoming().len() && #[trigger] c.upcoming()[i].1.contains(e)),
        stream(c).contains(e) ==> e.0 >= c.cur().unwrap().0 && e.2.len() > 0,
        c.cur().unwrap().1.contains(e) ==> e.0 == c.cur().unwrap().0,
        (exists|i: int| 0 <= i < c.upcoming().len() && #[trigger] c.upcoming()[i].1.contains(e))
            ==> e.0 > c.cur().unwrap().0,
{
    let g = c.cur().unwrap();
    let gs = seq![g] + c.upcoming();
    lemma_group_entries_contains(c.upcoming(), e);
    let s = stream(c);
    if s.contains(e) {
        let j = choose|j: int| 0 <= j < s.len() && s[j] == e;
        if j < g.1.len() {
            assert(g.1[j] == e);
        } else {
            assert(group_entries(c.upcoming())[j - g.1.len()] == e);
        }
    }
    if g.1.contains(e) {
        let j = choose|j: int| 0 <= j < g.1.len() && g.1[j] == e;
        assert(s[j] == e);
        assert(gs[0] == g);
        assert(gs[0].1[j].0 == gs[0].0);
    }
    if exists|i: int| 0 <= i < c.upcoming().len() && #[trigger] c.upcoming()[i].1.contains(e) {
        let i = choose|i: int| 0 <= i < c.upcoming().len() && #[trigger] c.upcoming()[i].1.contains(e);
        let j = choose|j: int| 0 <= j < c.upcoming()[i].1.len() && c.upcoming()[i].1[j] == e;
        assert(gs[i + 1] == c.upcoming()[i]);
        assert(gs[i + 1].1[j].0 == gs[i + 1].0);
        assert(gs[0].0 < gs[i + 1].0);
        assert(group_entries(c.upcoming()).contains(e));
        let m = choose|m: int| 0 <= m < group_entries(c.upcoming()).len() && group_entries(c.upcoming())[m] == e;
        assert(s[g.1.len() + m] == e);
    }
}

pub proof fn lemma_pool_contains<C: PostingsCursor>(ps: Seq<FrontierPointer<C>>, e: Entry)
    ensures
        pool(ps).contains(e) <==> exists|i: int| 0 <= i < ps.len() && #[trigger] stream(ps[i].cursor).contains(e),
    decreases ps.len(),
{
    if ps.len() > 0 {
        let init = ps.drop_last();
        lemma_pool_contains(init, e);
        let w = pool(init) + stream(ps.last().cursor);
        if w.contains(e) {
            let j = choose|j: int| 0 <= j < w.len() && w[j] == e;
            if j < pool(init).len() {
                assert(pool(init).contains(e));
                let i = choose|i: int| 0 <= i < init.len() && #[trigger] stream(init[i].cursor).contains(e);
                assert(ps[i] == init[i]);
            } else {
                assert(stream(ps.last().cursor)[j - pool(init).len()] == e);
                assert(stream(ps[ps.len() - 1].cursor).contains(e));
            }
        }
        if exists|i: int| 0 <= i < ps.len() && #[trigger] stream(ps[i].cursor).contains(e) {
            let i = choose|i: int| 0 <= i < ps.len() && #[trigger] stream(ps[i].cursor).contains(e);
            if i < ps.len() - 1 {
                assert(init[i] == ps[i]);
                assert(pool(init).contains(e));
                let j = choose|j: int| 0 <= j < pool(init).len() && pool(init)[j] == e;
                assert(w[j] == e);
            } else {
                let j = choose|j: int| 0 <= j < stream(ps[i].cursor).len() && stream(ps[i].cursor)[j] == e;
                assert(w[pool(init).len() + j] == e);
            }
        }
    }
}

// ---------------------------------------------------------------------------
// Frontier of cursors
// ---------------------------------------------------------------------------

/// A cursor in the frontier of a merge, ordered by its current document.
pub struct FrontierPointer<C> {
    pub cursor: C,
}

/// Every pointer of the frontier stands on a group not yet copied out.
pub open spec fn frontier_ok<C: PostingsCursor>(ps: Seq<FrontierPointer<C>>) -> bool {
    forall|i: int| 0 <= i < ps.len() ==> #[trigger] ptr_ok(ps[i].cursor)
}

/// Document of the group a pointer stands on.
pub open spec fn ptr_doc<C: PostingsCursor>(p: FrontierPointer<C>) -> DocId {
    p.cursor.cur().unwrap().0
}

/// The postings still ahead of several cursors, one cursor after the other.
pub open spec fn cursor_entries<C: PostingsCursor>(cs: Seq<C>) -> Seq<Entry>
    decreases cs.len(),
{
    if cs.len() == 0 {
        Seq::empty()
    } else {
        cursor_entries(cs.drop_last()) + group_entries(cs.last().upcoming())
    }
}

/// Moves every cursor onto its first group and puts it into the frontier.
pub fn create_heap<C: PostingsCursor>(to_merge: Vec<C>) -> (r: Vec<FrontierPointer<C>>)
    requires
        forall|i: int| 0 <= i < to_merge@.len() ==> #[trigger] to_merge@[i].wf(),
        forall|i: int| 0 <= i < to_merge@.len() ==> #[trigger] to_merge@[i].upcoming().len() > 0,
        forall|i: int| 0 <= i < to_merge@.len() ==> groups_ok(#[trigger] to_merge@[i].upcoming()),
    ensures
        r@.len() == to_merge@.len(),
        frontier_ok(r@),
        pool(r@) == cursor_entries(to_merge@),
        forall|i: int|
            0 <= i < r@.len() ==> (#[trigger] r@[i]).cursor.cur() == Some(to_merge@[i].upcoming()[0])
                && r@[i].cursor.upcoming() == to_merge@[i].upcoming().drop_first(),
{
    let mut to_merge = to_merge;
    let ghost orig = to_merge@;
    let mut res: Vec<FrontierPointer<C>> = Vec::new();
    while to_merge.len() > 0
        invariant
            res@.len() + to_merge@.len() == orig.len(),
            to_merge@ == orig.skip(res@.len() as int),
            frontier_ok(res@),
            forall|i: int| 0 <= i < orig.len() ==> #[trigger] orig[i].wf(),
            forall|i: int| 0 <= i < orig.len() ==> #[trigger] orig[i].upcoming().len() > 0,
            forall|i: int| 0 <= i < orig.len() ==> groups_ok(#[trigger] orig[i].upcoming()),
            pool(res@) == cursor_entries(orig.take(res@.len() as int)),
            forall|i: int|
                0 <= i < res@.len() ==> (#[trigger] res@[i]).cursor.cur() == Some(orig[i].upcoming()[0])
                    && res@[i].cursor.upcoming() == orig[i].upcoming().drop_first(),
        decreases to_merge@.len(),
    {
        let ghost k = res@.len();
        let mut cur = to_merge.remove(0);
        let ghost c0 = cur;
        assert(c0 == orig[k as int]);
        let _ = cur.advance();
        proof {
            assert(to_merge@ =~= orig.skip(k + 1int));
            let gs = c0.upcoming();
            assert(gs[0] == cur.cur().unwrap());
            assert(gs.drop_first() == cur.upcoming());
            assert(seq![cur.cur().unwrap()] + cur.upcoming() =~= gs);
            lemma_group_entries_first(gs);
            assert(stream(cur) == group_entries(gs));
        }
        let ghost old_res = res@;
        res.push(FrontierPointer { cursor: cur });
        proof {
            assert(res@.drop_last() =~= old_res);
            assert(orig.take(k + 1int).drop_last() =~= orig.take(k as int));
            assert(orig.take(k + 1int).last() == c0);
            assert forall|i: int| 0 <= i < res@.len() implies #[trigger] ptr_ok(res@[i].cursor) by {
                if i < old_res.len() {
                    assert(res@[i] == old_res[i]);
                }
            }
            assert forall|i: int| 0 <= i < res@.len() implies (#[trigger] res@[i]).cursor.cur() == Some(
                orig[i].upcoming()[0],
            ) && res@[i].cursor.upcoming() == orig[i].upcoming().drop_first() by {
                if i < old_res.len() {
                    assert(res@[i] == old_res[i]);
                }
            }
        }
    }
    assert(orig.take(orig.len() as int) =~= orig);
    res
}

/// The postings of a frontier are those of the removed pointer plus those of the rest.
proof fn lemma_pool_len_remove<C: PostingsCursor>(ps: Seq<FrontierPointer<C>>, i: int)
    requires
        0 <= i < ps.len(),
    ensures
        pool(ps).len() == pool(ps.remove(i)).len() + stream(ps[i].cursor).len(),
    decreases ps.len(),
{
    if i < ps.len() - 1 {
        let init = ps.drop_last();
        lemma_pool_len_remove(init, i);
        assert(ps.remove(i).drop_last() =~= init.remove(i));
        assert(ps.remove(i).last() == ps.last());
        assert(init[i] == ps[i]);
    } else {
        assert(ps.remove(i) =~= ps.drop_last());
    }
}

/// The first group's postings come first.
pub proof fn lemma_group_entries_first(gs: Seq<Group>)
    requires
        gs.len() > 0,
    ensures
        group_entries(gs) == gs[0].1 + group_entries(gs.drop_first()),
    decreases gs.len(),
{
    if gs.len() == 1 {
        assert(gs.drop_last() =~= Seq::<Group>::empty());
        assert(group_entries(Seq::<Group>::empty()) =~= Seq::<Entry>::empty());
        assert(gs.last() == gs[0]);
        assert(gs.drop_first() =~= Seq::<Group>::empty());
        assert(group_entries(gs) =~= gs[0].1);
        assert(gs[0].1 + Seq::<Entry>::empty() =~= gs[0].1);
    } else {
        lemma_group_entries_first(gs.drop_last());
        assert(gs.drop_last().drop_first() =~= gs.drop_first().drop_last());
        assert(gs.drop_first().last() == gs.last());
        assert(group_entries(gs) =~= gs[0].1 + group_entries(gs.drop_first()));
    }
}

/// Takes out the first pointer that stands on the smallest document.
pub fn pop_min<C: PostingsCursor>(frontier: &mut Vec<FrontierPointer<C>>) -> (r: Option<FrontierPointer<C>>)
    requires
        frontier_ok(old(frontier)@),
    ensures
        old(frontier)@.len() == 0 ==> r is None && final(frontier)@ == old(frontier)@,
        old(frontier)@.len() > 0 ==> exists|i: int| {
            &&& 0 <= i < old(frontier)@.len()
            &&& r == Some(old(frontier)@[i])
            &&& final(frontier)@ == old(frontier)@.remove(i)
            &&& forall|j: int| 0 <= j < old(frontier)@.len() ==> ptr_doc(old(frontier)@[i]) <= #[trigger] ptr_doc(old(frontier)@[j])
            &&& forall|j: int| 0 <= j < i ==> ptr_doc(old(frontier)@[i]) < #[trigger] ptr_doc(old(frontier)@[j])
        },
{
    let n = frontier.len();
    if n == 0 {
        return None;
    }
    let mut best: usize = 0;
    assert(ptr_ok(frontier@[0].cursor));
    let mut best_doc = frontier[0].cursor.current();
    let mut k: usize = 1;
    while k < n
        invariant
            n == frontier@.len(),
            frontier@ == old(frontier)@,
            frontier_ok(frontier@),
            1 <= k <= n,
            best < k,
            best_doc == ptr_doc(frontier@[best as int]),
            forall|j: int| 0 <= j < k ==> best_doc <= #[trigger] ptr_doc(frontier@[j]),
            forall|j: int| 0 <= j < best ==> best_doc < #[trigger] ptr_doc(frontier@[j]),
        decreases n - k,
    {
        assert(ptr_ok(frontier@[k as int].cursor));
        let d = frontier[k].cursor.current();
        if d < best_doc {
            best = k;
            best_doc = d;
        }
        k += 1;
    }
    let p = frontier.remove(best);
    Some(p)
}

// ---------------------------------------------------------------------------
// Merging cursors, one posting per document
// ---------------------------------------------------------------------------

/// Merges cursors into one that has, for every document, the distinct positions
/// that any of them has, in increasing order.
pub struct MergerWithoutDuplicates<C> {
    frontier: Vec<FrontierPointer<C>>,
    current_ptr: Option<FrontierPointer<C>>,
    current_doc: DocId,
    merged: VecPostings,
    size: usize,
    processed: usize,
    last_doc: Option<DocId>,
    advanced: bool,
}

impl<C: PostingsCursor> MergerWithoutDuplicates<C> {
    /// All pointers still to be read.
    pub closed spec fn all_ptrs(&self) -> Seq<FrontierPointer<C>> {
        match self.current_ptr {
            Some(p) => self.frontier@.push(p),
            None => self.frontier@,
        }
    }

    /// Merges `to_merge`, whose cursors must each have at least one group ahead.
    pub fn new(to_merge: Vec<C>) -> (r: Self)
        requires
            to_merge@.len() > 0,
            forall|i: int| 0 <= i < to_merge@.len() ==> #[trigger] to_merge@[i].wf(),
            forall|i: int| 0 <= i < to_merge@.len() ==> #[trigger] to_merge@[i].upcoming().len() > 0,
            forall|i: int| 0 <= i < to_merge@.len() ==> groups_ok(#[trigger] to_merge@[i].upcoming()),
            forall|i: int| 0 <= i < to_merge@.len() ==> #[trigger] to_merge@[i].remains_ok(),
            sum_hints(to_merge@) <= usize::MAX,
            cursor_entries(to_merge@).len() < usize::MAX,
        ensures
            r.wf(),
            r.cur() is None,
            r.upcoming() == merged_groups(cursor_entries(to_merge@)),
    {
        let mut size: usize = 0;
        let mut i: usize = 0;
        while i < to_merge.len()
            invariant
                i <= to_merge@.len(),
                size == sum_hints(to_merge@.take(i as int)),
                sum_hints(to_merge@) <= usize::MAX,
                forall|j: int| 0 <= j < to_merge@.len() ==> #[trigger] to_merge@[j].wf(),
                forall|j: int| 0 <= j < to_merge@.len() ==> #[trigger] to_merge@[j].remains_ok(),
            decreases to_merge@.len() - i,
        {
            proof {
                assert(to_merge@.take(i + 1).drop_last() =~= to_merge@.take(i as int));
                lemma_sum_hints_prefix(to_merge@, i + 1);
            }
            size = size + to_merge[i].remains();
            i += 1;
        }
        Self::start(to_merge, size)
    }

    /// Merges `to_merge`, reporting `size` minus the documents read as the estimate.
    fn start(to_merge: Vec<C>, size: usize) -> (r: Self)
        requires
            to_merge@.len() > 0,
            forall|i: int| 0 <= i < to_merge@.len() ==> #[trigger] to_merge@[i].wf(),
            forall|i: int| 0 <= i < to_merge@.len() ==> #[trigger] to_merge@[i].upcoming().len() > 0,
            forall|i: int| 0 <= i < to_merge@.len() ==> groups_ok(#[trigger] to_merge@[i].upcoming()),
            cursor_entries(to_merge@).len() < usize::MAX,
        ensures
            r.wf(),
            r.cur() is None,
            r.upcoming() == merged_groups(cursor_entries(to_merge@)),
            r.size == size,
            r.processed == 1,
    {
        let ghost orig = to_merge@;
        let mut heap = create_heap(to_merge);
        let ghost h0 = heap@;
        let first_ptr = pop_min(&mut heap);
        let first_ptr = match first_ptr {
            Some(p) => p,
            None => {
                proof {
                    assert(false);
                }
                return MergerWithoutDuplicates {
                    frontier: heap,
                    current_ptr: None,
                    current_doc: 0,
                    merged: empty_postings(),
                    size: size,
                    processed: 1,
                    last_doc: None,
                    advanced: false,
                };
            },
        };
        let ghost i0 = choose|i: int| {
            &&& 0 <= i < h0.len()
            &&& Some(first_ptr) == Some(h0[i])
            &&& heap@ == h0.remove(i)
            &&& forall|j: int| 0 <= j < h0.len() ==> ptr_doc(h0[i]) <= #[trigger] ptr_doc(h0[j])
        };
        assert(ptr_ok(h0[i0].cursor));
        let first_doc = first_ptr.cursor.current();
        let r = MergerWithoutDuplicates {
            frontier: heap,
            current_ptr: Some(first_ptr),
            current_doc: first_doc,
            merged: empty_postings(),
            size: size,
            processed: 1,
            last_doc: None,
            advanced: false,
        };
        proof {
            lemma_remove_push_same_pool(h0, i0, r.all_ptrs());
            assert forall|j: int| 0 <= j < r.frontier@.len() implies first_doc <= #[trigger] ptr_doc(r.frontier@[j]) by {
                if j < i0 {
                    assert(r.frontier@[j] == h0[j]);
                } else {
                    assert(r.frontier@[j] == h0[j + 1]);
                }
            }
            assert forall|j: int| 0 <= j < r.all_ptrs().len() implies #[trigger] ptr_ok(r.all_ptrs()[j].cursor) by {
                if j < r.frontier@.len() {
                    if j < i0 {
                        assert(r.all_ptrs()[j] == h0[j]);
                    } else {
                        assert(r.all_ptrs()[j] == h0[j + 1]);
                    }
                } else {
                    assert(r.all_ptrs()[j] == h0[i0]);
                }
            }
            lemma_merged_groups_same_entries(pool(r.all_ptrs()), cursor_entries(orig));
            lemma_pool_len_remove(h0, i0);
            assert(r.all_ptrs().drop_last() =~= h0.remove(i0));
        }
        r
    }

    spec fn wf_min(&self) -> bool {
        self.current_ptr is Some ==> forall|j: int|
            0 <= j < self.frontier@.len() ==> self.current_doc <= #[trigger] ptr_doc(self.frontier@[j])
    }
}

/// Sum of the estimates of several cursors.
pub open spec fn sum_hints<C: PostingsCursor>(cs: Seq<C>) -> int
    decreases cs.len(),
{
    if cs.len() == 0 {
        0
    } else {
        sum_hints(cs.drop_last()) + cs.last().size_hint()
    }
}

pub proof fn lemma_sum_hints_prefix<C: PostingsCursor>(cs: Seq<C>, i: int)
    requires
        0 <= i <= cs.len(),
    ensures
        sum_hints(cs.take(i)) <= sum_hints(cs),
    decreases cs.len(),
{
    if i < cs.len() {
        assert(cs.take(i) =~= cs.drop_last().take(i));
        lemma_sum_hints_prefix(cs.drop_last(), i);
    } else {
        assert(cs.take(i) =~= cs);
    }
}

/// Removing a pointer and putting it back at the end keeps the same postings.
proof fn lemma_remove_push_same_pool<C: PostingsCursor>(
    ps: Seq<FrontierPointer<C>>,
    i: int,
    qs: Seq<FrontierPointer<C>>,
)
    requires
        0 <= i < ps.len(),
        qs == ps.remove(i).push(ps[i]),
    ensures
        forall|e: Entry| pool(qs).contains(e) <==> pool(ps).contains(e),
{
    assert forall|e: Entry| pool(qs).contains(e) <==> pool(ps).contains(e) by {
        lemma_pool_contains(qs, e);
        lemma_pool_contains(ps, e);
        if pool(qs).contains(e) {
            let j = choose|j: int| 0 <= j < qs.len() && #[trigger] stream(qs[j].cursor).contains(e);
            if j < i {
                assert(qs[j] == ps[j]);
            } else if j < qs.len() - 1 {
                assert(qs[j] == ps[j + 1]);
            } else {
                assert(qs[j] == ps[i]);
            }
        }
        if pool(ps).contains(e) {
            let j = choose|j: int| 0 <= j < ps.len() && #[trigger] stream(ps[j].cursor).contains(e);
            if j < i {
                assert(qs[j] == ps[j]);
            } else if j > i {
                assert(qs[j - 1] == ps[j]);
            } else {
                assert(qs[qs.len() - 1] == ps[i]);
            }
        }
    }
}


/// The merged posting of the current document, as copied out by `catch_up`.
pub open spec fn merged_posting(d: DocId, positions: Seq<DocId>) -> Group {
    let ps = sorted_unique(positions);
    (d, seq![(d, ps.len() as DocId, ps)])
}

proof fn lemma_concat_contains(a: Seq<Entry>, b: Seq<Entry>, e: Entry)
    ensures
        (a + b).contains(e) <==> a.contains(e) || b.contains(e),
{
    if (a + b).contains(e) {
        let j = choose|j: int| 0 <= j < (a + b).len() && (a + b)[j] == e;
        if j < a.len() {
            assert(a[j] == e);
        } else {
            assert(b[j - a.len()] == e);
        }
    }
    if a.contains(e) {
        let j = choose|j: int| 0 <= j < a.len() && a[j] == e;
        assert((a + b)[j] == e);
    }
    if b.contains(e) {
        let j = choose|j: int| 0 <= j < b.len() && b[j] == e;
        assert((a + b)[a.len() + j] == e);
    }
}

/// Every posting in a frontier belongs to a document no smaller than any pointer's
/// current document bound `lo`, and strictly above it when every pointer is above it.
proof fn lemma_pool_docs_above<C: PostingsCursor>(ps: Seq<FrontierPointer<C>>, lo: DocId, e: Entry)
    requires
        frontier_ok(ps),
        forall|j: int| 0 <= j < ps.len() ==> lo < #[trigger] ptr_doc(ps[j]),
        pool(ps).contains(e),
    ensures
        e.0 > lo,
{
    lemma_pool_contains(ps, e);
    let j = choose|j: int| 0 <= j < ps.len() && #[trigger] stream(ps[j].cursor).contains(e);
    assert(ptr_ok(ps[j].cursor));
    assert(lo < ptr_doc(ps[j]));
    lemma_stream_contains(ps[j].cursor, e);
}

impl<C: PostingsCursor> PostingsCursor for MergerWithoutDuplicates<C> {
    closed spec fn wf(&self) -> bool {
        &&& frontier_ok(self.all_ptrs())
        &&& self.wf_min()
        &&& self.current_ptr is Some ==> ptr_doc(self.current_ptr->0) == self.current_doc
        &&& self.current_ptr is None ==> self.frontier@.len() == 0
        &&& self.processed + pool(self.all_ptrs()).len() <= usize::MAX
        &&& self.advanced ==> self.last_doc is Some && self.merged.positions@.len() > 0
            && self.merged.docs@.len() > 0 && self.merged.docs@[0] == self.last_doc->0
    }

    closed spec fn upcoming(&self) -> Seq<Group> {
        merged_groups(pool(self.all_ptrs()))
    }

    closed spec fn cur(&self) -> Option<Group> {
        match self.last_doc {
            Some(d) => Some(merged_posting(d, self.merged.positions@)),
            None => None,
        }
    }

    closed spec fn pending(&self) -> bool {
        self.advanced
    }

    closed spec fn size_hint(&self) -> nat {
        (self.size - self.processed) as nat
    }

    open spec fn keeps_current() -> bool {
        false
    }

    closed spec fn remains_ok(&self) -> bool {
        self.processed <= self.size
    }

    open spec fn caught_up(&self) -> nat {
        1
    }

    fn current(&self) -> (r: DocId) {
        match self.last_doc {
            Some(d) => d,
            None => 0,
        }
    }

    fn remains(&self) -> (r: usize) {
        self.size - self.processed
    }

    #[verifier::rlimit(50)]
    fn advance(&mut self) -> (r: Option<DocId>) {
        let ghost e0 = pool(self.all_ptrs());
        assert(old(self).upcoming() == merged_groups(e0));
        if self.current_ptr.is_none() {
            self.last_doc = None;
            self.advanced = false;
            proof {
                assert(pool(self.all_ptrs()) =~= Seq::<Entry>::empty());
                lemma_merged_groups_empty();
                assert(old(self).upcoming().len() == 0);
                assert(self.upcoming() == old(self).upcoming());
                assert(self.cur() is None);
            }
            return None;
        }
        self.merged.docs.clear();
        self.merged.tfs.clear();
        self.merged.positions.clear();
        let mut ptr = match self.current_ptr.take() {
            Some(p) => p,
            None => {
                proof {
                    assert(false);
                }
                return None;
            },
        };
        let current_doc = self.current_doc;
        let ghost d = current_doc;
        proof {
            lemma_advance_start(old(self).frontier@, ptr, d, e0);
        }
        loop
            invariant_except_break
                frontier_ok(self.frontier@),
                ptr_ok(ptr.cursor),
                forall|j: int| 0 <= j < self.frontier@.len() ==> ptr_doc(ptr) <= #[trigger] ptr_doc(self.frontier@[j]),
                ptr_doc(ptr) >= d,
                pool_tracks(e0, d, pool(self.frontier@.push(ptr)), self.merged.positions@),
                forall|e: Entry| #[trigger] e0.contains(e) ==> e.0 >= d,
                self.merged.positions@.len() > 0 || ptr_doc(ptr) == d,
                forall|k: int| 0 <= k < self.merged.docs@.len() ==> #[trigger] self.merged.docs@[k] == d,
                self.merged.positions@.len() > 0 ==> self.merged.docs@.len() > 0,
                self.processed + pool(self.frontier@.push(ptr)).len() <= usize::MAX,
                self.current_ptr is None,
                self.current_doc == d,
                current_doc == d,
                self.size == old(self).size,
                self.last_doc == old(self).last_doc,
            ensures
                frontier_ok(self.all_ptrs()),
                self.current_ptr is Some ==> ptr_doc(self.current_ptr->0) == self.current_doc,
                self.current_ptr is Some ==> forall|j: int| 0 <= j < self.frontier@.len() ==> self.current_doc <= #[trigger] ptr_doc(self.frontier@[j]),
                self.current_ptr is None ==> self.frontier@.len() == 0,
                forall|e: Entry| #[trigger] pool(self.all_ptrs()).contains(e) <==> (e0.contains(e) && e.0 != d),
                forall|p: DocId| #[trigger] positions_for(e0, d).contains(p) <==> self.merged.positions@.contains(p),
                self.merged.positions@.len() > 0,
                self.merged.docs@.len() > 0,
                forall|k: int| 0 <= k < self.merged.docs@.len() ==> #[trigger] self.merged.docs@[k] == d,
                self.processed + pool(self.all_ptrs()).len() <= usize::MAX,
                self.size == old(self).size,
                self.last_doc == old(self).last_doc,
            decreases pool(self.frontier@.push(ptr)).len(),
        {
            let next_doc = ptr.cursor.current();
            let ghost fr_before = self.frontier@;
            let ghost c0 = ptr.cursor;
            let ghost ptr0 = ptr;
            let ghost len0 = pool(self.frontier@.push(ptr)).len();
            assert(next_doc == c0.cur().unwrap().0);
            if next_doc == current_doc {
                proof {
                    lemma_process_len(fr_before, c0);
                    lemma_ptr_first_entry(c0);
                    assert(ptr0 == FrontierPointer { cursor: c0 });
                    assert(len0 == pool(fr_before.push(FrontierPointer { cursor: c0 })).len());
                }
                self.processed += 1;
                let ghost m_before = pview(&self.merged);
                let _ = ptr.cursor.catch_up(&mut self.merged);
                proof {
                    crate::postings::lemma_add_entries_parts(m_before, c0.cur().unwrap().1);
                }
                let adv = ptr.cursor.advance();
                proof {
                    lemma_group_after_advance(c0, ptr.cursor, d);
                }
                match adv {
                    Some(_) => {
                        self.frontier.push(ptr);
                        proof {
                            assert(self.frontier@.drop_last() =~= fr_before);
                            assert forall|j: int| 0 <= j < self.frontier@.len() implies #[trigger] ptr_ok(self.frontier@[j].cursor) by {
                                if j < fr_before.len() {
                                    assert(self.frontier@[j] == fr_before[j]);
                                }
                            }
                        }
                    },
                    None => {
                        proof {
                            assert(group_entries(c0.upcoming()) =~= Seq::<Entry>::empty());
                        }
                    },
                }
                proof {
                    lemma_rest_pool(fr_before, self.frontier@, c0, adv is Some);
                    lemma_step_process(e0, d, fr_before, c0, self.frontier@, m_before.2, self.merged.positions@);
                    assert forall|k: int| 0 <= k < self.merged.docs@.len() implies #[trigger] self.merged.docs@[k] == d by {
                        if k >= m_before.0.len() {
                            assert(self.merged.docs@[k] == c0.cur().unwrap().1.map_values(|e: Entry| e.0)[k - m_before.0.len()]);
                        }
                    }
                }
            } else {
                proof {
                    lemma_exit_above(e0, d, self.frontier@, ptr, self.merged.positions@);
                }
                self.current_doc = next_doc;
                self.current_ptr = Some(ptr);
                break;
            }
            let ghost fr_mid = self.frontier@;
            match pop_min(&mut self.frontier) {
                Some(p) => {
                    proof {
                        assert(pool(fr_mid).len() < len0);
                        lemma_step_pop(fr_mid, self.frontier@, p, d, e0);
                        lemma_pool_tracks_same(e0, d, pool(fr_mid), pool(self.frontier@.push(p)), self.merged.positions@);
                    }
                    ptr = p;
                },
                None => {
                    proof {
                        assert(fr_mid.len() == 0);
                        lemma_exit_empty(e0, d, self.frontier@, self.merged.positions@);
                    }
                    self.current_ptr = None;
                    break;
                },
            }
        }
        self.merged.docs.push(current_doc);
        self.last_doc = Some(current_doc);
        self.advanced = true;
        proof {
            let now = pool(self.all_ptrs());
            assert(exists|k: int| 0 <= k < e0.len() && #[trigger] e0[k].0 == d) by {
                let p0 = self.merged.positions@[0];
                assert(self.merged.positions@.contains(p0));
                assert(positions_for(e0, d).contains(p0));
                lemma_positions_for_contains(e0, d, p0);
            }
            assert forall|k: int| 0 <= k < e0.len() implies #[trigger] e0[k].0 >= d by {
                assert(e0.contains(e0[k]));
            }
            lemma_merged_groups_drop_min(e0, now, d);
            lemma_sorted_unique_same_elements(self.merged.positions@, positions_for(e0, d));
            assert(self.merged.docs@[0] == d);
            assert(self.cur() == Some(merged_groups(e0)[0]));
            assert(self.upcoming() == merged_groups(e0).drop_first());
            assert(old(self).upcoming().len() > 0);
            assert(self.cur() == Some(old(self).upcoming()[0]));
            assert(self.upcoming() == old(self).upcoming().drop_first());
            assert(self.pending());
            assert(current_doc == old(self).upcoming()[0].0);
        }
        Some(current_doc)
    }

    fn catch_up(&mut self, result: &mut VecPostings) -> (r: usize) {
        let ghost before = self.merged.positions@;
        assert(old(self).pending());
        assert(self.advanced);
        assert(self.merged.docs@.len() > 0);
        assert(before.len() > 0);
        assert(self.merged.docs@[0] == self.last_doc->0);
        let unique = sort_unique(&mut self.merged.positions);
        self.merged.positions = unique;
        let tf = self.merged.positions.len() as DocId;
        let doc = self.merged.docs[0];
        push_entry(result, doc, tf, &self.merged.positions);
        self.advanced = false;
        proof {
            lemma_sorted_unique(before);
            lemma_sorted_unique_of_strict(sorted_unique(before));
            let e = (doc, tf, sorted_unique(before));
            assert(old(self).cur().unwrap().1 =~= seq![e]);
            assert(seq![e].drop_last() =~= Seq::<Entry>::empty());
            assert(seq![e].last() == e);
            assert(add_entries(pview(old(result)), Seq::<Entry>::empty()) == pview(old(result)));
            assert(add_entries(pview(old(result)), seq![e]) == add_entry(pview(old(result)), e));
            assert(self.merged.positions@.len() > 0) by {
                assert(before.contains(before[0]));
                assert(sorted_unique(before).contains(before[0]));
            }
            assert(old(self).caught_up() == 1);
        }
        1
    }

    fn advance_to(&mut self, doc_id: DocId) -> (r: Option<DocId>) {
        let ghost start = self.upcoming();
        proof {
            lemma_first_group_at_least(start, doc_id);
        }
        loop
            invariant
                self.wf(),
                start == old(self).upcoming(),
                start.len() >= self.upcoming().len(),
                self.upcoming() == start.skip(start.len() - self.upcoming().len()),
                forall|i: int| 0 <= i < start.len() - self.upcoming().len() ==> #[trigger] start[i].0
                    < doc_id,
                first_group_at_least(start, doc_id) <= start.len(),
                forall|i: int| 0 <= i < first_group_at_least(start, doc_id) ==> #[trigger] start[i].0
                    < doc_id,
                first_group_at_least(start, doc_id) < start.len() ==> start[first_group_at_least(
                    start,
                    doc_id,
                ) as int].0 >= doc_id,
            decreases self.upcoming().len(),
        {
            let ghost before = self.upcoming();
            let ghost done = start.len() - before.len();
            match self.advance() {
                Some(x) => {
                    proof {
                        assert(start[done] == before[0]);
                        assert(self.upcoming() =~= start.skip(done + 1));
                    }
                    if x >= doc_id {
                        proof {
                            let k = first_group_at_least(start, doc_id);
                            if k < done {
                                assert(start[k as int].0 < doc_id);
                            }
                            if k > done {
                                assert(start[done].0 < doc_id);
                            }
                        }
                        return Some(x);
                    }
                },
                None => {
                    proof {
                        let k = first_group_at_least(start, doc_id);
                        if k < start.len() {
                            assert(start[k as int].0 < doc_id);
                        }
                    }
                    return None;
                },
            }
        }
    }
}

/// Merges cursors in one pass into a postings list with one posting per document.
pub struct MergerWithoutDuplicatesUnrolled<C> {
    to_merge: Option<Vec<C>>,
}

impl<C: PostingsCursor> MergerWithoutDuplicatesUnrolled<C> {
    /// The cursors still to merge, if `collect` has not run yet.
    pub closed spec fn inputs(&self) -> Option<Seq<C>> {
        match self.to_merge {
            Some(v) => Some(v@),
            None => None,
        }
    }

    /// Prepares a merge of `to_merge`.
    pub fn new(to_merge: Vec<C>) -> (r: Self)
        ensures
            r.inputs() == Some(to_merge@),
    {
        MergerWithoutDuplicatesUnrolled { to_merge: Some(to_merge) }
    }

    /// For every document of the inputs, in increasing order, one posting with its
    /// distinct positions in increasing order.
    pub fn collect(&mut self) -> (r: VecPostings)
        requires
            old(self).inputs() matches Some(cs) && {
                &&& cs.len() > 0
                &&& forall|i: int| 0 <= i < cs.len() ==> #[trigger] cs[i].wf()
                &&& forall|i: int| 0 <= i < cs.len() ==> #[trigger] cs[i].upcoming().len() > 0
                &&& forall|i: int| 0 <= i < cs.len() ==> groups_ok(#[trigger] cs[i].upcoming())
                &&& cursor_entries(cs).len() < usize::MAX
            },
        ensures
            final(self).inputs() is None,
            pview(&r) == add_entries(
                crate::postings::empty_view(),
                group_entries(merged_groups(cursor_entries(old(self).inputs().unwrap()))),
            ),
    {
        let to_merge = match self.to_merge.take() {
            Some(v) => v,
            None => {
                proof {
                    assert(false);
                }
                Vec::new()
            },
        };
        let mut merger = MergerWithoutDuplicates::start(to_merge, 0);
        merger.collect()
    }
}

/// How the postings still to be read relate to those at the start of a step of
/// a merge: nothing new appears, every posting of another document is still
/// there, and the positions of document `d` are either copied out or still there.
pub open spec fn pool_tracks(e0: Seq<Entry>, d: DocId, now: Seq<Entry>, merged: Seq<DocId>) -> bool {
    &&& forall|e: Entry| #[trigger] now.contains(e) ==> e0.contains(e)
    &&& forall|e: Entry| e0.contains(e) && e.0 != d ==> #[trigger] now.contains(e)
    &&& forall|p: DocId| #[trigger] positions_for(e0, d).contains(p) <==> (merged.contains(p)
        || positions_for(now, d).contains(p))
}

proof fn lemma_pool_tracks_same(e0: Seq<Entry>, d: DocId, a: Seq<Entry>, b: Seq<Entry>, m: Seq<DocId>)
    requires
        pool_tracks(e0, d, a, m),
        forall|e: Entry| a.contains(e) <==> b.contains(e),
    ensures
        pool_tracks(e0, d, b, m),
{
    assert forall|p: DocId| positions_for(a, d).contains(p) <==> positions_for(b, d).contains(p) by {
        lemma_positions_for_contains(a, d, p);
        lemma_positions_for_contains(b, d, p);
        if positions_for(a, d).contains(p) {
            let k = choose|k: int| 0 <= k < a.len() && #[trigger] a[k].0 == d && a[k].2.contains(p);
            assert(a.contains(a[k]));
            let m2 = choose|m2: int| 0 <= m2 < b.len() && b[m2] == a[k];
            assert(b[m2].0 == d && b[m2].2.contains(p));
        }
        if positions_for(b, d).contains(p) {
            let k = choose|k: int| 0 <= k < b.len() && #[trigger] b[k].0 == d && b[k].2.contains(p);
            assert(b.contains(b[k]));
            let m2 = choose|m2: int| 0 <= m2 < a.len() && a[m2] == b[k];
            assert(a[m2].0 == d && a[m2].2.contains(p));
        }
    }
}

proof fn lemma_merged_groups_empty()
    ensures
        merged_groups(Seq::<Entry>::empty()).len() == 0,
{
    assert(entry_docs(Seq::<Entry>::empty()).len() == 0);
    lemma_sorted_unique(entry_docs(Seq::<Entry>::empty()));
    let su = sorted_unique(entry_docs(Seq::<Entry>::empty()));
    if su.len() > 0 {
        assert(su.contains(su[0]));
    }
}

/// The first posting of a pointer's current group is in its stream.
proof fn lemma_ptr_first_entry<C: PostingsCursor>(c: C)
    requires
        ptr_ok(c),
    ensures
        c.cur().unwrap().1.len() > 0,
        stream(c).contains(c.cur().unwrap().1[0]),
        c.cur().unwrap().1[0].0 == c.cur().unwrap().0,
        c.cur().unwrap().1[0].2.len() > 0,
        stream(c).len() > 0,
{
    let g = c.cur().unwrap();
    let all = seq![g] + c.upcoming();
    assert(all[0] == g);
    assert(all[0].1.len() > 0);
    assert(all[0].1[0].0 == all[0].0 && all[0].1[0].2.len() > 0);
    assert(stream(c)[0] == g.1[0]);
}

proof fn lemma_advance_start<C: PostingsCursor>(fr: Seq<FrontierPointer<C>>, ptr: FrontierPointer<C>, d: DocId, e0: Seq<Entry>)
    requires
        frontier_ok(fr.push(ptr)),
        ptr_doc(ptr) == d,
        forall|j: int| 0 <= j < fr.len() ==> d <= #[trigger] ptr_doc(fr[j]),
        e0 == pool(fr.push(ptr)),
    ensures
        frontier_ok(fr),
        ptr_ok(ptr.cursor),
        pool_tracks(e0, d, pool(fr.push(ptr)), Seq::empty()),
        forall|e: Entry| #[trigger] e0.contains(e) ==> e.0 >= d,
{
    let all = fr.push(ptr);
    assert(all[fr.len() as int] == ptr);
    assert(ptr_ok(all[fr.len() as int].cursor));
    assert forall|j: int| 0 <= j < fr.len() implies #[trigger] ptr_ok(fr[j].cursor) by {
        assert(all[j] == fr[j]);
        assert(ptr_ok(all[j].cursor));
    }
    assert forall|e: Entry| #[trigger] e0.contains(e) implies e.0 >= d by {
        lemma_pool_contains(all, e);
        let j = choose|j: int| 0 <= j < all.len() && #[trigger] stream(all[j].cursor).contains(e);
        assert(ptr_ok(all[j].cursor));
        lemma_stream_contains(all[j].cursor, e);
        if j < fr.len() {
            assert(all[j] == fr[j]);
            assert(d <= ptr_doc(fr[j]));
        }
    }
}

proof fn lemma_process_len<C: PostingsCursor>(fr: Seq<FrontierPointer<C>>, c0: C)
    requires
        ptr_ok(c0),
    ensures
        pool(fr.push(FrontierPointer { cursor: c0 })) == pool(fr) + stream(c0),
        stream(c0).len() > 0,
{
    assert(fr.push(FrontierPointer { cursor: c0 }).drop_last() =~= fr);
    lemma_ptr_first_entry(c0);
}

/// After copying out its current group and advancing, a pointer's stream is the rest.
proof fn lemma_group_after_advance<C: PostingsCursor>(c0: C, c1: C, d: DocId)
    requires
        ptr_ok(c0),
        c0.cur().unwrap().0 == d,
        c1.wf(),
        c0.upcoming().len() > 0 ==> c1.cur() == Some(c0.upcoming()[0]) && c1.upcoming() == c0.upcoming().drop_first() && c1.pending(),
    ensures
        forall|k: int| 0 <= k < c0.cur().unwrap().1.len() ==> #[trigger] c0.cur().unwrap().1[k].0 == d && c0.cur().unwrap().1[k].2.len() > 0,
        stream(c0) == c0.cur().unwrap().1 + group_entries(c0.upcoming()),
        forall|e: Entry| group_entries(c0.upcoming()).contains(e) ==> e.0 > d,
        c0.upcoming().len() > 0 ==> ptr_ok(c1) && stream(c1) == group_entries(c0.upcoming()) && c1.cur().unwrap().0 > d,
{
    let g = c0.cur().unwrap();
    let all = seq![g] + c0.upcoming();
    assert(all[0] == g);
    assert forall|k: int| 0 <= k < g.1.len() implies #[trigger] g.1[k].0 == d && g.1[k].2.len() > 0 by {
        assert(all[0].1[k].0 == all[0].0 && all[0].1[k].2.len() > 0);
    }
    assert forall|e: Entry| group_entries(c0.upcoming()).contains(e) implies e.0 > d by {
        lemma_group_entries_contains(c0.upcoming(), e);
        lemma_stream_contains(c0, e);
    }
    if c0.upcoming().len() > 0 {
        let gs = c0.upcoming();
        lemma_group_entries_first(gs);
        assert(seq![c1.cur().unwrap()] + c1.upcoming() =~= gs);
        assert forall|i: int, j: int| 0 <= i < j < gs.len() implies gs[i].0 < gs[j].0 by {
            assert(all[i + 1].0 < all[j + 1].0);
        }
        assert forall|i: int| 0 <= i < gs.len() implies #[trigger] gs[i].1.len() > 0 by {
            assert(all[i + 1] == gs[i]);
        }
        assert forall|i: int, k: int| 0 <= i < gs.len() && 0 <= k < gs[i].1.len() implies #[trigger] gs[i].1[k].0 == gs[i].0 && gs[i].1[k].2.len() > 0 by {
            assert(all[i + 1] == gs[i]);
            assert(all[i + 1].1[k].0 == all[i + 1].0 && all[i + 1].1[k].2.len() > 0);
        }
        assert(all[0].0 < all[1].0);
    }
}

/// The pool after a pointer was processed: the frontier, plus the pointer if it went on.
proof fn lemma_rest_pool<C: PostingsCursor>(fr: Seq<FrontierPointer<C>>, rest: Seq<FrontierPointer<C>>, c0: C, went_on: bool)
    requires
        went_on ==> rest.drop_last() == fr && stream(rest.last().cursor) == group_entries(c0.upcoming()) && rest.len() == fr.len() + 1,
        !went_on ==> rest == fr && group_entries(c0.upcoming()).len() == 0,
    ensures
        forall|e: Entry| pool(rest).contains(e) <==> (pool(fr).contains(e) || group_entries(c0.upcoming()).contains(e)),
        pool(rest).len() == pool(fr).len() + group_entries(c0.upcoming()).len(),
{
    assert forall|e: Entry| pool(rest).contains(e) <==> (pool(fr).contains(e) || group_entries(c0.upcoming()).contains(e)) by {
        if went_on {
            lemma_concat_contains(pool(fr), stream(rest.last().cursor), e);
        }
    }
}

proof fn lemma_step_process<C: PostingsCursor>(
    e0: Seq<Entry>,
    d: DocId,
    fr: Seq<FrontierPointer<C>>,
    c0: C,
    rest: Seq<FrontierPointer<C>>,
    m0: Seq<DocId>,
    m1: Seq<DocId>,
)
    requires
        ptr_ok(c0),
        c0.cur().unwrap().0 == d,
        pool_tracks(e0, d, pool(fr.push(FrontierPointer { cursor: c0 })), m0),
        pool(fr.push(FrontierPointer { cursor: c0 })) == pool(fr) + stream(c0),
        stream(c0) == c0.cur().unwrap().1 + group_entries(c0.upcoming()),
        forall|k: int| 0 <= k < c0.cur().unwrap().1.len() ==> #[trigger] c0.cur().unwrap().1[k].0 == d && c0.cur().unwrap().1[k].2.len() > 0,
        forall|e: Entry| group_entries(c0.upcoming()).contains(e) ==> e.0 > d,
        forall|p: DocId| #[trigger] m1.contains(p) <==> (m0.contains(p) || exists|k: int|
            0 <= k < c0.cur().unwrap().1.len() && #[trigger] c0.cur().unwrap().1[k].2.contains(p)),
        forall|e: Entry| pool(rest).contains(e) <==> (pool(fr).contains(e) || group_entries(c0.upcoming()).contains(e)),
        pool(rest).len() == pool(fr).len() + group_entries(c0.upcoming()).len(),
    ensures
        pool_tracks(e0, d, pool(rest), m1),
        pool(rest).len() + c0.cur().unwrap().1.len() == pool(fr.push(FrontierPointer { cursor: c0 })).len(),
        m1.len() > 0,
{
    let g = c0.cur().unwrap();
    let before = pool(fr.push(FrontierPointer { cursor: c0 }));
    let now = pool(rest);
    assert forall|e: Entry| before.contains(e) <==> (pool(fr).contains(e) || g.1.contains(e)
        || group_entries(c0.upcoming()).contains(e)) by {
        lemma_concat_contains(pool(fr), stream(c0), e);
        lemma_concat_contains(g.1, group_entries(c0.upcoming()), e);
    }
    assert forall|e: Entry| g.1.contains(e) implies e.0 == d by {
        let k = choose|k: int| 0 <= k < g.1.len() && g.1[k] == e;
        assert(g.1[k].0 == d);
    }
    assert forall|e: Entry| #[trigger] now.contains(e) implies e0.contains(e) by {
        assert(before.contains(e));
    }
    assert forall|e: Entry| e0.contains(e) && e.0 != d implies #[trigger] now.contains(e) by {
        assert(before.contains(e));
    }
    assert forall|p: DocId| #[trigger] positions_for(e0, d).contains(p) <==> (m1.contains(p)
        || positions_for(now, d).contains(p)) by {
        lemma_positions_for_contains(now, d, p);
        lemma_positions_for_contains(before, d, p);
        if positions_for(before, d).contains(p) {
            let k = choose|k: int| 0 <= k < before.len() && #[trigger] before[k].0 == d && before[k].2.contains(p);
            let e = before[k];
            assert(before.contains(e));
            if g.1.contains(e) {
                let m = choose|m: int| 0 <= m < g.1.len() && g.1[m] == e;
                assert(g.1[m].2.contains(p));
                assert(m1.contains(p));
            } else if group_entries(c0.upcoming()).contains(e) {
                assert(false);
            } else {
                assert(now.contains(e));
                let m = choose|m: int| 0 <= m < now.len() && now[m] == e;
                assert(now[m].0 == d && now[m].2.contains(p));
            }
        }
        if positions_for(now, d).contains(p) {
            let k = choose|k: int| 0 <= k < now.len() && #[trigger] now[k].0 == d && now[k].2.contains(p);
            let e = now[k];
            assert(now.contains(e));
            assert(before.contains(e));
            let m = choose|m: int| 0 <= m < before.len() && before[m] == e;
            assert(before[m].0 == d && before[m].2.contains(p));
        }
        if m1.contains(p) && !m0.contains(p) {
            let k = choose|k: int| 0 <= k < g.1.len() && #[trigger] g.1[k].2.contains(p);
            let e = g.1[k];
            assert(g.1.contains(e));
            assert(before.contains(e));
            let m = choose|m: int| 0 <= m < before.len() && before[m] == e;
            assert(before[m].0 == d && before[m].2.contains(p));
        }
    }
    lemma_ptr_first_entry(c0);
    let p0 = g.1[0].2[0];
    assert(g.1[0].2.contains(p0));
    assert(m1.contains(p0));
}

proof fn lemma_step_pop<C: PostingsCursor>(fr_mid: Seq<FrontierPointer<C>>, fr_new: Seq<FrontierPointer<C>>, p: FrontierPointer<C>, d: DocId, e0: Seq<Entry>)
    requires
        frontier_ok(fr_mid),
        exists|i: int| {
            &&& 0 <= i < fr_mid.len()
            &&& Some(p) == Some(fr_mid[i])
            &&& fr_new == fr_mid.remove(i)
            &&& forall|j: int| 0 <= j < fr_mid.len() ==> ptr_doc(fr_mid[i]) <= #[trigger] ptr_doc(fr_mid[j])
        },
        forall|e: Entry| #[trigger] pool(fr_mid).contains(e) ==> e0.contains(e),
        forall|e: Entry| #[trigger] e0.contains(e) ==> e.0 >= d,
    ensures
        frontier_ok(fr_new),
        ptr_ok(p.cursor),
        forall|j: int| 0 <= j < fr_new.len() ==> ptr_doc(p) <= #[trigger] ptr_doc(fr_new[j]),
        ptr_doc(p) >= d,
        forall|e: Entry| pool(fr_new.push(p)).contains(e) <==> pool(fr_mid).contains(e),
        pool(fr_new.push(p)).len() == pool(fr_mid).len(),
{
    let i = choose|i: int| {
        &&& 0 <= i < fr_mid.len()
        &&& Some(p) == Some(fr_mid[i])
        &&& fr_new == fr_mid.remove(i)
        &&& forall|j: int| 0 <= j < fr_mid.len() ==> ptr_doc(fr_mid[i]) <= #[trigger] ptr_doc(fr_mid[j])
    };
    lemma_remove_push_same_pool(fr_mid, i, fr_new.push(p));
    lemma_pool_len_remove(fr_mid, i);
    assert(fr_new.push(p).drop_last() =~= fr_mid.remove(i));
    assert(ptr_ok(fr_mid[i].cursor));
    assert forall|j: int| 0 <= j < fr_new.len() implies ptr_doc(p) <= #[trigger] ptr_doc(fr_new[j]) && ptr_ok(fr_new[j].cursor) by {
        if j < i {
            assert(fr_new[j] == fr_mid[j]);
        } else {
            assert(fr_new[j] == fr_mid[j + 1]);
        }
        assert(ptr_ok(fr_new[j].cursor));
    }
    lemma_ptr_first_entry(p.cursor);
    let e = p.cursor.cur().unwrap().1[0];
    lemma_pool_contains(fr_mid, e);
    assert(stream(fr_mid[i].cursor).contains(e));
    assert(pool(fr_mid).contains(e));
}

proof fn lemma_exit_above<C: PostingsCursor>(e0: Seq<Entry>, d: DocId, fr: Seq<FrontierPointer<C>>, ptr: FrontierPointer<C>, m: Seq<DocId>)
    requires
        frontier_ok(fr),
        ptr_ok(ptr.cursor),
        ptr_doc(ptr) > d,
        forall|j: int| 0 <= j < fr.len() ==> ptr_doc(ptr) <= #[trigger] ptr_doc(fr[j]),
        pool_tracks(e0, d, pool(fr.push(ptr)), m),
    ensures
        frontier_ok(fr.push(ptr)),
        forall|e: Entry| #[trigger] pool(fr.push(ptr)).contains(e) <==> (e0.contains(e) && e.0 != d),
        forall|p: DocId| #[trigger] positions_for(e0, d).contains(p) <==> m.contains(p),
{
    let all = fr.push(ptr);
    assert forall|j: int| 0 <= j < all.len() implies #[trigger] ptr_ok(all[j].cursor) && d < ptr_doc(all[j]) by {
        if j < fr.len() {
            assert(all[j] == fr[j]);
            assert(ptr_doc(ptr) <= ptr_doc(fr[j]));
        }
    }
    assert forall|e: Entry| #[trigger] pool(all).contains(e) implies e.0 > d by {
        lemma_pool_docs_above(all, d, e);
    }
    assert forall|p: DocId| #[trigger] positions_for(e0, d).contains(p) <==> m.contains(p) by {
        lemma_positions_for_contains(pool(all), d, p);
        if positions_for(pool(all), d).contains(p) {
            let k = choose|k: int| 0 <= k < pool(all).len() && #[trigger] pool(all)[k].0 == d && pool(all)[k].2.contains(p);
            assert(pool(all).contains(pool(all)[k]));
        }
    }
}

proof fn lemma_exit_empty<C: PostingsCursor>(e0: Seq<Entry>, d: DocId, fr: Seq<FrontierPointer<C>>, m: Seq<DocId>)
    requires
        fr.len() == 0,
        pool_tracks(e0, d, pool(fr), m),
    ensures
        frontier_ok(fr),
        forall|e: Entry| #[trigger] pool(fr).contains(e) <==> (e0.contains(e) && e.0 != d),
        forall|p: DocId| #[trigger] positions_for(e0, d).contains(p) <==> m.contains(p),
{
    assert(pool(fr) =~= Seq::<Entry>::empty());
    assert forall|p: DocId| !positions_for(pool(fr), d).contains(p) by {
        lemma_positions_for_contains(pool(fr), d, p);
    }
}


// ---------------------------------------------------------------------------
// Merging stored postings lists
// ---------------------------------------------------------------------------

/// The groups a stored postings list yields: one per document, with the positions
/// between its offsets.
pub open spec fn stored_groups<S: Sequence>(p: Postings<S, S, S>) -> Seq<Group> {
    raw_groups(p.docs.rest(), p.tfs.rest(), p.positions)
}

/// A stored postings list that can take part in a merge: at least one document, one
/// more offset than documents, documents increasing, each with some positions.
pub open spec fn mergeable<S: Sequence>(p: Postings<S, S, S>) -> bool {
    &&& p.docs.wf()
    &&& p.tfs.wf()
    &&& p.positions.wf()
    &&& p.docs.rest().len() > 0
    &&& p.tfs.rest().len() == p.docs.rest().len() + 1
    &&& offsets_ok(p.tfs.rest(), 0, p.docs.rest().len() as int, p.positions)
    &&& groups_ok(stored_groups(p))
}

/// The postings of stored lists, one list after the other.
pub open spec fn stored_entries<S: Sequence>(ps: Seq<Postings<S, S, S>>) -> Seq<Entry>
    decreases ps.len(),
{
    if ps.len() == 0 {
        Seq::empty()
    } else {
        stored_entries(ps.drop_last()) + group_entries(stored_groups(ps.last()))
    }
}

/// Groups of one posting each hold as many postings as there are groups.
proof fn lemma_single_entries(gs: Seq<Group>)
    requires
        forall|i: int| 0 <= i < gs.len() ==> (#[trigger] gs[i]).1.len() == 1,
    ensures
        group_entries(gs).len() == gs.len(),
    decreases gs.len(),
{
    if gs.len() > 0 {
        lemma_single_entries(gs.drop_last());
    }
}

/// Cursors over copies of the stored lists `to_merge`.
fn stored_cursors<S: Sequence>(to_merge: &[Postings<S, S, S>]) -> (r: Vec<RawCursor<S, S, S>>)
    requires
        forall|i: int| 0 <= i < to_merge@.len() ==> mergeable(#[trigger] to_merge@[i]),
    ensures
        r@.len() == to_merge@.len(),
        forall|i: int| 0 <= i < r@.len() ==> #[trigger] r@[i].wf(),
        forall|i: int| 0 <= i < r@.len() ==> #[trigger] r@[i].upcoming() == stored_groups(to_merge@[i]),
        forall|i: int| 0 <= i < r@.len() ==> #[trigger] r@[i].remains_ok(),
        cursor_entries(r@) == stored_entries(to_merge@),
        sum_hints(r@) == stored_entries(to_merge@).len(),
{
    let mut cursors: Vec<RawCursor<S, S, S>> = Vec::new();
    let mut i: usize = 0;
    while i < to_merge.len()
        invariant
            i <= to_merge@.len(),
            forall|j: int| 0 <= j < to_merge@.len() ==> mergeable(#[trigger] to_merge@[j]),
            cursors@.len() == i,
            forall|j: int| 0 <= j < i ==> #[trigger] cursors@[j].wf(),
            forall|j: int| 0 <= j < i ==> #[trigger] cursors@[j].upcoming() == stored_groups(to_merge@[j]),
            forall|j: int| 0 <= j < i ==> #[trigger] cursors@[j].remains_ok(),
            cursor_entries(cursors@) == stored_entries(to_merge@.take(i as int)),
            sum_hints(cursors@) == stored_entries(to_merge@.take(i as int)).len(),
        decreases to_merge@.len() - i,
    {
        let p = &to_merge[i];
        assert(mergeable(to_merge@[i as int]));
        let docs = p.docs.duplicate();
        let tfs = p.tfs.duplicate();
        let positions = p.positions.duplicate();
        let copy = Postings { docs: docs, tfs: tfs, positions: positions };
        proof {
            let n = p.docs.rest().len() as int;
            let ext = p.tfs.rest();
            assert forall|j: int| 0 <= j < n implies #[trigger] positions.sub_ok(ext[j] as int, ext[j + 1] - ext[j]) by {
                assert(p.positions.sub_ok(ext[j] as int, ext[j + 1] - ext[j]));
            }
            assert(offsets_ok(ext, 0, n, positions));
        }
        let c = RawCursor::new(copy);
        proof {
            let g = stored_groups(to_merge@[i as int]);
            assert(c.upcoming() =~= g) by {
                assert forall|k: int| 0 <= k < g.len() implies #[trigger] c.upcoming()[k] == g[k] by {
                    let ext = p.tfs.rest();
                    assert(positions.sub_rest(ext[k] as int, ext[k + 1] - ext[k]) == p.positions.sub_rest(
                        ext[k] as int,
                        ext[k + 1] - ext[k],
                    ));
                }
            }
            assert forall|k: int| 0 <= k < g.len() implies (#[trigger] g[k]).1.len() == 1 by {}
            lemma_single_entries(g);
        }
        let ghost before = cursors@;
        cursors.push(c);
        proof {
            assert(cursors@.drop_last() =~= before);
            assert(to_merge@.take(i + 1).drop_last() =~= to_merge@.take(i as int));
            assert(to_merge@.take(i + 1).last() == to_merge@[i as int]);
        }
        i += 1;
    }
    proof {
        assert(to_merge@.take(to_merge@.len() as int) =~= to_merge@);
    }
    cursors
}

impl<S: Sequence> Postings<S, S, S> {
    /// Merges stored postings lists into one that has, for every document of any of them
    /// in increasing order, its distinct positions in increasing order.
    pub fn merge_without_duplicates(to_merge: &[Self]) -> (r: VecPostings)
        requires
            to_merge@.len() > 0,
            forall|i: int| 0 <= i < to_merge@.len() ==> mergeable(#[trigger] to_merge@[i]),
            stored_entries(to_merge@).len() < usize::MAX,
        ensures
            pview(&r) == add_entries(empty_view(), group_entries(merged_groups(stored_entries(to_merge@)))),
    {
        let cursors = stored_cursors(to_merge);
        let mut merger = MergerWithoutDuplicates::new(cursors);
        merger.collect()
    }

    /// The same merge, made in one pass.
    pub fn merge_without_duplicates_unrolled(to_merge: &[Self]) -> (r: VecPostings)
        requires
            to_merge@.len() > 0,
            forall|i: int| 0 <= i < to_merge@.len() ==> mergeable(#[trigger] to_merge@[i]),
            stored_entries(to_merge@).len() < usize::MAX,
        ensures
            pview(&r) == add_entries(empty_view(), group_entries(merged_groups(stored_entries(to_merge@)))),
    {
        let cursors = stored_cursors(to_merge);
        let mut merger = MergerWithoutDuplicatesUnrolled::new(cursors);
        merger.collect()
    }
}

} // verus!
