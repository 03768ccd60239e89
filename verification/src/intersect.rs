use vstd::prelude::*;
use crate::types::DocId;
use crate::util::strictly_ascending;
use crate::postings::{
    PostingsCursor, VecPostings, Entry, Group, pview, add_entries, group_entries,
    seek_spec, first_group_at_least, lemma_first_group_at_least, lemma_add_entries_concat,
};

verus! {

// ---------------------------------------------------------------------------
// Documents common to several cursors
// ---------------------------------------------------------------------------

/// Documents of a run of groups.
pub open spec fn docs_of(gs: Seq<Group>) -> Seq<DocId> {
    gs.map_values(|g: Group| g.0)
}

/// Whether every run of groups has a group for document `d`.
pub open spec fn in_all(ups: Seq<Seq<Group>>, d: DocId) -> bool {
    forall|i: int| 0 <= i < ups.len() ==> #[trigger] docs_of(ups[i]).contains(d)
}

/// The documents that every run of groups has, in the order of the first run.
pub open spec fn common_docs(ups: Seq<Seq<Group>>) -> Seq<DocId> {
    docs_of(ups[0]).filter(|d: DocId| in_all(ups, d))
}

/// The group of `gs` for document `d`.
pub open spec fn group_of(gs: Seq<Group>, d: DocId) -> Group {
    gs[choose|k: int| 0 <= k < gs.len() && gs[k].0 == d]
}

/// The postings every run has for document `d`, run after run.
pub open spec fn entries_at(ups: Seq<Seq<Group>>, d: DocId) -> Seq<Entry>
    decreases ups.len(),
{
    if ups.len() == 0 {
        Seq::empty()
    } else {
        entries_at(ups.drop_last(), d) + group_of(ups.last(), d).1
    }
}

/// One group per common document, holding the postings of all runs for it.
pub open spec fn intersect_groups(ups: Seq<Seq<Group>>) -> Seq<Group> {
    let ds = common_docs(ups);
    Seq::new(ds.len(), |j: int| (ds[j], entries_at(ups, ds[j])))
}

/// Groups in strictly increasing document order.
pub open spec fn docs_strict(gs: Seq<Group>) -> bool {
    forall|i: int, j: int| 0 <= i < j < gs.len() ==> gs[i].0 < gs[j].0
}

/// A document occurs in a run exactly when some group has it.
pub proof fn lemma_docs_of_contains(gs: Seq<Group>, d: DocId)
    ensures
        docs_of(gs).contains(d) <==> exists|k: int| 0 <= k < gs.len() && #[trigger] gs[k].0 == d,
{
    if docs_of(gs).contains(d) {
        let k = choose|k: int| 0 <= k < docs_of(gs).len() && docs_of(gs)[k] == d;
        assert(gs[k].0 == d);
    }
    if exists|k: int| 0 <= k < gs.len() && #[trigger] gs[k].0 == d {
        let k = choose|k: int| 0 <= k < gs.len() && #[trigger] gs[k].0 == d;
        assert(docs_of(gs)[k] == d);
    }
}

/// Filtering keeps a strictly increasing sequence strictly increasing.
proof fn lemma_filter_strict(s: Seq<DocId>, p: spec_fn(DocId) -> bool)
    requires
        strictly_ascending(s),
    ensures
        strictly_ascending(s.filter(p)),
    decreases s.len(),
{
    reveal(Seq::filter);
    if s.len() > 0 {
        let init = s.drop_last();
        lemma_filter_strict(init, p);
        let f = init.filter(p);
        if p(s.last()) {
            assert forall|i: int, j: int| 0 <= i < j < f.push(s.last()).len() implies f.push(s.last())[i]
                < f.push(s.last())[j] by {
                if j == f.len() {
                    assert(f.contains(f[i]));
                    init.lemma_filter_contains_rev(p, f[i]);
                    let k = choose|k: int| 0 <= k < init.len() && init[k] == f[i];
                    assert(s[k] < s[s.len() - 1]);
                }
            }
        }
    }
}

/// The common documents are strictly increasing and are exactly those every run has.
pub proof fn lemma_common_docs(ups: Seq<Seq<Group>>)
    requires
        ups.len() > 0,
        docs_strict(ups[0]),
    ensures
        strictly_ascending(common_docs(ups)),
        forall|d: DocId| #[trigger] common_docs(ups).contains(d) <==> in_all(ups, d),
{
    let s = docs_of(ups[0]);
    let p = |d: DocId| in_all(ups, d);
    assert(strictly_ascending(s)) by {
        assert forall|i: int, j: int| 0 <= i < j < s.len() implies s[i] < s[j] by {
            assert(ups[0][i].0 < ups[0][j].0);
        }
    }
    lemma_filter_strict(s, p);
    assert forall|d: DocId| #[trigger] common_docs(ups).contains(d) <==> in_all(ups, d) by {
        if common_docs(ups).contains(d) {
            s.lemma_filter_contains_rev(p, d);
            let k = choose|k: int| 0 <= k < s.filter(p).len() && s.filter(p)[k] == d;
            s.lemma_filter_pred(p, k);
        }
        if in_all(ups, d) {
            assert(docs_of(ups[0]).contains(d));
            let k = choose|k: int| 0 <= k < s.len() && s[k] == d;
            s.lemma_filter_contains(p, k);
        }
    }
}

/// The postings of the groups the cursors stand on, cursor after cursor.
/// The sum of what several cursors report for their current groups.
pub open spec fn caught_up_sum<C: PostingsCursor>(cs: Seq<C>) -> nat
    decreases cs.len(),
{
    if cs.len() == 0 {
        0
    } else {
        caught_up_sum(cs.drop_last()) + cs.last().caught_up()
    }
}

pub open spec fn cur_entries<C: PostingsCursor>(cs: Seq<C>) -> Seq<Entry>
    decreases cs.len(),
{
    if cs.len() == 0 {
        Seq::empty()
    } else {
        cur_entries(cs.drop_last()) + cs.last().cur().unwrap().1
    }
}

/// What each cursor has ahead.
pub open spec fn ups_of<C: PostingsCursor>(cs: Seq<C>) -> Seq<Seq<Group>> {
    cs.map_values(|c: C| c.upcoming())
}

/// Total number of groups ahead of all cursors.
pub open spec fn total_up<C: PostingsCursor>(cs: Seq<C>) -> nat
    decreases cs.len(),
{
    if cs.len() == 0 {
        0
    } else {
        total_up(cs.drop_last()) + cs.last().upcoming().len()
    }
}

proof fn lemma_total_up_update<C: PostingsCursor>(cs: Seq<C>, i: int, c: C)
    requires
        0 <= i < cs.len(),
    ensures
        total_up(cs.update(i, c)) + cs[i].upcoming().len() == total_up(cs) + c.upcoming().len(),
    decreases cs.len(),
{
    if i < cs.len() - 1 {
        lemma_total_up_update(cs.drop_last(), i, c);
        assert(cs.update(i, c).drop_last() =~= cs.drop_last().update(i, c));
    } else {
        assert(cs.update(i, c).drop_last() =~= cs.drop_last());
    }
}

/// How a cursor has moved through the groups `u` it had ahead at the start of a step:
/// it stands on one of them (or on none yet), everything before it lies below `bound`,
/// and it stands no higher than `bound`.
pub open spec fn follows<C: PostingsCursor>(u: Seq<Group>, c: C, bound: DocId) -> bool {
    let n = u.len() - c.upcoming().len();
    &&& c.wf()
        &&& c.upcoming().len() <= u.len()
    &&& c.upcoming() == u.skip(n)
    &&& n >= 1 ==> c.cur() == Some(u[n - 1]) && c.pending()
    &&& forall|m: int| 0 <= m < n - 1 ==> #[trigger] u[m].0 < bound
    &&& n >= 1 ==> u[n - 1].0 <= bound
}

/// Intersects cursors: yields the documents all of them have, with the postings
/// of every cursor for each such document.
pub struct Intersect<C> {
    cursors: Vec<C>,
    current: DocId,
    size: usize,
    matched: bool,
    pending: Ghost<bool>,
}

impl<C: PostingsCursor> Intersect<C> {
    /// Intersection of `cursors`; the estimate is the smallest estimate among them.
    pub fn new(cursors: Vec<C>) -> (r: Self)
        requires
            cursors@.len() > 0,
            forall|i: int| 0 <= i < cursors@.len() ==> #[trigger] cursors@[i].wf(),
            forall|i: int| 0 <= i < cursors@.len() ==> #[trigger] cursors@[i].remains_ok(),
            C::keeps_current(),
            forall|i: int| 0 <= i < cursors@.len() ==> docs_strict(#[trigger] cursors@[i].upcoming()),
            forall|i: int| 0 <= i < cursors@.len() ==> #[trigger] cursors@[i].cur() is None,
        ensures
            r.wf(),
            r.cur() is None,
            r.upcoming() == intersect_groups(ups_of(cursors@)),
            r.size_hint() == min_hint(cursors@),
    {
        let mut size = cursors[0].remains();
        let mut i: usize = 1;
        assert(cursors@.take(1).drop_last() =~= Seq::<C>::empty());
        while i < cursors.len()
            invariant
                1 <= i <= cursors@.len(),
                size == min_hint(cursors@.take(i as int)),
                forall|j: int| 0 <= j < cursors@.len() ==> #[trigger] cursors@[j].wf(),
                forall|j: int| 0 <= j < cursors@.len() ==> #[trigger] cursors@[j].remains_ok(),
            decreases cursors@.len() - i,
        {
            let x = cursors[i].remains();
            assert(cursors@.take(i + 1).drop_last() =~= cursors@.take(i as int));
            if x < size {
                size = x;
            }
            i += 1;
        }
        assert(cursors@.take(cursors@.len() as int) =~= cursors@);
        Self::start(cursors, size)
    }

    fn start(cursors: Vec<C>, size: usize) -> (r: Self)
        requires
            cursors@.len() > 0,
            forall|i: int| 0 <= i < cursors@.len() ==> #[trigger] cursors@[i].wf(),
            C::keeps_current(),
            forall|i: int| 0 <= i < cursors@.len() ==> docs_strict(#[trigger] cursors@[i].upcoming()),
            forall|i: int| 0 <= i < cursors@.len() ==> #[trigger] cursors@[i].cur() is None,
        ensures
            r.wf(),
            r.cur() is None,
            r.upcoming() == intersect_groups(ups_of(cursors@)),
            r.size == size,
    {
        Intersect { cursors: cursors, current: 0, size: size, matched: false, pending: Ghost(false) }
    }
}

/// The smallest estimate among several cursors.
pub open spec fn min_hint<C: PostingsCursor>(cs: Seq<C>) -> nat
    decreases cs.len(),
{
    if cs.len() <= 1 {
        if cs.len() == 1 {
            cs[0].size_hint()
        } else {
            0
        }
    } else {
        let m = min_hint(cs.drop_last());
        if cs.last().size_hint() < m {
            cs.last().size_hint()
        } else {
            m
        }
    }
}

proof fn lemma_group_of(gs: Seq<Group>, k: int)
    requires
        docs_strict(gs),
        0 <= k < gs.len(),
    ensures
        group_of(gs, gs[k].0) == gs[k],
{
    let j = choose|j: int| 0 <= j < gs.len() && gs[j].0 == gs[k].0;
    if j < k {
        assert(gs[j].0 < gs[k].0);
    }
    if j > k {
        assert(gs[k].0 < gs[j].0);
    }
}

/// A suffix of strictly increasing groups has the same group for each of its documents.
proof fn lemma_group_of_skip(gs: Seq<Group>, n: int, d: DocId)
    requires
        docs_strict(gs),
        0 <= n <= gs.len(),
        docs_of(gs.skip(n)).contains(d),
    ensures
        group_of(gs.skip(n), d) == group_of(gs, d),
        docs_of(gs).contains(d),
{
    lemma_docs_of_contains(gs.skip(n), d);
    let k = choose|k: int| 0 <= k < gs.skip(n).len() && #[trigger] gs.skip(n)[k].0 == d;
    assert(gs.skip(n)[k] == gs[n + k]);
    assert(docs_strict(gs.skip(n))) by {
        assert forall|i: int, j: int| 0 <= i < j < gs.skip(n).len() implies gs.skip(n)[i].0 < gs.skip(n)[j].0 by {
            assert(gs[n + i].0 < gs[n + j].0);
        }
    }
    lemma_group_of(gs.skip(n), k);
    lemma_group_of(gs, n + k);
    lemma_docs_of_contains(gs, d);
}

proof fn lemma_entries_at_same(a: Seq<Seq<Group>>, b: Seq<Seq<Group>>, d: DocId)
    requires
        a.len() == b.len(),
        forall|i: int| 0 <= i < a.len() ==> #[trigger] group_of(a[i], d) == group_of(b[i], d),
    ensures
        entries_at(a, d) == entries_at(b, d),
    decreases a.len(),
{
    if a.len() > 0 {
        lemma_entries_at_same(a.drop_last(), b.drop_last(), d);
        assert(group_of(a[a.len() - 1], d) == group_of(b[b.len() - 1], d));
    }
}

proof fn lemma_cur_entries<C: PostingsCursor>(cs: Seq<C>, u: Seq<Seq<Group>>, d: DocId)
    requires
        cs.len() == u.len(),
        forall|i: int| 0 <= i < cs.len() ==> #[trigger] cs[i].cur() is Some && cs[i].cur().unwrap() == group_of(u[i], d),
    ensures
        cur_entries(cs) == entries_at(u, d),
    decreases cs.len(),
{
    if cs.len() > 0 {
        lemma_cur_entries(cs.drop_last(), u.drop_last(), d);
        assert(cs[cs.len() - 1].cur() is Some);
    }
}

/// When every cursor stands on a group of document `d`, the smallest document all the
/// starting runs `u` have, the cursors have taken exactly that group.
proof fn lemma_intersect_step<C: PostingsCursor>(u: Seq<Seq<Group>>, cs: Seq<C>, d: DocId)
    requires
        u.len() == cs.len(),
        u.len() > 0,
        forall|i: int| 0 <= i < u.len() ==> docs_strict(#[trigger] u[i]),
        forall|i: int| 0 <= i < u.len() ==> follows(u[i], #[trigger] cs[i], d),
        forall|i: int| 0 <= i < u.len() ==> u[i].len() - (#[trigger] cs[i]).upcoming().len() >= 1,
        forall|i: int| 0 <= i < u.len() ==> #[trigger] cs[i].cur() is Some && cs[i].cur().unwrap().0 == d,
        forall|x: DocId| x < d ==> !in_all(u, x),
    ensures
        intersect_groups(u).len() > 0,
        intersect_groups(u)[0] == (d, cur_entries(cs)),
        intersect_groups(ups_of(cs)) == intersect_groups(u).drop_first(),
{
    let v = ups_of(cs);
    assert forall|i: int| #![trigger u[i]] 0 <= i < u.len() implies cs[i].cur().unwrap() == group_of(u[i], d)
        && docs_of(u[i]).contains(d) && u[i].len() - cs[i].upcoming().len() >= 1 by {
        assert(follows(u[i], cs[i], d));
        let n = u[i].len() - cs[i].upcoming().len();
        assert(u[i].len() - cs[i].upcoming().len() >= 1);
        assert(cs[i].cur() == Some(u[i][n - 1]));
        lemma_group_of(u[i], n - 1);
        assert(docs_of(u[i])[n - 1] == d);
    }
    assert(in_all(u, d));
    lemma_common_docs(u);
    let cu = common_docs(u);
    assert(cu.contains(d));
    let i0 = choose|i: int| 0 <= i < cu.len() && cu[i] == d;
    if i0 > 0 {
        assert(cu.contains(cu[0]));
        assert(cu[0] < d);
        assert(in_all(u, cu[0]));
    }
    assert(cu[0] == d);
    lemma_cur_entries(cs, u, d);
    // the runs ahead now are what is left after document `d`
    assert forall|i: int| 0 <= i < u.len() implies #[trigger] v[i] == u[i].skip(u[i].len() - v[i].len())
        && forall|k: int| 0 <= k < v[i].len() ==> #[trigger] v[i][k].0 > d by {
        assert(follows(u[i], cs[i], d));
        let n = u[i].len() - cs[i].upcoming().len();
        assert forall|k: int| 0 <= k < v[i].len() implies #[trigger] v[i][k].0 > d by {
            assert(v[i][k] == u[i][n + k]);
            assert(u[i][n - 1].0 < u[i][n + k].0);
        }
    }
    assert forall|x: DocId| in_all(v, x) <==> (in_all(u, x) && x > d) by {
        if in_all(v, x) {
            assert forall|i: int| 0 <= i < u.len() implies #[trigger] docs_of(u[i]).contains(x) by {
                assert(docs_of(v[i]).contains(x));
                lemma_group_of_skip(u[i], u[i].len() - v[i].len(), x);
            }
            assert(docs_of(v[0]).contains(x));
            lemma_docs_of_contains(v[0], x);
            let k = choose|k: int| 0 <= k < v[0].len() && #[trigger] v[0][k].0 == x;
        }
        if in_all(u, x) && x > d {
            assert forall|i: int| 0 <= i < v.len() implies #[trigger] docs_of(v[i]).contains(x) by {
                assert(docs_of(u[i]).contains(x));
                lemma_docs_of_contains(u[i], x);
                let k = choose|k: int| 0 <= k < u[i].len() && #[trigger] u[i][k].0 == x;
                let n = u[i].len() - v[i].len();
                assert(follows(u[i], cs[i], d));
                if k < n {
                    if k < n - 1 {
                        assert(u[i][k].0 < d);
                    }
                }
                assert(v[i][k - n] == u[i][k]);
                lemma_docs_of_contains(v[i], x);
            }
        }
    }
    assert(docs_strict(v[0])) by {
        let n = u[0].len() - v[0].len();
        assert forall|a: int, b: int| 0 <= a < b < v[0].len() implies v[0][a].0 < v[0][b].0 by {
            assert(v[0][a] == u[0][n + a] && v[0][b] == u[0][n + b]);
        }
    }
    lemma_common_docs(v);
    let cv = common_docs(v);
    assert(strictly_ascending(cu.drop_first())) by {
        assert forall|a: int, b: int| 0 <= a < b < cu.drop_first().len() implies cu.drop_first()[a] < cu.drop_first()[b] by {
            assert(cu[a + 1] < cu[b + 1]);
        }
    }
    assert forall|x: DocId| cv.contains(x) <==> cu.drop_first().contains(x) by {
        if cu.drop_first().contains(x) {
            let j = choose|j: int| 0 <= j < cu.drop_first().len() && cu.drop_first()[j] == x;
            assert(cu[j + 1] == x);
            assert(cu[0] < cu[j + 1]);
            assert(cu.contains(x));
        }
        if cv.contains(x) {
            assert(cu.contains(x));
            let j = choose|j: int| 0 <= j < cu.len() && cu[j] == x;
            assert(j != 0);
            assert(cu.drop_first()[j - 1] == x);
        }
    }
    crate::sorted::lemma_strict_same_elements(cv, cu.drop_first());
    assert forall|j: int| 0 <= j < cv.len() implies #[trigger] intersect_groups(v)[j] == intersect_groups(u).drop_first()[j] by {
        let x = cv[j];
        assert(x == cu[j + 1]);
        assert(cv.contains(x));
        assert forall|i: int| 0 <= i < u.len() implies #[trigger] group_of(v[i], x) == group_of(u[i], x) by {
            assert(docs_of(v[i]).contains(x));
            lemma_group_of_skip(u[i], u[i].len() - v[i].len(), x);
        }
        lemma_entries_at_same(v, u, x);
    }
    assert(intersect_groups(v) =~= intersect_groups(u).drop_first());
}

/// When some cursor has passed every document at or above `bound`, and no smaller
/// document is common, nothing is common.
proof fn lemma_intersect_none(u: Seq<Seq<Group>>, j: int, bound: DocId)
    requires
        0 <= j < u.len(),
        forall|m: int| 0 <= m < u[j].len() ==> #[trigger] u[j][m].0 < bound,
        forall|x: DocId| x < bound ==> !in_all(u, x),
        docs_strict(u[0]),
    ensures
        intersect_groups(u).len() == 0,
{
    lemma_common_docs(u);
    let cu = common_docs(u);
    if cu.len() > 0 {
        let x = cu[0];
        assert(cu.contains(x));
        assert(in_all(u, x));
        assert(docs_of(u[j]).contains(x));
        lemma_docs_of_contains(u[j], x);
        let m = choose|m: int| 0 <= m < u[j].len() && #[trigger] u[j][m].0 == x;
        assert(u[j][m].0 < bound);
    }
}

/// A run of groups that is empty leaves nothing common.
proof fn lemma_intersect_empty_run(u: Seq<Seq<Group>>, j: int)
    requires
        0 <= j < u.len(),
        u[j].len() == 0,
        docs_strict(u[0]),
    ensures
        intersect_groups(u).len() == 0,
{
    lemma_common_docs(u);
    let cu = common_docs(u);
    if cu.len() > 0 {
        assert(cu.contains(cu[0]));
        assert(docs_of(u[j]).contains(cu[0]));
    }
}

/// A cursor whose groups ahead are strictly increasing and lie above the group it stands on.
pub open spec fn member_ok<C: PostingsCursor>(c: C) -> bool {
    &&& c.wf()
    &&& docs_strict(c.upcoming())
    &&& forall|k: int|
        0 <= k < c.upcoming().len() && c.cur() is Some ==> c.cur().unwrap().0
            < #[trigger] c.upcoming()[k].0
}

/// Whether cursor `c` stands on a group of document `d`.
pub open spec fn at_doc<C: PostingsCursor>(c: C, d: DocId) -> bool {
    c.cur() is Some && c.cur().unwrap().0 == d
}

/// A cursor that has moved through strictly increasing groups as `follows` says is settled.
proof fn lemma_follows_member<C: PostingsCursor>(u: Seq<Group>, c: C, bound: DocId)
    requires
        docs_strict(u),
        follows(u, c, bound),
        u.len() - c.upcoming().len() >= 1,
    ensures
        member_ok(c),
{
    let n = u.len() - c.upcoming().len();
    assert forall|a: int, b: int| 0 <= a < b < c.upcoming().len() implies c.upcoming()[a].0
        < c.upcoming()[b].0 by {
        assert(c.upcoming()[a] == u[n + a] && c.upcoming()[b] == u[n + b]);
    }
    assert forall|k: int| 0 <= k < c.upcoming().len() && c.cur() is Some implies c.cur().unwrap().0
        < #[trigger] c.upcoming()[k].0 by {
        assert(c.upcoming()[k] == u[n + k]);
        assert(u[n - 1].0 < u[n + k].0);
    }
}

/// Where `advance_to(bound)` leaves a cursor that has moved through `u` as `follows`
/// says and comes back with a document.
proof fn lemma_seek_follows<C: PostingsCursor>(
    u: Seq<Group>,
    c0: C,
    c1: C,
    bound: DocId,
    r: Option<DocId>,
)
    requires
        docs_strict(u),
        follows(u, c0, bound),
        u.len() - c0.upcoming().len() >= 1,
        C::keeps_current(),
        c1.wf(),
        at_doc(c0, bound) ==> c1 == c0 && r == Some(bound),
        !at_doc(c0, bound) ==> {
            &&& (c1.cur(), c1.upcoming()) == seek_spec(c0.upcoming(), bound)
            &&& r == (match c1.cur() {
                Some(g) => Some(g.0),
                None => None,
            })
            &&& c1.cur() is Some ==> c1.pending()
        },
        r is Some,
    ensures
        c1.cur() is Some,
        r == Some(c1.cur().unwrap().0),
        c1.cur().unwrap().0 >= bound,
        follows(u, c1, c1.cur().unwrap().0),
        u.len() - c1.upcoming().len() >= 1,
        c1.upcoming().len() <= c0.upcoming().len(),
        c1.cur().unwrap().0 > bound ==> c1.upcoming().len() < c0.upcoming().len(),
        forall|x: DocId| bound <= x < c1.cur().unwrap().0 ==> !#[trigger] docs_of(u).contains(x),
{
    let n0 = u.len() - c0.upcoming().len();
    if !at_doc(c0, bound) {
        let up = c0.upcoming();
        lemma_first_group_at_least(up, bound);
        let k = first_group_at_least(up, bound) as int;
        assert(k < up.len());
        let n1 = n0 + k + 1;
        assert(c1.upcoming() =~= u.skip(n1));
        assert(up[k] == u[n0 + k]);
        let d1 = c1.cur().unwrap().0;
        assert(u[n0 - 1].0 < bound);
        assert forall|m: int| 0 <= m < n1 - 1 implies #[trigger] u[m].0 < bound by {
            if m >= n0 {
                assert(up[m - n0] == u[m]);
                assert(up[m - n0].0 < bound);
            }
        }
        assert forall|x: DocId| bound <= x < d1 implies !#[trigger] docs_of(u).contains(x) by {
            if docs_of(u).contains(x) {
                lemma_docs_of_contains(u, x);
                let m = choose|m: int| 0 <= m < u.len() && #[trigger] u[m].0 == x;
                if m > n1 - 1 {
                    assert(u[n1 - 1].0 < u[m].0);
                }
            }
        }
    }
}

/// Where `advance_to(bound)` leaves a cursor that comes back with nothing: every
/// group of `u` lies below `bound`, and the cursor has nothing left.
proof fn lemma_seek_exhausted<C: PostingsCursor>(
    u: Seq<Group>,
    c0: C,
    c1: C,
    bound: DocId,
    r: Option<DocId>,
)
    requires
        follows(u, c0, bound),
        u.len() - c0.upcoming().len() >= 1,
        at_doc(c0, bound) ==> r == Some(bound),
        !at_doc(c0, bound) ==> {
            &&& (c1.cur(), c1.upcoming()) == seek_spec(c0.upcoming(), bound)
            &&& r == (match c1.cur() {
                Some(g) => Some(g.0),
                None => None,
            })
        },
        r is None,
    ensures
        forall|m: int| 0 <= m < u.len() ==> #[trigger] u[m].0 < bound,
        c1.upcoming().len() == 0,
        c1.cur() is None,
{
    let n0 = u.len() - c0.upcoming().len();
    let up = c0.upcoming();
    lemma_first_group_at_least(up, bound);
    let k = first_group_at_least(up, bound) as int;
    if k < up.len() {
        assert(c1.cur() is Some);
    }
    assert forall|m: int| 0 <= m < u.len() implies #[trigger] u[m].0 < bound by {
        if m >= n0 {
            assert(up[m - n0] == u[m]);
        }
    }
}

/// Raising the bound after cursor `i` moved on to document `next`: every cursor still
/// follows its run, nothing below `next` is common, and fewer groups lie ahead.
proof fn lemma_raise_bound<C: PostingsCursor>(
    u: Seq<Seq<Group>>,
    before: Seq<C>,
    after: Seq<C>,
    i: int,
    bound: DocId,
    next: DocId,
)
    requires
        u.len() == before.len(),
        0 <= i < before.len(),
        after == before.update(i, after[i]),
        bound < next,
        forall|j: int| 0 <= j < u.len() ==> follows(u[j], #[trigger] before[j], bound),
        forall|j: int| 0 <= j < u.len() ==> u[j].len() - (#[trigger] before[j]).upcoming().len() >= 1,
        follows(u[i], after[i], next),
        u[i].len() - after[i].upcoming().len() >= 1,
        forall|x: DocId| x < bound ==> !in_all(u, x),
        forall|x: DocId| bound <= x < next ==> !#[trigger] docs_of(u[i]).contains(x),
    ensures
        forall|j: int| 0 <= j < u.len() ==> follows(u[j], #[trigger] after[j], next),
        forall|j: int| 0 <= j < u.len() ==> u[j].len() - (#[trigger] after[j]).upcoming().len() >= 1,
        forall|x: DocId| x < next ==> !in_all(u, x),
{
    assert forall|j: int| 0 <= j < u.len() implies follows(u[j], #[trigger] after[j], next) && u[j].len()
        - after[j].upcoming().len() >= 1 by {
        if j != i {
            assert(after[j] == before[j]);
            assert(follows(u[j], before[j], bound));
        }
    }
    assert forall|x: DocId| x < next implies !in_all(u, x) by {
        if bound <= x {
            assert(!docs_of(u[i]).contains(x));
        }
    }
}

/// Two runs of cursors standing on the same groups hold the same postings there.
proof fn lemma_cur_entries_same<C: PostingsCursor>(a: Seq<C>, b: Seq<C>)
    requires
        a.len() == b.len(),
        forall|j: int| 0 <= j < a.len() ==> (#[trigger] a[j]).cur() == b[j].cur(),
    ensures
        cur_entries(a) == cur_entries(b),
    decreases a.len(),
{
    if a.len() > 0 {
        lemma_cur_entries_same(a.drop_last(), b.drop_last());
        assert(a[a.len() - 1].cur() == b[b.len() - 1].cur());
    }
}

impl<C: PostingsCursor> PostingsCursor for Intersect<C> {
    closed spec fn wf(&self) -> bool {
        let cs = self.cursors@;
        &&& cs.len() > 0
        &&& C::keeps_current()
        &&& forall|i: int| 0 <= i < cs.len() ==> member_ok(#[trigger] cs[i])
        &&& self.matched ==> forall|i: int| 0 <= i < cs.len() ==> at_doc(#[trigger] cs[i], self.current)
        &&& self.matched && self.pending@ ==> forall|i: int| 0 <= i < cs.len() ==> (#[trigger] cs[i]).pending()
        &&& !self.matched ==> self.current == 0 || exists|k: int| 0 <= k < cs.len() && (#[trigger] cs[k]).upcoming().len() == 0
    }

    closed spec fn upcoming(&self) -> Seq<Group> {
        intersect_groups(ups_of(self.cursors@))
    }

    closed spec fn cur(&self) -> Option<Group> {
        if self.matched {
            Some((self.current, cur_entries(self.cursors@)))
        } else {
            None
        }
    }

    closed spec fn pending(&self) -> bool {
        self.matched && self.pending@
    }

    closed spec fn size_hint(&self) -> nat {
        self.size as nat
    }

    open spec fn keeps_current() -> bool {
        true
    }

    closed spec fn remains_ok(&self) -> bool {
        true
    }

    /// The sum of what the member cursors report, capped at the largest `usize`.
    closed spec fn caught_up(&self) -> nat {
        if caught_up_sum(self.cursors@) < usize::MAX {
            caught_up_sum(self.cursors@)
        } else {
            usize::MAX as nat
        }
    }

    fn current(&self) -> (r: DocId) {
        self.current
    }

    fn remains(&self) -> (r: usize) {
        self.size
    }

    #[verifier::rlimit(80)]
    fn advance(&mut self) -> (r: Option<DocId>) {
        let ghost u = ups_of(self.cursors@);
        let ghost cs0 = self.cursors@;
        let n = self.cursors.len();
        proof {
            assert(old(self).wf());
            assert(old(self).upcoming() == intersect_groups(u));
            assert forall|j: int| 0 <= j < u.len() implies docs_strict(#[trigger] u[j]) by {
                assert(member_ok(cs0[j]));
            }
            // nothing below the current document is common
            assert forall|x: DocId| x < self.current implies !in_all(u, x) by {
                if self.matched {
                    if docs_of(u[0]).contains(x) {
                        lemma_docs_of_contains(u[0], x);
                        let k = choose|k: int| 0 <= k < u[0].len() && #[trigger] u[0][k].0 == x;
                        assert(member_ok(cs0[0]));
                        assert(at_doc(cs0[0], self.current));
                        assert(cs0[0].cur().unwrap().0 < cs0[0].upcoming()[k].0);
                    }
                } else if self.current != 0 {
                    let k = choose|k: int| 0 <= k < cs0.len() && (#[trigger] cs0[k]).upcoming().len() == 0;
                    assert(u[k].len() == 0);
                    if docs_of(u[k]).contains(x) {
                        lemma_docs_of_contains(u[k], x);
                    }
                }
            }
        }
        self.matched = false;
        self.pending = Ghost(false);
        let mut i: usize = 0;
        while i < n
            invariant
                n == self.cursors@.len(),
                i <= n,
                n > 0,
                C::keeps_current(),
                u == ups_of(cs0),
                u.len() == n,
                old(self).upcoming() == intersect_groups(u),
                forall|j: int| 0 <= j < n ==> docs_strict(#[trigger] u[j]),
                forall|j: int| 0 <= j < i ==> follows(u[j], #[trigger] self.cursors@[j], self.current),
                forall|j: int| 0 <= j < i ==> u[j].len() - (#[trigger] self.cursors@[j]).upcoming().len() == 1,
                forall|j: int| i <= j < n ==> #[trigger] self.cursors@[j] == cs0[j],
                forall|j: int| 0 <= j < n ==> member_ok(#[trigger] cs0[j]),
                forall|x: DocId| x < self.current ==> !in_all(u, x),
                !self.matched,
            decreases n - i,
        {
            let ghost before = self.cursors@;
            proof {
                assert(member_ok(cs0[i as int]));
                assert(u[i as int] == cs0[i as int].upcoming());
            }
            match self.cursors[i].advance() {
                Some(doc_id) => {
                    proof {
                        assert forall|x: DocId| x < doc_id implies !in_all(u, x) by {
                            if docs_of(u[i as int]).contains(x) {
                                lemma_docs_of_contains(u[i as int], x);
                                let k = choose|k: int| 0 <= k < u[i as int].len() && #[trigger] u[i as int][k].0 == x;
                                if k > 0 {
                                    assert(u[i as int][0].0 < u[i as int][k].0);
                                }
                            }
                        }
                    }
                    if doc_id > self.current {
                        self.current = doc_id;
                    }
                    proof {
                        assert(self.cursors@[i as int].upcoming() =~= u[i as int].skip(1));
                        assert forall|j: int| 0 <= j < i + 1 implies follows(u[j], #[trigger] self.cursors@[j], self.current)
                            && u[j].len() - self.cursors@[j].upcoming().len() == 1 by {
                            if j < i {
                                assert(self.cursors@[j] == before[j]);
                            }
                        }
                        assert forall|j: int| i + 1 <= j < n implies #[trigger] self.cursors@[j] == cs0[j] by {
                            assert(self.cursors@[j] == before[j]);
                        }
                    }
                },
                None => {
                    proof {
                        assert(u[i as int].len() == 0);
                        assert forall|j: int| 0 <= j < n implies member_ok(#[trigger] self.cursors@[j]) by {
                            if j < i {
                                assert(self.cursors@[j] == before[j]);
                                lemma_follows_member(u[j], self.cursors@[j], self.current);
                            } else if j > i {
                                assert(self.cursors@[j] == before[j]);
                            } else {
                                assert(self.cursors@[j].upcoming().len() == 0);
                            }
                        }
                        assert(ups_of(self.cursors@)[i as int].len() == 0);
                        assert(member_ok(self.cursors@[0]));
                        lemma_intersect_empty_run(u, i as int);
                        lemma_intersect_empty_run(ups_of(self.cursors@), i as int);
                        assert(intersect_groups(ups_of(self.cursors@)) =~= intersect_groups(u));
                        assert((self.cursors@[i as int]).upcoming().len() == 0);
                        assert(old(self).upcoming().len() == 0);
                        assert(self.upcoming() == old(self).upcoming());
                        assert(self.cur() is None);
                        assert(self.wf());
                    }
                    return None;
                },
            }
            i += 1;
        }
        let mut i: usize = 0;
        while i < n
            invariant
                n == self.cursors@.len(),
                i <= n,
                n > 0,
                C::keeps_current(),
                u == ups_of(cs0),
                u.len() == n,
                old(self).upcoming() == intersect_groups(u),
                forall|j: int| 0 <= j < n ==> docs_strict(#[trigger] u[j]),
                forall|j: int| 0 <= j < n ==> follows(u[j], #[trigger] self.cursors@[j], self.current),
                forall|j: int| 0 <= j < n ==> u[j].len() - (#[trigger] self.cursors@[j]).upcoming().len() >= 1,
                forall|j: int| 0 <= j < i ==> at_doc(#[trigger] self.cursors@[j], self.current),
                forall|x: DocId| x < self.current ==> !in_all(u, x),
                !self.matched,
            decreases total_up(self.cursors@), n - i,
        {
            let ghost before = self.cursors@;
            let ghost c0 = self.cursors@[i as int];
            let ghost cur_doc = self.current;
            let r = self.cursors[i].advance_to(self.current);
            match r {
                Some(next_doc) => {
                    proof {
                        lemma_seek_follows(u[i as int], c0, self.cursors@[i as int], cur_doc, r);
                        lemma_total_up_update(before, i as int, self.cursors@[i as int]);
                        assert(self.cursors@ == before.update(i as int, self.cursors@[i as int]));
                    }
                    if next_doc > self.current {
                        self.current = next_doc;
                        proof {
                            lemma_raise_bound(u, before, self.cursors@, i as int, cur_doc, next_doc);
                        }
                        i = 0;
                    } else {
                        proof {
                            assert forall|j: int| 0 <= j < i + 1 implies at_doc(#[trigger] self.cursors@[j], self.current) by {
                                if j < i {
                                    assert(self.cursors@[j] == before[j]);
                                }
                            }
                            assert forall|j: int| 0 <= j < n implies follows(u[j], #[trigger] self.cursors@[j], self.current)
                                && u[j].len() - self.cursors@[j].upcoming().len() >= 1 by {
                                if j != i {
                                    assert(self.cursors@[j] == before[j]);
                                }
                            }
                        }
                        i += 1;
                    }
                },
                None => {
                    proof {
                        lemma_seek_exhausted(u[i as int], c0, self.cursors@[i as int], cur_doc, r);
                        lemma_intersect_none(u, i as int, cur_doc);
                        assert forall|j: int| 0 <= j < n implies member_ok(#[trigger] self.cursors@[j]) by {
                            if j != i {
                                assert(self.cursors@[j] == before[j]);
                                lemma_follows_member(u[j], before[j], cur_doc);
                            }
                        }
                        assert(ups_of(self.cursors@)[i as int].len() == 0);
                        assert(member_ok(self.cursors@[0]));
                        lemma_intersect_empty_run(ups_of(self.cursors@), i as int);
                        assert(intersect_groups(ups_of(self.cursors@)) =~= intersect_groups(u));
                        assert((self.cursors@[i as int]).upcoming().len() == 0);
                        assert(old(self).upcoming().len() == 0);
                        assert(self.upcoming() == old(self).upcoming());
                        assert(self.cur() is None);
                        assert(self.wf());
                    }
                    return None;
                },
            }
        }
        self.matched = true;
        self.pending = Ghost(true);
        proof {
            assert forall|j: int| 0 <= j < n implies #[trigger] self.cursors@[j].cur() is Some
                && self.cursors@[j].cur().unwrap().0 == self.current by {
                assert(at_doc(self.cursors@[j], self.current));
            }
            lemma_intersect_step(u, self.cursors@, self.current);
            assert forall|j: int| 0 <= j < n implies member_ok(#[trigger] self.cursors@[j])
                && (self.cursors@[j]).pending() by {
                lemma_follows_member(u[j], self.cursors@[j], self.current);
            }
            assert(self.wf());
            assert(self.cur() == Some(old(self).upcoming()[0]));
            assert(self.upcoming() == old(self).upcoming().drop_first());
            assert(self.pending());
        }
        Some(self.current)
    }

    fn catch_up(&mut self, result: &mut VecPostings) -> (r: usize) {
        let n = self.cursors.len();
        let mut result_size: usize = 0;
        let mut i: usize = 0;
        let ghost cs0 = self.cursors@;
        let ghost v0 = pview(result);
        proof {
            assert(old(self).wf());
            assert(old(self).pending());
            assert(self.matched && self.pending@);
            assert forall|j: int| 0 <= j < n implies (#[trigger] cs0[j]).cur() is Some && cs0[j].pending() by {
                assert(at_doc(cs0[j], self.current));
            }
            assert(cs0.take(0) =~= Seq::<C>::empty());
            assert(add_entries(v0, Seq::empty()) == v0);
        }
        while i < n
            invariant
                n == self.cursors@.len(),
                i <= n,
                cs0 == old(self).cursors@,
                cs0.len() == n,
                self.matched == old(self).matched,
                self.current == old(self).current,
                forall|j: int| 0 <= j < n ==> at_doc(#[trigger] cs0[j], self.current),
                v0 == pview(old(result)),
                forall|j: int| 0 <= j < n ==> member_ok(#[trigger] self.cursors@[j]) && self.cursors@[j].cur()
                    == cs0[j].cur() && self.cursors@[j].upcoming() == cs0[j].upcoming(),
                forall|j: int| i <= j < n ==> #[trigger] self.cursors@[j] == cs0[j],
                forall|j: int| 0 <= j < n ==> (#[trigger] cs0[j]).cur() is Some && cs0[j].pending(),
                pview(result) == add_entries(v0, cur_entries(cs0.take(i as int))),
                result_size == (if caught_up_sum(cs0.take(i as int)) < usize::MAX {
                    caught_up_sum(cs0.take(i as int))
                } else {
                    usize::MAX as nat
                }),
            decreases n - i,
        {
            let ghost before = pview(result);
            let ghost bcs = self.cursors@;
            let k = self.cursors[i].catch_up(result);
            proof {
                assert(cs0.take(i + 1).drop_last() =~= cs0.take(i as int));
                assert(cs0.take(i + 1).last() == cs0[i as int]);
                lemma_add_entries_concat(v0, cur_entries(cs0.take(i as int)), cs0[i as int].cur().unwrap().1);
                crate::postings::lemma_add_entries_parts(before, cs0[i as int].cur().unwrap().1);
                assert(result.docs@.len() == result.docs.len());
                assert forall|j: int| 0 <= j < n implies member_ok(#[trigger] self.cursors@[j])
                    && self.cursors@[j].cur() == cs0[j].cur() && self.cursors@[j].upcoming() == cs0[j].upcoming() by {
                    if j != i {
                        assert(self.cursors@[j] == bcs[j]);
                    }
                }
                assert forall|j: int| i + 1 <= j < n implies #[trigger] self.cursors@[j] == cs0[j] by {
                    assert(self.cursors@[j] == bcs[j]);
                }
            }
            proof {
                assert(bcs[i as int] == cs0[i as int]);
                assert(caught_up_sum(cs0.take(i + 1)) == caught_up_sum(cs0.take(i as int)) + cs0[i as int].caught_up());
            }
            // the count is capped where it no longer fits
            if k > usize::MAX - result_size {
                result_size = usize::MAX;
            } else {
                result_size = result_size + k;
            }
            i += 1;
        }
        self.pending = Ghost(false);
        proof {
            assert(cs0.take(n as int) =~= cs0);
            lemma_cur_entries_same(self.cursors@, cs0);
            assert(ups_of(self.cursors@) =~= ups_of(cs0));
            assert forall|j: int| 0 <= j < n implies at_doc(#[trigger] self.cursors@[j], self.current) by {
                assert(at_doc(cs0[j], self.current));
            }
            assert(self.wf());
            assert(self.cur() == old(self).cur());
            assert(self.upcoming() == old(self).upcoming());
            assert(!self.pending());
            assert(cs0 == old(self).cursors@);
            assert(old(self).caught_up() == result_size);
        }
        result_size
    }

    fn advance_to(&mut self, doc_id: DocId) -> (r: Option<DocId>) {
        if self.matched && self.current == doc_id {
            return Some(doc_id);
        }
        let ghost start = self.upcoming();
        proof {
            lemma_first_group_at_least(start, doc_id);
        }
        loop
            invariant
                self.wf(),
                start == old(self).upcoming(),
                start.len() >= self.upcoming().len(),
                self.upcoming() == start.skip(start.len() - self.upcoming().len()),
                forall|i: int| 0 <= i < start.len() - self.upcoming().len() ==> #[trigger] start[i].0
                    < doc_id,
                first_group_at_least(start, doc_id) <= start.len(),
                forall|i: int| 0 <= i < first_group_at_least(start, doc_id) ==> #[trigger] start[i].0
                    < doc_id,
                first_group_at_least(start, doc_id) < start.len() ==> start[first_group_at_least(
                    start,
                    doc_id,
                ) as int].0 >= doc_id,
                !(Self::keeps_current() && old(self).cur() is Some && old(self).cur().unwrap().0 == doc_id),
            decreases self.upcoming().len(),
        {
            let ghost before = self.upcoming();
            let ghost done = start.len() - before.len();
            match self.advance() {
                Some(x) => {
                    proof {
                        assert(start[done] == before[0]);
                        assert(self.upcoming() =~= start.skip(done + 1));
                    }
                    if x >= doc_id {
                        proof {
                            let k = first_group_at_least(start, doc_id);
                            if k < done {
                                assert(start[k as int].0 < doc_id);
                            }
                            if k > done {
                                assert(start[done].0 < doc_id);
                            }
                        }
                        return Some(x);
                    }
                },
                None => {
                    proof {
                        let k = first_group_at_least(start, doc_id);
                        if k < start.len() {
                            assert(start[k as int].0 < doc_id);
                        }
                    }
                    return None;
                },
            }
        }
    }
}

/// Intersects cursors in one pass, collecting the postings of every common document.
pub struct IntersectUnrolled<C> {
    cursors: Vec<C>,
}

impl<C: PostingsCursor> IntersectUnrolled<C> {
    /// The cursors to intersect.
    pub closed spec fn inputs(&self) -> Seq<C> {
        self.cursors@
    }

    /// Prepares an intersection of `cursors`.
    pub fn new(cursors: Vec<C>) -> (r: Self)
        ensures
            r.inputs() == cursors@,
    {
        IntersectUnrolled { cursors: cursors }
    }

    /// For every document all the inputs have, in increasing order, the postings
    /// of every input for it, input after input.
    pub fn collect(&mut self) -> (r: VecPostings)
        requires
            old(self).inputs().len() > 0,
            C::keeps_current(),
            forall|i: int| 0 <= i < old(self).inputs().len() ==> #[trigger] old(self).inputs()[i].wf(),
            forall|i: int| 0 <= i < old(self).inputs().len() ==> docs_strict(#[trigger] old(self).inputs()[i].upcoming()),
            forall|i: int| 0 <= i < old(self).inputs().len() ==> (#[trigger] old(self).inputs()[i]).cur() is None,
        ensures
            pview(&r) == add_entries(
                crate::postings::empty_view(),
                group_entries(intersect_groups(ups_of(old(self).inputs()))),
            ),
    {
        let mut cursors: Vec<C> = Vec::new();
        core::mem::swap(&mut cursors, &mut self.cursors);
        let mut inter = Intersect::start(cursors, 0);
        let r = inter.collect();
        self.cursors = inter.cursors;
        r
    }
}

} // verus!
