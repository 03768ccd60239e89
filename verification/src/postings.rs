use vstd::prelude::*;
use crate::types::{DocId, TermId};
use crate::sequence::Sequence;

verus! {

// ---------------------------------------------------------------------------
// Postings lists
// ---------------------------------------------------------------------------

/// The three parallel parts of a postings list: documents, term frequencies
/// and positions.
#[derive(Clone)]
pub struct Postings<A, B, C> {
    pub docs: A,
    pub tfs: B,
    pub positions: C,
}

/// A postings list held in vectors.
pub type VecPostings = Postings<Vec<DocId>, Vec<DocId>, Vec<DocId>>;

/// Something that hands out the postings of a term.
pub trait PostingsStore {
    /// The postings held for `term_id` (documents, term frequencies, positions), if the
    /// store can hand them out.
    spec fn postings_of(&self, term_id: TermId) -> Option<(Seq<DocId>, Seq<DocId>, Seq<DocId>)>;

    /// Hands out the postings of `term_id`; what is held for other terms stays.
    fn get_postings(&mut self, term_id: TermId) -> (r: Option<VecPostings>)
        ensures
            r is Some <==> old(self).postings_of(term_id) is Some,
            r matches Some(p) ==> old(self).postings_of(term_id) == Some(pview(&p)),
            forall|other: TermId|
                other != term_id ==> #[trigger] final(self).postings_of(other) == old(self).postings_of(other),
    ;
}

/// The contents of a vector postings list.
pub open spec fn pview(p: &VecPostings) -> (Seq<DocId>, Seq<DocId>, Seq<DocId>) {
    (p.docs@, p.tfs@, p.positions@)
}

/// One posting: a document, its term frequency and its positions.
pub type Entry = (DocId, DocId, Seq<DocId>);

/// The postings a cursor produces for one document.
pub type Group = (DocId, Seq<Entry>);

/// A postings list with one more posting appended.
pub open spec fn add_entry(v: (Seq<DocId>, Seq<DocId>, Seq<DocId>), e: Entry) -> (
    Seq<DocId>,
    Seq<DocId>,
    Seq<DocId>,
) {
    (v.0.push(e.0), v.1.push(e.1), v.2 + e.2)
}

/// A postings list with several postings appended in order.
pub open spec fn add_entries(v: (Seq<DocId>, Seq<DocId>, Seq<DocId>), es: Seq<Entry>) -> (
    Seq<DocId>,
    Seq<DocId>,
    Seq<DocId>,
)
    decreases es.len(),
{
    if es.len() == 0 {
        v
    } else {
        add_entry(add_entries(v, es.drop_last()), es.last())
    }
}

/// All postings of a run of groups, in order.
pub open spec fn group_entries(gs: Seq<Group>) -> Seq<Entry>
    decreases gs.len(),
{
    if gs.len() == 0 {
        Seq::empty()
    } else {
        group_entries(gs.drop_last()) + gs.last().1
    }
}

/// The empty postings list.
pub open spec fn empty_view() -> (Seq<DocId>, Seq<DocId>, Seq<DocId>) {
    (Seq::empty(), Seq::empty(), Seq::empty())
}

pub proof fn lemma_add_entries_concat(
    v: (Seq<DocId>, Seq<DocId>, Seq<DocId>),
    a: Seq<Entry>,
    b: Seq<Entry>,
)
    ensures
        add_entries(v, a + b) == add_entries(add_entries(v, a), b),
    decreases b.len(),
{
    if b.len() == 0 {
        assert(a + b =~= a);
    } else {
        lemma_add_entries_concat(v, a, b.drop_last());
        assert((a + b).drop_last() =~= a + b.drop_last());
        assert((a + b).last() == b.last());
    }
}

/// Appending postings appends their documents and positions.
pub proof fn lemma_add_entries_parts(v: (Seq<DocId>, Seq<DocId>, Seq<DocId>), es: Seq<Entry>)
    ensures
        add_entries(v, es).0 == v.0 + es.map_values(|e: Entry| e.0),
        add_entries(v, es).2.len() >= v.2.len(),
        add_entries(v, es).2.subrange(0, v.2.len() as int) == v.2,
        forall|p: DocId| #[trigger] add_entries(v, es).2.contains(p) <==> (v.2.contains(p) || exists|k: int|
            0 <= k < es.len() && #[trigger] es[k].2.contains(p)),
    decreases es.len(),
{
    if es.len() > 0 {
        let init = es.drop_last();
        lemma_add_entries_parts(v, init);
        let w = add_entries(v, init);
        assert(es.map_values(|e: Entry| e.0) =~= init.map_values(|e: Entry| e.0).push(es.last().0));
        assert((w.2 + es.last().2).subrange(0, v.2.len() as int) =~= w.2.subrange(0, v.2.len() as int));
        assert forall|p: DocId| #[trigger] add_entries(v, es).2.contains(p) <==> (v.2.contains(p) || exists|k: int|
            0 <= k < es.len() && #[trigger] es[k].2.contains(p)) by {
            let x = w.2 + es.last().2;
            if x.contains(p) {
                let j = choose|j: int| 0 <= j < x.len() && x[j] == p;
                if j < w.2.len() {
                    assert(w.2.contains(p));
                    if !v.2.contains(p) {
                        let k = choose|k: int| 0 <= k < init.len() && #[trigger] init[k].2.contains(p);
                        assert(es[k] == init[k]);
                    }
                } else {
                    assert(es.last().2[j - w.2.len()] == p);
                    assert(es[es.len() - 1].2.contains(p));
                }
            }
            if v.2.contains(p) {
                assert(w.2.contains(p));
                let j = choose|j: int| 0 <= j < w.2.len() && w.2[j] == p;
                assert(x[j] == p);
            }
            if exists|k: int| 0 <= k < es.len() && #[trigger] es[k].2.contains(p) {
                let k = choose|k: int| 0 <= k < es.len() && #[trigger] es[k].2.contains(p);
                if k < es.len() - 1 {
                    assert(init[k] == es[k]);
                    assert(w.2.contains(p));
                    let j = choose|j: int| 0 <= j < w.2.len() && w.2[j] == p;
                    assert(x[j] == p);
                } else {
                    let j = choose|j: int| 0 <= j < es[k].2.len() && es[k].2[j] == p;
                    assert(x[w.2.len() + j] == p);
                }
            }
        }
    } else {
        assert(es.map_values(|e: Entry| e.0) =~= Seq::<DocId>::empty());
        assert(v.0 + Seq::<DocId>::empty() =~= v.0);
        assert(v.2.subrange(0, v.2.len() as int) =~= v.2);
    }
}

pub proof fn lemma_group_entries_push(gs: Seq<Group>, g: Group)
    ensures
        group_entries(gs.push(g)) == group_entries(gs) + g.1,
{
    assert(gs.push(g).drop_last() =~= gs);
}

/// A run of groups holds a posting exactly when one of its groups does.
pub proof fn lemma_group_entries_contains_any(gs: Seq<Group>, e: Entry)
    ensures
        group_entries(gs).contains(e) <==> exists|i: int| 0 <= i < gs.len() && #[trigger] gs[i].1.contains(e),
{
    crate::merge::lemma_group_entries_contains(gs, e);
}

/// An empty postings list.
pub fn empty_postings() -> (r: VecPostings)
    ensures
        pview(&r) == empty_view(),
{
    let r = VecPostings { docs: Vec::new(), tfs: Vec::new(), positions: Vec::new() };
    assert(pview(&r) =~= empty_view());
    r
}

/// Appends one posting to `result`.
pub fn push_entry(result: &mut VecPostings, doc: DocId, tf: DocId, positions: &Vec<DocId>)
    ensures
        pview(final(result)) == add_entry(pview(old(result)), (doc, tf, positions@)),
{
    result.docs.push(doc);
    result.tfs.push(tf);
    let mut i: usize = 0;
    let ghost start = result.positions@;
    while i < positions.len()
        invariant
            i <= positions.len(),
            result.positions@ == start + positions@.take(i as int),
            result.docs@ == old(result).docs@.push(doc),
            result.tfs@ == old(result).tfs@.push(tf),
            start == old(result).positions@,
        decreases positions.len() - i,
    {
        result.positions.push(positions[i]);
        assert(positions@.take(i + 1) =~= positions@.take(i as int).push(positions@[i as int]));
        i += 1;
    }
    assert(positions@.take(positions.len() as int) =~= positions@);
    assert(pview(result) =~= add_entry(pview(old(result)), (doc, tf, positions@)));
}

// ---------------------------------------------------------------------------
// Cursors
// ---------------------------------------------------------------------------

/// What a cursor is positioned on, and what it yields afterwards, once it has
/// been moved on to the first group whose document is at least `d`.
pub open spec fn seek_spec(upcoming: Seq<Group>, d: DocId) -> (Option<Group>, Seq<Group>) {
    let k = first_group_at_least(upcoming, d);
    if k < upcoming.len() {
        (Some(upcoming[k as int]), upcoming.skip(k + 1int))
    } else {
        (None, Seq::empty())
    }
}

/// Index of the first group whose document is at least `d`, or the length.
pub open spec fn first_group_at_least(gs: Seq<Group>, d: DocId) -> nat
    decreases gs.len(),
{
    if gs.len() == 0 {
        0
    } else if gs[0].0 >= d {
        0
    } else {
        1 + first_group_at_least(gs.drop_first(), d)
    }
}

pub proof fn lemma_first_group_at_least(gs: Seq<Group>, d: DocId)
    ensures
        first_group_at_least(gs, d) <= gs.len(),
        forall|i: int| 0 <= i < first_group_at_least(gs, d) ==> #[trigger] gs[i].0 < d,
        first_group_at_least(gs, d) < gs.len() ==> gs[first_group_at_least(gs, d) as int].0 >= d,
    decreases gs.len(),
{
    if gs.len() > 0 && gs[0].0 < d {
        lemma_first_group_at_least(gs.drop_first(), d);
        assert forall|i: int| 0 <= i < first_group_at_least(gs, d) implies #[trigger] gs[i].0 < d by {
            if i > 0 {
                assert(gs[i] == gs.drop_first()[i - 1]);
            }
        }
    }
}

/// A cursor walks over the postings of a term (or a combination of terms),
/// one document at a time.
///
/// `upcoming` lists the groups still ahead; `cur` is the group the cursor
/// stands on; `pending` says that the group has not been copied out yet.
pub trait PostingsCursor: Sized {
    spec fn wf(&self) -> bool;

    spec fn upcoming(&self) -> Seq<Group>;

    spec fn cur(&self) -> Option<Group>;

    spec fn pending(&self) -> bool;

    /// The estimate `remains` reports.
    spec fn size_hint(&self) -> nat;

    /// Whether `advance_to` stays on the current group when it already has the
    /// requested document.
    spec fn keeps_current() -> bool;

    /// Whether `remains` can compute its estimate.
    spec fn remains_ok(&self) -> bool;

    /// The count `catch_up` reports for the group the cursor stands on: a cursor over
    /// one list reports the document's term frequency, a merger the number of postings
    /// it hands out.
    spec fn caught_up(&self) -> nat;

    /// Document of the group the cursor stands on.
    fn current(&self) -> (r: DocId)
        requires
            self.wf(),
            self.cur() is Some,
        ensures
            r == self.cur().unwrap().0,
    ;

    /// Estimate of the groups still to come.
    fn remains(&self) -> (r: usize)
        requires
            self.wf(),
            self.remains_ok(),
        ensures
            r == self.size_hint(),
    ;

    /// Moves to the next group and returns its document.
    fn advance(&mut self) -> (r: Option<DocId>)
        requires
            old(self).wf(),
        ensures
            final(self).wf(),
            old(self).upcoming().len() > 0 ==> {
                &&& final(self).cur() == Some(old(self).upcoming()[0])
                &&& final(self).upcoming() == old(self).upcoming().drop_first()
                &&& r == Some(old(self).upcoming()[0].0)
                &&& final(self).pending()
            },
            old(self).upcoming().len() == 0 ==> {
                &&& final(self).cur() is None
                &&& final(self).upcoming() == old(self).upcoming()
                &&& r is None
            },
    ;

    /// Appends the postings of the current group to `result`; returns `caught_up`.
    fn catch_up(&mut self, result: &mut VecPostings) -> (r: usize)
        requires
            old(self).wf(),
            old(self).cur() is Some,
            old(self).pending(),
        ensures
            final(self).wf(),
            final(self).cur() == old(self).cur(),
            final(self).upcoming() == old(self).upcoming(),
            !final(self).pending(),
            pview(final(result)) == add_entries(pview(old(result)), old(self).cur().unwrap().1),
            r == old(self).caught_up(),
    ;

    /// Moves on to the first group whose document is at least `doc_id`.
    fn advance_to(&mut self, doc_id: DocId) -> (r: Option<DocId>)
        requires
            old(self).wf(),
        ensures
            final(self).wf(),
            (Self::keeps_current() && old(self).cur() is Some && old(self).cur().unwrap().0 == doc_id) ==> {
                &&& *final(self) == *old(self)
                &&& r == Some(doc_id)
            },
            !(Self::keeps_current() && old(self).cur() is Some && old(self).cur().unwrap().0 == doc_id) ==> {
                &&& (final(self).cur(), final(self).upcoming()) == seek_spec(
                    old(self).upcoming(),
                    doc_id,
                )
                &&& r == (match final(self).cur() {
                    Some(g) => Some(g.0),
                    None => None,
                })
                &&& final(self).cur() is Some ==> final(self).pending()
            },
    ;

    /// All postings of all groups still to come.
    fn collect(&mut self) -> (r: VecPostings)
        requires
            old(self).wf(),
        ensures
            final(self).wf(),
            pview(&r) == add_entries(empty_view(), group_entries(old(self).upcoming())),
            final(self).upcoming().len() == 0,
    {
        let mut result = empty_postings();
        let ghost start = self.upcoming();
        loop
            invariant
                self.wf(),
                start == old(self).upcoming(),
                start.len() >= self.upcoming().len(),
                self.upcoming() == start.skip(start.len() - self.upcoming().len()),
                pview(&result) == add_entries(
                    empty_view(),
                    group_entries(start.take(start.len() - self.upcoming().len())),
                ),
            decreases self.upcoming().len(),
        {
            let ghost before = self.upcoming();
            let ghost done = start.len() - before.len();
            match self.advance() {
                Some(_) => {
                    proof {
                        assert(before[0] == start[done]);
                        assert(self.upcoming() =~= start.skip(done + 1));
                    }
                    let _ = self.catch_up(&mut result);
                    proof {
                        let g = start[done];
                        assert(start.take(done).push(g) =~= start.take(done + 1));
                        lemma_group_entries_push(start.take(done), g);
                        lemma_add_entries_concat(
                            empty_view(),
                            group_entries(start.take(done)),
                            g.1,
                        );
                    }
                },
                None => {
                    proof {
                        assert(before.len() == 0);
                        assert(self.upcoming().len() == 0);
                        assert(start.take(start.len() as int) =~= start);
                        assert(pview(&result) == add_entries(empty_view(), group_entries(start)));
                    }
                    return result;
                },
            }
        }
    }
}

// ---------------------------------------------------------------------------
// Cursor over stored postings
// ---------------------------------------------------------------------------

/// A cursor over a postings list whose `tfs` hold cumulative offsets into
/// `positions`: document `i` owns positions `tfs[i] .. tfs[i + 1]`.
pub struct RawCursor<DS, TS, PS> {
    postings: Postings<DS, TS, PS>,
    ahead: usize,
    advanced: bool,
    tf_start: DocId,
    last_doc: Option<DocId>,
    cur_entry: Ghost<Entry>,
}

/// The postings of the document owning offsets `ext[j] .. ext[j + 1]`.
pub open spec fn raw_entry<PS: Sequence>(doc: DocId, ext: Seq<DocId>, j: int, positions: PS) -> Entry {
    (doc, (ext[j + 1] - ext[j]) as DocId, positions.sub_rest(ext[j] as int, ext[j + 1] - ext[j]))
}

/// Whether the offsets `ext[lo..=hi]` describe valid position ranges.
pub open spec fn offsets_ok<PS: Sequence>(ext: Seq<DocId>, lo: int, hi: int, positions: PS) -> bool {
    &&& 0 <= lo
    &&& hi < ext.len()
    &&& forall|i: int, j: int| lo <= i <= j <= hi ==> ext[i] <= ext[j]
    &&& forall|j: int| lo <= j <= hi ==> #[trigger] ext[j] <= usize::MAX
    &&& forall|j: int|
        lo <= j < hi ==> #[trigger] positions.sub_ok(ext[j] as int, ext[j + 1] - ext[j])
}

/// The groups of a fresh cursor over documents `docs`, offsets `tfs` and `positions`.
pub open spec fn raw_groups<PS: Sequence>(docs: Seq<DocId>, tfs: Seq<DocId>, positions: PS) -> Seq<
    Group,
> {
    Seq::new(docs.len(), |k: int| (docs[k], seq![raw_entry(docs[k], tfs, k, positions)]))
}

impl<DS: Sequence, TS: Sequence, PS: Sequence> RawCursor<DS, TS, PS> {
    /// Offsets, starting with the one where the next unread document's positions begin.
    pub closed spec fn ext(&self) -> Seq<DocId> {
        seq![self.tf_start] + self.postings.tfs.rest()
    }

    /// A cursor over `postings`; the first offset in `tfs` is read right away.
    pub fn new(postings: Postings<DS, TS, PS>) -> (r: Self)
        requires
            postings.docs.wf(),
            postings.tfs.wf(),
            postings.positions.wf(),
            postings.tfs.rest().len() >= postings.docs.rest().len() + 1,
            offsets_ok(postings.tfs.rest(), 0, postings.docs.rest().len() as int, postings.positions),
        ensures
            r.wf(),
            r.cur() is None,
            !r.pending(),
            r.upcoming() == raw_groups(postings.docs.rest(), postings.tfs.rest(), postings.positions),
            r.size_hint() == postings.docs.rest().len(),
    {
        let mut postings = postings;
        proof {
            postings.tfs.lemma_rest_len();
        }
        let ghost t = postings.tfs.rest();
        let first = postings.tfs.next();
        let tf_start = match first {
            Some(x) => x,
            None => {
                proof {
                    assert(false);
                }
                0
            },
        };
        let r = RawCursor {
            postings: postings,
            ahead: 0,
            advanced: false,
            tf_start: tf_start,
            last_doc: None,
            cur_entry: Ghost((0, 0, Seq::empty())),
        };
        assert(r.ext() =~= t);
        assert(r.upcoming() =~= raw_groups(r.postings.docs.rest(), t, r.postings.positions));
        r
    }
}

impl<DS: Sequence, TS: Sequence, PS: Sequence> PostingsCursor for RawCursor<DS, TS, PS> {
    closed spec fn wf(&self) -> bool {
        let d = self.postings.docs.rest();
        let ext = self.ext();
        &&& self.postings.docs.wf()
        &&& self.postings.tfs.wf()
        &&& self.postings.positions.wf()
        &&& ext.len() >= self.ahead + d.len() + 1
        &&& offsets_ok(
            ext,
            if self.ahead > 0 {
                self.ahead - 1
            } else {
                0
            },
            self.ahead + d.len(),
            self.postings.positions,
        )
        &&& self.advanced ==> self.ahead >= 1
        &&& self.advanced && self.last_doc is Some ==> self.cur_entry@ == raw_entry(
            self.last_doc->0,
            ext,
            self.ahead - 1,
            self.postings.positions,
        )
        &&& self.ahead + d.len() < usize::MAX
    }

    closed spec fn upcoming(&self) -> Seq<Group> {
        let d = self.postings.docs.rest();
        Seq::new(
            d.len(),
            |k: int|
                (d[k], seq![raw_entry(d[k], self.ext(), self.ahead + k, self.postings.positions)]),
        )
    }

    closed spec fn cur(&self) -> Option<Group> {
        match self.last_doc {
            Some(d) => Some((d, seq![self.cur_entry@])),
            None => None,
        }
    }

    closed spec fn pending(&self) -> bool {
        self.advanced
    }

    closed spec fn size_hint(&self) -> nat {
        self.postings.docs.rest().len()
    }

    open spec fn keeps_current() -> bool {
        true
    }

    open spec fn remains_ok(&self) -> bool {
        true
    }

    open spec fn caught_up(&self) -> nat {
        match self.cur() {
            Some(g) => if g.1.len() > 0 {
                (g.1[0].1 as usize) as nat
            } else {
                0
            },
            None => 0,
        }
    }

    fn current(&self) -> (r: DocId) {
        match self.last_doc {
            Some(d) => d,
            None => 0,
        }
    }

    fn remains(&self) -> (r: usize) {
        self.postings.docs.remains()
    }

    fn advance(&mut self) -> (r: Option<DocId>) {
        let r = self.postings.docs.next();
        match r {
            Some(d) => {
                self.advanced = true;
                self.ahead += 1;
                self.last_doc = Some(d);
                self.cur_entry = Ghost(raw_entry(d, self.ext(), self.ahead - 1, self.postings.positions));
                assert(self.ext() == old(self).ext());
                assert(old(self).upcoming().len() > 0);
                assert(old(self).upcoming()[0] == (d, seq![self.cur_entry@]));
                assert(self.cur() == Some(old(self).upcoming()[0]));
                assert(self.upcoming() =~= old(self).upcoming().drop_first());
                assert(self.pending());
            },
            None => {
                self.last_doc = None;
                assert(old(self).upcoming().len() == 0);
                assert(self.upcoming() =~= old(self).upcoming());
                assert(self.cur() is None);
            },
        }
        r
    }

    fn catch_up(&mut self, result: &mut VecPostings) -> (r: usize) {
        let ghost ext0 = self.ext();
        let ghost a = self.ahead as int;
        let mut start_tf = self.tf_start;
        let mut k: usize = 1;
        assert(old(self).pending());
        assert(old(self).advanced);
        assert(self.advanced);
        assert(self.ahead >= 1);
        assert(ext0.skip(1) =~= self.postings.tfs.rest());
        while k < self.ahead
            invariant
                1 <= k <= self.ahead,
                self.ahead == a,
                self.postings.tfs.wf(),
                self.postings.positions == old(self).postings.positions,
                self.postings.docs == old(self).postings.docs,
                self.last_doc == old(self).last_doc,
                self.cur_entry == old(self).cur_entry,
                self.advanced == old(self).advanced,
                self.tf_start == old(self).tf_start,
                self.postings.tfs.rest() == ext0.skip(k as int),
                start_tf == ext0[k - 1],
                ext0.len() >= a + 1,
                ext0 == seq![old(self).tf_start] + old(self).postings.tfs.rest(),
            decreases self.ahead - k,
        {
            let ghost before = self.postings.tfs.rest();
            match self.postings.tfs.next() {
                Some(x) => {
                    start_tf = x;
                },
                None => {
                    proof {
                        assert(false);
                    }
                },
            }
            assert(self.postings.tfs.rest() =~= ext0.skip(k + 1));
            k += 1;
        }
        let ghost before = self.postings.tfs.rest();
        let next_tf = match self.postings.tfs.next() {
            Some(x) => x,
            None => {
                proof {
                    assert(false);
                }
                0
            },
        };
        proof {
            assert(next_tf == ext0[a]);
            assert(self.postings.tfs.rest() =~= ext0.skip(a + 1));
        }
        let doc = match self.last_doc {
            Some(d) => d,
            None => 0,
        };
        assert(start_tf == ext0[a - 1]);
        assert(ext0[a - 1] <= ext0[a] <= usize::MAX);
        let tf = next_tf - start_tf;
        assert(tf as usize == tf);
        assert(start_tf as usize == start_tf);
        let mut positions = self.postings.positions.subsequence(start_tf as usize, tf as usize);
        let ghost pos_all = positions.rest();
        assert(pos_all == old(self).postings.positions.sub_rest(ext0[a - 1] as int, ext0[a] - ext0[a - 1]));
        let mut buf: Vec<DocId> = Vec::new();
        loop
            invariant
                positions.wf(),
                pos_all == buf@ + positions.rest(),
            ensures
                buf@ == pos_all,
            decreases positions.rest().len(),
        {
            let ghost b = positions.rest();
            match positions.next() {
                Some(p) => {
                    buf.push(p);
                    assert(pos_all =~= buf@ + positions.rest());
                },
                None => {
                    assert(buf@ =~= pos_all);
                    break;
                },
            }
        }
        push_entry(result, doc, tf, &buf);
        self.ahead = 0;
        self.advanced = false;
        self.tf_start = next_tf;
        proof {
            assert(start_tf == ext0[a - 1]);
            assert(ext0[a - 1] <= ext0[a]);
            assert(tf == ext0[a] - ext0[a - 1]);
            assert(start_tf as usize == start_tf);
            assert(buf@ == old(self).postings.positions.sub_rest(ext0[a - 1] as int, ext0[a] - ext0[a - 1]));
            assert(old(self).cur_entry@ == raw_entry(doc, ext0, a - 1, old(self).postings.positions));
            let e = (doc, tf, buf@);
            assert(old(self).cur().unwrap().1 =~= seq![e]);
            assert(seq![e].drop_last() =~= Seq::<Entry>::empty());
            assert(add_entries(pview(old(result)), Seq::<Entry>::empty()) == pview(old(result)));
            assert(self.ext() =~= ext0.skip(a));
            assert(self.upcoming() =~= old(self).upcoming());
            assert(old(self).cur().unwrap().1[0] == e);
            assert(old(self).caught_up() == (tf as usize) as nat);
        }
        tf as usize
    }

    fn advance_to(&mut self, align_to: DocId) -> (r: Option<DocId>) {
        if let Some(d) = self.last_doc {
            if d == align_to {
                return Some(align_to);
            }
        }
        let ghost start = self.upcoming();
        proof {
            lemma_first_group_at_least(start, align_to);
        }
        loop
            invariant
                self.wf(),
                start.len() >= self.upcoming().len(),
                self.upcoming() == start.skip(start.len() - self.upcoming().len()),
                forall|i: int| 0 <= i < start.len() - self.upcoming().len() ==> #[trigger] start[i].0
                    < align_to,
                first_group_at_least(start, align_to) <= start.len(),
                forall|i: int| 0 <= i < first_group_at_least(start, align_to) ==> #[trigger] start[i].0
                    < align_to,
                first_group_at_least(start, align_to) < start.len() ==> start[first_group_at_least(
                    start,
                    align_to,
                ) as int].0 >= align_to,
                !(Self::keeps_current() && old(self).cur() is Some && old(self).cur().unwrap().0 == align_to),
                start == old(self).upcoming(),
            decreases self.upcoming().len(),
        {
            let ghost before = self.upcoming();
            let ghost done = start.len() - before.len();
            match self.advance() {
                Some(x) => {
                    proof {
                        assert(start[done] == before[0]);
                        assert(self.upcoming() =~= start.skip(done + 1));
                    }
                    if x >= align_to {
                        proof {
                            let k = first_group_at_least(start, align_to);
                            if k < done {
                                assert(start[k as int].0 < align_to);
                            }
                            if k > done {
                                assert(start[done].0 < align_to);
                            }
                        }
                        return Some(x);
                    }
                },
                None => {
                    proof {
                        let k = first_group_at_least(start, align_to);
                        if k < start.len() {
                            assert(start[k as int].0 < align_to);
                        }
                    }
                    return None;
                },
            }
        }
    }
}

} // verus!
