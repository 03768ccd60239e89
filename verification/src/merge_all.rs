use vstd::prelude::*;
use vstd::multiset::Multiset;
use crate::types::DocId;
use crate::util::ascending;
use crate::seq_merge::{
    frontier_items, head_items, heads_sorted, lemma_merged_items_multiset, lemma_merged_sorted,
};
use crate::postings::{
    PostingsCursor, VecPostings, Group, pview, add_entries, group_entries, empty_view,
    first_group_at_least, lemma_first_group_at_least,
};
use crate::merge::{
    FrontierPointer, frontier_ok, ptr_ok, ptr_doc, groups_ok, create_heap, pop_min, sum_hints,
};

verus! {

// ---------------------------------------------------------------------------
// The order in which a merge of cursors hands out groups
// ---------------------------------------------------------------------------

/// A cursor in a merge, seen as the group it stands on and the groups after it.
pub type Head = (Group, Seq<Group>);

/// Number of groups still held by a frontier.
pub open spec fn heads_total(fr: Seq<Head>) -> nat
    decreases fr.len(),
{
    if fr.len() == 0 {
        0
    } else {
        heads_total(fr.drop_last()) + 1 + fr.last().1.len()
    }
}

/// `i` is the first position whose group has the smallest document.
pub open spec fn is_first_min(fr: Seq<Head>, i: int) -> bool {
    &&& 0 <= i < fr.len()
    &&& forall|j: int| 0 <= j < fr.len() ==> fr[i].0.0 <= #[trigger] fr[j].0.0
    &&& forall|j: int| 0 <= j < i ==> fr[i].0.0 < #[trigger] fr[j].0.0
}

/// The first position whose group has the smallest document.
pub open spec fn first_min(fr: Seq<Head>) -> int {
    choose|i: int| is_first_min(fr, i)
}

/// The frontier after the cursor at `i` gave its group: it leaves its place and, if it
/// has more groups, comes back at the end standing on the next one.
pub open spec fn after_pop(fr: Seq<Head>, i: int) -> Seq<Head> {
    let p = fr[i];
    if p.1.len() > 0 {
        fr.remove(i).push((p.1[0], p.1.drop_first()))
    } else {
        fr.remove(i)
    }
}

pub proof fn lemma_heads_total_remove(fr: Seq<Head>, i: int)
    requires
        0 <= i < fr.len(),
    ensures
        heads_total(fr) == heads_total(fr.remove(i)) + 1 + fr[i].1.len(),
    decreases fr.len(),
{
    if i < fr.len() - 1 {
        lemma_heads_total_remove(fr.drop_last(), i);
        assert(fr.remove(i).drop_last() =~= fr.drop_last().remove(i));
        assert(fr.remove(i).last() == fr.last());
    } else {
        assert(fr.remove(i) =~= fr.drop_last());
    }
}

pub proof fn lemma_heads_total_after_pop(fr: Seq<Head>, i: int)
    requires
        0 <= i < fr.len(),
    ensures
        heads_total(after_pop(fr, i)) < heads_total(fr),
{
    lemma_heads_total_remove(fr, i);
    let p = fr[i];
    if p.1.len() > 0 {
        let r = fr.remove(i);
        assert(r.push((p.1[0], p.1.drop_first())).drop_last() =~= r);
    }
}

/// The groups a frontier hands out: each time the first group with the smallest document.
pub open spec fn merge_run(fr: Seq<Head>) -> Seq<Group>
    decreases heads_total(fr),
{
    if fr.len() == 0 {
        Seq::empty()
    } else {
        let i = first_min(fr);
        if is_first_min(fr, i) {
            proof {
                lemma_heads_total_after_pop(fr, i);
            }
            seq![fr[i].0] + merge_run(after_pop(fr, i))
        } else {
            Seq::empty()
        }
    }
}

/// There is one first smallest position, and `first_min` finds it.
pub proof fn lemma_first_min(fr: Seq<Head>, i: int)
    requires
        is_first_min(fr, i),
    ensures
        first_min(fr) == i,
{
    let k = first_min(fr);
    assert(is_first_min(fr, k));
    if k < i {
        assert(fr[i].0.0 < fr[k].0.0);
    } else if k > i {
        assert(fr[k].0.0 < fr[i].0.0);
    }
}

/// A pointer as the group it stands on and the groups after it.
pub open spec fn head_of<C: PostingsCursor>(p: FrontierPointer<C>) -> Head {
    (p.cursor.cur().unwrap(), p.cursor.upcoming())
}

/// The frontier as heads.
pub open spec fn heads<C: PostingsCursor>(ps: Seq<FrontierPointer<C>>) -> Seq<Head> {
    ps.map_values(|p: FrontierPointer<C>| head_of(p))
}

/// The heads of fresh cursors once each stands on its first group.
pub open spec fn initial_heads<C: PostingsCursor>(cs: Seq<C>) -> Seq<Head> {
    cs.map_values(|c: C| (c.upcoming()[0], c.upcoming().drop_first()))
}

/// What a cursor adds to the frontier once it has moved on from its group.
pub open spec fn next_heads<C: PostingsCursor>(c: C) -> Seq<Head> {
    if c.upcoming().len() > 0 {
        seq![(c.upcoming()[0], c.upcoming().drop_first())]
    } else {
        Seq::empty()
    }
}

/// Well-ordered groups stay well-ordered without their first one.
proof fn lemma_groups_ok_tail(g: Group, gs: Seq<Group>)
    requires
        groups_ok(seq![g] + gs),
    ensures
        groups_ok(gs),
{
    let all = seq![g] + gs;
    assert forall|i: int, j: int| 0 <= i < j < gs.len() implies gs[i].0 < gs[j].0 by {
        assert(gs[i] == all[i + 1] && gs[j] == all[j + 1]);
    }
    assert forall|i: int| 0 <= i < gs.len() implies #[trigger] gs[i].1.len() > 0 by {
        assert(gs[i] == all[i + 1]);
    }
    assert forall|i: int, k: int|
        #![trigger gs[i].1[k]]
        0 <= i < gs.len() && 0 <= k < gs[i].1.len() implies gs[i].1[k].0 == gs[i].0 && gs[i].1[k].2.len() > 0 by {
        assert(gs[i] == all[i + 1]);
    }
}

// ---------------------------------------------------------------------------
// Merging cursors, keeping every posting
// ---------------------------------------------------------------------------

/// Merges cursors into one that hands out every group of every cursor, by increasing
/// document; of groups with the same document, the one whose cursor has waited longest
/// comes first.
pub struct Merge<C> {
    frontier: Vec<FrontierPointer<C>>,
    current_ptr: Option<FrontierPointer<C>>,
    size: usize,
}

impl<C: PostingsCursor> Merge<C> {
    /// What the frontier will hold once the current cursor has moved on.
    pub closed spec fn pending_heads(&self) -> Seq<Head> {
        heads(self.frontier@) + match self.current_ptr {
            Some(p) => next_heads(p.cursor),
            None => Seq::empty(),
        }
    }

    /// Merges `to_merge`, whose cursors must each have at least one group ahead; the
    /// estimate of what remains is the sum of theirs.
    pub fn new(to_merge: Vec<C>) -> (r: Self)
        requires
            forall|i: int| 0 <= i < to_merge@.len() ==> #[trigger] to_merge@[i].wf(),
            forall|i: int| 0 <= i < to_merge@.len() ==> #[trigger] to_merge@[i].upcoming().len() > 0,
            forall|i: int| 0 <= i < to_merge@.len() ==> groups_ok(#[trigger] to_merge@[i].upcoming()),
            forall|i: int| 0 <= i < to_merge@.len() ==> #[trigger] to_merge@[i].remains_ok(),
            sum_hints(to_merge@) <= usize::MAX,
        ensures
            r.wf(),
            r.cur() is None,
            r.upcoming() == merge_run(initial_heads(to_merge@)),
            r.size_hint() == sum_hints(to_merge@),
    {
        let mut size: usize = 0;
        let mut i: usize = 0;
        while i < to_merge.len()
            invariant
                i <= to_merge@.len(),
                size == sum_hints(to_merge@.take(i as int)),
                sum_hints(to_merge@) <= usize::MAX,
                forall|j: int| 0 <= j < to_merge@.len() ==> #[trigger] to_merge@[j].wf(),
                forall|j: int| 0 <= j < to_merge@.len() ==> #[trigger] to_merge@[j].remains_ok(),
            decreases to_merge@.len() - i,
        {
            let x = to_merge[i].remains();
            proof {
                crate::merge::lemma_sum_hints_prefix(to_merge@, i + 1);
                assert(to_merge@.take(i + 1).drop_last() =~= to_merge@.take(i as int));
            }
            size = size + x;
            i += 1;
        }
        proof {
            assert(to_merge@.take(to_merge@.len() as int) =~= to_merge@);
        }
        Self::start(to_merge, size)
    }

    fn start(to_merge: Vec<C>, size: usize) -> (r: Self)
        requires
            forall|i: int| 0 <= i < to_merge@.len() ==> #[trigger] to_merge@[i].wf(),
            forall|i: int| 0 <= i < to_merge@.len() ==> #[trigger] to_merge@[i].upcoming().len() > 0,
            forall|i: int| 0 <= i < to_merge@.len() ==> groups_ok(#[trigger] to_merge@[i].upcoming()),
        ensures
            r.wf(),
            r.cur() is None,
            r.upcoming() == merge_run(initial_heads(to_merge@)),
            r.size == size,
    {
        let ghost orig = to_merge@;
        let frontier = create_heap(to_merge);
        let r = Merge { frontier: frontier, current_ptr: None, size: size };
        proof {
            assert(heads(frontier@) =~= initial_heads(orig));
            assert(r.pending_heads() =~= initial_heads(orig));
        }
        r
    }
}

impl<C: PostingsCursor> PostingsCursor for Merge<C> {
    closed spec fn wf(&self) -> bool {
        &&& frontier_ok(self.frontier@)
        &&& self.current_ptr matches Some(p) ==> {
            &&& p.cursor.wf()
            &&& p.cursor.cur() is Some
            &&& groups_ok(seq![p.cursor.cur().unwrap()] + p.cursor.upcoming())
        }
    }

    closed spec fn upcoming(&self) -> Seq<Group> {
        merge_run(self.pending_heads())
    }

    closed spec fn cur(&self) -> Option<Group> {
        match self.current_ptr {
            Some(p) => p.cursor.cur(),
            None => None,
        }
    }

    closed spec fn pending(&self) -> bool {
        match self.current_ptr {
            Some(p) => p.cursor.pending(),
            None => false,
        }
    }

    closed spec fn size_hint(&self) -> nat {
        self.size as nat
    }

    open spec fn keeps_current() -> bool {
        false
    }

    closed spec fn remains_ok(&self) -> bool {
        true
    }

    /// What the cursor the current group comes from reports.
    closed spec fn caught_up(&self) -> nat {
        match self.current_ptr {
            Some(p) => p.cursor.caught_up(),
            None => 0,
        }
    }

    fn current(&self) -> (r: DocId) {
        match &self.current_ptr {
            Some(p) => p.cursor.current(),
            None => 0,
        }
    }

    fn remains(&self) -> (r: usize) {
        self.size
    }

    fn advance(&mut self) -> (r: Option<DocId>) {
        let ghost fr0 = old(self).pending_heads();
        proof {
            assert(old(self).wf());
            assert(old(self).upcoming() == merge_run(fr0));
        }
        match self.current_ptr.take() {
            Some(mut ptr) => {
                let ghost c0 = ptr.cursor;
                let ghost before = self.frontier@;
                match ptr.cursor.advance() {
                    Some(_) => {
                        proof {
                            lemma_groups_ok_tail(c0.cur().unwrap(), c0.upcoming());
                            let up = c0.upcoming();
                            assert(seq![ptr.cursor.cur().unwrap()] + ptr.cursor.upcoming() =~= up);
                            assert(ptr_ok(ptr.cursor));
                        }
                        let ghost pushed = ptr;
                        self.frontier.push(ptr);
                        proof {
                            assert(heads(self.frontier@) =~= heads(before).push(head_of(ptr)));
                            assert(heads(self.frontier@) =~= fr0);
                            assert forall|i: int| 0 <= i < self.frontier@.len() implies #[trigger] ptr_ok(
                                self.frontier@[i].cursor,
                            ) by {
                                if i < before.len() {
                                    assert(self.frontier@[i] == before[i]);
                                    assert(frontier_ok(before));
                                    assert(ptr_ok(before[i].cursor));
                                } else {
                                    assert(self.frontier@[i] == pushed);
                                }
                            }
                        }
                    },
                    None => {
                        proof {
                            assert(heads(self.frontier@) =~= fr0);
                        }
                    },
                }
            },
            None => {
                proof {
                    assert(heads(self.frontier@) =~= fr0);
                }
            },
        }
        let ghost fr = self.frontier@;
        let popped = pop_min(&mut self.frontier);
        self.current_ptr = popped;
        match &self.current_ptr {
            Some(p) => {
                proof {
                    let i = choose|i: int| {
                        &&& 0 <= i < fr.len()
                        &&& popped == Some(fr[i])
                        &&& self.frontier@ == fr.remove(i)
                        &&& forall|j: int| 0 <= j < fr.len() ==> ptr_doc(fr[i]) <= #[trigger] ptr_doc(fr[j])
                        &&& forall|j: int| 0 <= j < i ==> ptr_doc(fr[i]) < #[trigger] ptr_doc(fr[j])
                    };
                    let hs = heads(fr);
                    assert(hs =~= fr0);
                    assert forall|j: int| 0 <= j < hs.len() implies hs[i].0.0 <= #[trigger] hs[j].0.0 by {
                        assert(ptr_doc(fr[i]) <= ptr_doc(fr[j]));
                    }
                    assert forall|j: int| 0 <= j < i implies hs[i].0.0 < #[trigger] hs[j].0.0 by {
                        assert(ptr_doc(fr[i]) < ptr_doc(fr[j]));
                    }
                    assert(is_first_min(hs, i));
                    lemma_first_min(hs, i);
                    assert(ptr_ok(fr[i].cursor));
                    assert(heads(self.frontier@) =~= hs.remove(i));
                    let c = fr[i].cursor;
                    assert(self.pending_heads() =~= after_pop(hs, i));
                    assert(merge_run(fr0) == seq![hs[i].0] + merge_run(after_pop(hs, i)));
                    assert(self.upcoming() =~= old(self).upcoming().drop_first());
                    assert forall|k: int| 0 <= k < self.frontier@.len() implies #[trigger] ptr_ok(
                        self.frontier@[k].cursor,
                    ) by {
                        if k < i {
                            assert(self.frontier@[k] == fr[k]);
                            assert(ptr_ok(fr[k].cursor));
                        } else {
                            assert(self.frontier@[k] == fr[k + 1]);
                            assert(ptr_ok(fr[k + 1].cursor));
                        }
                    }
                    assert(*p == fr[i]);
                    assert(self.cur() == Some(hs[i].0));
                    assert(self.cur() == Some(old(self).upcoming()[0]));
                    assert(self.pending());
                    assert(self.wf());
                }
                Some(p.cursor.current())
            },
            None => {
                proof {
                    assert(fr.len() == 0);
                    assert(fr0.len() == 0);
                    assert(self.pending_heads() =~= fr0);
                }
                None
            },
        }
    }

    fn catch_up(&mut self, result: &mut VecPostings) -> (r: usize) {
        proof {
            assert(old(self).wf());
            assert(old(self).pending());
            assert(old(self).cur() is Some);
        }
        let mut ptr = match self.current_ptr.take() {
            Some(p) => p,
            None => {
                proof {
                    assert(false);
                }
                return 0;
            },
        };
        let ghost c0 = ptr.cursor;
        proof {
            assert(old(self).cur() == c0.cur());
            assert(c0.pending());
            assert(c0.wf());
        }
        let r = ptr.cursor.catch_up(result);
        self.current_ptr = Some(ptr);
        proof {
            assert(self.pending_heads() =~= old(self).pending_heads());
            assert(self.cur() == old(self).cur());
            assert(self.upcoming() == old(self).upcoming());
            assert(!self.pending());
            assert(self.wf());
            assert(old(self).caught_up() == c0.caught_up());
        }
        r
    }

    fn advance_to(&mut self, doc_id: DocId) -> (r: Option<DocId>) {
        let ghost start = self.upcoming();
        proof {
            lemma_first_group_at_least(start, doc_id);
        }
        loop
            invariant
                self.wf(),
                start == old(self).upcoming(),
                start.len() >= self.upcoming().len(),
                self.upcoming() == start.skip(start.len() - self.upcoming().len()),
                forall|i: int| 0 <= i < start.len() - self.upcoming().len() ==> #[trigger] start[i].0
                    < doc_id,
                first_group_at_least(start, doc_id) <= start.len(),
                forall|i: int| 0 <= i < first_group_at_least(start, doc_id) ==> #[trigger] start[i].0
                    < doc_id,
                first_group_at_least(start, doc_id) < start.len() ==> start[first_group_at_least(
                    start,
                    doc_id,
                ) as int].0 >= doc_id,
            decreases self.upcoming().len(),
        {
            let ghost before = self.upcoming();
            let ghost done = start.len() - before.len();
            match self.advance() {
                Some(x) => {
                    proof {
                        assert(start[done] == before[0]);
                        assert(self.upcoming() =~= start.skip(done + 1));
                    }
                    if x >= doc_id {
                        proof {
                            let k = first_group_at_least(start, doc_id);
                            if k < done {
                                assert(start[k as int].0 < doc_id);
                            }
                            if k > done {
                                assert(start[done].0 < doc_id);
                            }
                        }
                        return Some(x);
                    }
                },
                None => {
                    proof {
                        let k = first_group_at_least(start, doc_id);
                        if k < start.len() {
                            assert(start[k as int].0 < doc_id);
                        }
                    }
                    return None;
                },
            }
        }
    }
}

/// Merges cursors in one pass, keeping every posting.
pub struct MergeUnrolled<C> {
    to_merge: Option<Vec<C>>,
}

impl<C: PostingsCursor> MergeUnrolled<C> {
    /// The cursors still to merge, if `collect` has not run yet.
    pub closed spec fn inputs(&self) -> Option<Seq<C>> {
        match self.to_merge {
            Some(v) => Some(v@),
            None => None,
        }
    }

    /// Prepares a merge of `to_merge`.
    pub fn new(to_merge: Vec<C>) -> (r: Self)
        ensures
            r.inputs() == Some(to_merge@),
    {
        MergeUnrolled { to_merge: Some(to_merge) }
    }

    /// Every posting of the inputs, group by group in the order `Merge` hands them out.
    pub fn collect(&mut self) -> (r: VecPostings)
        requires
            old(self).inputs() matches Some(cs) && {
                &&& forall|i: int| 0 <= i < cs.len() ==> #[trigger] cs[i].wf()
                &&& forall|i: int| 0 <= i < cs.len() ==> #[trigger] cs[i].upcoming().len() > 0
                &&& forall|i: int| 0 <= i < cs.len() ==> groups_ok(#[trigger] cs[i].upcoming())
            },
        ensures
            final(self).inputs() is None,
            pview(&r) == add_entries(
                empty_view(),
                group_entries(merge_run(initial_heads(old(self).inputs().unwrap()))),
            ),
    {
        let ghost cs = old(self).inputs().unwrap();
        let to_merge = match self.to_merge.take() {
            Some(v) => v,
            None => {
                proof {
                    assert(false);
                }
                Vec::new()
            },
        };
        assert(to_merge@ == cs);
        let mut merger = Merge::start(to_merge, 0);
        merger.collect()
    }
}

// ---------------------------------------------------------------------------
// What a merge of cursors hands out
// ---------------------------------------------------------------------------

/// The documents of all groups the cursors `cs` have ahead.
pub open spec fn all_docs<C: PostingsCursor>(cs: Seq<C>) -> Multiset<DocId>
    decreases cs.len(),
{
    if cs.len() == 0 {
        Multiset::empty()
    } else {
        all_docs(cs.drop_last()).add(cs.last().upcoming().map_values(|g: Group| g.0).to_multiset())
    }
}

proof fn lemma_initial_heads<C: PostingsCursor>(cs: Seq<C>)
    requires
        forall|i: int| 0 <= i < cs.len() ==> #[trigger] cs[i].upcoming().len() > 0,
    ensures
        frontier_items(initial_heads(cs)) == all_docs(cs),
        (forall|i: int| 0 <= i < cs.len() ==> groups_ok(#[trigger] cs[i].upcoming())) ==> heads_sorted(
            initial_heads(cs),
        ),
    decreases cs.len(),
{
    if cs.len() > 0 {
        let init = cs.drop_last();
        assert forall|i: int| 0 <= i < init.len() implies #[trigger] init[i].upcoming().len() > 0 by {
            assert(init[i] == cs[i]);
        }
        lemma_initial_heads(init);
        assert(initial_heads(cs).drop_last() =~= initial_heads(init));
        let up = cs.last().upcoming();
        assert(cs[cs.len() - 1].upcoming().len() > 0);
        let h = initial_heads(cs).last();
        assert(head_items(h) =~= up.map_values(|g: Group| g.0));
        if (forall|i: int| 0 <= i < cs.len() ==> groups_ok(#[trigger] cs[i].upcoming())) {
            assert forall|i: int| 0 <= i < init.len() implies groups_ok(#[trigger] init[i].upcoming()) by {
                assert(init[i] == cs[i]);
            }
            assert(groups_ok(cs[cs.len() - 1].upcoming()));
            let hs = initial_heads(cs);
            assert forall|k: int| 0 <= k < hs.len() implies ascending(#[trigger] head_items(hs[k])) by {
                if k < hs.len() - 1 {
                    assert(hs[k] == initial_heads(init)[k]);
                } else {
                    let d = head_items(h);
                    assert forall|a: int, b: int| 0 <= a <= b < d.len() implies d[a] <= d[b] by {
                        if a < b {
                            assert(up[a].0 < up[b].0);
                        }
                    }
                }
            }
        }
    }
}

/// A merge of cursors hands out the documents of all their groups, each as often as the
/// cursors have it together.
pub proof fn lemma_merge_keeps_documents<C: PostingsCursor>(cs: Seq<C>)
    requires
        forall|i: int| 0 <= i < cs.len() ==> #[trigger] cs[i].upcoming().len() > 0,
    ensures
        merge_run(initial_heads(cs)).map_values(|g: Group| g.0).to_multiset() == all_docs(cs),
{
    lemma_initial_heads(cs);
    lemma_merged_items_multiset(initial_heads(cs));
}

/// A merge of cursors whose documents increase hands out groups in document order.
pub proof fn lemma_merge_document_order<C: PostingsCursor>(cs: Seq<C>)
    requires
        forall|i: int| 0 <= i < cs.len() ==> #[trigger] cs[i].upcoming().len() > 0,
        forall|i: int| 0 <= i < cs.len() ==> groups_ok(#[trigger] cs[i].upcoming()),
    ensures
        ascending(merge_run(initial_heads(cs)).map_values(|g: Group| g.0)),
{
    lemma_initial_heads(cs);
    lemma_merged_sorted(initial_heads(cs));
}

} // verus!
