use vstd::prelude::*;
use vstd::multiset::Multiset;
use crate::types::DocId;
use crate::postings::Group;
use crate::sequence::{Sequence, std_skip_n};
use crate::util::ascending;
use crate::merge_all::{
    Head, heads_total, is_first_min, first_min, after_pop, merge_run, lemma_first_min,
    lemma_heads_total_remove, lemma_heads_total_after_pop,
};

verus! {

// ---------------------------------------------------------------------------
// The order in which merged sequences hand out their items
// ---------------------------------------------------------------------------

/// An item, merged as a group that holds no postings: items leave a merge in the order
/// groups of the same documents would.
pub open spec fn item_group(d: DocId) -> Group {
    (d, Seq::empty())
}

/// A sequence in a merge: the item it stands on and the items after it.
pub open spec fn item_head(current: DocId, rest: Seq<DocId>) -> Head {
    (item_group(current), rest.map_values(|d: DocId| item_group(d)))
}

/// The items a merge hands out, each time the first smallest item of the frontier.
pub open spec fn merged_items(fr: Seq<Head>) -> Seq<DocId> {
    merge_run(fr).map_values(|g: Group| g.0)
}

/// The frontier of a merge of `ss` before any item was taken: each sequence with items,
/// in order, standing on its first item.
pub open spec fn start_heads<S: Sequence>(ss: Seq<S>) -> Seq<Head>
    decreases ss.len(),
{
    if ss.len() == 0 {
        Seq::empty()
    } else {
        let r = ss.last().rest();
        if r.len() > 0 {
            start_heads(ss.drop_last()).push(item_head(r[0], r.drop_first()))
        } else {
            start_heads(ss.drop_last())
        }
    }
}

/// Number of items the sequences `ss` still hold together.
pub open spec fn total_len<S: Sequence>(ss: Seq<S>) -> nat
    decreases ss.len(),
{
    if ss.len() == 0 {
        0
    } else {
        total_len(ss.drop_last()) + ss.last().rest().len()
    }
}

/// A frontier that is not empty has a first smallest position.
pub proof fn lemma_first_min_exists(fr: Seq<Head>)
    requires
        fr.len() > 0,
    ensures
        is_first_min(fr, first_min(fr)),
    decreases fr.len(),
{
    if fr.len() == 1 {
        assert(is_first_min(fr, 0));
    } else {
        let init = fr.drop_last();
        lemma_first_min_exists(init);
        let i0 = first_min(init);
        let last = fr.len() - 1;
        if fr[last].0.0 < fr[i0].0.0 {
            assert forall|j: int| 0 <= j < fr.len() implies fr[last].0.0 <= #[trigger] fr[j].0.0 by {
                if j < last {
                    assert(init[j] == fr[j]);
                }
            }
            assert forall|j: int| 0 <= j < last implies fr[last].0.0 < #[trigger] fr[j].0.0 by {
                assert(init[j] == fr[j]);
            }
            assert(is_first_min(fr, last));
        } else {
            assert forall|j: int| 0 <= j < fr.len() implies fr[i0].0.0 <= #[trigger] fr[j].0.0 by {
                if j < last {
                    assert(init[j] == fr[j]);
                }
            }
            assert forall|j: int| 0 <= j < i0 implies fr[i0].0.0 < #[trigger] fr[j].0.0 by {
                assert(init[j] == fr[j]);
            }
            assert(is_first_min(fr, i0));
        }
    }
}

/// A merge hands out as many groups as its frontier holds.
pub proof fn lemma_merge_run_len(fr: Seq<Head>)
    ensures
        merge_run(fr).len() == heads_total(fr),
    decreases heads_total(fr),
{
    if fr.len() > 0 {
        lemma_first_min_exists(fr);
        let i = first_min(fr);
        let p = fr[i];
        lemma_heads_total_remove(fr, i);
        let rest = after_pop(fr, i);
        if p.1.len() > 0 {
            let r = fr.remove(i);
            assert(r.push((p.1[0], p.1.drop_first())).drop_last() =~= r);
        }
        assert(heads_total(rest) + 1 == heads_total(fr));
        lemma_merge_run_len(rest);
    }
}

/// The frontier before the first item holds every item of the sequences.
pub proof fn lemma_start_heads_total<S: Sequence>(ss: Seq<S>)
    ensures
        heads_total(start_heads(ss)) == total_len(ss),
    decreases ss.len(),
{
    if ss.len() > 0 {
        lemma_start_heads_total(ss.drop_last());
        let r = ss.last().rest();
        if r.len() > 0 {
            let h = start_heads(ss.drop_last());
            assert(h.push(item_head(r[0], r.drop_first())).drop_last() =~= h);
        }
    }
}

/// Taking the first smallest item leaves the merge of the rest of the frontier.
pub proof fn lemma_merged_step(fr: Seq<Head>, i: int)
    requires
        is_first_min(fr, i),
    ensures
        merged_items(fr) == seq![fr[i].0.0] + merged_items(after_pop(fr, i)),
{
    lemma_first_min(fr, i);
    assert(merged_items(fr) =~= seq![fr[i].0.0] + merged_items(after_pop(fr, i)));
}

// ---------------------------------------------------------------------------
// Merging sequences
// ---------------------------------------------------------------------------

/// A sequence in a merge, standing on an item it has already taken.
struct SeqPointer<S> {
    sequence: S,
    current: DocId,
}

spec fn ptr_head<S: Sequence>(p: SeqPointer<S>) -> Head {
    item_head(p.current, p.sequence.rest())
}

spec fn frontier_heads<S: Sequence>(f: Seq<SeqPointer<S>>) -> Seq<Head> {
    f.map_values(|p: SeqPointer<S>| ptr_head(p))
}

/// Merges several sequences into one that yields all their items, each time the
/// smallest of the items the sequences stand on (the first such one on a tie).
pub struct MergeEncoder<S> {
    frontier: Vec<SeqPointer<S>>,
    size: usize,
}

impl<S: Sequence> MergeEncoder<S> {
    /// Merges `sequences_to_merge`, of which at least one must hold an item.
    pub fn new(sequences_to_merge: &[S]) -> (r: Self)
        requires
            sequences_to_merge@.len() > 0,
            forall|i: int| 0 <= i < sequences_to_merge@.len() ==> (#[trigger] sequences_to_merge@[i]).wf(),
            exists|i: int| 0 <= i < sequences_to_merge@.len() && (#[trigger] sequences_to_merge@[i]).rest().len() > 0,
            total_len(sequences_to_merge@) <= usize::MAX,
        ensures
            r.wf(),
            r.rest() == merged_items(start_heads(sequences_to_merge@)),
            r.rest().len() == total_len(sequences_to_merge@),
    {
        let ghost ss = sequences_to_merge@;
        let mut frontier: Vec<SeqPointer<S>> = Vec::new();
        let mut size: usize = 0;
        let mut i: usize = 0;
        while i < sequences_to_merge.len()
            invariant
                ss == sequences_to_merge@,
                i <= ss.len(),
                forall|k: int| 0 <= k < ss.len() ==> (#[trigger] ss[k]).wf(),
                total_len(ss) <= usize::MAX,
                size == total_len(ss.take(i as int)),
                frontier_heads(frontier@) == start_heads(ss.take(i as int)),
                forall|k: int| 0 <= k < frontier@.len() ==> (#[trigger] frontier@[k]).sequence.wf(),
            decreases ss.len() - i,
        {
            proof {
                lemma_total_len_prefix(ss, i + 1);
                assert(ss.take(i + 1).drop_last() =~= ss.take(i as int));
                assert(ss.take(i + 1).last() == ss[i as int]);
            }
            let mut sequence = sequences_to_merge[i].duplicate();
            size = size + sequence.remains();
            let ghost r = sequence.rest();
            match sequence.next() {
                Some(first) => {
                    let ghost before = frontier@;
                    frontier.push(SeqPointer { sequence: sequence, current: first });
                    proof {
                        assert(frontier_heads(frontier@) =~= frontier_heads(before).push(item_head(r[0], r.drop_first())));
                    }
                },
                None => {},
            }
            i += 1;
        }
        proof {
            assert(ss.take(ss.len() as int) =~= ss);
            lemma_start_heads_total(ss);
            lemma_merge_run_len(start_heads(ss));
        }
        let r = MergeEncoder { frontier: frontier, size: size };
        assert(merged_items(start_heads(ss)).take(size as int) =~= merged_items(start_heads(ss)));
        r
    }

    /// Index of the first pointer that stands on the smallest item.
    fn first_smallest(&self) -> (r: usize)
        requires
            self.frontier@.len() > 0,
        ensures
            is_first_min(frontier_heads(self.frontier@), r as int),
    {
        let ghost h = frontier_heads(self.frontier@);
        let n = self.frontier.len();
        let mut best: usize = 0;
        let mut k: usize = 1;
        while k < n
            invariant
                n == self.frontier@.len(),
                h == frontier_heads(self.frontier@),
                best < k <= n,
                forall|j: int| 0 <= j < k ==> h[best as int].0.0 <= #[trigger] h[j].0.0,
                forall|j: int| 0 <= j < best ==> h[best as int].0.0 < #[trigger] h[j].0.0,
            decreases n - k,
        {
            if self.frontier[k].current < self.frontier[best].current {
                best = k;
            }
            k += 1;
        }
        best
    }
}

/// Items that `ss[..n]` hold together, from those of `ss[..n - 1]`.
proof fn lemma_total_len_prefix<S: Sequence>(ss: Seq<S>, n: int)
    requires
        0 < n <= ss.len(),
    ensures
        total_len(ss.take(n)) == total_len(ss.take(n - 1)) + ss[n - 1].rest().len(),
        total_len(ss.take(n)) <= total_len(ss),
    decreases ss.len() - n,
{
    assert(ss.take(n).drop_last() =~= ss.take(n - 1));
    if n < ss.len() {
        lemma_total_len_prefix(ss, n + 1);
    } else {
        assert(ss.take(n) =~= ss);
    }
}

impl<S: Sequence> Sequence for MergeEncoder<S> {
    closed spec fn rest(&self) -> Seq<DocId> {
        merged_items(frontier_heads(self.frontier@)).take(self.size as int)
    }

    closed spec fn wf(&self) -> bool {
        &&& forall|k: int| 0 <= k < self.frontier@.len() ==> (#[trigger] self.frontier@[k]).sequence.wf()
        &&& self.size <= merged_items(frontier_heads(self.frontier@)).len()
    }

    closed spec fn sub_ok(&self, start: int, len: int) -> bool {
        true
    }

    closed spec fn sub_rest(&self, start: int, len: int) -> Seq<DocId> {
        let s = self.rest();
        let a = if start <= s.len() {
            s.skip(start)
        } else {
            Seq::empty()
        };
        if len <= a.len() {
            a.take(len)
        } else {
            a
        }
    }

    closed spec fn skip_n_ok(&self, n: int) -> bool {
        true
    }

    closed spec fn skip_n_spec(&self, n: int) -> (Option<DocId>, Seq<DocId>) {
        std_skip_n(self.rest(), n)
    }

    closed spec fn skip_to_ok(&self) -> bool {
        true
    }

    closed spec fn position_ok(&self) -> bool {
        true
    }

    closed spec fn position_of(&self) -> Option<usize> {
        Some(0)
    }

    /// A merge does not read from one place, so it stands at the start.
    fn current_position(&self) -> (r: Option<usize>) {
        Some(0)
    }

    proof fn lemma_rest_len(&self) {
    }

    fn remains(&self) -> (r: usize) {
        self.size
    }

    /// A copy that first takes `start` items, then yields at most `len` more.
    fn subsequence(&self, start: usize, len: usize) -> (r: Self) {
        let ghost s = self.rest();
        let mut sub = self.duplicate();
        let mut k: usize = 0;
        while k < start
            invariant
                k <= start,
                sub.wf(),
                s == self.rest(),
                sub.rest() == (if k <= s.len() {
                    s.skip(k as int)
                } else {
                    Seq::empty()
                }),
            decreases start - k,
        {
            let ghost before = sub.rest();
            let _ = sub.next();
            proof {
                if k < s.len() {
                    assert(s.skip(k + 1) =~= s.skip(k as int).drop_first());
                } else if k == s.len() {
                    assert(s.skip(k as int) =~= Seq::<DocId>::empty());
                }
            }
            k += 1;
        }
        if len < sub.size {
            sub.size = len;
        }
        sub
    }

    fn next(&mut self) -> (r: Option<DocId>) {
        if self.size == 0 {
            assert(self.rest() =~= Seq::<DocId>::empty());
            return None;
        }
        let ghost h = frontier_heads(self.frontier@);
        if self.frontier.len() == 0 {
            assert(h =~= Seq::<Head>::empty());
            assert(merged_items(h) =~= Seq::<DocId>::empty());
            return None;
        }
        let i = self.first_smallest();
        proof {
            lemma_merged_step(h, i as int);
        }
        let ptr = self.frontier.remove(i);
        let current = ptr.current;
        let mut sequence = ptr.sequence;
        let ghost r = sequence.rest();
        let ghost removed = self.frontier@;
        assert(frontier_heads(removed) =~= h.remove(i as int));
        match sequence.next() {
            Some(d) => {
                let ghost nr = sequence.rest();
                let np = SeqPointer { sequence: sequence, current: d };
                proof {
                    let p1 = h[i as int].1;
                    assert(p1 =~= r.map_values(|x: DocId| item_group(x)));
                    assert(nr.map_values(|x: DocId| item_group(x)) =~= p1.drop_first());
                    assert(ptr_head(np) == (p1[0], p1.drop_first()));
                }
                self.frontier.push(np);
                proof {
                    assert(frontier_heads(self.frontier@) =~= frontier_heads(removed).push(ptr_head(np)));
                    assert(frontier_heads(self.frontier@) =~= after_pop(h, i as int));
                }
            },
            None => {
                proof {
                    assert(h[i as int].1 =~= r.map_values(|d: DocId| item_group(d)));
                    assert(frontier_heads(self.frontier@) =~= after_pop(h, i as int));
                }
            },
        }
        self.size = self.size - 1;
        assert(self.rest() =~= old(self).rest().drop_first());
        Some(current)
    }

    fn skip_n(&mut self, n: usize) -> (r: Option<DocId>) {
        let ghost start = self.rest();
        let mut n = n;
        let mut next: Option<DocId> = None;
        let ghost total = n as int;
        while n > 0
            invariant_except_break
                self.wf(),
                n <= total,
                total - n <= start.len(),
                self.rest() == start.skip(total - n),
                total > n ==> next == Some(start[total - n - 1]),
                total == n ==> next is None,
                start == old(self).rest(),
            ensures
                self.wf(),
                (next, self.rest()) == std_skip_n(start, total),
            decreases n,
        {
            next = self.next();
            if next.is_none() {
                break;
            }
            proof {
                assert(self.rest() =~= start.skip(total - n + 1));
            }
            n -= 1;
        }
        next
    }

    fn duplicate(&self) -> (r: Self) {
        let mut frontier: Vec<SeqPointer<S>> = Vec::new();
        let mut k: usize = 0;
        while k < self.frontier.len()
            invariant
                k <= self.frontier@.len(),
                frontier@.len() == k,
                forall|j: int| 0 <= j < self.frontier@.len() ==> (#[trigger] self.frontier@[j]).sequence.wf(),
                forall|j: int| 0 <= j < k ==> (#[trigger] frontier@[j]).sequence.wf(),
                forall|j: int| 0 <= j < k ==> ptr_head(#[trigger] frontier@[j]) == ptr_head(self.frontier@[j]),
            decreases self.frontier@.len() - k,
        {
            let p = &self.frontier[k];
            frontier.push(SeqPointer { sequence: p.sequence.duplicate(), current: p.current });
            k += 1;
        }
        assert(frontier_heads(frontier@) =~= frontier_heads(self.frontier@));
        MergeEncoder { frontier: frontier, size: self.size }
    }
}

// ---------------------------------------------------------------------------
// What a merge keeps
// ---------------------------------------------------------------------------

/// The items of a head, the one it stands on first.
pub open spec fn head_items(h: Head) -> Seq<DocId> {
    seq![h.0.0] + h.1.map_values(|g: Group| g.0)
}

/// All items of a frontier.
pub open spec fn frontier_items(fr: Seq<Head>) -> Multiset<DocId>
    decreases fr.len(),
{
    if fr.len() == 0 {
        Multiset::empty()
    } else {
        frontier_items(fr.drop_last()).add(head_items(fr.last()).to_multiset())
    }
}

/// All items of the sequences `ss`.
pub open spec fn all_items<S: Sequence>(ss: Seq<S>) -> Multiset<DocId>
    decreases ss.len(),
{
    if ss.len() == 0 {
        Multiset::empty()
    } else {
        all_items(ss.drop_last()).add(ss.last().rest().to_multiset())
    }
}

/// Every item of every head is at least `x`.
pub open spec fn all_at_least(fr: Seq<Head>, x: DocId) -> bool {
    forall|k: int, j: int|
        0 <= k < fr.len() && 0 <= j < head_items(fr[k]).len() ==> #[trigger] head_items(fr[k])[j] >= x
}

/// The items of every head never decrease.
pub open spec fn heads_sorted(fr: Seq<Head>) -> bool {
    forall|k: int| 0 <= k < fr.len() ==> ascending(#[trigger] head_items(fr[k]))
}

proof fn lemma_frontier_items_remove(fr: Seq<Head>, i: int)
    requires
        0 <= i < fr.len(),
    ensures
        frontier_items(fr) == frontier_items(fr.remove(i)).add(head_items(fr[i]).to_multiset()),
    decreases fr.len(),
{
    if i < fr.len() - 1 {
        lemma_frontier_items_remove(fr.drop_last(), i);
        assert(fr.remove(i).drop_last() =~= fr.drop_last().remove(i));
        assert(fr.remove(i).last() == fr.last());
        assert(frontier_items(fr) =~= frontier_items(fr.remove(i)).add(head_items(fr[i]).to_multiset()));
    } else {
        assert(fr.remove(i) =~= fr.drop_last());
    }
}

/// The head after the first one of `h`'s groups left it.
proof fn lemma_head_items_tail(h: Head)
    requires
        h.1.len() > 0,
    ensures
        head_items((h.1[0], h.1.drop_first())) == head_items(h).drop_first(),
{
    assert(head_items((h.1[0], h.1.drop_first())) =~= head_items(h).drop_first());
}

/// Handing out the first smallest item takes exactly that item out of the frontier.
proof fn lemma_frontier_items_after_pop(fr: Seq<Head>, i: int)
    requires
        0 <= i < fr.len(),
    ensures
        frontier_items(fr) == frontier_items(after_pop(fr, i)).insert(fr[i].0.0),
{
    broadcast use {
        vstd::seq_lib::lemma_multiset_commutative,
        vstd::multiset::group_multiset_axioms,
        vstd::multiset::group_multiset_properties,
        vstd::seq_lib::group_to_multiset_ensures,
    };
    lemma_frontier_items_remove(fr, i);
    let p = fr[i];
    let whole = head_items(p);
    assert(whole =~= seq![p.0.0] + whole.drop_first());
    assert(seq![p.0.0].to_multiset() =~= Multiset::empty().insert(p.0.0)) by {
        assert(seq![p.0.0] =~= Seq::<DocId>::empty().push(p.0.0));
        vstd::seq_lib::to_multiset_build(Seq::<DocId>::empty(), p.0.0);
    }
    if p.1.len() > 0 {
        lemma_head_items_tail(p);
        let r = fr.remove(i);
        let nh = (p.1[0], p.1.drop_first());
        assert(r.push(nh).drop_last() =~= r);
        assert(frontier_items(fr) =~= frontier_items(after_pop(fr, i)).insert(p.0.0));
    } else {
        assert(whole.drop_first() =~= Seq::<DocId>::empty());
        assert(frontier_items(fr) =~= frontier_items(after_pop(fr, i)).insert(p.0.0));
    }
}

/// A merge hands out every item of its frontier, each as often as the frontier holds it.
pub proof fn lemma_merged_items_multiset(fr: Seq<Head>)
    ensures
        merged_items(fr).to_multiset() == frontier_items(fr),
    decreases heads_total(fr),
{
    broadcast use {
        vstd::multiset::group_multiset_axioms,
        vstd::multiset::group_multiset_properties,
        vstd::seq_lib::group_to_multiset_ensures,
    };
    if fr.len() == 0 {
        assert(merged_items(fr) =~= Seq::<DocId>::empty());
        assert(merged_items(fr).to_multiset() =~= Multiset::<DocId>::empty());
    } else {
        lemma_first_min_exists(fr);
        let i = first_min(fr);
        lemma_merged_step(fr, i);
        lemma_heads_total_after_pop(fr, i);
        lemma_merged_items_multiset(after_pop(fr, i));
        lemma_frontier_items_after_pop(fr, i);
        let rest = merged_items(after_pop(fr, i));
        assert(merged_items(fr) =~= rest.insert(0, fr[i].0.0));
        vstd::seq_lib::to_multiset_insert(rest, 0, fr[i].0.0);
    }
}

/// Taking out the first smallest item keeps every remaining item at least `x`.
proof fn lemma_after_pop_at_least(fr: Seq<Head>, i: int, x: DocId)
    requires
        0 <= i < fr.len(),
        all_at_least(fr, x),
    ensures
        all_at_least(after_pop(fr, i), x),
{
    let p = fr[i];
    let ap = after_pop(fr, i);
    assert forall|k: int, j: int| 0 <= k < ap.len() && 0 <= j < head_items(ap[k]).len() implies #[trigger] head_items(ap[k])[j]
        >= x by {
        if k < fr.len() - 1 {
            let o = if k < i { k } else { k + 1 };
            assert(ap[k] == fr[o]);
            assert(head_items(fr[o])[j] >= x);
        } else {
            lemma_head_items_tail(p);
            assert(head_items(ap[k])[j] == head_items(p)[j + 1]);
            assert(head_items(fr[i])[j + 1] >= x);
        }
    }
}

/// A merge of heads whose items are all at least `x` hands out only such items.
proof fn lemma_merged_at_least(fr: Seq<Head>, x: DocId)
    requires
        all_at_least(fr, x),
    ensures
        forall|j: int| 0 <= j < merged_items(fr).len() ==> #[trigger] merged_items(fr)[j] >= x,
    decreases heads_total(fr),
{
    if fr.len() > 0 {
        lemma_first_min_exists(fr);
        let i = first_min(fr);
        lemma_merged_step(fr, i);
        lemma_heads_total_after_pop(fr, i);
        lemma_after_pop_at_least(fr, i, x);
        lemma_merged_at_least(after_pop(fr, i), x);
        assert(head_items(fr[i])[0] >= x);
        let m = merged_items(fr);
        assert forall|j: int| 0 <= j < m.len() implies #[trigger] m[j] >= x by {
            if j > 0 {
                assert(m[j] == merged_items(after_pop(fr, i))[j - 1]);
            }
        }
    }
}

/// A merge of heads whose items never decrease hands out items that never decrease.
pub proof fn lemma_merged_sorted(fr: Seq<Head>)
    requires
        heads_sorted(fr),
    ensures
        ascending(merged_items(fr)),
    decreases heads_total(fr),
{
    if fr.len() > 0 {
        lemma_first_min_exists(fr);
        let i = first_min(fr);
        let x = fr[i].0.0;
        lemma_merged_step(fr, i);
        lemma_heads_total_after_pop(fr, i);
        assert(all_at_least(fr, x)) by {
            assert forall|k: int, j: int| 0 <= k < fr.len() && 0 <= j < head_items(fr[k]).len() implies #[trigger] head_items(
                fr[k],
            )[j] >= x by {
                assert(ascending(head_items(fr[k])));
                assert(head_items(fr[k])[0] <= head_items(fr[k])[j]);
                assert(fr[i].0.0 <= fr[k].0.0);
            }
        }
        let ap = after_pop(fr, i);
        lemma_after_pop_at_least(fr, i, x);
        lemma_merged_at_least(ap, x);
        assert(heads_sorted(ap)) by {
            assert forall|k: int| 0 <= k < ap.len() implies ascending(#[trigger] head_items(ap[k])) by {
                if k < fr.len() - 1 {
                    let o = if k < i { k } else { k + 1 };
                    assert(ap[k] == fr[o]);
                    assert(ascending(head_items(fr[o])));
                } else {
                    lemma_head_items_tail(fr[i]);
                    let h = head_items(fr[i]);
                    assert(ascending(h));
                    assert forall|a: int, b: int| 0 <= a <= b < h.drop_first().len() implies h.drop_first()[a]
                        <= h.drop_first()[b] by {
                        assert(h[a + 1] <= h[b + 1]);
                    }
                }
            }
        }
        lemma_merged_sorted(ap);
        let m = merged_items(fr);
        let t = merged_items(ap);
        assert forall|a: int, b: int| 0 <= a <= b < m.len() implies m[a] <= m[b] by {
            if a == 0 {
                if b > 0 {
                    assert(m[b] == t[b - 1]);
                }
            } else {
                assert(m[a] == t[a - 1]);
                assert(m[b] == t[b - 1]);
            }
        }
    }
}

/// The frontier a merge of `ss` starts from holds the items of `ss`, and holds them
/// sorted where each sequence is.
proof fn lemma_start_heads_items<S: Sequence>(ss: Seq<S>)
    ensures
        frontier_items(start_heads(ss)) == all_items(ss),
        (forall|k: int| 0 <= k < ss.len() ==> ascending(#[trigger] ss[k].rest())) ==> heads_sorted(start_heads(ss)),
    decreases ss.len(),
{
    broadcast use {
        vstd::multiset::group_multiset_axioms,
        vstd::multiset::group_multiset_properties,
        vstd::seq_lib::group_to_multiset_ensures,
    };
    if ss.len() > 0 {
        let init = ss.drop_last();
        lemma_start_heads_items(init);
        let r = ss.last().rest();
        let h = start_heads(init);
        if (forall|k: int| 0 <= k < ss.len() ==> ascending(#[trigger] ss[k].rest())) {
            assert forall|k: int| 0 <= k < init.len() implies ascending(#[trigger] init[k].rest()) by {
                assert(init[k] == ss[k]);
            }
        }
        if r.len() > 0 {
            let nh = item_head(r[0], r.drop_first());
            assert(head_items(nh) =~= r);
            assert(h.push(nh).drop_last() =~= h);
            if (forall|k: int| 0 <= k < ss.len() ==> ascending(#[trigger] ss[k].rest())) {
                assert(ascending(ss[ss.len() - 1].rest()));
                assert forall|k: int| 0 <= k < h.push(nh).len() implies ascending(#[trigger] head_items(h.push(nh)[k])) by {
                    if k < h.len() {
                        assert(h.push(nh)[k] == h[k]);
                    }
                }
            }
        } else {
            assert(r.to_multiset() =~= Multiset::<DocId>::empty());
            assert(all_items(ss) =~= all_items(init));
        }
    }
}

/// Merging sequences hands out every item of every one of them, each as often as
/// they hold it together.
pub proof fn lemma_merge_keeps_items<S: Sequence>(ss: Seq<S>)
    ensures
        merged_items(start_heads(ss)).to_multiset() == all_items(ss),
{
    lemma_start_heads_items(ss);
    lemma_merged_items_multiset(start_heads(ss));
}

/// Merging sequences whose items never decrease hands out items that never decrease.
pub proof fn lemma_merge_sorted<S: Sequence>(ss: Seq<S>)
    requires
        forall|k: int| 0 <= k < ss.len() ==> ascending(#[trigger] ss[k].rest()),
    ensures
        ascending(merged_items(start_heads(ss))),
{
    lemma_start_heads_items(ss);
    lemma_merged_sorted(start_heads(ss));
}

} // verus!
