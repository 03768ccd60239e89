use vstd::prelude::*;
use crate::types::DocId;
use crate::util::ascending;
use crate::sequence::{Sequence, next_spec, std_skip_n};

verus! {

// ---------------------------------------------------------------------------
// Mathematical models of the codings
// ---------------------------------------------------------------------------

/// Differences of each element of `s` to its predecessor, the first one to `last`.
pub open spec fn deltas_after(last: DocId, s: Seq<DocId>) -> Seq<DocId> {
    Seq::new(
        s.len(),
        |k: int|
            (s[k] - (if k == 0 {
                last
            } else {
                s[k - 1]
            })) as DocId,
    )
}

/// Sum of all elements.
pub open spec fn sum(s: Seq<DocId>) -> int
    decreases s.len(),
{
    if s.len() == 0 {
        0
    } else {
        s[0] + sum(s.drop_first())
    }
}

/// Running totals of `s`, starting from `start`.
pub open spec fn running_sums(start: DocId, s: Seq<DocId>) -> Seq<DocId> {
    Seq::new(s.len(), |k: int| (start + sum(s.take(k + 1))) as DocId)
}

/// Each element lowered (`encode`) or raised by its position, counted from `p`.
pub open spec fn shift_by_position(p: int, s: Seq<DocId>, encode: bool) -> Seq<DocId> {
    Seq::new(
        s.len(),
        |k: int|
            if encode {
                (s[k] - (p + k)) as DocId
            } else {
                (s[k] + (p + k)) as DocId
            },
    )
}

/// Whether shifting `s` by positions from `p` stays within `DocId`.
pub open spec fn shift_fits(p: int, s: Seq<DocId>, encode: bool) -> bool {
    &&& 0 <= p
    &&& p + s.len() <= usize::MAX
    &&& forall|k: int|
        0 <= k < s.len() ==> if encode {
            #[trigger] s[k] >= p + k
        } else {
            s[k] + p + k <= DocId::MAX
        }
}

pub proof fn lemma_sum_nonneg(s: Seq<DocId>)
    ensures
        sum(s) >= 0,
    decreases s.len(),
{
    if s.len() > 0 {
        lemma_sum_nonneg(s.drop_first());
    }
}

/// Sums of prefixes grow with the prefix.
pub proof fn lemma_sum_take_le(s: Seq<DocId>, k: int)
    requires
        0 <= k <= s.len(),
    ensures
        sum(s.take(k)) <= sum(s),
    decreases s.len(),
{
    lemma_sum_nonneg(s);
    if k > 0 {
        lemma_sum_take_le(s.drop_first(), k - 1);
        assert(s.take(k).drop_first() =~= s.drop_first().take(k - 1));
    }
}

/// The sum of a prefix one longer adds the first element.
proof fn lemma_sum_take_first(s: Seq<DocId>, k: int)
    requires
        0 < k <= s.len(),
    ensures
        sum(s.take(k)) == s[0] + sum(s.drop_first().take(k - 1)),
{
    assert(s.take(k).drop_first() =~= s.drop_first().take(k - 1));
}

/// The sum of a prefix one longer adds the last element of that prefix.
pub proof fn lemma_sum_take_last(s: Seq<DocId>, k: int)
    requires
        0 <= k < s.len(),
    ensures
        sum(s.take(k + 1)) == sum(s.take(k)) + s[k],
    decreases k,
{
    if k > 0 {
        lemma_sum_take_last(s.drop_first(), k - 1);
        lemma_sum_take_first(s, k + 1);
        lemma_sum_take_first(s, k);
    } else {
        assert(s.take(1).drop_first() =~= Seq::<DocId>::empty());
        assert(s.take(0) =~= Seq::<DocId>::empty());
    }
}

proof fn lemma_running_sums_step(start: DocId, s: Seq<DocId>)
    requires
        s.len() > 0,
        start + sum(s) <= DocId::MAX,
    ensures
        running_sums(start, s).drop_first() == running_sums((start + s[0]) as DocId, s.drop_first()),
        running_sums(start, s)[0] == start + s[0],
        start + s[0] + sum(s.drop_first()) <= DocId::MAX,
{
    lemma_sum_nonneg(s.drop_first());
    assert(s.take(1).drop_first() =~= Seq::<DocId>::empty());
    assert(sum(s.take(1)) == s[0] + sum(s.take(1).drop_first()));
    assert(sum(Seq::<DocId>::empty()) == 0);
    assert forall|k: int| 0 <= k < s.len() - 1 implies running_sums(start, s).drop_first()[k]
        == #[trigger] running_sums((start + s[0]) as DocId, s.drop_first())[k] by {
        lemma_sum_take_first(s, k + 2);
    }
    assert(running_sums(start, s).drop_first() =~= running_sums(
        (start + s[0]) as DocId,
        s.drop_first(),
    ));
}

proof fn lemma_sum_of_deltas(last: DocId, s: Seq<DocId>)
    requires
        ascending(seq![last] + s),
    ensures
        forall|k: int|
            0 <= k < s.len() ==> last + sum(#[trigger] deltas_after(last, s).take(k + 1)) == s[k],
    decreases s.len(),
{
    let d = deltas_after(last, s);
    if s.len() > 0 {
        lemma_ascending_tail(last, s);
        let t = s.drop_first();
        lemma_sum_of_deltas(s[0], t);
        let dt = deltas_after(s[0], t);
        assert(d.drop_first() =~= dt);
        assert forall|k: int| 0 <= k < s.len() implies last + sum(
            #[trigger] deltas_after(last, s).take(k + 1),
        ) == s[k] by {
            lemma_sum_take_first(d, k + 1);
            if k == 0 {
                assert(d.drop_first().take(0) =~= Seq::<DocId>::empty());
            } else {
                assert(s[0] + sum(dt.take(k)) == t[k - 1]);
            }
        }
    }
}

/// Summing differences recovers the elements: decoding running sums undoes delta coding.
pub proof fn lemma_running_sums_of_deltas(last: DocId, s: Seq<DocId>)
    requires
        ascending(seq![last] + s),
    ensures
        running_sums(last, deltas_after(last, s)) == s,
{
    lemma_sum_of_deltas(last, s);
    assert(running_sums(last, deltas_after(last, s)) =~= s);
}

/// Lowering by position and raising again gives the elements back.
pub proof fn lemma_shift_roundtrip(p: int, s: Seq<DocId>)
    requires
        shift_fits(p, s, true),
    ensures
        shift_fits(p, shift_by_position(p, s, true), false),
        shift_by_position(p, shift_by_position(p, s, true), false) == s,
{
    let e = shift_by_position(p, s, true);
    assert forall|k: int| 0 <= k < s.len() implies #[trigger] e[k] + p + k <= DocId::MAX && e[k]
        + p + k == s[k] by {
        assert(s[k] >= p + k);
        assert(e[k] == (s[k] - (p + k)) as DocId);
        assert(0 <= s[k] - (p + k) <= DocId::MAX);
    }
    assert(shift_by_position(p, e, false) =~= s);
}

// ---------------------------------------------------------------------------
// Delta encoder
// ---------------------------------------------------------------------------

/// Turns a non-decreasing sequence into the gaps between its neighbours; the first
/// element is only used as the base of the first gap.
#[derive(Clone)]
pub struct DeltaEncoder<S> {
    seq: S,
    last: DocId,
}

/// A delta-coded sequence is decoded by running sums.
pub type DeltaDecoder<S> = CumEncoder<S>;

/// Running sums are undone by delta coding.
pub type CumDecoder<S> = DeltaEncoder<S>;

impl<S: Sequence> DeltaEncoder<S> {
    /// The encoder's last seen element.
    pub closed spec fn last_seen(&self) -> DocId {
        self.last
    }

    /// The sequence being encoded.
    pub closed spec fn source(&self) -> S {
        self.seq
    }

    /// What `subsequence(start, len)` may take and yields: the gaps within `len + 1`
    /// items of the sequence being encoded, which must not decrease.
    pub proof fn lemma_sub(&self, start: int, len: int)
        ensures
            self.sub_ok(start, len) <==> {
                &&& len < usize::MAX
                &&& self.source().sub_ok(start, len + 1)
                &&& self.source().sub_rest(start, len + 1).len() > 0
                &&& ascending(self.source().sub_rest(start, len + 1))
            },
            self.sub_rest(start, len) == deltas_after(
                self.source().sub_rest(start, len + 1)[0],
                self.source().sub_rest(start, len + 1).drop_first(),
            ),
    {
    }

    /// Encodes `seq`, whose first item becomes the base of the first gap.
    pub fn new(seq: S) -> (r: Self)
        requires
            seq.wf(),
            seq.rest().len() > 0,
            ascending(seq.rest()),
        ensures
            r.wf(),
            r.last_seen() == seq.rest()[0],
            r.rest() == deltas_after(seq.rest()[0], seq.rest().drop_first()),
    {
        let mut seq = seq;
        let ghost items = seq.rest();
        let first = seq.next();
        let last = match first {
            Some(x) => x,
            None => {
                proof {
                    assert(false);
                }
                0
            },
        };
        assert(seq![last] + seq.rest() =~= items);
        DeltaEncoder { seq: seq, last: last }
    }
}

proof fn lemma_ascending_tail(x: DocId, s: Seq<DocId>)
    requires
        ascending(seq![x] + s),
        s.len() > 0,
    ensures
        ascending(seq![s[0]] + s.drop_first()),
        x <= s[0],
{
    assert(seq![s[0]] + s.drop_first() =~= s);
    assert((seq![x] + s)[0] <= (seq![x] + s)[1]);
    assert forall|i: int, j: int| 0 <= i <= j < s.len() implies s[i] <= s[j] by {
        assert(s[i] == (seq![x] + s)[i + 1]);
        assert(s[j] == (seq![x] + s)[j + 1]);
    }
}

impl<S: Sequence> Sequence for DeltaEncoder<S> {
    closed spec fn rest(&self) -> Seq<DocId> {
        deltas_after(self.last, self.seq.rest())
    }

    closed spec fn wf(&self) -> bool {
        self.seq.wf() && ascending(seq![self.last] + self.seq.rest())
    }

    closed spec fn sub_ok(&self, start: int, len: int) -> bool {
        &&& len < usize::MAX
        &&& self.seq.sub_ok(start, len + 1)
        &&& self.seq.sub_rest(start, len + 1).len() > 0
        &&& ascending(self.seq.sub_rest(start, len + 1))
    }

    closed spec fn sub_rest(&self, start: int, len: int) -> Seq<DocId> {
        let s = self.seq.sub_rest(start, len + 1);
        deltas_after(s[0], s.drop_first())
    }

    closed spec fn skip_n_ok(&self, n: int) -> bool {
        &&& n > 0
        &&& self.seq.skip_n_ok(n - 1)
        &&& match self.seq.skip_n_spec(n - 1) {
            (Some(l), r1) => ascending(seq![l] + r1),
            (None, r1) => ascending(seq![self.last] + r1),
        }
    }

    closed spec fn skip_n_spec(&self, n: int) -> (Option<DocId>, Seq<DocId>) {
        match self.seq.skip_n_spec(n - 1) {
            (Some(l), r1) => next_spec(deltas_after(l, r1)),
            (None, r1) => (None, deltas_after(self.last, r1)),
        }
    }

    closed spec fn skip_to_ok(&self) -> bool {
        true
    }

    closed spec fn position_ok(&self) -> bool {
        &&& self.seq.position_ok()
        &&& self.seq.position_of() matches Some(p) ==> p >= 1
    }

    closed spec fn position_of(&self) -> Option<usize> {
        match self.seq.position_of() {
            Some(p) => Some((p - 1) as usize),
            None => None,
        }
    }

    /// One before where the underlying sequence stands, which is past the base item.
    fn current_position(&self) -> (r: Option<usize>) {
        match self.seq.current_position() {
            Some(p) => Some(p - 1),
            None => None,
        }
    }

    proof fn lemma_rest_len(&self) {
        self.seq.lemma_rest_len();
    }

    fn remains(&self) -> (r: usize) {
        self.seq.remains()
    }

    fn subsequence(&self, start: usize, len: usize) -> (r: Self) {
        Self::new(self.seq.subsequence(start, len + 1))
    }

    fn next(&mut self) -> (r: Option<DocId>) {
        let ghost old_rest = self.seq.rest();
        if let Some(next) = self.seq.next() {
            proof {
                lemma_ascending_tail(self.last, old_rest);
            }
            let last = self.last;
            self.last = next;
            assert(self.rest() =~= old(self).rest().drop_first());
            Some(next - last)
        } else {
            None
        }
    }

    fn skip_n(&mut self, n: usize) -> (r: Option<DocId>) {
        if let Some(last) = self.seq.skip_n(n - 1) {
            self.last = last;
            self.next()
        } else {
            None
        }
    }

    fn duplicate(&self) -> (r: Self) {
        DeltaEncoder { seq: self.seq.duplicate(), last: self.last }
    }
}

// ---------------------------------------------------------------------------
// Difference sequence that tolerates an empty input
// ---------------------------------------------------------------------------

/// Gaps between neighbouring items of a non-decreasing sequence.
pub struct CumSequence<S> {
    seq: S,
    last: Option<DocId>,
}

impl<S: Sequence> CumSequence<S> {
    /// The sequence whose gaps are taken.
    pub closed spec fn source(&self) -> S {
        self.seq
    }

    /// What `subsequence(start, len)` may take and yields: the gaps within `len + 1`
    /// items of the underlying sequence, which must not decrease.
    pub proof fn lemma_sub(&self, start: int, len: int)
        ensures
            self.sub_ok(start, len) <==> {
                &&& len < usize::MAX
                &&& self.source().sub_ok(start, len + 1)
                &&& ascending(self.source().sub_rest(start, len + 1))
            },
            self.sub_rest(start, len) == (if self.source().sub_rest(start, len + 1).len() > 0 {
                deltas_after(
                    self.source().sub_rest(start, len + 1)[0],
                    self.source().sub_rest(start, len + 1).drop_first(),
                )
            } else {
                Seq::empty()
            }),
    {
    }

    /// Gaps of `seq`; an empty `seq` gives an empty sequence.
    pub fn new(seq: S) -> (r: Self)
        requires
            seq.wf(),
            ascending(seq.rest()),
        ensures
            r.wf(),
            r.rest() == (if seq.rest().len() > 0 {
                deltas_after(seq.rest()[0], seq.rest().drop_first())
            } else {
                Seq::empty()
            }),
    {
        let mut seq = seq;
        let ghost items = seq.rest();
        let last = seq.next();
        proof {
            if items.len() > 0 {
                assert(seq![items[0]] + seq.rest() =~= items);
            }
        }
        CumSequence { seq: seq, last: last }
    }
}

impl<S: Sequence> Sequence for CumSequence<S> {
    closed spec fn rest(&self) -> Seq<DocId> {
        match self.last {
            Some(l) => deltas_after(l, self.seq.rest()),
            None => Seq::empty(),
        }
    }

    closed spec fn wf(&self) -> bool {
        &&& self.seq.wf()
        &&& match self.last {
            Some(l) => ascending(seq![l] + self.seq.rest()),
            None => self.seq.rest().len() == 0,
        }
    }

    closed spec fn sub_ok(&self, start: int, len: int) -> bool {
        &&& len < usize::MAX
        &&& self.seq.sub_ok(start, len + 1)
        &&& ascending(self.seq.sub_rest(start, len + 1))
    }

    closed spec fn sub_rest(&self, start: int, len: int) -> Seq<DocId> {
        let s = self.seq.sub_rest(start, len + 1);
        if s.len() > 0 {
            deltas_after(s[0], s.drop_first())
        } else {
            Seq::empty()
        }
    }

    closed spec fn skip_n_ok(&self, n: int) -> bool {
        &&& n > 0
        &&& self.seq.skip_n_ok(n - 1)
        &&& match self.seq.skip_n_spec(n - 1) {
            (Some(l), r1) => ascending(seq![l] + r1),
            (None, r1) => r1.len() == 0,
        }
    }

    closed spec fn skip_n_spec(&self, n: int) -> (Option<DocId>, Seq<DocId>) {
        match self.seq.skip_n_spec(n - 1) {
            (Some(l), r1) => next_spec(deltas_after(l, r1)),
            (None, r1) => (None, Seq::empty()),
        }
    }

    /// Moving to a document id is not possible in a sequence of gaps.
    closed spec fn skip_to_ok(&self) -> bool {
        false
    }

    closed spec fn position_ok(&self) -> bool {
        &&& self.seq.position_ok()
        &&& self.seq.position_of() matches Some(p) ==> p >= 1
    }

    closed spec fn position_of(&self) -> Option<usize> {
        match self.seq.position_of() {
            Some(p) => Some((p - 1) as usize),
            None => None,
        }
    }

    /// One before where the underlying sequence stands, which is past the base item.
    fn current_position(&self) -> (r: Option<usize>) {
        match self.seq.current_position() {
            Some(p) => Some(p - 1),
            None => None,
        }
    }

    proof fn lemma_rest_len(&self) {
        self.seq.lemma_rest_len();
    }

    fn remains(&self) -> (r: usize) {
        self.seq.remains()
    }

    fn subsequence(&self, start: usize, len: usize) -> (r: Self) {
        Self::new(self.seq.subsequence(start, len + 1))
    }

    fn next(&mut self) -> (r: Option<DocId>) {
        let ghost old_rest = self.seq.rest();
        if let Some(next) = self.seq.next() {
            if let Some(last) = self.last {
                proof {
                    lemma_ascending_tail(last, old_rest);
                }
                self.last = Some(next);
                assert(self.rest() =~= old(self).rest().drop_first());
                return Some(next - last);
            }
        }
        None
    }

    fn skip_n(&mut self, n: usize) -> (r: Option<DocId>) {
        self.last = self.seq.skip_n(n - 1);
        self.next()
    }

    fn skip_to(&mut self, doc_id: DocId) -> (r: Option<DocId>) {
        proof {
            assert(false);
        }
        None
    }

    fn duplicate(&self) -> (r: Self) {
        CumSequence { seq: self.seq.duplicate(), last: self.last }
    }
}

// ---------------------------------------------------------------------------
// Running-sum encoder
// ---------------------------------------------------------------------------

/// Turns a sequence of gaps into the running totals, starting from a given value.
#[derive(Clone)]
pub struct CumEncoder<S> {
    seq: S,
    cum: DocId,
}

impl<S: Sequence> CumEncoder<S> {
    /// The sequence whose running totals are taken.
    pub closed spec fn source(&self) -> S {
        self.seq
    }

    /// What `subsequence(start, len)` may take and yields: the running totals, from
    /// zero, of `len` items of the underlying sequence, as long as they fit.
    pub proof fn lemma_sub(&self, start: int, len: int)
        ensures
            self.sub_ok(start, len) <==> self.source().sub_ok(start, len) && sum(
                self.source().sub_rest(start, len),
            ) <= DocId::MAX,
            self.sub_rest(start, len) == running_sums(0, self.source().sub_rest(start, len)),
    {
    }

    /// Running totals of `seq` added to `start_from`.
    pub fn new(start_from: DocId, seq: S) -> (r: Self)
        requires
            seq.wf(),
            start_from + sum(seq.rest()) <= DocId::MAX,
        ensures
            r.wf(),
            r.rest() == running_sums(start_from, seq.rest()),
    {
        CumEncoder { seq: seq, cum: start_from }
    }
}

impl<S: Sequence> Sequence for CumEncoder<S> {
    closed spec fn rest(&self) -> Seq<DocId> {
        running_sums(self.cum, self.seq.rest())
    }

    closed spec fn wf(&self) -> bool {
        self.seq.wf() && self.cum + sum(self.seq.rest()) <= DocId::MAX
    }

    closed spec fn sub_ok(&self, start: int, len: int) -> bool {
        self.seq.sub_ok(start, len) && sum(self.seq.sub_rest(start, len)) <= DocId::MAX
    }

    closed spec fn sub_rest(&self, start: int, len: int) -> Seq<DocId> {
        running_sums(0, self.seq.sub_rest(start, len))
    }

    closed spec fn skip_n_ok(&self, n: int) -> bool {
        true
    }

    closed spec fn skip_n_spec(&self, n: int) -> (Option<DocId>, Seq<DocId>) {
        std_skip_n(self.rest(), n)
    }

    closed spec fn skip_to_ok(&self) -> bool {
        true
    }

    closed spec fn position_ok(&self) -> bool {
        self.seq.position_ok()
    }

    closed spec fn position_of(&self) -> Option<usize> {
        self.seq.position_of()
    }

    fn current_position(&self) -> (r: Option<usize>) {
        self.seq.current_position()
    }

    proof fn lemma_rest_len(&self) {
        self.seq.lemma_rest_len();
    }

    fn remains(&self) -> (r: usize) {
        self.seq.remains()
    }

    fn subsequence(&self, start: usize, len: usize) -> (r: Self) {
        Self::new(0, self.seq.subsequence(start, len))
    }

    fn next(&mut self) -> (r: Option<DocId>) {
        let ghost old_rest = self.seq.rest();
        if let Some(x) = self.seq.next() {
            proof {
                lemma_running_sums_step(self.cum, old_rest);
            }
            self.cum = self.cum + x;
            Some(self.cum)
        } else {
            None
        }
    }

    fn skip_n(&mut self, n: usize) -> (r: Option<DocId>) {
        let ghost start = self.rest();
        let mut n = n;
        let mut next: Option<DocId> = None;
        let ghost total = n as int;
        while n > 0
            invariant_except_break
                self.wf(),
                n <= total,
                total - n <= start.len(),
                self.rest() == start.skip(total - n),
                total > n ==> next == Some(start[total - n - 1]),
                total == n ==> next is None,
                start == old(self).rest(),
            ensures
                self.wf(),
                (next, self.rest()) == std_skip_n(start, total),
            decreases n,
        {
            let ghost before = self.rest();
            next = self.next();
            if next.is_none() {
                break;
            }
            proof {
                assert(self.rest() =~= start.skip(total - n + 1));
            }
            n -= 1;
        }
        next
    }

    fn duplicate(&self) -> (r: Self) {
        CumEncoder { seq: self.seq.duplicate(), cum: self.cum }
    }
}

// ---------------------------------------------------------------------------
// Position-shift coding
// ---------------------------------------------------------------------------

/// Shifts each item by its position in the stream.
struct Ascending<S> {
    seq: S,
    position: usize,
}

impl<S: Sequence> Ascending<S> {
    spec fn shifted(&self, encode: bool) -> Seq<DocId> {
        shift_by_position(self.position as int, self.seq.rest(), encode)
    }

    spec fn fits(&self, encode: bool) -> bool {
        self.seq.wf() && shift_fits(self.position as int, self.seq.rest(), encode)
    }

    spec fn sub_fits(&self, start: int, len: int, encode: bool) -> bool {
        &&& self.position + start <= usize::MAX
        &&& self.seq.sub_ok(start, len)
        &&& shift_fits(self.position + start, self.seq.sub_rest(start, len), encode)
    }

    spec fn sub_shifted(&self, start: int, len: int, encode: bool) -> Seq<DocId> {
        shift_by_position(self.position + start, self.seq.sub_rest(start, len), encode)
    }

    fn new(start_position: usize, seq: S) -> (r: Self)
        ensures
            r.seq == seq,
            r.position == start_position,
    {
        Ascending { seq: seq, position: start_position }
    }

    fn _next(&mut self, encoder: bool) -> (r: Option<DocId>)
        requires
            old(self).fits(encoder),
        ensures
            final(self).fits(encoder),
            (r, final(self).shifted(encoder)) == next_spec(old(self).shifted(encoder)),
    {
        let ghost old_rest = self.seq.rest();
        if let Some(x) = self.seq.next() {
            let pos = self.position;
            self.position += 1;
            assert(self.shifted(encoder) =~= old(self).shifted(encoder).drop_first());
            if encoder {
                Some(x - pos as DocId)
            } else {
                Some(x + pos as DocId)
            }
        } else {
            None
        }
    }

    fn current_position(&self) -> (r: Option<usize>)
        ensures
            r == Some(self.position),
    {
        Some(self.position)
    }

    fn remains(&self) -> (r: usize)
        requires
            self.seq.wf(),
        ensures
            r == self.seq.rest().len(),
    {
        self.seq.remains()
    }

    fn subsequence(&self, start: usize, len: usize, Ghost(encode): Ghost<bool>) -> (r: Self)
        requires
            self.seq.wf(),
            self.sub_fits(start as int, len as int, encode),
        ensures
            r.fits(encode),
            r.shifted(encode) == self.sub_shifted(start as int, len as int, encode),
    {
        Ascending::new(self.position + start, self.seq.subsequence(start, len))
    }
}

/// Lowers each item by its position, counted from a start position.
pub struct AscendingEncoder<S>(Ascending<S>);

/// Raises each item by its position, counted from a start position.
pub struct AscendingDecoder<S>(Ascending<S>);

impl<S: Sequence> AscendingEncoder<S> {
    /// The sequence being lowered.
    pub closed spec fn source(&self) -> S {
        self.0.seq
    }

    /// The position the next item is lowered by.
    pub closed spec fn position(&self) -> int {
        self.0.position as int
    }

    /// What `subsequence(start, len)` may take and yields: `len` items of the underlying
    /// sequence from `start`, lowered by their positions counted from `position() + start`.
    pub proof fn lemma_sub(&self, start: int, len: int)
        ensures
            self.sub_ok(start, len) <==> {
                &&& self.position() + start <= usize::MAX
                &&& self.source().sub_ok(start, len)
                &&& shift_fits(self.position() + start, self.source().sub_rest(start, len), true)
            },
            self.sub_rest(start, len) == shift_by_position(
                self.position() + start,
                self.source().sub_rest(start, len),
                true,
            ),
    {
    }

    /// Lowers the items of `seq` by `start_position`, `start_position + 1`, ...
    pub fn new(start_position: usize, seq: S) -> (r: Self)
        requires
            seq.wf(),
            shift_fits(start_position as int, seq.rest(), true),
        ensures
            r.wf(),
            r.rest() == shift_by_position(start_position as int, seq.rest(), true),
    {
        AscendingEncoder(Ascending::new(start_position, seq))
    }
}

impl<S: Sequence> AscendingDecoder<S> {
    /// The sequence being raised.
    pub closed spec fn source(&self) -> S {
        self.0.seq
    }

    /// The position the next item is raised by.
    pub closed spec fn position(&self) -> int {
        self.0.position as int
    }

    /// What `subsequence(start, len)` may take and yields: `len` items of the underlying
    /// sequence from `start`, raised by their positions counted from `position() + start`.
    pub proof fn lemma_sub(&self, start: int, len: int)
        ensures
            self.sub_ok(start, len) <==> {
                &&& self.position() + start <= usize::MAX
                &&& self.source().sub_ok(start, len)
                &&& shift_fits(self.position() + start, self.source().sub_rest(start, len), false)
            },
            self.sub_rest(start, len) == shift_by_position(
                self.position() + start,
                self.source().sub_rest(start, len),
                false,
            ),
    {
    }

    /// Raises the items of `seq` by `start_position`, `start_position + 1`, ...
    pub fn new(start_position: usize, seq: S) -> (r: Self)
        requires
            seq.wf(),
            shift_fits(start_position as int, seq.rest(), false),
        ensures
            r.wf(),
            r.rest() == shift_by_position(start_position as int, seq.rest(), false),
    {
        AscendingDecoder(Ascending::new(start_position, seq))
    }
}

impl<S: Sequence> Sequence for AscendingEncoder<S> {
    closed spec fn rest(&self) -> Seq<DocId> {
        self.0.shifted(true)
    }

    closed spec fn wf(&self) -> bool {
        self.0.fits(true)
    }

    closed spec fn sub_ok(&self, start: int, len: int) -> bool {
        self.0.sub_fits(start, len, true)
    }

    closed spec fn sub_rest(&self, start: int, len: int) -> Seq<DocId> {
        self.0.sub_shifted(start, len, true)
    }

    closed spec fn skip_n_ok(&self, n: int) -> bool {
        true
    }

    closed spec fn skip_n_spec(&self, n: int) -> (Option<DocId>, Seq<DocId>) {
        std_skip_n(self.rest(), n)
    }

    closed spec fn skip_to_ok(&self) -> bool {
        true
    }

    closed spec fn position_ok(&self) -> bool {
        true
    }

    closed spec fn position_of(&self) -> Option<usize> {
        Some(self.0.position)
    }

    /// Position the next item is shifted by.
    fn current_position(&self) -> (r: Option<usize>) {
        self.0.current_position()
    }

    proof fn lemma_rest_len(&self) {
    }

    fn remains(&self) -> (r: usize) {
        self.0.remains()
    }

    fn subsequence(&self, start: usize, len: usize) -> (r: Self) {
        AscendingEncoder(self.0.subsequence(start, len, Ghost(true)))
    }

    fn next(&mut self) -> (r: Option<DocId>) {
        self.0._next(true)
    }

    fn skip_n(&mut self, n: usize) -> (r: Option<DocId>) {
        let ghost start = self.rest();
        let mut n = n;
        let mut next: Option<DocId> = None;
        let ghost total = n as int;
        while n > 0
            invariant_except_break
                self.wf(),
                n <= total,
                total - n <= start.len(),
                self.rest() == start.skip(total - n),
                total > n ==> next == Some(start[total - n - 1]),
                total == n ==> next is None,
                start == old(self).rest(),
            ensures
                self.wf(),
                (next, self.rest()) == std_skip_n(start, total),
            decreases n,
        {
            let ghost before = self.rest();
            next = self.next();
            if next.is_none() {
                break;
            }
            proof {
                assert(self.rest() =~= start.skip(total - n + 1));
            }
            n -= 1;
        }
        next
    }

    fn duplicate(&self) -> (r: Self) {
        AscendingEncoder(Ascending { seq: self.0.seq.duplicate(), position: self.0.position })
    }
}

impl<S: Sequence> Sequence for AscendingDecoder<S> {
    closed spec fn rest(&self) -> Seq<DocId> {
        self.0.shifted(false)
    }

    closed spec fn wf(&self) -> bool {
        self.0.fits(false)
    }

    closed spec fn sub_ok(&self, start: int, len: int) -> bool {
        self.0.sub_fits(start, len, false)
    }

    closed spec fn sub_rest(&self, start: int, len: int) -> Seq<DocId> {
        self.0.sub_shifted(start, len, false)
    }

    closed spec fn skip_n_ok(&self, n: int) -> bool {
        true
    }

    closed spec fn skip_n_spec(&self, n: int) -> (Option<DocId>, Seq<DocId>) {
        std_skip_n(self.rest(), n)
    }

    closed spec fn skip_to_ok(&self) -> bool {
        true
    }

    closed spec fn position_ok(&self) -> bool {
        true
    }

    closed spec fn position_of(&self) -> Option<usize> {
        Some(self.0.position)
    }

    /// Position the next item is shifted by.
    fn current_position(&self) -> (r: Option<usize>) {
        self.0.current_position()
    }

    proof fn lemma_rest_len(&self) {
    }

    fn remains(&self) -> (r: usize) {
        self.0.remains()
    }

    fn subsequence(&self, start: usize, len: usize) -> (r: Self) {
        AscendingDecoder(self.0.subsequence(start, len, Ghost(false)))
    }

    fn next(&mut self) -> (r: Option<DocId>) {
        self.0._next(false)
    }

    fn skip_n(&mut self, n: usize) -> (r: Option<DocId>) {
        let ghost start = self.rest();
        let mut n = n;
        let mut next: Option<DocId> = None;
        let ghost total = n as int;
        while n > 0
            invariant_except_break
                self.wf(),
                n <= total,
                total - n <= start.len(),
                self.rest() == start.skip(total - n),
                total > n ==> next == Some(start[total - n - 1]),
                total == n ==> next is None,
                start == old(self).rest(),
            ensures
                self.wf(),
                (next, self.rest()) == std_skip_n(start, total),
            decreases n,
        {
            let ghost before = self.rest();
            next = self.next();
            if next.is_none() {
                break;
            }
            proof {
                assert(self.rest() =~= start.skip(total - n + 1));
            }
            n -= 1;
        }
        next
    }

    fn duplicate(&self) -> (r: Self) {
        AscendingDecoder(Ascending { seq: self.0.seq.duplicate(), position: self.0.position })
    }
}

} // verus!
