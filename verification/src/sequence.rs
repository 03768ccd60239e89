use vstd::prelude::*;
use crate::types::DocId;
use crate::util::{le_bytes_u64, le_concat_u64, lemma_le_concat_u64_push, push_u64_le};

verus! {

// ---------------------------------------------------------------------------
// What the stepping operations do to the items still to come
// ---------------------------------------------------------------------------

/// Result of taking one item from `rest`, and what is left afterwards.
pub open spec fn next_spec(rest: Seq<DocId>) -> (Option<DocId>, Seq<DocId>) {
    if rest.len() == 0 {
        (None, rest)
    } else {
        (Some(rest[0]), rest.drop_first())
    }
}

/// Result of taking `n` items from `rest` (the last of them), and what is left.
/// Taking zero items yields nothing; running out yields nothing and leaves nothing.
pub open spec fn std_skip_n(rest: Seq<DocId>, n: int) -> (Option<DocId>, Seq<DocId>) {
    if n <= 0 {
        (None, rest)
    } else if n <= rest.len() {
        (Some(rest[n - 1]), rest.skip(n))
    } else {
        (None, Seq::empty())
    }
}

/// Index of the first item that is at least `d`, or the length when there is none.
pub open spec fn first_at_least(rest: Seq<DocId>, d: DocId) -> nat
    decreases rest.len(),
{
    if rest.len() == 0 {
        0
    } else if rest[0] >= d {
        0
    } else {
        1 + first_at_least(rest.drop_first(), d)
    }
}

/// Result of taking items until one is at least `d` (that one is returned and taken).
pub open spec fn skip_to_spec(rest: Seq<DocId>, d: DocId) -> (Option<DocId>, Seq<DocId>) {
    let k = first_at_least(rest, d);
    if k < rest.len() {
        (Some(rest[k as int]), rest.skip(k + 1int))
    } else {
        (None, Seq::empty())
    }
}

/// `first_at_least` points at the first item that is at least `d`.
pub proof fn lemma_first_at_least(rest: Seq<DocId>, d: DocId)
    ensures
        first_at_least(rest, d) <= rest.len(),
        forall|i: int| 0 <= i < first_at_least(rest, d) ==> #[trigger] rest[i] < d,
        first_at_least(rest, d) < rest.len() ==> rest[first_at_least(rest, d) as int] >= d,
    decreases rest.len(),
{
    if rest.len() > 0 && rest[0] < d {
        lemma_first_at_least(rest.drop_first(), d);
        assert forall|i: int| 0 <= i < first_at_least(rest, d) implies #[trigger] rest[i] < d by {
            if i > 0 {
                assert(rest[i] == rest.drop_first()[i - 1]);
            }
        }
    }
}

// ---------------------------------------------------------------------------
// The sequence abstraction
// ---------------------------------------------------------------------------

/// A forward-only stream of document ids.
///
/// `rest` is what the stream will still yield; `sub_rest(start, len)` is what a
/// subsequence taken with the same arguments yields, where `sub_ok` allows it.
pub trait Sequence: Sized {
    /// Items still to come.
    spec fn rest(&self) -> Seq<DocId>;

    /// Internal consistency.
    spec fn wf(&self) -> bool;

    /// Whether `subsequence(start, len)` may be taken.
    spec fn sub_ok(&self, start: int, len: int) -> bool;

    /// What `subsequence(start, len)` yields.
    spec fn sub_rest(&self, start: int, len: int) -> Seq<DocId>;

    /// Whether `skip_n(n)` may be called.
    spec fn skip_n_ok(&self, n: int) -> bool;

    /// What `skip_n(n)` returns, and the items left after it.
    spec fn skip_n_spec(&self, n: int) -> (Option<DocId>, Seq<DocId>);

    /// Whether `skip_to` may be called.
    spec fn skip_to_ok(&self) -> bool;

    /// Whether `current_position` may be called.
    spec fn position_ok(&self) -> bool;

    /// Where the sequence stands in what it reads from, where it knows.
    spec fn position_of(&self) -> Option<usize>;

    /// Where the sequence stands in what it reads from, where it knows.
    fn current_position(&self) -> (r: Option<usize>)
        requires
            self.wf(),
            self.position_ok(),
        ensures
            r == self.position_of(),
    ;

    /// The items still to come can be counted in a `usize`.
    proof fn lemma_rest_len(&self)
        requires
            self.wf(),
        ensures
            self.rest().len() <= usize::MAX,
    ;

    /// Number of items still to come.
    fn remains(&self) -> (r: usize)
        requires
            self.wf(),
        ensures
            r == self.rest().len(),
    ;

    /// A subsequence, as described by `sub_rest`.
    fn subsequence(&self, start: usize, len: usize) -> (r: Self)
        requires
            self.wf(),
            self.sub_ok(start as int, len as int),
        ensures
            r.wf(),
            r.rest() == self.sub_rest(start as int, len as int),
    ;

    /// Takes the next item.
    fn next(&mut self) -> (r: Option<DocId>)
        requires
            old(self).wf(),
        ensures
            final(self).wf(),
            (r, final(self).rest()) == next_spec(old(self).rest()),
    ;

    /// Takes `n` items and returns the last of them, as `skip_n_spec` says.
    fn skip_n(&mut self, n: usize) -> (r: Option<DocId>)
        requires
            old(self).wf(),
            old(self).skip_n_ok(n as int),
        ensures
            final(self).wf(),
            (r, final(self).rest()) == old(self).skip_n_spec(n as int),
    ;

    /// Takes items until one is at least `doc_id`, and returns that one.
    fn skip_to(&mut self, doc_id: DocId) -> (r: Option<DocId>)
        requires
            old(self).wf(),
            old(self).skip_to_ok(),
        ensures
            final(self).wf(),
            (r, final(self).rest()) == skip_to_spec(old(self).rest(), doc_id),
    {
        let ghost start = self.rest();
        proof {
            lemma_first_at_least(start, doc_id);
        }
        loop
            invariant
                self.wf(),
                start == old(self).rest(),
                start.len() >= self.rest().len(),
                self.rest() == start.skip(start.len() - self.rest().len()),
                forall|i: int| 0 <= i < start.len() - self.rest().len() ==> #[trigger] start[i]
                    < doc_id,
                first_at_least(start, doc_id) <= start.len(),
                forall|i: int| 0 <= i < first_at_least(start, doc_id) ==> #[trigger] start[i] < doc_id,
                first_at_least(start, doc_id) < start.len() ==> start[first_at_least(start, doc_id) as int] >= doc_id,
            decreases self.rest().len(),
        {
            let ghost before = self.rest();
            let ghost done = start.len() - before.len();
            match self.next() {
                Some(x) => {
                    proof {
                        assert(start[done] == x);
                        assert(self.rest() =~= start.skip(done + 1));
                    }
                    if x >= doc_id {
                        proof {
                            if first_at_least(start, doc_id) < done {
                                assert(start[first_at_least(start, doc_id) as int] < doc_id);
                            }
                            if first_at_least(start, doc_id) > done {
                                assert(start[done] < doc_id);
                            }
                        }
                        return Some(x);
                    }
                },
                None => {
                    proof {
                        assert(done == start.len());
                        if first_at_least(start, doc_id) < start.len() {
                            assert(start[first_at_least(start, doc_id) as int] < doc_id);
                        }
                        assert(before =~= Seq::<DocId>::empty());
                    }
                    return None;
                },
            }
        }
    }

    /// An independent copy of this sequence in its current state: it yields the same
    /// items and takes the same subsequences and steps.
    fn duplicate(&self) -> (r: Self)
        requires
            self.wf(),
        ensures
            r.wf(),
            r.rest() == self.rest(),
            forall|start: int, len: int|
                #![trigger r.sub_ok(start, len)]
                #![trigger r.sub_rest(start, len)]
                r.sub_ok(start, len) == self.sub_ok(start, len) && r.sub_rest(start, len) == self.sub_rest(
                    start,
                    len,
                ),
            forall|n: int|
                #![trigger r.skip_n_ok(n)]
                #![trigger r.skip_n_spec(n)]
                r.skip_n_ok(n) == self.skip_n_ok(n) && r.skip_n_spec(n) == self.skip_n_spec(n),
            r.skip_to_ok() == self.skip_to_ok(),
    ;
}

/// Takes `n` items from `s` one by one and returns the last of them.
pub fn advance_n<S: Sequence>(s: &mut S, n: usize) -> (r: Option<DocId>)
    requires
        old(s).wf(),
    ensures
        final(s).wf(),
        (r, final(s).rest()) == std_skip_n(old(s).rest(), n as int),
{
    let ghost start = s.rest();
    let mut n = n;
    let mut next: Option<DocId> = None;
    let ghost total = n as int;
    while n > 0
        invariant_except_break
            s.wf(),
            n <= total,
            total - n <= start.len(),
            s.rest() == start.skip(total - n),
            total > n ==> next == Some(start[total - n - 1]),
            total == n ==> next is None,
        ensures
            s.wf(),
            (next, s.rest()) == std_skip_n(start, total),
        decreases n,
    {
        let ghost before = s.rest();
        next = s.next();
        if next.is_none() {
            proof {
                assert(before.len() == 0);
                assert(start.len() == total - n);
            }
            break;
        }
        proof {
            assert(s.rest() =~= start.skip(total - n + 1));
        }
        n -= 1;
    }
    next
}

/// Something that can hand out a sequence over its contents.
pub trait SequenceStorage {
    type Sequence: Sequence;

    /// The items the sequence will yield.
    spec fn items(&self) -> Seq<DocId>;

    /// A fresh sequence over the stored items.
    fn to_sequence(&self) -> (r: Self::Sequence)
        ensures
            r.wf(),
            r.rest() == self.items(),
    ;
}

// ---------------------------------------------------------------------------
// Sequence over a slice
// ---------------------------------------------------------------------------

/// A sequence over a borrowed slice of document ids.
#[derive(Clone)]
pub struct SliceSequence<'a> {
    seq: &'a [DocId],
    position: usize,
}

impl<'a> SliceSequence<'a> {
    /// The whole slice the sequence ranges over.
    pub closed spec fn base(&self) -> Seq<DocId> {
        self.seq@
    }

    /// Index of the next item in the slice.
    pub closed spec fn pos(&self) -> int {
        self.position as int
    }

    /// What `subsequence` may take and yields, in terms of the whole slice.
    pub proof fn lemma_sub(&self, start: int, len: int)
        ensures
            self.sub_ok(start, len) <==> (0 <= start && 0 <= len && start + len <= self.base().len()),
            self.sub_rest(start, len) == self.base().subrange(start, start + len),
    {
    }

    /// The whole slice the sequence ranges over.
    pub fn base_slice(&self) -> (r: &'a [DocId])
        ensures
            r@ == self.base(),
    {
        self.seq
    }

    /// A sequence over all of `seq`.
    pub fn new(seq: &'a [DocId]) -> (r: Self)
        ensures
            r.wf(),
            r.rest() == seq@,
            r.base() == seq@,
            r.pos() == 0,
    {
        let r = SliceSequence { seq: seq, position: 0 };
        assert(seq@.skip(0) =~= seq@);
        r
    }

    /// The next item, without taking it.
    pub fn current(&self) -> (r: Option<DocId>)
        requires
            self.wf(),
        ensures
            r == (if self.rest().len() > 0 {
                Some(self.rest()[0])
            } else {
                None
            }),
    {
        if self.position < self.seq.len() {
            Some(self.seq[self.position])
        } else {
            None
        }
    }

    /// Takes `n` items and returns the item after them, without taking it.
    pub fn move_n(&mut self, n: usize) -> (r: Option<DocId>)
        requires
            old(self).wf(),
        ensures
            final(self).wf(),
            final(self).rest() == old(self).rest().skip(
                if n <= old(self).rest().len() {
                    n as int
                } else {
                    old(self).rest().len() as int
                },
            ),
            r == (if final(self).rest().len() > 0 {
                Some(final(self).rest()[0])
            } else {
                None
            }),
    {
        let left = self.seq.len() - self.position;
        if n <= left {
            self.position = self.position + n;
        } else {
            self.position = self.seq.len();
        }
        assert(self.rest() =~= old(self).rest().skip(
            if n <= old(self).rest().len() {
                n as int
            } else {
                old(self).rest().len() as int
            },
        ));
        self.current()
    }

    /// Takes items while the next one is smaller than `doc_id`; returns how many were taken.
    pub fn move_to(&mut self, doc_id: DocId) -> (r: usize)
        requires
            old(self).wf(),
        ensures
            final(self).wf(),
            r == first_at_least(old(self).rest(), doc_id),
            final(self).rest() == old(self).rest().skip(r as int),
    {
        let ghost start = self.rest();
        proof {
            lemma_first_at_least(start, doc_id);
        }
        let mut skipped: usize = 0;
        while self.position < self.seq.len() && self.seq[self.position] < doc_id
            invariant
                self.wf(),
                skipped == self.position - old(self).position,
                old(self).position <= self.position <= self.seq.len(),
                self.seq == old(self).seq,
                start == old(self).rest(),
                forall|i: int| 0 <= i < skipped ==> #[trigger] start[i] < doc_id,
                skipped <= first_at_least(start, doc_id),
                first_at_least(start, doc_id) <= start.len(),
                first_at_least(start, doc_id) < start.len() ==> start[first_at_least(start, doc_id) as int] >= doc_id,
                start == self.seq@.skip(old(self).position as int),
            decreases self.seq.len() - self.position,
        {
            proof {
                assert(start[skipped as int] == self.seq@[self.position as int]);
                if skipped == first_at_least(start, doc_id) {
                    assert(false);
                }
            }
            self.position += 1;
            skipped += 1;
        }
        proof {
            if skipped < first_at_least(start, doc_id) {
                assert(start[skipped as int] < doc_id);
                assert(start[skipped as int] == self.seq@[self.position as int]);
            }
        }
        assert(self.rest() =~= start.skip(skipped as int));
        skipped
    }

    /// All items still to come, in order; the sequence is left empty.
    pub fn to_vec(&mut self) -> (r: Vec<DocId>)
        requires
            old(self).wf(),
        ensures
            final(self).wf(),
            r@ == old(self).rest(),
            final(self).rest().len() == 0,
    {
        let mut res: Vec<DocId> = Vec::new();
        while self.position < self.seq.len()
            invariant
                self.wf(),
                self.seq == old(self).seq,
                old(self).position <= self.position,
                res@ == self.seq@.subrange(old(self).position as int, self.position as int),
            decreases self.seq.len() - self.position,
        {
            res.push(self.seq[self.position]);
            self.position += 1;
            assert(res@ =~= self.seq@.subrange(old(self).position as int, self.position as int));
        }
        assert(res@ =~= old(self).rest());
        res
    }
}

impl<'a> Sequence for SliceSequence<'a> {
    closed spec fn rest(&self) -> Seq<DocId> {
        self.seq@.skip(self.position as int)
    }

    closed spec fn wf(&self) -> bool {
        self.position <= self.seq@.len()
    }

    closed spec fn sub_ok(&self, start: int, len: int) -> bool {
        0 <= start && 0 <= len && start + len <= self.seq@.len()
    }

    closed spec fn sub_rest(&self, start: int, len: int) -> Seq<DocId> {
        self.seq@.subrange(start, start + len)
    }

    closed spec fn skip_n_ok(&self, n: int) -> bool {
        true
    }

    closed spec fn skip_n_spec(&self, n: int) -> (Option<DocId>, Seq<DocId>) {
        std_skip_n(self.rest(), n)
    }

    closed spec fn skip_to_ok(&self) -> bool {
        true
    }

    closed spec fn position_ok(&self) -> bool {
        true
    }

    closed spec fn position_of(&self) -> Option<usize> {
        Some(self.position)
    }

    fn current_position(&self) -> (r: Option<usize>) {
        Some(self.position)
    }

    proof fn lemma_rest_len(&self) {
        assert(self.seq@.len() == self.seq.len());
    }

    fn remains(&self) -> (r: usize) {
        self.seq.len() - self.position
    }

    fn subsequence(&self, start: usize, len: usize) -> (r: Self) {
        let n = self.seq.len();
        let (head, _) = self.seq.split_at(start + len);
        let mut sub = SliceSequence::new(head);
        sub.position = start;
        assert(sub.rest() =~= self.seq@.subrange(start as int, start + len));
        sub
    }

    fn next(&mut self) -> (r: Option<DocId>) {
        if self.position < self.seq.len() {
            let x = self.seq[self.position];
            self.position += 1;
            assert(self.rest() =~= old(self).rest().drop_first());
            Some(x)
        } else {
            None
        }
    }

    fn skip_n(&mut self, n: usize) -> (r: Option<DocId>) {
        let left = self.seq.len() - self.position;
        if n == 0 {
            None
        } else if n <= left {
            self.position = self.position + n;
            assert(self.rest() =~= old(self).rest().skip(n as int));
            Some(self.seq[self.position - 1])
        } else {
            self.position = self.seq.len();
            assert(self.rest() =~= Seq::<DocId>::empty());
            None
        }
    }

    fn duplicate(&self) -> (r: Self) {
        SliceSequence { seq: self.seq, position: self.position }
    }
}

impl<'a> SequenceStorage for &'a [DocId] {
    type Sequence = SliceSequence<'a>;

    open spec fn items(&self) -> Seq<DocId> {
        self@
    }

    fn to_sequence(&self) -> (r: SliceSequence<'a>) {
        SliceSequence::new(*self)
    }
}

impl<'a> SequenceStorage for &'a Vec<DocId> {
    type Sequence = SliceSequence<'a>;

    open spec fn items(&self) -> Seq<DocId> {
        self@
    }

    fn to_sequence(&self) -> (r: SliceSequence<'a>) {
        SliceSequence::new(self.as_slice())
    }
}

// ---------------------------------------------------------------------------
// Writing sequences as bytes
// ---------------------------------------------------------------------------

/// Something that writes sequences of document ids somewhere.
pub trait SequenceEncoder: Sized {
    /// Whether the encoder is in a usable state.
    spec fn wf(&self) -> bool;

    /// The ids written so far, in order.
    spec fn items(&self) -> Seq<DocId>;

    /// Writes one id; returns the number of bytes written.
    fn write(&mut self, doc_id: DocId) -> (r: usize)
        requires
            old(self).wf(),
        ensures
            final(self).wf(),
            final(self).items() == old(self).items().push(doc_id),
    ;

    /// Writes every item still to come in `seq`; returns the number of bytes written.
    fn write_sequence<S: Sequence>(&mut self, seq: S) -> (r: usize)
        requires
            old(self).wf(),
            seq.wf(),
        ensures
            final(self).wf(),
            final(self).items() == old(self).items() + seq.rest(),
    ;
}

/// Writes document ids as eight little-endian bytes each.
pub struct PlainEncoder {
    writer: Vec<u8>,
    start: Ghost<Seq<u8>>,
    written_ids: Ghost<Seq<DocId>>,
}

impl PlainEncoder {
    /// Bytes written so far, including those the writer started with.
    pub closed spec fn written(&self) -> Seq<u8> {
        self.writer@
    }

    /// The bytes the writer held when the encoder was made.
    pub closed spec fn initial(&self) -> Seq<u8> {
        self.start@
    }

    /// An encoder appending to `writer`.
    pub fn new(writer: Vec<u8>) -> (r: PlainEncoder)
        ensures
            r.written() == writer@,
            r.initial() == writer@,
            r.items() == Seq::<DocId>::empty(),
            r.wf(),
    {
        let ghost start = writer@;
        assert(writer@ =~= start + le_concat_u64(Seq::<DocId>::empty()));
        PlainEncoder { writer: writer, start: Ghost(start), written_ids: Ghost(Seq::empty()) }
    }

    /// The bytes written so far.
    pub fn into_inner(self) -> (r: Vec<u8>)
        requires
            self.wf(),
        ensures
            r@ == self.written(),
            r@ == self.initial() + le_concat_u64(self.items()),
    {
        self.writer
    }
}

impl SequenceEncoder for PlainEncoder {
    closed spec fn wf(&self) -> bool {
        self.writer@ == self.start@ + le_concat_u64(self.written_ids@)
    }

    closed spec fn items(&self) -> Seq<DocId> {
        self.written_ids@
    }

    fn write(&mut self, doc_id: DocId) -> (r: usize)
        ensures
            final(self).written() == old(self).written() + le_bytes_u64(doc_id),
            final(self).initial() == old(self).initial(),
            r == 8,
    {
        proof {
            lemma_le_concat_u64_push(self.written_ids@, doc_id);
        }
        let ghost ids = self.written_ids@.push(doc_id);
        push_u64_le(&mut self.writer, doc_id);
        self.written_ids = Ghost(ids);
        assert(self.writer@ =~= self.start@ + le_concat_u64(self.written_ids@));
        8
    }

    fn write_sequence<S: Sequence>(&mut self, seq: S) -> (r: usize)
        ensures
            final(self).written() == old(self).written() + le_concat_u64(seq.rest()),
            final(self).initial() == old(self).initial(),
            r == 8 * seq.rest().len(),
    {
        let mut seq = seq;
        let ghost items = seq.rest();
        let ghost w0 = self.written();
        let mut total_size: usize = 0;
        loop
            invariant_except_break
                seq.wf(),
                self.wf(),
                items.len() >= seq.rest().len(),
                items == items.take(items.len() - seq.rest().len()) + seq.rest(),
                self.written() == w0 + le_concat_u64(items.take(items.len() - seq.rest().len())),
                self.items() == old(self).items() + items.take(items.len() - seq.rest().len()),
                self.initial() == old(self).initial(),
                total_size == 8 * (items.len() - seq.rest().len()),
                w0 == old(self).written(),
            ensures
                self.wf(),
                self.written() == w0 + le_concat_u64(items),
                self.items() == old(self).items() + items,
                self.initial() == old(self).initial(),
                total_size == 8 * items.len(),
            decreases seq.rest().len(),
        {
            let ghost before = seq.rest();
            let ghost done = items.len() - before.len();
            match seq.next() {
                Some(doc_id) => {
                    proof {
                        assert(items[done] == doc_id) by {
                            assert(items[done] == (items.take(done) + before)[done]);
                        }
                        assert(items.take(done + 1).drop_last() =~= items.take(done));
                        assert(items.take(done + 1).last() == doc_id);
                        assert(items =~= items.take(done + 1) + seq.rest());
                        crate::util::lemma_le_concat_u64(items.take(done + 1));
                        crate::util::lemma_le_concat_u64(items.take(done));
                    }
                    let n = self.write(doc_id);
                    proof {
                        lemma_le_concat_u64_push(items.take(done), doc_id);
                        assert(items.take(done).push(doc_id) =~= items.take(done + 1));
                        assert(self.written() =~= w0 + le_concat_u64(items.take(done + 1)));
                        assert(self.items() =~= old(self).items() + items.take(done + 1));
                        assert(self.written().len() == self.writer.len());
                    }
                    total_size = total_size + n;
                },
                None => {
                    proof {
                        assert(items.take(items.len() as int) =~= items);
                    }
                    break;
                },
            }
        }
        total_size
    }
}

} // verus!
