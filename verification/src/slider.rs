use vstd::prelude::*;
use crate::types::DocId;

verus! {

/// What a slider at position `p` of `s` reports: the item before the position while the
/// position is inside the sequence, nothing once it has reached the end.
pub open spec fn at_position(s: Seq<DocId>, p: int) -> Option<DocId> {
    if p < s.len() {
        Some(s[p - 1])
    } else {
        None
    }
}

/// The position reached from `p` by moving past every item smaller than `d`.
pub open spec fn seek_from(s: Seq<DocId>, p: int, d: DocId) -> int
    decreases s.len() - p,
{
    if p < 0 || p >= s.len() || s[p] >= d {
        p
    } else {
        seek_from(s, p + 1, d)
    }
}

/// Something that moves forward over a sequence of document ids.
pub trait SequenceSlider: Sized {
    /// The whole sequence.
    spec fn items(&self) -> Seq<DocId>;

    /// The current position.
    spec fn position(&self) -> int;

    /// Moves one step on and reports the item there.
    fn next(&mut self) -> (r: Option<DocId>)
        requires
            old(self).position() + 1 <= usize::MAX,
            0 <= old(self).position(),
        ensures
            final(self).items() == old(self).items(),
            final(self).position() == old(self).position() + 1,
            r == at_position(final(self).items(), final(self).position()),
    ;

    /// Moves past the items smaller than `doc_id` and reports the item there.
    fn skip_to(&mut self, doc_id: DocId) -> (r: Option<DocId>)
        requires
            0 <= old(self).position(),
            seek_from(old(self).items(), old(self).position(), doc_id) < old(self).items().len()
                ==> seek_from(old(self).items(), old(self).position(), doc_id) >= 1,
        ensures
            final(self).items() == old(self).items(),
            final(self).position() == seek_from(old(self).items(), old(self).position(), doc_id),
            r == at_position(final(self).items(), final(self).position()),
    ;

    /// Moves `n` steps on and reports the item there.
    fn skip_n(&mut self, n: usize) -> (r: Option<DocId>)
        requires
            0 <= old(self).position(),
            old(self).position() + n <= usize::MAX,
            old(self).position() + n < old(self).items().len() ==> old(self).position() + n >= 1,
        ensures
            final(self).items() == old(self).items(),
            final(self).position() == old(self).position() + n,
            r == at_position(final(self).items(), final(self).position()),
    ;
}

/// A sequence of document ids that hands out sliders over itself.
pub trait Sequence<'a> {
    type Slider: SequenceSlider + 'a;

    /// The ids of the sequence.
    spec fn ids(&self) -> Seq<DocId>;

    /// A slider at the start of the sequence.
    fn slider(&self) -> (r: Self::Slider)
        ensures
            r.items() == self.ids(),
            r.position() == 0,
    ;
}

impl<'a> Sequence<'a> for &'a [DocId] {
    type Slider = SliceSequenceSlider<'a>;

    open spec fn ids(&self) -> Seq<DocId> {
        (*self)@
    }

    fn slider(&self) -> (r: Self::Slider) {
        SliceSequenceSlider::new(*self)
    }
}

/// A slider over a borrowed slice.
#[derive(Clone)]
pub struct SliceSequenceSlider<'a> {
    seq: &'a [DocId],
    position: usize,
}

impl<'a> SliceSequenceSlider<'a> {
    /// A slider at the start of `seq`.
    pub fn new(seq: &'a [DocId]) -> (r: Self)
        ensures
            r.items() == seq@,
            r.position() == 0,
    {
        SliceSequenceSlider { seq: seq, position: 0 }
    }

    /// The item before the position while the position is inside the slice.
    fn return_at_current(&self) -> (r: Option<DocId>)
        requires
            self.position < self.seq@.len() ==> self.position >= 1,
        ensures
            r == at_position(self.seq@, self.position as int),
    {
        if self.position < self.seq.len() {
            Some(self.seq[self.position - 1])
        } else {
            None
        }
    }
}

impl<'a> SequenceSlider for SliceSequenceSlider<'a> {
    closed spec fn items(&self) -> Seq<DocId> {
        self.seq@
    }

    closed spec fn position(&self) -> int {
        self.position as int
    }

    fn next(&mut self) -> (r: Option<DocId>) {
        self.skip_n(1)
    }

    fn skip_to(&mut self, doc_id: DocId) -> (r: Option<DocId>) {
        let ghost target = seek_from(self.seq@, self.position as int, doc_id);
        while self.position < self.seq.len() && self.seq[self.position] < doc_id
            invariant
                self.seq == old(self).seq,
                old(self).position <= self.position <= self.seq@.len() || self.position == old(self).position,
                seek_from(self.seq@, self.position as int, doc_id) == target,
                target == seek_from(old(self).seq@, old(self).position as int, doc_id),
            decreases self.seq@.len() - self.position,
        {
            self.position += 1;
        }
        self.return_at_current()
    }

    fn skip_n(&mut self, n: usize) -> (r: Option<DocId>) {
        self.position += n;
        self.return_at_current()
    }
}

} // verus!
