use vstd::prelude::*;
use crate::types::{DocId, TermId};
use crate::postings::{Postings, PostingsStore, VecPostings};

verus! {

/// One growing buffer of ids per term identifier. A buffer that has been handed out
/// is gone from its slot.
pub struct TermBuf {
    pub buffers: Vec<Option<Vec<DocId>>>,
    max_term_id: TermId,
}

/// The contents of the slots.
pub open spec fn slots(bufs: Seq<Option<Vec<DocId>>>) -> Seq<Option<Seq<DocId>>> {
    bufs.map_values(|b: Option<Vec<DocId>>| match b {
        Some(v) => Some(v@),
        None => None,
    })
}

/// The contents of one slot.
pub open spec fn slot_view(b: Option<Vec<DocId>>) -> Option<Seq<DocId>> {
    match b {
        Some(v) => Some(v@),
        None => None,
    }
}

/// The buffer of `term_id` is there and holds ids.
pub open spec fn holds_ids(b: TermBuf, term_id: TermId) -> bool {
    &&& term_id < b.max()
    &&& b.view_slots()[term_id as int] is Some
    &&& b.view_slots()[term_id as int].unwrap().len() > 0
}

/// Every slot still holds its buffer.
pub open spec fn all_present(s: Seq<Option<Seq<DocId>>>) -> bool {
    forall|u: int| 0 <= u < s.len() ==> (#[trigger] s[u]) is Some
}

proof fn lemma_slots_push(b: Seq<Option<Vec<DocId>>>, x: Option<Vec<DocId>>)
    ensures
        slots(b.push(x)) == slots(b).push(slot_view(x)),
{
    assert(slots(b.push(x)) =~= slots(b).push(slot_view(x)));
}

proof fn lemma_slots_update(b: Seq<Option<Vec<DocId>>>, i: int, x: Option<Vec<DocId>>)
    requires
        0 <= i < b.len(),
    ensures
        slots(b.update(i, x)) == slots(b).update(i, slot_view(x)),
{
    assert(slots(b.update(i, x)) =~= slots(b).update(i, slot_view(x)));
}

impl TermBuf {
    /// There is one slot for every identifier below the largest seen plus one.
    pub closed spec fn wf(&self) -> bool {
        self.buffers@.len() == self.max_term_id
    }

    /// One past the largest identifier seen.
    pub closed spec fn max(&self) -> TermId {
        self.max_term_id
    }

    /// The buffers, slot by slot.
    pub closed spec fn view_slots(&self) -> Seq<Option<Seq<DocId>>> {
        slots(self.buffers@)
    }

    /// There are as many slots as the largest identifier seen plus one.
    pub proof fn lemma_slot_count(&self)
        requires
            self.wf(),
        ensures
            self.view_slots().len() == self.max(),
    {
    }

    /// No slots yet.
    pub fn new() -> (r: TermBuf)
        ensures
            r.wf(),
            r.max() == 0,
            r.view_slots() == Seq::<Option<Seq<DocId>>>::empty(),
    {
        let r = TermBuf { buffers: Vec::new(), max_term_id: 0 };
        assert(r.view_slots() =~= Seq::<Option<Seq<DocId>>>::empty());
        r
    }

    /// Appends `doc_id` to the buffer of `term_id`, first adding empty buffers up to it.
    pub fn add_doc(&mut self, term_id: TermId, doc_id: DocId)
        requires
            old(self).wf(),
            term_id < u32::MAX,
            term_id < old(self).max() ==> old(self).view_slots()[term_id as int] is Some,
        ensures
            final(self).wf(),
            final(self).max() == if term_id < old(self).max() {
                old(self).max()
            } else {
                (term_id + 1) as TermId
            },
            final(self).view_slots().len() == final(self).max(),
            forall|t: int|
                0 <= t < final(self).max() && t != term_id ==> #[trigger] final(self).view_slots()[t]
                    == if t < old(self).max() {
                    old(self).view_slots()[t]
                } else {
                    Some(Seq::<DocId>::empty())
                },
            final(self).view_slots()[term_id as int] == Some(
                (if term_id < old(self).max() {
                    old(self).view_slots()[term_id as int].unwrap()
                } else {
                    Seq::<DocId>::empty()
                }).push(doc_id),
            ),
    {
        let ghost s0 = self.view_slots();
        while self.max_term_id <= term_id
            invariant
                self.wf(),
                term_id < u32::MAX,
                old(self).wf(),
                s0 == old(self).view_slots(),
                self.max_term_id >= old(self).max_term_id,
                self.max_term_id <= term_id + 1 || self.max_term_id == old(self).max_term_id,
                self.view_slots().len() == self.max_term_id,
                forall|t: int|
                    0 <= t < self.max_term_id ==> #[trigger] self.view_slots()[t] == if t < old(self).max_term_id {
                        s0[t]
                    } else {
                        Some(Seq::<DocId>::empty())
                    },
            decreases term_id + 1 - self.max_term_id,
        {
            let ghost before = self.buffers@;
            let fresh: Vec<DocId> = Vec::new();
            proof {
                lemma_slots_push(before, Some(fresh));
                assert(fresh@ =~= Seq::<DocId>::empty());
            }
            self.buffers.push(Some(fresh));
            self.max_term_id += 1;
            proof {
                assert forall|t: int| 0 <= t < self.max_term_id implies #[trigger] self.view_slots()[t] == if t
                    < old(self).max_term_id {
                    s0[t]
                } else {
                    Some(Seq::<DocId>::empty())
                } by {
                    if t < self.max_term_id - 1 {
                        assert(slots(before)[t] == self.view_slots()[t]);
                    }
                }
            }
        }
        let ghost mid = self.buffers@;
        let idx = term_id as usize;
        assert(self.view_slots()[idx as int] is Some);
        let mut slot: Option<Vec<DocId>> = None;
        core::mem::swap(&mut slot, &mut self.buffers[idx]);
        let mut buf = match slot {
            Some(b) => b,
            None => {
                proof {
                    assert(false);
                }
                Vec::new()
            },
        };
        buf.push(doc_id);
        let ghost b2 = self.buffers@;
        proof {
            lemma_slots_update(mid, idx as int, None);
            lemma_slots_update(b2, idx as int, Some(buf));
        }
        self.buffers.set(idx, Some(buf));
        proof {
            assert(self.buffers@ == b2.update(idx as int, Some(buf)));
            assert forall|t: int| 0 <= t < self.max_term_id && t != term_id implies #[trigger] self.view_slots()[t]
                == if t < old(self).max_term_id {
                s0[t]
            } else {
                Some(Seq::<DocId>::empty())
            } by {
                assert(slots(mid)[t] == self.view_slots()[t]);
            }
        }
    }

    /// Takes out the buffer of `term_id`; nothing for an identifier past the largest one.
    pub fn get_termbuf(&mut self, term_id: TermId) -> (r: Option<Vec<DocId>>)
        requires
            old(self).wf(),
            term_id != old(self).max(),
            term_id < old(self).max() ==> (old(self).view_slots()[term_id as int] is Some
                && old(self).view_slots()[term_id as int].unwrap().len() > 0),
        ensures
            final(self).wf(),
            final(self).max() == old(self).max(),
            term_id > old(self).max() ==> r is None && final(self).view_slots() == old(self).view_slots(),
            term_id < old(self).max() ==> {
                &&& r is Some
                &&& Some(r.unwrap()@) == old(self).view_slots()[term_id as int]
                &&& final(self).view_slots() == old(self).view_slots().update(term_id as int, None)
            },
    {
        if term_id > self.max_term_id {
            None
        } else {
            let mut buffer: Option<Vec<DocId>> = None;
            let idx = term_id as usize;
            core::mem::swap(&mut buffer, &mut self.buffers[idx]);
            proof {
                assert(self.view_slots() =~= old(self).view_slots().update(term_id as int, None));
            }
            buffer
        }
    }

    /// Puts a buffer back into the slot of `term_id`.
    fn return_termbuf(&mut self, term_id: TermId, buf: Vec<DocId>)
        requires
            old(self).wf(),
            term_id < old(self).max(),
        ensures
            final(self).wf(),
            final(self).max() == old(self).max(),
            final(self).view_slots() == old(self).view_slots().update(term_id as int, Some(buf@)),
    {
        self.buffers.set(term_id as usize, Some(buf));
        assert(self.view_slots() =~= old(self).view_slots().update(term_id as int, Some(buf@)));
    }

    /// The ids of `term_id` without taking them out; nothing for an identifier past the
    /// largest one or a slot already emptied.
    pub fn get_iterator(&self, term_id: TermId) -> (r: Option<&[DocId]>)
        requires
            self.wf(),
            term_id != self.max(),
        ensures
            term_id > self.max() ==> r is None,
            term_id < self.max() ==> match self.view_slots()[term_id as int] {
                Some(b) => r is Some && r.unwrap()@ == b,
                None => r is None,
            },
    {
        if term_id > self.max_term_id {
            None
        } else {
            match &self.buffers[term_id as usize] {
                Some(b) => Some(b.as_slice()),
                None => None,
            }
        }
    }

    /// Whether there is exactly one slot per identifier seen (the slots are public, so
    /// a caller may have changed them).
    pub fn consistent(&self) -> (r: bool)
        ensures
            r == self.wf(),
    {
        self.buffers.len() == self.max_term_id as usize
    }

    /// Whether there is one slot per identifier seen and every slot still holds its buffer.
    pub fn ready(&self) -> (r: bool)
        ensures
            r == (self.wf() && all_present(self.view_slots())),
    {
        if self.buffers.len() != self.max_term_id as usize {
            return false;
        }
        let mut i: usize = 0;
        while i < self.buffers.len()
            invariant
                i <= self.buffers@.len(),
                forall|u: int| 0 <= u < i ==> (#[trigger] self.view_slots()[u]) is Some,
            decreases self.buffers@.len() - i,
        {
            if self.buffers[i].is_none() {
                assert(self.view_slots()[i as int] is None);
                return false;
            }
            i += 1;
        }
        true
    }

    /// Whether `get_termbuf(term_id)` may be called and hands out a buffer with ids.
    pub fn has_ids(&self, term_id: TermId) -> (r: bool)
        requires
            self.wf(),
        ensures
            r == (term_id < self.max() && self.view_slots()[term_id as int] is Some
                && self.view_slots()[term_id as int].unwrap().len() > 0),
    {
        if term_id >= self.max_term_id {
            false
        } else {
            match &self.buffers[term_id as usize] {
                Some(b) => b.len() > 0,
                None => false,
            }
        }
    }
}

/// Three term buffers, holding documents, term frequencies and positions, hand out the
/// postings of a term. A term whose three buffers are not all there with ids gets nothing.
impl<'a> PostingsStore for (&'a mut TermBuf, &'a mut TermBuf, &'a mut TermBuf) {
    open spec fn postings_of(&self, term_id: TermId) -> Option<(Seq<DocId>, Seq<DocId>, Seq<DocId>)> {
        if self.0.wf() && self.1.wf() && self.2.wf() && holds_ids(*self.0, term_id) && holds_ids(*self.1, term_id)
            && holds_ids(*self.2, term_id) {
            Some(
                (
                    self.0.view_slots()[term_id as int].unwrap(),
                    self.1.view_slots()[term_id as int].unwrap(),
                    self.2.view_slots()[term_id as int].unwrap(),
                ),
            )
        } else {
            None
        }
    }

    fn get_postings(&mut self, term_id: TermId) -> (r: Option<VecPostings>)
        ensures
            r is Some <==> {
                &&& old(self).0.wf()
                &&& old(self).1.wf()
                &&& old(self).2.wf()
                &&& holds_ids(*old(self).0, term_id)
                &&& holds_ids(*old(self).1, term_id)
                &&& holds_ids(*old(self).2, term_id)
            },
            r matches Some(p) ==> {
                &&& Some(p.docs@) == old(self).0.view_slots()[term_id as int]
                &&& Some(p.tfs@) == old(self).1.view_slots()[term_id as int]
                &&& Some(p.positions@) == old(self).2.view_slots()[term_id as int]
                &&& final(self).0.view_slots() == old(self).0.view_slots().update(term_id as int, None)
                &&& final(self).1.view_slots() == old(self).1.view_slots().update(term_id as int, None)
                &&& final(self).2.view_slots() == old(self).2.view_slots().update(term_id as int, None)
            },
            r is None ==> {
                &&& final(self).0.view_slots() == old(self).0.view_slots()
                &&& final(self).1.view_slots() == old(self).1.view_slots()
                &&& final(self).2.view_slots() == old(self).2.view_slots()
            },
    {
        if !(self.0.consistent() && self.1.consistent() && self.2.consistent()) {
            return None;
        }
        if !self.0.has_ids(term_id) || !self.1.has_ids(term_id) || !self.2.has_ids(term_id) {
            return None;
        }
        let docs = match self.0.get_termbuf(term_id) {
            Some(b) => b,
            None => {
                return None;
            },
        };
        let tfs = match self.1.get_termbuf(term_id) {
            Some(b) => b,
            None => {
                return None;
            },
        };
        let positions = match self.2.get_termbuf(term_id) {
            Some(b) => b,
            None => {
                return None;
            },
        };
        Some(Postings { docs: docs, tfs: tfs, positions: positions })
    }
}

} // verus!
