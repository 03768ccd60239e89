use lib::intersect::{Intersect, IntersectUnrolled};
use lib::postings::{Postings, PostingsCursor, RawCursor, VecPostings};
use lib::sequence::{SequenceStorage, SliceSequence};

fn raw(ps: &VecPostings) -> RawCursor<SliceSequence<'_>, SliceSequence<'_>, SliceSequence<'_>> {
    RawCursor::new(Postings {
        docs: (&ps.docs).to_sequence(),
        tfs: (&ps.tfs).to_sequence(),
        positions: (&ps.positions).to_sequence(),
    })
}

fn three() -> (VecPostings, VecPostings, VecPostings) {
    let a = VecPostings { docs: vec![1, 2, 4, 7], tfs: vec![0, 1, 3, 4, 5], positions: vec![10, 20, 21, 40, 70] };
    let b = VecPostings { docs: vec![2, 3, 7, 9], tfs: vec![0, 1, 2, 4, 5], positions: vec![5, 6, 7, 8, 9] };
    let c = VecPostings { docs: vec![0, 2, 7], tfs: vec![0, 1, 2, 3], positions: vec![100, 200, 700] };
    (a, b, c)
}

#[test]
fn intersect_collects_common_documents() {
    let (a, b, c) = three();
    let mut inter = Intersect::new(vec![raw(&a), raw(&b), raw(&c)]);
    assert_eq!(inter.remains(), 3);
    let r = inter.collect();
    assert_eq!(r.docs, vec![2, 2, 2, 7, 7, 7]);
    assert_eq!(r.tfs, vec![2, 1, 1, 1, 2, 1]);
    assert_eq!(r.positions, vec![20, 21, 5, 200, 70, 7, 8, 700]);
}

#[test]
fn intersect_step_by_step() {
    let (a, b, c) = three();
    let mut inter = Intersect::new(vec![raw(&a), raw(&b), raw(&c)]);
    assert_eq!(inter.advance(), Some(2));
    assert_eq!(inter.current(), 2);
    let mut out = VecPostings { docs: Vec::new(), tfs: Vec::new(), positions: Vec::new() };
    // term frequencies of document 2 in the three lists: 2, 1 and 1
    assert_eq!(inter.catch_up(&mut out), 4);
    assert_eq!(out.docs, vec![2, 2, 2]);
    assert_eq!(inter.advance_to(2), Some(2));
    assert_eq!(inter.advance(), Some(7));
    assert_eq!(inter.advance(), None);
}

#[test]
fn intersect_advance_to_skips() {
    let (a, b, c) = three();
    let mut inter = Intersect::new(vec![raw(&a), raw(&b), raw(&c)]);
    assert_eq!(inter.advance_to(3), Some(7));
    assert_eq!(inter.advance_to(8), None);
}

#[test]
fn intersect_with_nothing_common() {
    let a = VecPostings { docs: vec![1, 3], tfs: vec![0, 1, 2], positions: vec![1, 1] };
    let b = VecPostings { docs: vec![2, 4], tfs: vec![0, 1, 2], positions: vec![2, 2] };
    let mut inter = Intersect::new(vec![raw(&a), raw(&b)]);
    assert_eq!(inter.advance(), None);
    assert_eq!(inter.advance(), None);
}

#[test]
fn intersect_unrolled_matches_cursor() {
    let (a, b, c) = three();
    let mut unrolled = IntersectUnrolled::new(vec![raw(&a), raw(&b), raw(&c)]);
    let r = unrolled.collect();
    assert_eq!(r.docs, vec![2, 2, 2, 7, 7, 7]);
    assert_eq!(r.tfs, vec![2, 1, 1, 1, 2, 1]);
    assert_eq!(r.positions, vec![20, 21, 5, 200, 70, 7, 8, 700]);
}

#[test]
fn intersect_of_one_cursor_is_the_cursor() {
    let a = VecPostings { docs: vec![4, 6], tfs: vec![0, 2, 3], positions: vec![1, 2, 3] };
    let mut unrolled = IntersectUnrolled::new(vec![raw(&a)]);
    let r = unrolled.collect();
    assert_eq!(r.docs, vec![4, 6]);
    assert_eq!(r.tfs, vec![2, 1]);
    assert_eq!(r.positions, vec![1, 2, 3]);
}
