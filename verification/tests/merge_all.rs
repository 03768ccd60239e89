use lib::merge_all::{Merge, MergeUnrolled};
use lib::postings::{Postings, PostingsCursor, RawCursor, VecPostings};
use lib::sequence::{SequenceStorage, SliceSequence};

fn raw(ps: &VecPostings) -> RawCursor<SliceSequence<'_>, SliceSequence<'_>, SliceSequence<'_>> {
    RawCursor::new(Postings {
        docs: (&ps.docs).to_sequence(),
        tfs: (&ps.tfs).to_sequence(),
        positions: (&ps.positions).to_sequence(),
    })
}

fn sample() -> (VecPostings, VecPostings) {
    let ps1 = VecPostings {
        docs: vec![1, 2],
        tfs: vec![0, 1, 2], // NOTE: tfs must already be cumulated!
        positions: vec![1, 2],
    };
    let ps2 = VecPostings {
        docs: vec![2, 3],
        tfs: vec![0, 2, 5], // NOTE: tfs must already be cumulated!
        positions: vec![1, 2, 1, 2, 3],
    };
    (ps1, ps2)
}

#[test]
fn test_merge_with_duplicates() {
    let (ps1, ps2) = sample();
    let ps1c = raw(&ps1);
    let ps2c = raw(&ps2);

    let mut merger = Merge::new(vec![ps1c, ps2c]);
    let merged = merger.collect();

    assert_eq!(merged.docs, vec![1, 2, 2, 3]);
    assert_eq!(merged.tfs, vec![1, 2, 1, 3]);
    assert_eq!(merged.positions, vec![1, 1, 2, 2, 1, 2, 3]);
}

#[test]
fn merge_unrolled_keeps_every_posting() {
    let (ps1, ps2) = sample();
    let mut merger = MergeUnrolled::new(vec![raw(&ps1), raw(&ps2)]);
    let merged = merger.collect();
    assert_eq!(merged.docs, vec![1, 2, 2, 3]);
    assert_eq!(merged.tfs, vec![1, 2, 1, 3]);
    assert_eq!(merged.positions, vec![1, 1, 2, 2, 1, 2, 3]);
}

#[test]
fn merge_steps_and_seeks() {
    let a = VecPostings { docs: vec![2, 5, 9], tfs: vec![0, 1, 2, 3], positions: vec![10, 20, 30] };
    let b = VecPostings { docs: vec![5, 7], tfs: vec![0, 2, 3], positions: vec![1, 2, 3] };
    let mut merger = Merge::new(vec![raw(&a), raw(&b)]);
    assert_eq!(merger.remains(), 5);
    assert_eq!(merger.advance(), Some(2));
    assert_eq!(merger.current(), 2);
    assert_eq!(merger.advance(), Some(5));
    let mut out = VecPostings { docs: Vec::new(), tfs: Vec::new(), positions: Vec::new() };
    // the count is the term frequency of the posting handed out
    let tf = merger.catch_up(&mut out);
    assert_eq!(out.docs, vec![5]);
    assert_eq!(tf as u64, out.tfs[0]);
    assert_eq!(merger.advance(), Some(5));
    assert_eq!(merger.advance_to(8), Some(9));
    assert_eq!(merger.advance(), None);
}

#[test]
fn merge_of_one_cursor_is_that_cursor() {
    let a = VecPostings { docs: vec![4, 8], tfs: vec![0, 2, 3], positions: vec![1, 5, 6] };
    let mut merger = Merge::new(vec![raw(&a)]);
    let merged = merger.collect();
    assert_eq!(merged.docs, vec![4, 8]);
    assert_eq!(merged.tfs, vec![2, 1]);
    assert_eq!(merged.positions, vec![1, 5, 6]);
}
