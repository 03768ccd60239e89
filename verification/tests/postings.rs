use lib::merge::{MergerWithoutDuplicates, MergerWithoutDuplicatesUnrolled};
use lib::postings::{Postings, PostingsCursor, RawCursor, VecPostings};
use lib::sequence::SequenceStorage;

fn raw(ps: &VecPostings) -> RawCursor<lib::sequence::SliceSequence<'_>, lib::sequence::SliceSequence<'_>, lib::sequence::SliceSequence<'_>> {
    RawCursor::new(Postings {
        docs: (&ps.docs).to_sequence(),
        tfs: (&ps.tfs).to_sequence(),
        positions: (&ps.positions).to_sequence(),
    })
}

fn sample() -> (VecPostings, VecPostings) {
    let ps1 = VecPostings {
        docs: vec![1, 2],
        tfs: vec![0, 1, 2], // NOTE: tfs must already be cumulated!
        positions: vec![1, 2],
    };
    let ps2 = VecPostings {
        docs: vec![2, 3],
        tfs: vec![0, 2, 5], // NOTE: tfs must already be cumulated!
        positions: vec![1, 2, 1, 2, 3],
    };
    (ps1, ps2)
}

#[test]
fn test_cursor() {
    let ps = Postings {
        docs: vec![3, 5],
        tfs: vec![0, 3, 8],
        positions: vec![3, 3, 3, 5, 5, 5, 5, 5],
    };
    let mut cur = raw(&ps);
    let mut all = VecPostings { docs: Vec::new(), tfs: Vec::new(), positions: Vec::new() };
    while let Some(doc_id) = cur.advance() {
        let mut positions = VecPostings { docs: Vec::new(), tfs: Vec::new(), positions: Vec::new() };
        let tf = cur.catch_up(&mut positions);
        assert_eq!(tf, if doc_id == 3 { 3 } else { 5 });
        println!("DOC: {}, TF: {}, POSITIONS: {:?}", doc_id, positions.tfs[0], positions.positions);
        all.docs.extend(positions.docs);
        all.tfs.extend(positions.tfs);
        all.positions.extend(positions.positions);
    }
    println!("---");
    assert_eq!(all.docs, vec![3, 5]);
    assert_eq!(all.tfs, vec![3, 5]);
    assert_eq!(all.positions, vec![3, 3, 3, 5, 5, 5, 5, 5]);
}

#[test]
fn test_cursor2() {
    let ps = Postings {
        docs: vec![1],
        tfs: vec![0, 1],
        positions: vec![1337],
    };
    let mut cur = raw(&ps);
    let mut seen = Vec::new();
    while let Some(doc_id) = cur.advance() {
        let mut out = VecPostings { docs: Vec::new(), tfs: Vec::new(), positions: Vec::new() };
        let _ = cur.catch_up(&mut out);
        println!("DOC: {}, TF: {}, POSITIONS: {:?}", doc_id, out.tfs[0], out.positions);
        seen.push((doc_id, out.tfs[0], out.positions));
    }
    println!("---");
    assert_eq!(seen, vec![(1, 1, vec![1337])]);
}

#[test]
fn raw_cursor_skips_without_catch_up() {
    let ps = Postings {
        docs: vec![3, 5, 9],
        tfs: vec![0, 2, 3, 6],
        positions: vec![1, 2, 7, 4, 5, 6],
    };
    let mut cur = raw(&ps);
    assert_eq!(cur.advance(), Some(3));
    assert_eq!(cur.advance(), Some(5));
    assert_eq!(cur.advance_to(9), Some(9));
    assert_eq!(cur.current(), 9);
    assert_eq!(cur.advance_to(9), Some(9));
    let mut out = VecPostings { docs: Vec::new(), tfs: Vec::new(), positions: Vec::new() };
    cur.catch_up(&mut out);
    assert_eq!(out.docs, vec![9]);
    assert_eq!(out.tfs, vec![3]);
    assert_eq!(out.positions, vec![4, 5, 6]);
    assert_eq!(cur.advance(), None);
}

#[test]
fn raw_cursor_collect_and_remains() {
    let (ps1, _) = sample();
    let mut cur = raw(&ps1);
    assert_eq!(cur.remains(), 2);
    let all = cur.collect();
    assert_eq!(all.docs, vec![1, 2]);
    assert_eq!(all.tfs, vec![1, 1]);
    assert_eq!(all.positions, vec![1, 2]);
    assert_eq!(cur.remains(), 0);
}

#[test]
fn merge_test_merge_without_duplicates() {
    let (ps1, ps2) = sample();
    let mut merger = MergerWithoutDuplicates::new(vec![raw(&ps1), raw(&ps2)]);
    let merged = merger.collect();

    assert_eq!(merged.docs, vec![1, 2, 3]);
    assert_eq!(merged.tfs, vec![1, 2, 3]); // NOTE: result tfs are not cumulated though!
    assert_eq!(merged.positions, vec![1, 1, 2, 1, 2, 3]);
}

#[test]
fn without_duplicates_test_merge_without_duplicates() {
    let (ps1, ps2) = sample();
    let mut merger = MergerWithoutDuplicates::new(vec![raw(&ps1), raw(&ps2)]);
    let merged = merger.collect();

    assert_eq!(merged.docs, vec![1, 2, 3]);
    assert_eq!(merged.tfs, vec![1, 2, 3]); // NOTE: result tfs are not cumulated though!
    assert_eq!(merged.positions, vec![1, 1, 2, 1, 2, 3]);
}

#[test]
fn unrolled_merge_matches() {
    let (ps1, ps2) = sample();
    let mut merger = MergerWithoutDuplicatesUnrolled::new(vec![raw(&ps1), raw(&ps2)]);
    let merged = merger.collect();
    assert_eq!(merged.docs, vec![1, 2, 3]);
    assert_eq!(merged.tfs, vec![1, 2, 3]);
    assert_eq!(merged.positions, vec![1, 1, 2, 1, 2, 3]);
}

#[test]
fn merge_removes_repeated_positions() {
    let a = VecPostings { docs: vec![4], tfs: vec![0, 3], positions: vec![9, 2, 2] };
    let b = VecPostings { docs: vec![4, 6], tfs: vec![0, 2, 3], positions: vec![2, 7, 1] };
    let mut merger = MergerWithoutDuplicates::new(vec![raw(&a), raw(&b)]);
    assert_eq!(merger.remains(), 2);
    assert_eq!(merger.advance(), Some(4));
    assert_eq!(merger.current(), 4);
    let mut out = VecPostings { docs: Vec::new(), tfs: Vec::new(), positions: Vec::new() };
    assert_eq!(merger.catch_up(&mut out), 1);
    assert_eq!(out.docs, vec![4]);
    assert_eq!(out.tfs, vec![3]);
    assert_eq!(out.positions, vec![2, 7, 9]);
    assert_eq!(merger.advance_to(6), Some(6));
    assert_eq!(merger.advance(), None);
}

fn stored(ps: &VecPostings) -> Postings<lib::sequence::SliceSequence<'_>, lib::sequence::SliceSequence<'_>, lib::sequence::SliceSequence<'_>> {
    Postings {
        docs: (&ps.docs).to_sequence(),
        tfs: (&ps.tfs).to_sequence(),
        positions: (&ps.positions).to_sequence(),
    }
}

#[test]
fn postings_merge_without_duplicates() {
    let (ps1, ps2) = sample();
    let merged = Postings::merge_without_duplicates(&[stored(&ps1), stored(&ps2)]);
    assert_eq!(merged.docs, vec![1, 2, 3]);
    assert_eq!(merged.tfs, vec![1, 2, 3]);
    assert_eq!(merged.positions, vec![1, 1, 2, 1, 2, 3]);
}

#[test]
fn postings_merge_without_duplicates_unrolled() {
    let ps1 = VecPostings { docs: vec![1, 3], tfs: vec![0, 1, 3], positions: vec![5, 1, 2] };
    let ps2 = VecPostings { docs: vec![3, 4], tfs: vec![0, 2, 3], positions: vec![2, 7, 9] };
    let merged = Postings::merge_without_duplicates_unrolled(&[stored(&ps1), stored(&ps2)]);
    assert_eq!(merged.docs, vec![1, 3, 4]);
    assert_eq!(merged.tfs, vec![1, 3, 1]);
    assert_eq!(merged.positions, vec![5, 1, 2, 7, 9]);
}

#[test]
fn merge_plain_lists_unions_documents_and_positions() {
    let a = VecPostings { docs: vec![1, 3], tfs: vec![2, 1], positions: vec![5, 7, 2] };
    let b = VecPostings { docs: vec![3, 4], tfs: vec![2, 1], positions: vec![2, 9, 1] };
    let r = Postings::merge(&[&a, &b]);
    assert_eq!(r.docs, vec![1, 3, 4]);
    assert_eq!(r.tfs, vec![2, 2, 1]);
    assert_eq!(r.positions, vec![5, 7, 2, 9, 1]);
    // merging one list gives it back
    let s = Postings::merge(&[&a]);
    assert_eq!(s.docs, a.docs);
    assert_eq!(s.tfs, a.tfs);
    assert_eq!(s.positions, a.positions);
}

#[test]
fn raw_cursor_reports_term_frequencies() {
    let ps = Postings { docs: vec![4, 6], tfs: vec![0, 2, 7], positions: vec![1, 2, 1, 2, 3, 4, 5] };
    let mut cur = raw(&ps);
    let mut out = VecPostings { docs: Vec::new(), tfs: Vec::new(), positions: Vec::new() };
    assert_eq!(cur.advance(), Some(4));
    assert_eq!(cur.catch_up(&mut out), 2);
    assert_eq!(cur.advance(), Some(6));
    assert_eq!(cur.catch_up(&mut out), 5);
    assert_eq!(out.tfs, vec![2, 5]);
}
