use lib::seq_merge::MergeEncoder;
use lib::sequence::{Sequence, SequenceStorage, SliceSequence};

fn drain<S: Sequence>(mut s: S) -> Vec<u64> {
    let mut out = Vec::new();
    while let Some(x) = s.next() {
        out.push(x);
    }
    out
}

#[test]
fn merge_encoder_yields_all_items_in_order() {
    let a = vec![1u64, 4, 9];
    let b = vec![2u64, 4, 5];
    let seqs: Vec<SliceSequence> = vec![(&a).to_sequence(), (&b).to_sequence()];
    let m = MergeEncoder::new(&seqs);
    assert_eq!(m.remains(), 6);
    assert_eq!(drain(m), vec![1, 2, 4, 4, 5, 9]);
}

#[test]
fn merge_encoder_skips_empty_inputs() {
    let a: Vec<u64> = vec![];
    let b = vec![3u64, 7];
    let seqs: Vec<SliceSequence> = vec![(&a).to_sequence(), (&b).to_sequence()];
    let m = MergeEncoder::new(&seqs);
    assert_eq!(m.remains(), 2);
    assert_eq!(drain(m), vec![3, 7]);
}

#[test]
fn merge_encoder_subsequence_and_skips() {
    let a = vec![1u64, 4, 9];
    let b = vec![2u64, 4, 5];
    let c = vec![0u64, 10];
    let seqs: Vec<SliceSequence> = vec![(&a).to_sequence(), (&b).to_sequence(), (&c).to_sequence()];
    let m = MergeEncoder::new(&seqs);
    let sub = m.subsequence(2, 3);
    assert_eq!(sub.remains(), 3);
    assert_eq!(drain(sub), vec![2, 4, 4]);
    let tail = m.subsequence(6, 10);
    assert_eq!(drain(tail), vec![9, 10]);
    let mut s = m.subsequence(0, 8);
    assert_eq!(s.skip_n(3), Some(2));
    assert_eq!(s.skip_to(5), Some(5));
    assert_eq!(s.next(), Some(9));
    assert_eq!(s.next(), Some(10));
    assert_eq!(s.next(), None);
}
