use lib::sequence::{PlainEncoder, Sequence, SequenceEncoder, SequenceStorage, SliceSequence};
use lib::types::DocId;

#[test]
fn test_sequence() {
    let docs: Vec<DocId> = vec![5, 7, 3, 9, 45, 1, 0, 4, 7];
    let mut seq = (&docs[..]).to_sequence();
    let mut seen = Vec::new();
    while let Some(doc) = seq.next() {
        println!("Next doc: {}", doc);
        seen.push(doc);
    }
    println!("---");
    assert_eq!(seen, docs);
}

#[test]
fn test_slice_sequence_skip() {
    let docs: Vec<DocId> = vec![5, 7, 9, 11, 15, 17, 50, 90];
    let mut seq = (&docs[..]).to_sequence();
    assert_eq!(seq.current().unwrap(), 5);
    assert_eq!(seq.move_to(9), 2);
    assert_eq!(seq.move_to(12), 2);
    assert_eq!(seq.move_to(17), 1);
    assert_eq!(seq.move_to(30), 1);
    assert_eq!(seq.move_to(60), 1);
}

#[test]
fn test_slice_subsequence_skip() {
    let docs: Vec<DocId> = vec![5, 7, 9, 11, 15, 17, 50, 90, 120, 2000, 2001];
    let seq = (&docs[..]).to_sequence();
    let mut subseq = seq.subsequence(3, 5);

    assert_eq!(seq.current().unwrap(), 5);

    assert_eq!(subseq.current().unwrap(), 11);
    assert_eq!(subseq.move_to(11), 0);
    assert_eq!(subseq.move_to(17), 2);
    assert_eq!(subseq.move_to(30), 1);
    assert_eq!(subseq.move_to(60), 1);
}

#[test]
fn slice_skip_n_and_skip_to() {
    let docs: Vec<DocId> = vec![5, 7, 9, 11, 15];
    let mut seq = SliceSequence::new(&docs[..]);
    assert_eq!(seq.skip_n(0), None);
    assert_eq!(seq.skip_n(2), Some(7));
    assert_eq!(seq.skip_to(10), Some(11));
    assert_eq!(seq.remains(), 1);
    assert_eq!(seq.skip_n(3), None);
    assert_eq!(seq.remains(), 0);
}

#[test]
fn slice_move_n_and_to_vec() {
    let docs: Vec<DocId> = vec![5, 7, 9, 11, 15];
    let mut seq = SliceSequence::new(&docs[..]);
    assert_eq!(seq.move_n(2), Some(9));
    assert_eq!(seq.to_vec(), vec![9, 11, 15]);
    assert_eq!(seq.current(), None);
}

#[test]
fn plain_encoder_writes_little_endian() {
    let docs: Vec<DocId> = vec![1, 0x0102];
    let mut enc = PlainEncoder::new(vec![0xaa]);
    assert_eq!(enc.write_sequence((&docs).to_sequence()), 16);
    assert_eq!(enc.write(3), 8);
    let bytes = enc.into_inner();
    assert_eq!(bytes.len(), 25);
    assert_eq!(&bytes[..10], &[0xaa, 1, 0, 0, 0, 0, 0, 0, 0, 2][..]);
    assert_eq!(bytes[10], 1);
    assert_eq!(bytes[17], 3);
}
