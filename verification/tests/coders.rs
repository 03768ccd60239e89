use lib::coders::{AscendingDecoder, AscendingEncoder, CumEncoder, CumSequence, DeltaEncoder};
use lib::sequence::{Sequence, SequenceStorage};
use lib::types::DocId;

fn drain<S: Sequence>(mut s: S) -> Vec<DocId> {
    let mut out = Vec::new();
    while let Some(x) = s.next() {
        out.push(x);
    }
    out
}

#[test]
fn sequence_coders_test_cum_sequence() {
    let docs: Vec<DocId> = vec![3, 4, 7, 9, 10, 14, 15, 18, 25, 27, 33, 50, 55, 100];
    let subseq_len = 7;
    let cumseq1 = CumSequence::new((&docs[..]).to_sequence());
    let mut cumseq = cumseq1.subsequence(3, subseq_len);
    println!("REMAINS: {}", cumseq.remains());
    assert_eq!(subseq_len, cumseq.remains());

    let mut count = 0;
    while let Some(doc) = cumseq.next() {
        count += 1;
        println!("Next doc: {}", doc);
    }
    assert_eq!(subseq_len, count);
}

#[test]
fn cum_test_cum_sequence() {
    let docs: Vec<DocId> = vec![0, 3, 5, 7, 8, 9, 10, 11, 15, 16, 18, 22];
    let cum_seq1 = CumEncoder::new(0, (&docs[..]).to_sequence());

    let subseq_len = 7;
    let mut cum_seq = cum_seq1.subsequence(0, subseq_len);

    println!("REMAINS: {}", cum_seq.remains());
    assert_eq!(subseq_len, cum_seq.remains());

    let mut count = 0;
    while let Some(doc) = cum_seq.next() {
        count += 1;
        println!("Next cum doc: {}", doc);
    }
    assert_eq!(subseq_len, count);
}

#[test]
fn test_delta_sequence() {
    let docs: Vec<DocId> = vec![3, 4, 7, 9, 10, 14, 15, 18, 25, 27, 33, 50, 55, 100];
    let subseq_len = 7;
    let delta_seq1 = DeltaEncoder::new((&docs[..]).to_sequence());
    let mut delta_seq = delta_seq1.subsequence(0, subseq_len);
    println!("REMAINS: {}", delta_seq.remains());
    assert_eq!(subseq_len, delta_seq.remains());

    let mut count = 0;
    while let Some(doc) = delta_seq.next() {
        count += 1;
        println!("Next delta doc: {}", doc);
    }
    assert_eq!(subseq_len, count);
}

#[test]
fn delta_values_are_gaps() {
    let docs: Vec<DocId> = vec![3, 4, 7, 9, 10];
    let d = DeltaEncoder::new((&docs[..]).to_sequence());
    assert_eq!(drain(d), vec![1, 3, 2, 1]);
}

#[test]
fn delta_subsequence_values() {
    let docs: Vec<DocId> = vec![3, 4, 7, 9, 10, 14, 15];
    let d = DeltaEncoder::new((&docs[..]).to_sequence());
    // gaps of docs[2..5]
    assert_eq!(drain(d.subsequence(2, 2)), vec![2, 1]);
}

#[test]
fn delta_then_running_sums_roundtrip() {
    let docs: Vec<DocId> = vec![3, 4, 7, 9, 10, 14, 15, 18];
    let d = DeltaEncoder::new((&docs[..]).to_sequence());
    let c = CumEncoder::new(3, d);
    assert_eq!(drain(c), docs[1..].to_vec());
}

#[test]
fn delta_skip_n() {
    let docs: Vec<DocId> = vec![3, 4, 7, 9, 10];
    let mut d = DeltaEncoder::new((&docs[..]).to_sequence());
    // skipping three gaps returns the third one
    assert_eq!(d.skip_n(3), Some(2));
    assert_eq!(d.next(), Some(1));
    assert_eq!(d.next(), None);
}

#[test]
fn delta_skip_n_one_takes_nothing() {
    let docs: Vec<DocId> = vec![3, 4, 7];
    let mut d = DeltaEncoder::new((&docs[..]).to_sequence());
    assert_eq!(d.skip_n(1), None);
    assert_eq!(d.remains(), 2);
}

#[test]
fn cum_encoder_running_totals() {
    let gaps: Vec<DocId> = vec![1, 2, 3];
    let c = CumEncoder::new(10, (&gaps[..]).to_sequence());
    assert_eq!(drain(c), vec![11, 13, 16]);
}

#[test]
fn cum_encoder_skip_to() {
    let gaps: Vec<DocId> = vec![1, 2, 3, 4];
    let mut c = CumEncoder::new(0, (&gaps[..]).to_sequence());
    assert_eq!(c.skip_to(5), Some(6));
    assert_eq!(c.next(), Some(10));
    assert_eq!(c.skip_to(11), None);
}

#[test]
fn cum_sequence_empty_input() {
    let docs: Vec<DocId> = vec![];
    let mut c = CumSequence::new((&docs[..]).to_sequence());
    assert_eq!(c.remains(), 0);
    assert_eq!(c.next(), None);
}

#[test]
fn ascending_roundtrip() {
    let docs: Vec<DocId> = vec![5, 7, 9, 12, 20];
    let enc = AscendingEncoder::new(2, (&docs[..]).to_sequence());
    let encoded = drain(enc);
    assert_eq!(encoded, vec![3, 4, 5, 7, 14]);
    let dec = AscendingDecoder::new(2, (&encoded[..]).to_sequence());
    assert_eq!(drain(dec), docs);
}

#[test]
fn ascending_position_advances() {
    let docs: Vec<DocId> = vec![5, 7];
    let mut enc = AscendingEncoder::new(2, (&docs[..]).to_sequence());
    assert_eq!(enc.current_position(), Some(2));
    enc.next();
    assert_eq!(enc.current_position(), Some(3));
}

#[test]
fn sequences_report_where_they_stand() {
    let docs: Vec<DocId> = vec![3, 5, 9, 10];
    let mut s = (&docs).to_sequence();
    assert_eq!(s.current_position(), Some(0));
    s.next();
    assert_eq!(s.current_position(), Some(1));
    let mut delta = DeltaEncoder::new((&docs).to_sequence());
    assert_eq!(delta.current_position(), Some(0));
    delta.next();
    assert_eq!(delta.current_position(), Some(1));
    let mut cum = CumEncoder::new(0, (&docs).to_sequence());
    cum.next();
    cum.next();
    assert_eq!(cum.current_position(), Some(2));
    let gaps = CumSequence::new((&docs).to_sequence());
    assert_eq!(gaps.current_position(), Some(0));
}
