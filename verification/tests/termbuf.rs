use lib::postings::PostingsStore;
use lib::termbuf::TermBuf;

#[test]
fn termbuf_test() {
    let mut tb = TermBuf::new();
    let max = 31;
    for i in 1..2000u32 {
        tb.add_doc(i % max, i as u64);
    }
    let chosen_term_id = 25;
    for doc_id in tb.get_termbuf(chosen_term_id).unwrap() {
        println!("ITERATING THROUGH DOCS OF TERM_ID {}: {}", chosen_term_id, doc_id);
    }
}

#[test]
fn termbuf_collects_ids_per_term() {
    let mut tb = TermBuf::new();
    for i in 1..100u32 {
        tb.add_doc(i % 7, i as u64);
    }
    assert!(tb.consistent());
    assert!(tb.has_ids(3));
    assert_eq!(tb.get_iterator(3).unwrap(), &[3u64, 10, 17, 24, 31, 38, 45, 52, 59, 66, 73, 80, 87, 94][..]);
    let ids = tb.get_termbuf(3).unwrap();
    assert_eq!(ids, vec![3, 10, 17, 24, 31, 38, 45, 52, 59, 66, 73, 80, 87, 94]);
    assert!(!tb.has_ids(3));
    assert_eq!(tb.get_iterator(3), None);
    assert_eq!(tb.get_termbuf(9), None);
}

#[test]
fn termbuf_adds_empty_slots_below_new_term() {
    let mut tb = TermBuf::new();
    tb.add_doc(4, 100);
    assert_eq!(tb.buffers.len(), 5);
    assert_eq!(tb.get_iterator(2).unwrap().len(), 0);
    assert!(!tb.has_ids(2));
    assert!(tb.has_ids(4));
}

#[test]
fn termbuf_store_hands_out_postings() {
    let mut docs = TermBuf::new();
    let mut tfs = TermBuf::new();
    let mut positions = TermBuf::new();
    docs.add_doc(1, 7);
    tfs.add_doc(1, 0);
    tfs.add_doc(1, 2);
    positions.add_doc(1, 3);
    positions.add_doc(1, 9);
    let mut store = (&mut docs, &mut tfs, &mut positions);
    let p = store.get_postings(1).unwrap();
    assert_eq!(p.docs, vec![7]);
    assert_eq!(p.tfs, vec![0, 2]);
    assert_eq!(p.positions, vec![3, 9]);
    assert!(store.get_postings(1).is_none());
    assert!(store.get_postings(0).is_none());
}
