use lib::postings::Postings;
use lib::search::{exact_postings, find_terms, order_by_size, query, QueryError};
use lib::sequence::{PlainEncoder, Sequence, SequenceStorage};
use lib::termbuf::TermBuf;
use lib::trie::{create_trie, PostingsEncoders};
use lib::trie_read::StaticTrie;
use lib::types::Term;
use lib::util::bytes_to_typed;

struct Index {
    dict: Vec<u8>,
    dict_size: usize,
    root_ptr: usize,
    terms_size: usize,
    docs: Vec<u64>,
    tfs: Vec<u64>,
    positions: Vec<u64>,
}

fn build() -> Index {
    let mut d = TermBuf::new();
    let mut t = TermBuf::new();
    let mut p = TermBuf::new();
    // "ab": documents 1 and 2
    d.add_doc(1, 1);
    t.add_doc(1, 1);
    p.add_doc(1, 0);
    d.add_doc(1, 2);
    t.add_doc(1, 1);
    p.add_doc(1, 3);
    // "ac": document 2, twice
    d.add_doc(2, 2);
    t.add_doc(2, 2);
    p.add_doc(2, 1);
    p.add_doc(2, 4);
    // "b": document 3
    d.add_doc(3, 3);
    t.add_doc(3, 1);
    p.add_doc(3, 0);
    d.add_doc(4, 0);
    t.add_doc(4, 0);
    p.add_doc(4, 0);
    let terms = vec![
        Term { term: "ab".to_string(), term_id: 1 },
        Term { term: "ac".to_string(), term_id: 2 },
        Term { term: "b".to_string(), term_id: 3 },
    ];
    let mut store = (&mut d, &mut t, &mut p);
    let mut dict = Vec::new();
    let mut enc = PostingsEncoders {
        docs: PlainEncoder::new(Vec::new()),
        tfs: PlainEncoder::new(Vec::new()),
        positions: PlainEncoder::new(Vec::new()),
    };
    let (_, dict_size, root_ptr, terms_size) = create_trie(3, &terms, &mut store, &mut dict, &mut enc).unwrap();
    Index {
        dict,
        dict_size,
        root_ptr,
        terms_size,
        docs: bytes_to_typed(&enc.docs.into_inner()),
        tfs: bytes_to_typed(&enc.tfs.into_inner()),
        positions: bytes_to_typed(&enc.positions.into_inner()),
    }
}

#[test]
fn search_single_term() {
    let ix = build();
    let dict = StaticTrie::new(&ix.dict, ix.dict_size, ix.root_ptr, ix.terms_size);
    let postings = Postings {
        docs: (&ix.docs).to_sequence(),
        tfs: (&ix.tfs).to_sequence(),
        positions: (&ix.positions).to_sequence(),
    };
    let r = query(&dict, &postings, true, &["ab"]).unwrap().unwrap();
    assert_eq!(r.docs, vec![1, 2]);
    assert_eq!(r.tfs, vec![1, 1]);
    assert_eq!(r.positions, vec![0, 3]);
}

#[test]
fn search_intersects_terms_smallest_first() {
    let ix = build();
    let dict = StaticTrie::new(&ix.dict, ix.dict_size, ix.root_ptr, ix.terms_size);
    let postings = Postings {
        docs: (&ix.docs).to_sequence(),
        tfs: (&ix.tfs).to_sequence(),
        positions: (&ix.positions).to_sequence(),
    };
    let r = query(&dict, &postings, true, &["ab", "ac"]).unwrap().unwrap();
    // "ac" has fewer documents, so its postings come first for document 2
    assert_eq!(r.docs, vec![2, 2]);
    assert_eq!(r.tfs, vec![2, 1]);
    assert_eq!(r.positions, vec![1, 3, 3]);
    let none_common = query(&dict, &postings, true, &["ab", "b"]).unwrap().unwrap();
    assert!(none_common.docs.is_empty());
}

#[test]
fn search_missing_term_finds_nothing() {
    let ix = build();
    let dict = StaticTrie::new(&ix.dict, ix.dict_size, ix.root_ptr, ix.terms_size);
    let postings = Postings {
        docs: (&ix.docs).to_sequence(),
        tfs: (&ix.tfs).to_sequence(),
        positions: (&ix.positions).to_sequence(),
    };
    assert!(query(&dict, &postings, true, &["ab", "zz"]).unwrap().is_none());
    assert!(find_terms(&dict, true, &["zz"]).is_none());
    let hs = find_terms(&dict, true, &["ac", "ab"]).unwrap();
    assert_eq!(hs.iter().map(|h| h.term_id).collect::<Vec<_>>(), vec![2, 1]);
}

#[test]
fn search_reports_postings_outside_the_index() {
    let ix = build();
    let dict = StaticTrie::new(&ix.dict, ix.dict_size, ix.root_ptr, ix.terms_size);
    let short_docs = &ix.docs[..1];
    let postings = Postings {
        docs: short_docs.to_sequence(),
        tfs: (&ix.tfs).to_sequence(),
        positions: (&ix.positions).to_sequence(),
    };
    assert!(matches!(query(&dict, &postings, true, &["ab"]), Err(QueryError::CorruptPostings(0))));
}

#[test]
fn search_orders_terms_by_document_count() {
    let ix = build();
    let dict = StaticTrie::new(&ix.dict, ix.dict_size, ix.root_ptr, ix.terms_size);
    let hs = find_terms(&dict, true, &["ab", "b", "ac"]).unwrap();
    assert_eq!(order_by_size(&hs), vec![1, 2, 0]);
    let postings = Postings {
        docs: (&ix.docs).to_sequence(),
        tfs: (&ix.tfs).to_sequence(),
        positions: (&ix.positions).to_sequence(),
    };
    let ps = exact_postings(&hs[0], &postings);
    assert_eq!(ps.docs.remains(), 2);
}

