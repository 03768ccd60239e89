use lib::header::TrieNodeHeader;
use lib::sequence::PlainEncoder;
use lib::termbuf::TermBuf;
use lib::trie::{create_trie, PostingsEncoders, TrieError};
use lib::trie_read::StaticTrie;
use lib::types::Term;

fn bufs() -> (TermBuf, TermBuf, TermBuf) {
    let mut docs = TermBuf::new();
    let mut tfs = TermBuf::new();
    let mut pos = TermBuf::new();
    // term 1 ("ab"): documents 1 and 2
    docs.add_doc(1, 1);
    tfs.add_doc(1, 1);
    pos.add_doc(1, 0);
    docs.add_doc(1, 2);
    tfs.add_doc(1, 1);
    pos.add_doc(1, 3);
    // term 2 ("ac"): document 2, twice
    docs.add_doc(2, 2);
    tfs.add_doc(2, 2);
    pos.add_doc(2, 1);
    pos.add_doc(2, 4);
    // term 3 ("b"): document 3
    docs.add_doc(3, 3);
    tfs.add_doc(3, 1);
    pos.add_doc(3, 0);
    // one more slot so that every term id is below the largest one seen
    docs.add_doc(4, 0);
    tfs.add_doc(4, 0);
    pos.add_doc(4, 0);
    (docs, tfs, pos)
}

fn terms() -> Vec<Term> {
    vec![
        Term { term: "ab".to_string(), term_id: 1 },
        Term { term: "ac".to_string(), term_id: 2 },
        Term { term: "b".to_string(), term_id: 3 },
    ]
}

fn build() -> (Vec<u8>, usize, usize, usize, Vec<u8>, Vec<u8>, Vec<u8>) {
    let (mut d, mut t, mut p) = bufs();
    let mut store = (&mut d, &mut t, &mut p);
    let mut dict = Vec::new();
    let mut enc = PostingsEncoders {
        docs: PlainEncoder::new(Vec::new()),
        tfs: PlainEncoder::new(Vec::new()),
        positions: PlainEncoder::new(Vec::new()),
    };
    let (written, dict_size, root_ptr, terms_size) =
        create_trie(3, &terms(), &mut store, &mut dict, &mut enc).unwrap();
    assert_eq!(written.len(), 4);
    (
        dict,
        dict_size,
        root_ptr,
        terms_size,
        enc.docs.into_inner(),
        enc.tfs.into_inner(),
        enc.positions.into_inner(),
    )
}

fn u64s(bytes: &[u8]) -> Vec<u64> {
    bytes.chunks(8).map(|c| u64::from_le_bytes(c.try_into().unwrap())).collect()
}

#[test]
fn trie_layout() {
    let (dict, dict_size, root_ptr, terms_size, _, _, _) = build();
    // records: "ab", "ac", the prefix "a" with two children, "b", the root with two children
    assert_eq!(dict_size, 32 + 32 + 48 + 32 + 48);
    assert_eq!(root_ptr, 144);
    assert_eq!(terms_size, 5);
    assert_eq!(&dict[dict_size..], b"abacb");
    let root = TrieNodeHeader::from_bytes(&dict, root_ptr);
    assert_eq!(root.term_id, 0);
    assert_eq!(root.num_children, 2);
    assert_eq!(root.num_postings, 1);
    let prefix = TrieNodeHeader::from_bytes(&dict, 64);
    assert_eq!(prefix.term_id, 4);
    assert_eq!(prefix.num_children, 2);
    assert_eq!(prefix.num_postings, 2);
    assert_eq!(prefix.term_length, 1);
}

#[test]
fn trie_postings_written() {
    let (_, _, _, _, docs, tfs, positions) = build();
    // "ab", "ac", then the merged prefix "a", then "b"
    assert_eq!(u64s(&docs), vec![1, 2, 2, 1, 2, 3]);
    // offsets shifted by the positions written before, and the final end
    assert_eq!(u64s(&tfs), vec![0, 1, 2, 4, 5, 8, 9]);
    // positions delta-coded per document
    assert_eq!(u64s(&positions), vec![0, 3, 1, 3, 0, 1, 2, 1, 0]);
}

#[test]
fn trie_lookup() {
    let (dict, dict_size, root_ptr, terms_size, _, _, _) = build();
    let trie = StaticTrie::new(&dict, dict_size, root_ptr, terms_size);
    assert_eq!(trie.find_term("ab", false).map(|h| h.term_id), Some(1));
    assert_eq!(trie.find_term("ac", false).map(|h| h.term_id), Some(2));
    assert_eq!(trie.find_term("a", true).map(|h| h.term_id), Some(4));
    assert_eq!(trie.find_term("b", false).map(|h| h.term_id), Some(3));
    assert_eq!(trie.find_term("x", false), None);
}

#[test]
fn trie_missing_postings() {
    let (mut d, mut t, mut p) = bufs();
    let mut store = (&mut d, &mut t, &mut p);
    let mut dict = Vec::new();
    let mut enc = PostingsEncoders {
        docs: PlainEncoder::new(Vec::new()),
        tfs: PlainEncoder::new(Vec::new()),
        positions: PlainEncoder::new(Vec::new()),
    };
    let ts = vec![Term { term: "zz".to_string(), term_id: 7 }];
    assert_eq!(create_trie(3, &ts, &mut store, &mut dict, &mut enc).err(), Some(TrieError::MissingPostings(7)));
}

#[test]
fn trie_lookup_of_a_term_that_starts_the_next() {
    let mut docs = TermBuf::new();
    let mut tfs = TermBuf::new();
    let mut pos = TermBuf::new();
    // term 1 ("a") in document 1, term 2 ("b") in document 2, term 3 ("bc") in document 3
    for id in 1..4u32 {
        docs.add_doc(id, id as u64);
        tfs.add_doc(id, 1);
        pos.add_doc(id, 0);
    }
    docs.add_doc(4, 0);
    tfs.add_doc(4, 0);
    pos.add_doc(4, 0);
    let mut store = (&mut docs, &mut tfs, &mut pos);
    let mut dict = Vec::new();
    let mut enc = PostingsEncoders {
        docs: PlainEncoder::new(Vec::new()),
        tfs: PlainEncoder::new(Vec::new()),
        positions: PlainEncoder::new(Vec::new()),
    };
    let terms = vec![
        Term { term: "a".to_string(), term_id: 1 },
        Term { term: "b".to_string(), term_id: 2 },
        Term { term: "bc".to_string(), term_id: 3 },
    ];
    let (_, dict_size, root_ptr, terms_size) =
        create_trie(3, &terms, &mut store, &mut dict, &mut enc).unwrap();
    let trie = StaticTrie::new(&dict, dict_size, root_ptr, terms_size);
    assert_eq!(trie.find_term("a", false).map(|h| h.term_id), Some(1));
    // "b" ends at the node of the shared start "b", made with the next identifier
    assert_eq!(trie.find_term("b", false).map(|h| h.term_id), Some(4));
    assert_eq!(trie.find_term("bc", false).map(|h| h.term_id), Some(3));
}

fn two_term_store() -> (TermBuf, TermBuf, TermBuf) {
    let mut docs = TermBuf::new();
    let mut tfs = TermBuf::new();
    let mut pos = TermBuf::new();
    // term 1 in document 1, term 2 in document 2, each at position 0
    docs.add_doc(1, 1);
    tfs.add_doc(1, 1);
    pos.add_doc(1, 0);
    docs.add_doc(2, 2);
    tfs.add_doc(2, 1);
    pos.add_doc(2, 0);
    docs.add_doc(3, 0);
    tfs.add_doc(3, 0);
    pos.add_doc(3, 0);
    (docs, tfs, pos)
}

#[test]
fn trie_of_two_terms_sharing_a_prefix() {
    let (mut d, mut t, mut p) = two_term_store();
    let mut store = (&mut d, &mut t, &mut p);
    let mut dict = Vec::new();
    let mut enc = PostingsEncoders {
        docs: PlainEncoder::new(Vec::new()),
        tfs: PlainEncoder::new(Vec::new()),
        positions: PlainEncoder::new(Vec::new()),
    };
    let ts = vec![Term { term: "abc".to_string(), term_id: 1 }, Term { term: "abd".to_string(), term_id: 2 }];
    let (written, dict_size, root_ptr, terms_size) = create_trie(2, &ts, &mut store, &mut dict, &mut enc).unwrap();
    // "abc", the prefix "ab" and "abd"
    assert_eq!(written.len(), 3);
    // records: "abc", "abd", "ab" with two children, the root with one child
    assert_eq!(dict_size, 32 + 32 + 48 + 40);
    assert_eq!(root_ptr, 112);
    assert_eq!(terms_size, 6);
    assert_eq!(dict.len(), 158);
    assert_eq!(&dict[152..], b"abcabd");
    let prefix = TrieNodeHeader::from_bytes(&dict, 64);
    assert_eq!(prefix.term_id, 3);
    assert_eq!(prefix.num_children, 2);
    assert_eq!(prefix.num_postings, 2);
    let trie = StaticTrie::new(&dict, dict_size, root_ptr, terms_size);
    assert_eq!(trie.find_term("abd", false).map(|h| h.term_id), Some(2));
    assert_eq!(trie.find_term("ab", true).map(|h| h.term_id), Some(3));
}

#[test]
fn trie_whose_root_keeps_no_postings() {
    // both terms hang below the one-letter prefix "a", whose postings the root does not take
    let (mut d, mut t, mut p) = two_term_store();
    let mut store = (&mut d, &mut t, &mut p);
    let mut dict = Vec::new();
    let mut enc = PostingsEncoders {
        docs: PlainEncoder::new(Vec::new()),
        tfs: PlainEncoder::new(Vec::new()),
        positions: PlainEncoder::new(Vec::new()),
    };
    let ts = vec![Term { term: "ab".to_string(), term_id: 1 }, Term { term: "ac".to_string(), term_id: 2 }];
    assert_eq!(create_trie(2, &ts, &mut store, &mut dict, &mut enc).err(), Some(TrieError::NoPostings(0)));
}
