use lib::indexing::{add_document, check_fields, sort_fields, sort_terms, split_fields};
use lib::termbuf::TermBuf;
use lib::trie::check_trie_input;
use lib::types::Term;

fn slot(tb: &TermBuf, t: u32) -> Vec<u64> {
    tb.get_iterator(t).unwrap().to_vec()
}

#[test]
fn document_fields_go_to_their_terms() {
    let mut d = TermBuf::new();
    let mut t = TermBuf::new();
    let mut p = TermBuf::new();
    let fields = vec![(2, 0), (1, 1), (2, 2)];
    assert!(check_fields(&fields));
    add_document(1, &fields, &mut d, &mut t, &mut p);
    add_document(2, &[(2, 5)], &mut d, &mut t, &mut p);
    assert_eq!(slot(&d, 1), vec![1]);
    assert_eq!(slot(&d, 2), vec![1, 2]);
    assert_eq!(slot(&t, 1), vec![1]);
    assert_eq!(slot(&t, 2), vec![2, 1]);
    assert_eq!(slot(&p, 1), vec![1]);
    assert_eq!(slot(&p, 2), vec![0, 2, 5]);
    assert_eq!(slot(&d, 0), Vec::<u64>::new());
    assert!(d.ready() && t.ready() && p.ready());
}

#[test]
fn document_without_fields_goes_to_term_zero() {
    let mut d = TermBuf::new();
    let mut t = TermBuf::new();
    let mut p = TermBuf::new();
    add_document(7, &[], &mut d, &mut t, &mut p);
    assert_eq!(slot(&d, 0), vec![7]);
    assert_eq!(slot(&t, 0), vec![0]);
    assert_eq!(p.buffers.len(), 0);
}

#[test]
fn fields_sort_by_term_then_position() {
    assert_eq!(sort_fields(&[(3, 1), (1, 4), (3, 0), (1, 2)]), vec![(1, 2), (1, 4), (3, 0), (3, 1)]);
    assert!(!check_fields(&[(0, 1)]));
    assert!(!check_fields(&[(u32::MAX, 1)]));
}

#[test]
fn terms_sort_by_characters() {
    let terms = vec![
        Term { term: "b".to_string(), term_id: 1 },
        Term { term: "ab".to_string(), term_id: 2 },
        Term { term: "a".to_string(), term_id: 3 },
        Term { term: "á".to_string(), term_id: 4 },
    ];
    let sorted = sort_terms(terms);
    let names: Vec<&str> = sorted.iter().map(|t| t.term.as_str()).collect();
    assert_eq!(names, vec!["a", "ab", "b", "á"]);
    assert!(check_trie_input(4, &sorted));
}

#[test]
fn trie_input_refusals() {
    let zero = vec![Term { term: "a".to_string(), term_id: 0 }];
    assert!(!check_trie_input(0, &zero));
    let twice = vec![
        Term { term: "a".to_string(), term_id: 1 },
        Term { term: "a".to_string(), term_id: 2 },
    ];
    assert!(!check_trie_input(2, &twice));
    let ok = vec![Term { term: "a".to_string(), term_id: 1 }];
    assert!(!check_trie_input(u32::MAX, &ok));
    assert!(check_trie_input(1, &ok));
}

#[test]
fn split_fields_keeps_places_of_non_empty_pieces() {
    let f = split_fields("foo||bar|baz|");
    assert_eq!(f, vec![(0, "foo".to_string()), (2, "bar".to_string()), (3, "baz".to_string())]);
    assert_eq!(split_fields(""), vec![]);
    assert_eq!(split_fields("|||"), vec![]);
    assert_eq!(split_fields("één|x"), vec![(0, "één".to_string()), (1, "x".to_string())]);
}
