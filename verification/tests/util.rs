use lib::util::{
    align_to, bytes_to_typed, common_prefix_len, delta_encode, first_letter, is_sorted_ascending,
    keep_unique, to_wide, typed_to_bytes, u32s_to_bytes,
};
use lib::types::DocId;

#[test]
fn common_prefix_len_counts_bytes() {
    assert_eq!(common_prefix_len("autobus", "autoba"), 5);
    assert_eq!(common_prefix_len("bosák", "bosáz"), 5);
    assert_eq!(common_prefix_len("", "abc"), 0);
    assert_eq!(common_prefix_len("abc", "abc"), 3);
    assert_eq!(common_prefix_len("xbc", "abc"), 0);
}

#[test]
fn first_letter_code_point() {
    assert_eq!(first_letter("autobus"), 'a' as u32);
    assert_eq!(first_letter("ábc"), 'á' as u32);
}

#[test]
fn align_to_pads() {
    assert_eq!(align_to(0, 8), 0);
    assert_eq!(align_to(5, 8), 3);
    assert_eq!(align_to(16, 8), 0);
    assert_eq!(align_to(17, 4), 3);
}

#[test]
fn sorted_check() {
    assert!(is_sorted_ascending(&[]));
    assert!(is_sorted_ascending(&[1, 1, 2, 5]));
    assert!(!is_sorted_ascending(&[1, 3, 2]));
}

#[test]
fn keep_unique_collapses_runs() {
    let xs: Vec<DocId> = vec![1, 1, 2, 3, 3, 3, 2, 2];
    assert_eq!(keep_unique(&xs), vec![1, 2, 3, 2]);
    assert_eq!(keep_unique(&[]), Vec::<DocId>::new());
}

#[test]
fn delta_encode_gaps() {
    assert_eq!(delta_encode(&[3, 4, 7, 7, 10]), vec![3, 1, 3, 0, 3]);
    assert_eq!(delta_encode(&[]), Vec::<DocId>::new());
}

#[test]
fn bytes_roundtrip() {
    let xs: Vec<DocId> = vec![0, 1, 0x0102030405060708, u64::MAX];
    let bytes = typed_to_bytes(&xs);
    assert_eq!(bytes.len(), 32);
    assert_eq!(&bytes[8..16], &[1, 0, 0, 0, 0, 0, 0, 0][..]);
    assert_eq!(&bytes[16..24], &[8, 7, 6, 5, 4, 3, 2, 1][..]);
    assert_eq!(bytes_to_typed(&bytes), xs);
    let mut longer = bytes.clone();
    longer.push(9);
    assert_eq!(bytes_to_typed(&longer), xs);
    assert_eq!(u32s_to_bytes(&[0x01020304]), vec![4, 3, 2, 1]);
}

#[test]
fn wide_chars() {
    assert_eq!(to_wide("bosák"), vec!['b', 'o', 's', 'á', 'k']);
}

#[test]
fn wide_characters_round_trip() {
    for s in ["", "bosák", "autobus", "žluťoučký kůň"] {
        let w = lib::util::to_wide(s);
        assert_eq!(w.len(), s.chars().count());
        assert_eq!(lib::util::from_wide(&w), s);
    }
}

#[test]
fn common_prefix_len_is_symmetric_and_covers_extensions() {
    assert_eq!(common_prefix_len("abcé", "abcd"), common_prefix_len("abcd", "abcé"));
    assert_eq!(common_prefix_len("héllo", "héllo"), "héllo".len());
    assert_eq!(common_prefix_len("hé", "héllo"), "hé".len());
}
