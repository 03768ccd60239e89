use vstd::prelude::*;
use crate::types::{DocId, TermId};
use crate::util::{
    le_bytes_u64, le_bytes_u32, le_bytes_u16, le_value_u64, le_value_u32, le_value_u16,
    lemma_le_u64_roundtrip, lemma_le_u32_roundtrip, lemma_le_u16_roundtrip, push_u64_le,
    push_u32_le, push_u16_le, read_u64_le, read_u32_le, read_u16_le,
};

verus! {

/// Number of bytes of a serialized node header.
pub const HEADER_SIZE: usize = 32;

/// Alignment of node records in the dictionary.
pub const HEADER_ALIGN: usize = 8;

/// The fixed part of a node of the prefix trie as it is stored in the dictionary.
#[derive(Debug, Clone, Copy, PartialEq, Eq)]
pub struct TrieNodeHeader {
    pub num_postings: u64,
    pub postings_ptr: DocId,
    pub term_ptr: u32,
    pub term_id: TermId,
    pub num_children: u32,
    pub term_length: u16,
    pub is_word: bool,
}

/// The stored form of a header: its fields little-endian in declaration order,
/// `is_word` as one byte, and one byte of padding.
pub open spec fn header_bytes(h: TrieNodeHeader) -> Seq<u8> {
    le_bytes_u64(h.num_postings) + le_bytes_u64(h.postings_ptr) + le_bytes_u32(h.term_ptr)
        + le_bytes_u32(h.term_id) + le_bytes_u32(h.num_children) + le_bytes_u16(h.term_length)
        + seq![if h.is_word { 1u8 } else { 0u8 }] + seq![0u8]
}

/// The header stored in the 32 bytes of `b` that start at `at`.
pub open spec fn header_at(b: Seq<u8>, at: int) -> TrieNodeHeader {
    TrieNodeHeader {
        num_postings: le_value_u64(b.subrange(at, at + 8)),
        postings_ptr: le_value_u64(b.subrange(at + 8, at + 16)),
        term_ptr: le_value_u32(b.subrange(at + 16, at + 20)),
        term_id: le_value_u32(b.subrange(at + 20, at + 24)),
        num_children: le_value_u32(b.subrange(at + 24, at + 28)),
        term_length: le_value_u16(b.subrange(at + 28, at + 30)),
        is_word: b[at + 30] != 0,
    }
}

impl TrieNodeHeader {
    /// The 32 bytes that store this header.
    pub fn to_bytes(&self) -> (r: Vec<u8>)
        ensures
            r@ == header_bytes(*self),
            r@.len() == HEADER_SIZE,
    {
        let mut out: Vec<u8> = Vec::new();
        push_u64_le(&mut out, self.num_postings);
        push_u64_le(&mut out, self.postings_ptr);
        push_u32_le(&mut out, self.term_ptr);
        push_u32_le(&mut out, self.term_id);
        push_u32_le(&mut out, self.num_children);
        push_u16_le(&mut out, self.term_length);
        out.push(if self.is_word { 1u8 } else { 0u8 });
        out.push(0u8);
        assert(out@ =~= header_bytes(*self));
        out
    }

    /// The header stored at `buf[at..at + 32]`.
    pub fn from_bytes(buf: &[u8], at: usize) -> (r: TrieNodeHeader)
        requires
            at + 32 <= buf@.len(),
        ensures
            r == header_at(buf@, at as int),
    {
        assert(buf@.len() == buf.len());
        TrieNodeHeader {
            num_postings: read_u64_le(buf, at),
            postings_ptr: read_u64_le(buf, at + 8),
            term_ptr: read_u32_le(buf, at + 16),
            term_id: read_u32_le(buf, at + 20),
            num_children: read_u32_le(buf, at + 24),
            term_length: read_u16_le(buf, at + 28),
            is_word: buf[at + 30] != 0,
        }
    }
}

/// Reading a header back from where it was stored gives the same header.
pub proof fn lemma_header_roundtrip(pre: Seq<u8>, h: TrieNodeHeader, post: Seq<u8>)
    ensures
        header_at(pre + header_bytes(h) + post, pre.len() as int) == h,
{
    let b = pre + header_bytes(h) + post;
    let a = pre.len() as int;
    let hb = header_bytes(h);
    assert(b.subrange(a, a + 8) =~= le_bytes_u64(h.num_postings));
    assert(b.subrange(a + 8, a + 16) =~= le_bytes_u64(h.postings_ptr));
    assert(b.subrange(a + 16, a + 20) =~= le_bytes_u32(h.term_ptr));
    assert(b.subrange(a + 20, a + 24) =~= le_bytes_u32(h.term_id));
    assert(b.subrange(a + 24, a + 28) =~= le_bytes_u32(h.num_children));
    assert(b.subrange(a + 28, a + 30) =~= le_bytes_u16(h.term_length));
    assert(b[a + 30] == hb[30]);
    lemma_le_u64_roundtrip(h.num_postings);
    lemma_le_u64_roundtrip(h.postings_ptr);
    lemma_le_u32_roundtrip(h.term_ptr);
    lemma_le_u32_roundtrip(h.term_id);
    lemma_le_u32_roundtrip(h.num_children);
    lemma_le_u16_roundtrip(h.term_length);
}

} // verus!
