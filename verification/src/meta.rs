use vstd::prelude::*;
use crate::util::{le_bytes_u64, le_value_u64, lemma_le_u64_roundtrip, push_u64_le, read_u64_le};

verus! {

/// Sizes and offsets that describe an index on disk.
#[derive(Debug)]
pub struct IndexMeta {
    pub dict_size: u64,
    pub root_ptr: u64,
    pub term_buffer_size: u64,
    pub docs_size: u64,
    pub tfs_size: u64,
    pub positions_size: u64,
}

/// Number of bytes of a serialized `IndexMeta`.
pub const INDEX_META_SIZE: usize = 48;

/// The serialized form: every field as eight little-endian bytes, in declaration order.
pub open spec fn index_meta_bytes(m: IndexMeta) -> Seq<u8> {
    le_bytes_u64(m.dict_size) + le_bytes_u64(m.root_ptr) + le_bytes_u64(m.term_buffer_size)
        + le_bytes_u64(m.docs_size) + le_bytes_u64(m.tfs_size) + le_bytes_u64(m.positions_size)
}

impl IndexMeta {
    /// Reads the fields from the first 48 bytes of `bs`.
    pub fn from_bytes(bs: &[u8]) -> (r: IndexMeta)
        requires
            bs@.len() >= INDEX_META_SIZE,
        ensures
            r.dict_size == le_value_u64(bs@.subrange(0, 8)),
            r.root_ptr == le_value_u64(bs@.subrange(8, 16)),
            r.term_buffer_size == le_value_u64(bs@.subrange(16, 24)),
            r.docs_size == le_value_u64(bs@.subrange(24, 32)),
            r.tfs_size == le_value_u64(bs@.subrange(32, 40)),
            r.positions_size == le_value_u64(bs@.subrange(40, 48)),
    {
        IndexMeta {
            dict_size: read_u64_le(bs, 0),
            root_ptr: read_u64_le(bs, 8),
            term_buffer_size: read_u64_le(bs, 16),
            docs_size: read_u64_le(bs, 24),
            tfs_size: read_u64_le(bs, 32),
            positions_size: read_u64_le(bs, 40),
        }
    }

    /// The 48 bytes that `from_bytes` reads back into this value.
    pub fn to_bytes(&self) -> (r: Vec<u8>)
        ensures
            r@ == index_meta_bytes(*self),
            r@.len() == INDEX_META_SIZE,
    {
        let mut out: Vec<u8> = Vec::new();
        push_u64_le(&mut out, self.dict_size);
        push_u64_le(&mut out, self.root_ptr);
        push_u64_le(&mut out, self.term_buffer_size);
        push_u64_le(&mut out, self.docs_size);
        push_u64_le(&mut out, self.tfs_size);
        push_u64_le(&mut out, self.positions_size);
        out
    }
}

/// Reading back the bytes of a value gives the same value.
pub proof fn lemma_index_meta_roundtrip(m: IndexMeta)
    ensures
        le_value_u64(index_meta_bytes(m).subrange(0, 8)) == m.dict_size,
        le_value_u64(index_meta_bytes(m).subrange(8, 16)) == m.root_ptr,
        le_value_u64(index_meta_bytes(m).subrange(16, 24)) == m.term_buffer_size,
        le_value_u64(index_meta_bytes(m).subrange(24, 32)) == m.docs_size,
        le_value_u64(index_meta_bytes(m).subrange(32, 40)) == m.tfs_size,
        le_value_u64(index_meta_bytes(m).subrange(40, 48)) == m.positions_size,
{
    let b = index_meta_bytes(m);
    assert(b.subrange(0, 8) =~= le_bytes_u64(m.dict_size));
    assert(b.subrange(8, 16) =~= le_bytes_u64(m.root_ptr));
    assert(b.subrange(16, 24) =~= le_bytes_u64(m.term_buffer_size));
    assert(b.subrange(24, 32) =~= le_bytes_u64(m.docs_size));
    assert(b.subrange(32, 40) =~= le_bytes_u64(m.tfs_size));
    assert(b.subrange(40, 48) =~= le_bytes_u64(m.positions_size));
    lemma_le_u64_roundtrip(m.dict_size);
    lemma_le_u64_roundtrip(m.root_ptr);
    lemma_le_u64_roundtrip(m.term_buffer_size);
    lemma_le_u64_roundtrip(m.docs_size);
    lemma_le_u64_roundtrip(m.tfs_size);
    lemma_le_u64_roundtrip(m.positions_size);
}

} // verus!
