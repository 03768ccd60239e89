use vstd::prelude::*;
use vstd::utf8::{encode_scalar, encode_utf8};
use crate::types::{DocId, TermId, Term};
use crate::util::{
    utf8_len, utf8_width, to_wide, le_concat_u32, u32s_to_bytes, common_prefix_chars,
    lemma_common_prefix_chars, lemma_utf8_len_take_step, lemma_utf8_len_take_le,
};
use crate::header::{TrieNodeHeader, header_bytes, header_at};
use crate::postings::{
    Postings, PostingsCursor, PostingsStore, VecPostings, RawCursor, Entry, group_entries,
    pview, add_entries, empty_view,
};
use crate::sequence::{Sequence, SequenceEncoder, SliceSequence};
use crate::plain_merge::{stored_list_entries, lemma_stored_cursor};
use crate::merge::{MergerWithoutDuplicatesUnrolled, groups_ok, cursor_entries, merged_groups};
use crate::stored_postings::{
    plain_ok, stored_ok, check_plain, write_postings, tf_sum, delta_positions, Streams, PostingsView,
    list_stored, streams_grow, lemma_list_stored_grow, lemma_streams_grow_trans,
    lemma_streams_grow_same, lemma_list_written, lemma_delta_positions_len, list_readable,
    lemma_list_readable,
};
use crate::trie_read::{
    find_spec, matched_chars, u32s_at, lemma_find_extend, lemma_first_index_increasing,
    lemma_matched_exhausted,
};
use crate::term_order::{
    ids_distinct, dictionary_order, distinguishable, fork_term, is_fork, lemma_fork_term, lemma_fork_not_terminated,
    lemma_parent_shorter, lemma_next_letter, lemma_term_text, lemma_matched_node, lemma_matched_leaf,
    lemma_matched_node_whole,
};

verus! {

broadcast use vstd::string::group_string_axioms;

// ---------------------------------------------------------------------------
// The records a dictionary is made of
// ---------------------------------------------------------------------------

/// A node as stored: its header, the first letters of its children's suffixes, and
/// where the children's records start.
pub type Record = (TrieNodeHeader, Seq<u32>, Seq<u32>);

/// The bytes of one record.
pub open spec fn record_bytes(r: Record) -> Seq<u8> {
    header_bytes(r.0) + le_concat_u32(r.1) + le_concat_u32(r.2)
}

/// The bytes of records written one after another.
pub open spec fn records_bytes(rs: Seq<Record>) -> Seq<u8>
    decreases rs.len(),
{
    if rs.len() == 0 {
        Seq::empty()
    } else {
        records_bytes(rs.drop_last()) + record_bytes(rs.last())
    }
}

/// Where record `k` starts.
pub open spec fn record_offset(rs: Seq<Record>, k: int) -> int {
    records_bytes(rs.take(k)).len() as int
}

/// `ptr` is where one of the first `k` records starts.
pub open spec fn earlier_start(rs: Seq<Record>, k: int, ptr: u32) -> bool {
    exists|j: int| 0 <= j < k && ptr == (record_offset(rs, j) as u32)
}

/// Every record lists as many letters and pointers as its header has children, and
/// every pointer is the start of an earlier record.
#[verifier::opaque]
pub open spec fn records_linked(rs: Seq<Record>) -> bool {
    forall|k: int|
        0 <= k < rs.len() ==> {
            &&& (#[trigger] rs[k]).1.len() == rs[k].0.num_children
            &&& rs[k].2.len() == rs[k].0.num_children
            &&& forall|c: int| 0 <= c < rs[k].2.len() ==> earlier_start(rs, k, #[trigger] rs[k].2[c])
        }
}

/// The bytes of the terms, one after another.
pub open spec fn terms_bytes(ts: Seq<Term>) -> Seq<u8>
    decreases ts.len(),
{
    if ts.len() == 0 {
        Seq::empty()
    } else {
        terms_bytes(ts.drop_last()) + encode_utf8(ts.last().term@)
    }
}

/// A term followed by the zero character that ends whole terms in the trie.
pub open spec fn null_terminated(t: Seq<char>) -> Seq<char> {
    t.push('\0')
}

/// Appending a record keeps the starts of the earlier ones.
pub proof fn lemma_record_offset_push(rs: Seq<Record>, r: Record, k: int)
    requires
        0 <= k <= rs.len(),
    ensures
        record_offset(rs.push(r), k) == record_offset(rs, k),
        record_offset(rs.push(r), rs.len() as int) == records_bytes(rs).len(),
{
    assert(rs.push(r).take(k) =~= rs.take(k));
    assert(rs.push(r).take(rs.len() as int) =~= rs);
}

/// Record `k` starts where the bytes of the records before it end.
pub proof fn lemma_records_bytes_split(rs: Seq<Record>, k: int)
    requires
        0 <= k < rs.len(),
    ensures
        records_bytes(rs.take(k + 1)) == records_bytes(rs.take(k)) + record_bytes(rs[k]),
{
    assert(rs.take(k + 1).drop_last() =~= rs.take(k));
}

/// The records are the first `m` of them followed by the rest.
proof fn lemma_records_bytes_concat(rs: Seq<Record>, m: int)
    requires
        0 <= m <= rs.len(),
    ensures
        records_bytes(rs) == records_bytes(rs.take(m)) + records_bytes(rs.skip(m)),
    decreases rs.len(),
{
    if m == rs.len() {
        assert(rs.take(m) =~= rs);
        assert(rs.skip(m) =~= Seq::<Record>::empty());
        assert(records_bytes(rs) + Seq::<u8>::empty() =~= records_bytes(rs));
    } else {
        lemma_records_bytes_concat(rs.drop_last(), m);
        assert(rs.drop_last().take(m) =~= rs.take(m));
        assert(rs.skip(m).drop_last() =~= rs.drop_last().skip(m));
        assert(rs.skip(m).last() == rs.last());
        assert(records_bytes(rs) =~= records_bytes(rs.take(m)) + records_bytes(rs.skip(m)));
    }
}

/// The header of every record can be read back where the record starts, whatever comes
/// before and after the records.
#[verifier::spinoff_prover]
pub proof fn lemma_record_header_readable(rs: Seq<Record>, k: int, before: Seq<u8>, after: Seq<u8>)
    requires
        0 <= k < rs.len(),
    ensures
        header_at(before + records_bytes(rs) + after, before.len() + record_offset(rs, k)) == rs[k].0,
{
    lemma_records_bytes_concat(rs, k + 1);
    lemma_records_bytes_split(rs, k);
    let pre = before + records_bytes(rs.take(k));
    let r = rs[k];
    let post = le_concat_u32(r.1) + le_concat_u32(r.2) + records_bytes(rs.skip(k + 1)) + after;
    assert(before + records_bytes(rs) + after =~= pre + header_bytes(r.0) + post);
    crate::header::lemma_header_roundtrip(pre, r.0, post);
}

// ---------------------------------------------------------------------------
// Terms being placed
// ---------------------------------------------------------------------------

/// A term placed in the dictionary: its characters (whole terms end with a zero
/// character), where its bytes start in the term buffer, and its identifier.
pub struct WrittenTerm {
    term: Vec<char>,
    term_ptr: usize,
    term_id: TermId,
}

impl View for WrittenTerm {
    type V = (Seq<char>, usize, TermId);

    closed spec fn view(&self) -> (Seq<char>, usize, TermId) {
        (self.term@, self.term_ptr, self.term_id)
    }
}

impl WrittenTerm {
    fn new(term: Vec<char>, term_id: TermId, term_ptr: usize) -> (r: WrittenTerm)
        ensures
            r@ == (term@, term_ptr, term_id),
    {
        WrittenTerm { term: term, term_ptr: term_ptr, term_id: term_id }
    }
}

/// The encoders that receive the documents, offsets and positions of the trie's nodes.
pub struct PostingsEncoders<DocsEncoder, TfsEncoder, PosEncoder> {
    pub docs: DocsEncoder,
    pub tfs: TfsEncoder,
    pub positions: PosEncoder,
}

/// Why a trie could not be built.
#[derive(Debug, Clone, Copy, PartialEq, Eq)]
pub enum TrieError {
    /// The store had no postings for this term.
    MissingPostings(TermId),
    /// The postings of this term (or of this prefix, once merged) are not in plain form.
    InvalidPostings(TermId),
    /// None of the children of this node kept postings to merge.
    NoPostings(TermId),
    /// A counter of documents or positions would not fit in 64 bits.
    Overflow,
}

// ---------------------------------------------------------------------------
// Nodes on the path from the root to the last term
// ---------------------------------------------------------------------------

/// A node whose record has been written.
struct Child {
    letter: u32,
    pointer: usize,
    postings: Option<VecPostings>,
}

/// A node on the path from the root to the term placed last.
struct Node {
    term: Vec<char>,
    byte_len: usize,
    term_ptr: usize,
    term_id: TermId,
    postings: Option<VecPostings>,
    children: Vec<Child>,
}

spec fn child_ok(c: Child) -> bool {
    c.postings matches Some(p) ==> stored_ok(p.docs@, p.tfs@, p.positions@)
}

spec fn node_ok(n: Node) -> bool {
    &&& n.byte_len == utf8_len(n.term@)
    &&& n.byte_len < 65535
    &&& n.term_ptr + n.byte_len <= usize::MAX
    &&& n.postings matches Some(p) ==> plain_ok(p.docs@, p.tfs@, p.positions@)
    &&& forall|i: int| 0 <= i < n.children@.len() ==> child_ok(#[trigger] n.children@[i])
}

/// Letters of a node's children.
spec fn child_letters(cs: Seq<Child>) -> Seq<u32> {
    cs.map_values(|c: Child| c.letter)
}

/// Record starts of a node's children, as stored.
spec fn child_pointers(cs: Seq<Child>) -> Seq<u32> {
    cs.map_values(|c: Child| c.pointer as u32)
}

/// `ptr` is where one of the records starts.
spec fn record_start(rs: Seq<Record>, ptr: usize) -> bool {
    exists|j: int| 0 <= j < rs.len() && ptr == record_offset(rs, j)
}

/// Every child of a node points at a record.
spec fn children_linked(cs: Seq<Child>, rs: Seq<Record>) -> bool {
    forall|c: int| 0 <= c < cs.len() ==> record_start(rs, (#[trigger] cs[c]).pointer)
}

/// A record start stays one when a record is appended.
proof fn lemma_record_start_push(rs: Seq<Record>, r: Record, ptr: usize)
    requires
        record_start(rs, ptr),
    ensures
        record_start(rs.push(r), ptr),
{
    let j = choose|j: int| 0 <= j < rs.len() && ptr == record_offset(rs, j);
    lemma_record_offset_push(rs, r, j);
    assert(0 <= j < rs.push(r).len() && ptr == record_offset(rs.push(r), j));
}

// ---------------------------------------------------------------------------
// Character helpers
// ---------------------------------------------------------------------------

/// Number of leading characters `a` and `b` share.
fn common_prefix(a: &Vec<char>, b: &Vec<char>) -> (r: usize)
    ensures
        r == common_prefix_chars(a@, b@),
{
    proof {
        lemma_common_prefix_chars(a@, b@);
    }
    let ghost k = common_prefix_chars(a@, b@);
    let mut i: usize = 0;
    while i < a.len() && i < b.len() && a[i] == b[i]
        invariant
            i <= k,
            k == common_prefix_chars(a@, b@),
            k <= a@.len(),
            k <= b@.len(),
            a@.take(k as int) == b@.take(k as int),
            k < a@.len() && k < b@.len() ==> a@[k as int] != b@[k as int],
        decreases a@.len() - i,
    {
        proof {
            if i == k {
                assert(false);
            }
        }
        i += 1;
    }
    proof {
        if i < k {
            assert(a@.take(k as int)[i as int] == b@.take(k as int)[i as int]);
            assert(false);
        }
    }
    i
}

/// UTF-8 length of the first `k` characters of `term`.
fn prefix_bytes(term: &Vec<char>, k: usize) -> (r: usize)
    requires
        k <= term@.len(),
        utf8_len(term@) <= usize::MAX,
    ensures
        r == utf8_len(term@.take(k as int)),
{
    let mut acc: usize = 0;
    let mut i: usize = 0;
    proof {
        assert(term@.take(0) =~= Seq::<char>::empty());
        assert(encode_utf8(Seq::<char>::empty()) =~= Seq::<u8>::empty());
    }
    while i < k
        invariant
            i <= k,
            k <= term@.len(),
            utf8_len(term@) <= usize::MAX,
            acc == utf8_len(term@.take(i as int)),
        decreases k - i,
    {
        proof {
            lemma_utf8_len_take_step(term@, i as int);
            lemma_utf8_len_take_le(term@, i + 1);
        }
        acc = acc + utf8_width(term[i]);
        i += 1;
    }
    acc
}

/// The characters of `term` followed by the zero character.
fn null_terminate(term: &str) -> (r: Vec<char>)
    ensures
        r@ == null_terminated(term@),
{
    let mut chars = to_wide(term);
    chars.push('\0');
    chars
}

// ---------------------------------------------------------------------------
// Merging the postings of children
// ---------------------------------------------------------------------------

/// The postings of those children that kept theirs, one child after another.
spec fn children_entries(cs: Seq<Child>) -> Seq<Entry>
    decreases cs.len(),
{
    if cs.len() == 0 {
        Seq::empty()
    } else {
        children_entries(cs.drop_last()) + match cs.last().postings {
            Some(p) => stored_list_entries(p),
            None => Seq::empty(),
        }
    }
}

/// Whether some child kept its postings.
spec fn some_child_kept(cs: Seq<Child>) -> bool {
    exists|i: int| 0 <= i < cs.len() && (#[trigger] cs[i]).postings is Some
}

/// The postings of the first children are among the postings of all of them.
proof fn lemma_children_entries_take(cs: Seq<Child>, j: int)
    requires
        0 <= j <= cs.len(),
    ensures
        children_entries(cs.take(j)).len() <= children_entries(cs).len(),
    decreases cs.len() - j,
{
    if j < cs.len() {
        lemma_children_entries_take(cs, j + 1);
        assert(cs.take(j + 1).drop_last() =~= cs.take(j));
    } else {
        assert(cs.take(j) =~= cs);
    }
}

/// Merges the postings of those children that kept them: one posting per document,
/// with its distinct positions. Fails with `Overflow` where the children hold too many
/// postings to count, and with `NoPostings` where no child kept any.
fn merge_children(children: &Vec<Child>, term_id: TermId) -> (r: Result<VecPostings, TrieError>)
    requires
        forall|i: int| 0 <= i < children@.len() ==> child_ok(#[trigger] children@[i]),
    ensures
        r is Err && r->Err_0 == TrieError::Overflow <==> children_entries(children@).len() >= usize::MAX,
        r is Err && r->Err_0 == TrieError::NoPostings(term_id)
            <==> children_entries(children@).len() < usize::MAX && !some_child_kept(children@),
        r is Ok <==> children_entries(children@).len() < usize::MAX && some_child_kept(children@),
        r matches Ok(m) ==> pview(&m) == add_entries(
            empty_view(),
            group_entries(merged_groups(children_entries(children@))),
        ),
{
    let mut cursors: Vec<RawCursor<SliceSequence, SliceSequence, SliceSequence>> = Vec::new();
    let mut total: usize = 0;
    let mut i: usize = 0;
    proof {
        assert(children@.take(0) =~= Seq::<Child>::empty());
    }
    while i < children.len()
        invariant
            i <= children@.len(),
            forall|j: int| 0 <= j < children@.len() ==> child_ok(#[trigger] children@[j]),
            forall|j: int| 0 <= j < cursors@.len() ==> #[trigger] cursors@[j].wf(),
            forall|j: int| 0 <= j < cursors@.len() ==> #[trigger] cursors@[j].upcoming().len() > 0,
            forall|j: int| 0 <= j < cursors@.len() ==> groups_ok(#[trigger] cursors@[j].upcoming()),
            cursor_entries(cursors@) == children_entries(children@.take(i as int)),
            cursor_entries(cursors@).len() == total,
            total < usize::MAX,
            cursors@.len() > 0 <==> some_child_kept(children@.take(i as int)),
        decreases children@.len() - i,
    {
        let ghost cs = children@;
        proof {
            assert(cs.take(i + 1).drop_last() =~= cs.take(i as int));
            assert(cs.take(i + 1).last() == cs[i as int]);
            assert(some_child_kept(cs.take(i + 1)) <==> some_child_kept(cs.take(i as int)) || cs[i as int].postings is Some) by {
                if some_child_kept(cs.take(i + 1)) {
                    let j = choose|j: int| 0 <= j < i + 1 && (#[trigger] cs.take(i + 1)[j]).postings is Some;
                    if j < i {
                        assert(cs.take(i as int)[j] == cs[j]);
                    }
                }
                if some_child_kept(cs.take(i as int)) {
                    let j = choose|j: int| 0 <= j < i && (#[trigger] cs.take(i as int)[j]).postings is Some;
                    assert(cs.take(i + 1)[j] == cs[j]);
                }
                if cs[i as int].postings is Some {
                    assert(cs.take(i + 1)[i as int] == cs[i as int]);
                }
            }
        }
        match &children[i].postings {
            Some(p) => {
                assert(child_ok(children@[i as int]));
                let n = p.docs.len();
                let np = p.positions.len();
                if n >= usize::MAX - total {
                    proof {
                        lemma_children_entries_take(cs, i + 1);
                    }
                    return Err(TrieError::Overflow);
                }
                let docs = SliceSequence::new(p.docs.as_slice());
                let tfs = SliceSequence::new(p.tfs.as_slice());
                let positions = SliceSequence::new(p.positions.as_slice());
                proof {
                    lemma_stored_cursor(*p, positions);
                }
                let c = RawCursor::new(Postings { docs: docs, tfs: tfs, positions: positions });
                let ghost before = cursors@;
                cursors.push(c);
                proof {
                    assert(cursors@.drop_last() =~= before);
                }
                total = total + n;
            },
            None => {},
        }
        i += 1;
    }
    proof {
        assert(children@.take(i as int) =~= children@);
    }
    if cursors.len() == 0 {
        return Err(TrieError::NoPostings(term_id));
    }
    let mut merger = MergerWithoutDuplicatesUnrolled::new(cursors);
    Ok(merger.collect())
}

// ---------------------------------------------------------------------------
// Writing one node
// ---------------------------------------------------------------------------

/// The first `k` characters of `v`.
fn take_chars(v: &Vec<char>, k: usize) -> (r: Vec<char>)
    requires
        k <= v@.len(),
    ensures
        r@ == v@.take(k as int),
{
    let mut r: Vec<char> = Vec::new();
    let mut i: usize = 0;
    while i < k
        invariant
            i <= k,
            k <= v@.len(),
            r@ == v@.take(i as int),
        decreases k - i,
    {
        r.push(v[i]);
        assert(r@ =~= v@.take(i + 1));
        i += 1;
    }
    r
}

/// Letter under which a node is listed by its parent: the first character after the
/// parent's term, or zero for a node whose term is no longer than its parent's.
spec fn letter_of(term: Seq<char>, parent_len: int) -> u32 {
    if parent_len < term.len() {
        term[parent_len] as u32
    } else {
        0
    }
}

/// The streams written through the encoders, from where they stood when the trie was
/// begun (`o` holds how many documents, offsets and positions they held then), with
/// `last_tf` as the offset the next list starts from.
spec fn enc_streams<DE: SequenceEncoder, TE: SequenceEncoder, PE: SequenceEncoder>(
    enc: PostingsEncoders<DE, TE, PE>,
    o: (int, int, int),
    last_tf: int,
) -> Streams {
    (enc.docs.items().skip(o.0), enc.tfs.items().skip(o.1), enc.positions.items().skip(o.2), last_tf)
}

/// Since the trie was begun, `ptr` documents and offsets and `last_tf` positions went out.
spec fn counted<DE: SequenceEncoder, TE: SequenceEncoder, PE: SequenceEncoder>(
    enc: PostingsEncoders<DE, TE, PE>,
    o: (int, int, int),
    ptr: int,
    last_tf: int,
) -> bool {
    &&& 0 <= o.0 && 0 <= o.1 && 0 <= o.2
    &&& enc.docs.items().len() == o.0 + ptr
    &&& enc.tfs.items().len() == o.1 + ptr
    &&& enc.positions.items().len() == o.2 + last_tf
}

/// The postings a node with children is written with: the merge of what they kept.
spec fn merged_list(cs: Seq<Child>) -> PostingsView {
    add_entries(empty_view(), group_entries(merged_groups(children_entries(cs))))
}

/// The postings `flush` writes for `node`, where it has any: for a node with children
/// the merge of what they kept (when they kept some, few enough to count), else its own.
spec fn node_list(node: Node) -> Option<PostingsView> {
    if node.children@.len() > 0 {
        if children_entries(node.children@).len() < usize::MAX && some_child_kept(node.children@) {
            Some(merged_list(node.children@))
        } else {
            None
        }
    } else {
        match node.postings {
            Some(p) => Some(pview(&p)),
            None => None,
        }
    }
}

/// The error `flush` meets on `node` when `ptr` documents and `last_tf` positions went
/// out before it, if any.
spec fn flush_error(node: Node, ptr: DocId, last_tf: DocId) -> Option<TrieError> {
    let cs = node.children@;
    let list = node_list(node).unwrap();
    if cs.len() > 0 && children_entries(cs).len() >= usize::MAX {
        Some(TrieError::Overflow)
    } else if cs.len() > 0 && !some_child_kept(cs) {
        Some(TrieError::NoPostings(node.term_id))
    } else if cs.len() > 0 && !plain_ok(list.0, list.1, list.2) {
        Some(TrieError::InvalidPostings(node.term_id))
    } else if cs.len() == 0 && node.postings is None {
        Some(TrieError::NoPostings(node.term_id))
    } else if node.term_id != 0 && (last_tf + list.2.len() > u64::MAX || ptr + list.0.len() > u64::MAX) {
        Some(TrieError::Overflow)
    } else {
        None
    }
}

/// Writes the record of `node`, whose parent's term is the first `parent_len` characters
/// of its own and takes `parent_bytes` bytes; then writes its postings unless it is the
/// root. A node with children first takes the merged postings of those children.
/// Returns what the parent keeps of the node, and the header written.
fn flush<DE: SequenceEncoder, TE: SequenceEncoder, PE: SequenceEncoder>(
    node: Node,
    parent_len: usize,
    parent_bytes: usize,
    dict_out: &mut Vec<u8>,
    base: usize,
    postings_ptr: &mut DocId,
    last_tf: &mut DocId,
    enc: &mut PostingsEncoders<DE, TE, PE>,
    Ghost(o): Ghost<(int, int, int)>,
) -> (r: Result<(Child, TrieNodeHeader), TrieError>)
    requires
        counted(*old(enc), o, *old(postings_ptr) as int, *old(last_tf) as int),
        base <= old(dict_out)@.len(),
        node_ok(node),
        node.children@.len() < u32::MAX,
        parent_len <= node.term@.len(),
        parent_bytes == utf8_len(node.term@.take(parent_len as int)),
        old(enc).docs.wf(),
        old(enc).tfs.wf(),
        old(enc).positions.wf(),
    ensures
        final(enc).docs.wf(),
        final(enc).tfs.wf(),
        final(enc).positions.wf(),
        r is Err <==> flush_error(node, *old(postings_ptr), *old(last_tf)) is Some,
        r matches Err(e) ==> flush_error(node, *old(postings_ptr), *old(last_tf)) == Some(e),
        r matches Ok((c, h)) ==> {
            &&& h.num_postings == node_list(node).unwrap().0.len()
            &&& h.postings_ptr == *old(postings_ptr)
            &&& node.term_id == 0 ==> *final(postings_ptr) == *old(postings_ptr) && *final(last_tf)
                == *old(last_tf) && c.postings is None
            &&& node.term_id != 0 ==> {
                &&& *final(postings_ptr) == *old(postings_ptr) + node_list(node).unwrap().0.len()
                &&& *final(last_tf) == *old(last_tf) + node_list(node).unwrap().2.len()
                &&& list_stored(
                    h.postings_ptr as int,
                    enc_streams(*final(enc), o, *final(last_tf) as int),
                    node_list(node).unwrap(),
                )
            }
            &&& final(dict_out)@ == old(dict_out)@ + record_bytes(
                (h, child_letters(node.children@), child_pointers(node.children@)),
            )
            &&& h.num_children == node.children@.len()
            &&& h.term_id == node.term_id
            &&& h.term_ptr == (node.term_ptr + parent_bytes) as u32
            &&& h.term_length == (node.byte_len - parent_bytes) as u16
            &&& counted(*final(enc), o, *final(postings_ptr) as int, *final(last_tf) as int)
            &&& streams_grow(
                enc_streams(*old(enc), o, *old(last_tf) as int),
                enc_streams(*final(enc), o, *final(last_tf) as int),
            )
            &&& (node.children@.len() == 0 && node.term_id != 0 ==> (node.postings matches Some(p) && {
                &&& h.num_postings == p.docs@.len()
                &&& list_stored(h.postings_ptr as int, enc_streams(*final(enc), o, *final(last_tf) as int), pview(&p))
            }))
            &&& c.pointer == old(dict_out)@.len() - base
            &&& c.letter == letter_of(node.term@, parent_len as int)
            &&& child_ok(c)
        },
        r matches Err(e) ==> !(e is MissingPostings),
{
    let Node { term, byte_len, term_ptr, term_id, postings, children } = node;
    let nc = children.len();
    let mut postings = postings;
    if nc > 0 {
        let merged = match merge_children(&children, term_id) {
            Ok(m) => m,
            Err(e) => {
                return Err(e);
            },
        };
        if !check_plain(&merged) {
            return Err(TrieError::InvalidPostings(term_id));
        }
        postings = Some(merged);
    }
    let mut p = match postings {
        Some(p) => p,
        None => {
            return Err(TrieError::NoPostings(term_id));
        },
    };
    let dict_position = dict_out.len() - base;
    proof {
        lemma_utf8_len_take_le(term@, parent_len as int);
    }
    let suffix_len = byte_len - parent_bytes;
    let header = TrieNodeHeader {
        num_postings: p.docs.len() as u64,
        postings_ptr: *postings_ptr,
        term_ptr: (term_ptr + parent_bytes) as u32,
        term_id: term_id,
        num_children: nc as u32,
        term_length: suffix_len as u16,
        is_word: false,
    };
    let mut header_out = header.to_bytes();
    dict_out.append(&mut header_out);
    let ghost after_header = dict_out@;
    // the letters under which the children are found, then where their records start;
    // records are whole multiples of the alignment, so no padding follows
    let mut letters: Vec<u32> = Vec::new();
    let mut pointers: Vec<u32> = Vec::new();
    let mut i: usize = 0;
    while i < nc
        invariant
            i <= nc,
            nc == children@.len(),
            letters@ == child_letters(children@).take(i as int),
            pointers@ == child_pointers(children@).take(i as int),
        decreases nc - i,
    {
        letters.push(children[i].letter);
        pointers.push(children[i].pointer as u32);
        assert(letters@ =~= child_letters(children@).take(i + 1));
        assert(pointers@ =~= child_pointers(children@).take(i + 1));
        i += 1;
    }
    proof {
        assert(letters@ =~= child_letters(children@));
        assert(pointers@ =~= child_pointers(children@));
    }
    let mut letters_out = u32s_to_bytes(letters.as_slice());
    dict_out.append(&mut letters_out);
    let mut pointers_out = u32s_to_bytes(pointers.as_slice());
    dict_out.append(&mut pointers_out);
    proof {
        assert(dict_out@ =~= old(dict_out)@ + record_bytes(
            (header, child_letters(children@), child_pointers(children@)),
        ));
    }
    let letter = if parent_len < term.len() {
        term[parent_len] as u32
    } else {
        0
    };
    if term_id == 0 {
        proof {
            lemma_streams_grow_same(enc_streams(*enc, o, *last_tf as int));
        }
        return Ok((Child { letter: letter, pointer: dict_position, postings: None }, header));
    }
    let ghost q = pview(&p);
    let ghost e0 = *enc;
    let ghost ptr0 = *postings_ptr;
    let ghost lt0 = *last_tf;
    let ok = write_postings(
        &mut p,
        &mut enc.docs,
        &mut enc.tfs,
        &mut enc.positions,
        postings_ptr,
        last_tf,
    );
    if !ok {
        return Err(TrieError::Overflow);
    }
    proof {
        let s0 = enc_streams(e0, o, lt0 as int);
        let offs = Seq::new(q.1.len(), |k: int| (lt0 + tf_sum(q.1, k)) as DocId);
        let dp = delta_positions(q.1, q.2, q.1.len() as int);
        lemma_list_written(s0, ptr0 as int, lt0 as int, q);
        lemma_delta_positions_len(q.1, q.2, q.1.len() as int);
        assert(enc.docs.items().skip(o.0) =~= s0.0 + q.0);
        assert(enc.tfs.items().skip(o.1) =~= s0.1 + offs);
        assert(enc.positions.items().skip(o.2) =~= s0.2 + dp);
        assert(enc_streams(*enc, o, *last_tf as int) == (s0.0 + q.0, s0.1 + offs, s0.2 + dp, lt0 + q.2.len()));
    }
    // single-character prefixes with children are only needed by the root, which
    // is not written with postings
    let kept = if nc > 0 && term.len() == 1 {
        None
    } else {
        Some(p)
    };
    Ok((Child { letter: letter, pointer: dict_position, postings: kept }, header))
}

// ---------------------------------------------------------------------------
// The path from the root to the last term
// ---------------------------------------------------------------------------

/// `a` is a prefix of `b`.
pub open spec fn is_prefix(a: Seq<char>, b: Seq<char>) -> bool {
    a.len() <= b.len() && b.take(a.len() as int) == a
}

spec fn root_ok(n: Node) -> bool {
    &&& n.term@.len() == 0
    &&& n.byte_len == 0
    &&& n.term_ptr == 0
    &&& n.term_id == 0
    &&& n.postings is None
}

/// The nodes from the root down to the term placed last: two roots with the empty
/// term, each node's term a prefix of the next one's.
#[verifier::opaque]
spec fn path_ok(st: Seq<Node>, rs: Seq<Record>) -> bool {
    &&& st.len() >= 2
    &&& root_ok(st[0])
    &&& st[0].children@.len() == 0
    &&& root_ok(st[1])
    &&& forall|j: int| 0 <= j < st.len() ==> node_ok(#[trigger] st[j])
    &&& forall|j: int| 0 <= j < st.len() ==> children_linked((#[trigger] st[j]).children@, rs)
    &&& forall|j: int| 0 <= j < st.len() ==> (#[trigger] st[j]).children@.len() <= rs.len()
    &&& forall|j: int| 1 <= j < st.len() ==> is_prefix(st[j - 1].term@, (#[trigger] st[j]).term@)
}

/// What the path says of one of its nodes.
proof fn lemma_path_node(st: Seq<Node>, rs: Seq<Record>, j: int)
    requires
        path_ok(st, rs),
        0 <= j < st.len(),
    ensures
        node_ok(st[j]),
        children_linked(st[j].children@, rs),
        st[j].children@.len() <= rs.len(),
        j >= 1 ==> is_prefix(st[j - 1].term@, st[j].term@),
{
    reveal(path_ok);
}

/// The path starts with the two roots.
proof fn lemma_path_roots(st: Seq<Node>, rs: Seq<Record>)
    requires
        path_ok(st, rs),
    ensures
        st.len() >= 2,
        root_ok(st[0]),
        root_ok(st[1]),
        st[0].children@.len() == 0,
{
    reveal(path_ok);
}

/// Two nodes agree on everything but their children.
spec fn same_head(a: Node, b: Node) -> bool {
    &&& a.term@ == b.term@
    &&& a.byte_len == b.byte_len
    &&& a.term_ptr == b.term_ptr
    &&& a.term_id == b.term_id
    &&& a.postings == b.postings
}

/// Pointers of children stay valid when a record is appended.
proof fn lemma_children_linked_push(cs: Seq<Child>, rs: Seq<Record>, r: Record)
    requires
        children_linked(cs, rs),
    ensures
        children_linked(cs, rs.push(r)),
{
    assert forall|c: int| 0 <= c < cs.len() implies record_start(rs.push(r), (#[trigger] cs[c]).pointer) by {
        lemma_record_start_push(rs, r, cs[c].pointer);
    }
}

/// Appending the record of a node whose children point at earlier records keeps the
/// records linked.
proof fn lemma_records_linked_push(rs: Seq<Record>, cs: Seq<Child>, h: TrieNodeHeader)
    requires
        records_linked(rs),
        children_linked(cs, rs),
        h.num_children == cs.len(),
    ensures
        records_linked(rs.push((h, child_letters(cs), child_pointers(cs)))),
{
    reveal(records_linked);
    let r = (h, child_letters(cs), child_pointers(cs));
    let rs2 = rs.push(r);
    assert forall|k: int| 0 <= k < rs2.len() implies {
        &&& (#[trigger] rs2[k]).1.len() == rs2[k].0.num_children
        &&& rs2[k].2.len() == rs2[k].0.num_children
        &&& forall|c: int| 0 <= c < rs2[k].2.len() ==> earlier_start(rs2, k, #[trigger] rs2[k].2[c])
    } by {
        if k < rs.len() {
            assert(rs2[k] == rs[k]);
            assert forall|c: int| 0 <= c < rs2[k].2.len() implies earlier_start(rs2, k, #[trigger] rs2[k].2[c]) by {
                assert(earlier_start(rs, k, rs[k].2[c]));
                let j = choose|j: int| 0 <= j < k && rs[k].2[c] == (record_offset(rs, j) as u32);
                lemma_record_offset_push(rs, r, j);
                assert(0 <= j < k && rs2[k].2[c] == (record_offset(rs2, j) as u32));
            }
        } else {
            assert forall|c: int| 0 <= c < rs2[k].2.len() implies earlier_start(rs2, k, #[trigger] rs2[k].2[c]) by {
                assert(rs2[k].2[c] == cs[c].pointer as u32);
                assert(record_start(rs, cs[c].pointer));
                let j = choose|j: int| 0 <= j < rs.len() && cs[c].pointer == record_offset(rs, j);
                lemma_record_offset_push(rs, r, j);
                assert(0 <= j < k && rs2[k].2[c] == (record_offset(rs2, j) as u32));
            }
        }
    }
}

/// Appending a record appends its bytes.
proof fn lemma_records_bytes_push(rs: Seq<Record>, r: Record)
    ensures
        records_bytes(rs.push(r)) == records_bytes(rs) + record_bytes(r),
{
    assert(rs.push(r).drop_last() =~= rs);
}

/// After the last node of the path was written as record `rec` and listed as child `c`
/// of the node before it, the shortened path is in order again.
proof fn lemma_path_after_flush(st: Seq<Node>, rs: Seq<Record>, rec: Record, parent: Node, c: Child)
    requires
        st.len() > 2,
        path_ok(st, rs),
        same_head(parent, st[st.len() - 2]),
        parent.children@ == st[st.len() - 2].children@.push(c),
        child_ok(c),
        c.pointer == records_bytes(rs).len(),
        rs.len() + 2 < u32::MAX,
    ensures
        path_ok(st.take(st.len() - 2).push(parent), rs.push(rec)),
        forall|j: int|
            0 <= j < st.len() - 1 ==> same_head(#[trigger] st.take(st.len() - 2).push(parent)[j], st[j]),
{
    reveal(path_ok);
    let ns = st.take(st.len() - 2).push(parent);
    let rs2 = rs.push(rec);
    let pc = st[st.len() - 2].children@;
    lemma_record_offset_push(rs, rec, rs.len() as int);
    assert forall|j: int| 0 <= j < ns.len() implies children_linked((#[trigger] ns[j]).children@, rs2)
        && node_ok(ns[j]) && ns[j].children@.len() <= rs2.len() by {
        if j < ns.len() - 1 {
            assert(ns[j] == st[j]);
            lemma_children_linked_push(st[j].children@, rs, rec);
        } else {
            assert(ns[j] == parent);
            lemma_children_linked_push(pc, rs, rec);
            assert forall|x: int| 0 <= x < parent.children@.len() implies record_start(
                rs2,
                (#[trigger] parent.children@[x]).pointer,
            ) by {
                if x < pc.len() {
                    assert(parent.children@[x] == pc[x]);
                } else {
                    assert(parent.children@[x].pointer == record_offset(rs2, rs.len() as int));
                }
            }
            assert forall|x: int| 0 <= x < parent.children@.len() implies child_ok(
                #[trigger] parent.children@[x],
            ) by {
                if x < pc.len() {
                    assert(parent.children@[x] == pc[x]);
                }
            }
            assert(node_ok(st[st.len() - 2]));
        }
    }
    assert forall|j: int| 1 <= j < ns.len() implies is_prefix(ns[j - 1].term@, (#[trigger] ns[j]).term@) by {
        assert(ns[j - 1].term@ == st[j - 1].term@);
        assert(ns[j].term@ == st[j].term@);
        assert(is_prefix(st[j - 1].term@, st[j].term@));
    }
    assert forall|j: int| 0 <= j < st.len() - 1 implies same_head(#[trigger] ns[j], st[j]) by {
        if j < ns.len() - 1 {
            assert(ns[j] == st[j]);
        }
    }
    assert(ns[0] == st[0] || ns.len() == 1);
    assert(ns[1].term@ == st[1].term@);
}

/// Takes the last node off the path, writes it, and lists it as a child of the node
/// that is now last. Returns the header written.
fn pop_and_flush<DE: SequenceEncoder, TE: SequenceEncoder, PE: SequenceEncoder>(
    stack: &mut Vec<Node>,
    dict_out: &mut Vec<u8>,
    base: usize,
    postings_ptr: &mut DocId,
    last_tf: &mut DocId,
    enc: &mut PostingsEncoders<DE, TE, PE>,
    Ghost(rs): Ghost<Seq<Record>>,
    Ghost(d0): Ghost<Seq<u8>>,
    Ghost(o): Ghost<(int, int, int)>,
) -> (r: Result<TrieNodeHeader, TrieError>)
    requires
        counted(*old(enc), o, *old(postings_ptr) as int, *old(last_tf) as int),
        old(stack)@.len() > 2,
        path_ok(old(stack)@, rs),
        records_linked(rs),
        old(dict_out)@ == d0 + records_bytes(rs),
        base == d0.len(),
        rs.len() + 2 < u32::MAX,
        old(enc).docs.wf(),
        old(enc).tfs.wf(),
        old(enc).positions.wf(),
    ensures
        final(enc).docs.wf(),
        final(enc).tfs.wf(),
        final(enc).positions.wf(),
        r matches Ok(h) ==> {
            let rec = (
                h,
                child_letters(old(stack)@.last().children@),
                child_pointers(old(stack)@.last().children@),
            );
            &&& final(dict_out)@ == d0 + records_bytes(rs.push(rec))
            &&& records_linked(rs.push(rec))
            &&& path_ok(final(stack)@, rs.push(rec))
            &&& final(stack)@.len() == old(stack)@.len() - 1
            &&& forall|j: int|
                0 <= j < final(stack)@.len() ==> same_head(#[trigger] final(stack)@[j], old(stack)@[j])
            &&& h.term_id == old(stack)@.last().term_id
            &&& h.num_children == old(stack)@.last().children@.len()
            &&& h.term_ptr == (old(stack)@.last().term_ptr + old(stack)@[old(stack)@.len() - 2].byte_len) as u32
            &&& h.term_length == (old(stack)@.last().byte_len - old(stack)@[old(stack)@.len() - 2].byte_len) as u16
            &&& forall|j: int| 0 <= j < old(stack)@.len() - 2 ==> #[trigger] final(stack)@[j] == old(stack)@[j]
            &&& final(stack)@.last().children@ == old(stack)@[old(stack)@.len() - 2].children@.push(
                final(stack)@.last().children@.last(),
            )
            &&& final(stack)@.last().children@.last().pointer == records_bytes(rs).len()
            &&& final(stack)@.last().children@.last().letter == letter_of(
                old(stack)@.last().term@,
                old(stack)@[old(stack)@.len() - 2].term@.len() as int,
            )
            &&& counted(*final(enc), o, *final(postings_ptr) as int, *final(last_tf) as int)
            &&& streams_grow(
                enc_streams(*old(enc), o, *old(last_tf) as int),
                enc_streams(*final(enc), o, *final(last_tf) as int),
            )
            &&& (old(stack)@.last().children@.len() == 0 && old(stack)@.last().term_id != 0
                ==> (old(stack)@.last().postings matches Some(p) && {
                &&& h.num_postings == p.docs@.len()
                &&& list_stored(h.postings_ptr as int, enc_streams(*final(enc), o, *final(last_tf) as int), pview(&p))
            }))
        },
        r matches Err(e) ==> !(e is MissingPostings),
{
    let ghost st = stack@;
    let node = stack.pop().unwrap();
    let mut parent = stack.pop().unwrap();
    assert(node == st[st.len() - 1]);
    assert(parent == st[st.len() - 2]);
    proof {
        lemma_path_node(st, rs, st.len() - 1);
        lemma_path_node(st, rs, st.len() - 2);
    }
    let plen = parent.term.len();
    let pbytes = parent.byte_len;
    let res = flush(node, plen, pbytes, dict_out, base, postings_ptr, last_tf, enc, Ghost(o));
    match res {
        Ok((c, h)) => {
            let ghost rec = (h, child_letters(node.children@), child_pointers(node.children@));
            proof {
                lemma_records_bytes_push(rs, rec);
                assert(children_linked(node.children@, rs));
                lemma_records_linked_push(rs, node.children@, h);
            }
            let ghost pc = parent.children@;
            let ghost p0 = parent;
            parent.children.push(c);
            proof {
                lemma_path_after_flush(st, rs, rec, parent, c);
            }
            stack.push(parent);
            proof {
                assert(stack@ =~= st.take(st.len() - 2).push(parent));
                assert(parent.children@.last() == c);
            }
            Ok(h)
        },
        Err(e) => Err(e),
    }
}

/// Dropping the last node of the path while a record is appended keeps the rest in order.
proof fn lemma_path_drop(st: Seq<Node>, rs: Seq<Record>, rec: Record)
    requires
        st.len() > 2,
        path_ok(st, rs),
    ensures
        path_ok(st.drop_last(), rs.push(rec)),
{
    reveal(path_ok);
    let ns = st.drop_last();
    assert forall|j: int| 0 <= j < ns.len() implies children_linked((#[trigger] ns[j]).children@, rs.push(rec))
        && node_ok(ns[j]) && ns[j].children@.len() <= rs.push(rec).len() by {
        assert(ns[j] == st[j]);
        lemma_children_linked_push(st[j].children@, rs, rec);
    }
    assert forall|j: int| 1 <= j < ns.len() implies is_prefix(ns[j - 1].term@, (#[trigger] ns[j]).term@) by {
        assert(ns[j] == st[j]);
        assert(ns[j - 1] == st[j - 1]);
    }
}

/// Adding a node below the last one keeps the path in order.
proof fn lemma_path_push(st: Seq<Node>, rs: Seq<Record>, n: Node)
    requires
        path_ok(st, rs),
        node_ok(n),
        children_linked(n.children@, rs),
        n.children@.len() <= rs.len(),
        is_prefix(st.last().term@, n.term@),
    ensures
        path_ok(st.push(n), rs),
{
    reveal(path_ok);
    let ns = st.push(n);
    assert forall|j: int| 0 <= j < ns.len() implies children_linked((#[trigger] ns[j]).children@, rs)
        && node_ok(ns[j]) && ns[j].children@.len() <= rs.len() by {
        if j < st.len() {
            assert(ns[j] == st[j]);
        }
    }
    assert forall|j: int| 1 <= j < ns.len() implies is_prefix(ns[j - 1].term@, (#[trigger] ns[j]).term@) by {
        if j < st.len() {
            assert(ns[j] == st[j]);
        }
        assert(ns[j - 1] == st[j - 1]);
    }
}

/// A prefix of a prefix is a prefix.
proof fn lemma_prefix_trans(a: Seq<char>, b: Seq<char>, c: Seq<char>)
    requires
        is_prefix(a, b),
        is_prefix(b, c),
    ensures
        is_prefix(a, c),
{
    assert(c.take(a.len() as int) =~= c.take(b.len() as int).take(a.len() as int));
}

/// Every node of the path has a prefix of the last node's term.
proof fn lemma_path_prefixes(st: Seq<Node>, rs: Seq<Record>, j: int)
    requires
        path_ok(st, rs),
        0 <= j < st.len(),
    ensures
        is_prefix(st[j].term@, st.last().term@),
    decreases st.len() - j,
{
    reveal(path_ok);
    if j < st.len() - 1 {
        lemma_path_prefixes(st, rs, j + 1);
        assert(is_prefix(st[j].term@, st[j + 1].term@));
        lemma_prefix_trans(st[j].term@, st[j + 1].term@, st.last().term@);
    } else {
        assert(st.last().term@.take(st.last().term@.len() as int) =~= st.last().term@);
    }
}

/// The bytes of the first terms, one after another.
pub open spec fn term_offset(ts: Seq<Term>, i: int) -> int {
    terms_bytes(ts.take(i)).len() as int
}

proof fn lemma_terms_bytes_step(ts: Seq<Term>, i: int)
    requires
        0 <= i < ts.len(),
    ensures
        terms_bytes(ts.take(i + 1)) == terms_bytes(ts.take(i)) + encode_utf8(ts[i].term@),
{
    assert(ts.take(i + 1).drop_last() =~= ts.take(i));
}

proof fn lemma_terms_bytes_prefix(ts: Seq<Term>, i: int)
    requires
        0 <= i <= ts.len(),
    ensures
        term_offset(ts, i) <= terms_bytes(ts).len(),
    decreases ts.len() - i,
{
    if i < ts.len() {
        lemma_terms_bytes_prefix(ts, i + 1);
        lemma_terms_bytes_step(ts, i);
    } else {
        assert(ts.take(i) =~= ts);
    }
}

/// Length in bytes of a term with its terminator.
proof fn lemma_null_terminated_len(t: Seq<char>)
    ensures
        utf8_len(null_terminated(t)) == utf8_len(t) + 1,
{
    crate::util::lemma_encode_utf8_concat(t, seq!['\0']);
    assert(null_terminated(t) =~= t + seq!['\0']);
    let one = seq!['\0'];
    assert(one.drop_first() =~= Seq::<char>::empty());
    assert(encode_utf8(Seq::<char>::empty()) =~= Seq::<u8>::empty());
    assert(encode_utf8(one) =~= encode_scalar('\0' as u32) + encode_utf8(one.drop_first()));
    assert(encode_scalar(0u32).len() == 1);
}

/// Where the leaves of the terms placed so far are among the written terms.
#[verifier::opaque]
pub open spec fn leaf_positions(nt: Seq<WrittenTerm>, ts: Seq<Term>, idx: Seq<int>) -> bool {
    &&& idx.len() == ts.len()
    &&& forall|a: int, b: int| 0 <= a < b < idx.len() ==> idx[a] < idx[b]
    &&& forall|a: int|
        0 <= a < idx.len() ==> 0 <= #[trigger] idx[a] < nt.len() && nt[idx[a]]@ == (
            null_terminated(ts[a].term@),
            term_offset(ts, a) as usize,
            ts[a].term_id,
        )
}

/// Every term appears, in order, among the written terms, with its terminator, the
/// offset of its bytes in the term buffer, and its identifier.
pub open spec fn leaves_placed(nt: Seq<WrittenTerm>, ts: Seq<Term>) -> bool {
    exists|idx: Seq<int>| leaf_positions(nt, ts, idx)
}

/// Whether the terms can be placed: identifiers are not zero (zero marks the root),
/// every term with its terminator fits a header's length field, and no term with its
/// terminator is a prefix of the next one with its terminator.
#[verifier::opaque]
pub open spec fn terms_placeable(ts: Seq<Term>) -> bool {
    &&& forall|i: int| 0 <= i < ts.len() ==> (#[trigger] ts[i]).term_id != 0
    &&& forall|i: int| 0 <= i < ts.len() ==> utf8_len((#[trigger] ts[i]).term@) + 1 < 65535
    &&& forall|i: int|
        1 <= i < ts.len() ==> !is_prefix(
            null_terminated(ts[i - 1].term@),
            null_terminated((#[trigger] ts[i]).term@),
        )
}

/// The dictionary holds the records `rs` followed by the bytes of the terms; the root's
/// record is the last one.
pub open spec fn trie_written(
    rs: Seq<Record>,
    before: Seq<u8>,
    after: Seq<u8>,
    ts: Seq<Term>,
    dict_size: usize,
    root_ptr: usize,
) -> bool {
    &&& rs.len() > 0
    &&& records_linked(rs)
    &&& after == before + records_bytes(rs) + terms_bytes(ts)
    &&& dict_size == records_bytes(rs).len()
    &&& root_ptr == record_offset(rs, rs.len() - 1)
    &&& rs.last().0.term_id == 0
}

/// Copies a run of characters.
fn copy_chars(v: &Vec<char>) -> (r: Vec<char>)
    ensures
        r@ == v@,
{
    take_chars(v, v.len())
}

/// Recording the leaf of term `i` at position `n` of the written terms.
proof fn lemma_leaf_push(
    nt: Seq<WrittenTerm>,
    w: WrittenTerm,
    ts: Seq<Term>,
    i: int,
    idx: Seq<int>,
)
    requires
        0 <= i < ts.len(),
        leaf_positions(nt, ts.take(i), idx),
        w@ == (null_terminated(ts[i].term@), term_offset(ts, i) as usize, ts[i].term_id),
    ensures
        leaf_positions(nt.push(w), ts.take(i + 1), idx.push(nt.len() as int)),
{
    reveal(leaf_positions);
    let nt2 = nt.push(w);
    let ts2 = ts.take(i + 1);
    let idx2 = idx.push(nt.len() as int);
    assert forall|a: int| 0 <= a < idx2.len() implies 0 <= #[trigger] idx2[a] < nt2.len() && nt2[idx2[a]]@ == (
        null_terminated(ts2[a].term@),
        term_offset(ts2, a) as usize,
        ts2[a].term_id,
    ) by {
        assert(ts2.take(a) =~= ts.take(a));
        if a < i {
            assert(idx2[a] == idx[a]);
            assert(nt2[idx[a]] == nt[idx[a]]);
            assert(ts2[a] == ts.take(i)[a]);
            assert(ts.take(i).take(a) =~= ts.take(a));
        }
    }
}

/// The dictionary after building holds, after what it held before, some linked run of
/// records ending with the root's, then the bytes of the terms.
pub open spec fn trie_output(
    before: Seq<u8>,
    after: Seq<u8>,
    ts: Seq<Term>,
    dict_size: usize,
    root_ptr: usize,
) -> bool {
    exists|rs: Seq<Record>| #[trigger] trie_written(rs, before, after, ts, dict_size, root_ptr)
}

/// Extending the written terms keeps the leaves where they are.
proof fn lemma_leaf_positions_extend(nt: Seq<WrittenTerm>, nt2: Seq<WrittenTerm>, ts: Seq<Term>, idx: Seq<int>)
    requires
        leaf_positions(nt, ts, idx),
        nt.len() <= nt2.len(),
        forall|a: int| 0 <= a < nt.len() ==> #[trigger] nt2[a] == nt[a],
    ensures
        leaf_positions(nt2, ts, idx),
{
    reveal(leaf_positions);
    assert forall|a: int| 0 <= a < idx.len() implies 0 <= #[trigger] idx[a] < nt2.len() && nt2[idx[a]]@ == (
        null_terminated(ts[a].term@),
        term_offset(ts, a) as usize,
        ts[a].term_id,
    ) by {
        assert(nt2[idx[a]] == nt[idx[a]]);
    }
}

/// Makes the last node of the path the one that takes a new term: goes up while the
/// node before the last one is longer than `k`, the number of characters the new term
/// shares with the last one; then writes the last node if the new term only shares its
/// parent's term, or puts a node for the common prefix in its place if they part below
/// its end. Returns the records appended and how many prefix nodes were added.
fn descend<DE: SequenceEncoder, TE: SequenceEncoder, PE: SequenceEncoder>(
    stack: &mut Vec<Node>,
    k: usize,
    nullterm: &Vec<char>,
    new_terms: &mut Vec<WrittenTerm>,
    serial: &mut TermId,
    dict_out: &mut Vec<u8>,
    base: usize,
    postings_ptr: &mut DocId,
    last_tf: &mut DocId,
    enc: &mut PostingsEncoders<DE, TE, PE>,
    Ghost(rs): Ghost<Seq<Record>>,
    Ghost(d0): Ghost<Seq<u8>>,
    Ghost(ts): Ghost<Seq<Term>>,
    Ghost(i): Ghost<int>,
    Ghost(o): Ghost<(int, int, int)>,
    Ghost(ps): Ghost<Seq<PostingsView>>,
) -> (r: Result<Ghost<(Seq<Record>, int)>, TrieError>)
    requires
        counted(*old(enc), o, *old(postings_ptr) as int, *old(last_tf) as int),
        terms_placeable(ts),
        0 <= i < ts.len(),
        ps.len() == i,
        nullterm@ == null_terminated(ts[i].term@),
        reach_ok(old(stack)@, rs, ts, ps, enc_streams(*old(enc), o, *old(last_tf) as int), i, old(stack)@.last().term@),
        fork_reach_ok(old(stack)@, rs, ts, old(new_terms)@),
        i == 0 ==> old(stack)@.len() == 2 && old(stack)@[1].children@.len() == 0,
        i >= 1 ==> leaf_of(old(stack)@.last(), ts, i - 1) && old(stack)@.len() > 2,
        path_ok(old(stack)@, rs),
        records_linked(rs),
        old(dict_out)@ == d0 + records_bytes(rs),
        base == d0.len(),
        k == common_prefix_chars(old(stack)@.last().term@, nullterm@),
        rs.len() + old(stack)@.len() < u32::MAX,
        *old(serial) < u32::MAX,
        old(enc).docs.wf(),
        old(enc).tfs.wf(),
        old(enc).positions.wf(),
    ensures
        final(enc).docs.wf(),
        final(enc).tfs.wf(),
        final(enc).positions.wf(),
        r matches Ok(g) ==> {
            let (rs2, nf) = g@;
            &&& path_ok(final(stack)@, rs2)
            &&& records_linked(rs2)
            &&& final(dict_out)@ == d0 + records_bytes(rs2)
            &&& rs2.len() + final(stack)@.len() == rs.len() + old(stack)@.len() + nf
            &&& (nf == 0 || nf == 1)
            &&& *final(serial) == *old(serial) + nf
            &&& final(new_terms)@.len() == old(new_terms)@.len() + nf
            &&& forall|a: int|
                0 <= a < old(new_terms)@.len() ==> #[trigger] final(new_terms)@[a] == old(new_terms)@[a]
            &&& is_prefix(final(stack)@.last().term@, nullterm@)
            &&& reach_ok(
                final(stack)@,
                rs2,
                ts,
                ps,
                enc_streams(*final(enc), o, *final(last_tf) as int),
                i,
                old(stack)@.last().term@,
            )
            &&& fork_reach_ok(final(stack)@, rs2, ts, final(new_terms)@)
            &&& final(stack)@.last().term@.len() == k
            &&& (final(stack)@.len() == 2 || (dictionary_order(ts) ==> is_fork(ts, final(stack)@.last().term@)))
            &&& (i == 0 ==> final(stack)@.len() == 2 && final(stack)@[1].children@.len() == 0)
            &&& counted(*final(enc), o, *final(postings_ptr) as int, *final(last_tf) as int)
            &&& streams_grow(
                enc_streams(*old(enc), o, *old(last_tf) as int),
                enc_streams(*final(enc), o, *final(last_tf) as int),
            )
        },
        r matches Err(e) ==> !(e is MissingPostings),
{
    let ghost cur_term = stack@.last().term@;
    let ghost old_len = stack@.len();
    let ghost old_top = stack@.last();
    let ghost s_start = enc_streams(*enc, o, *last_tf as int);
    proof {
        lemma_streams_grow_same(s_start);
    }
    let ghost mut rs = rs;
    proof {
        lemma_common_prefix_chars(cur_term, nullterm@);
        assert(cur_term.take(cur_term.len() as int) =~= cur_term);
        lemma_path_roots(stack@, rs);
    }
    let ghost sum = rs.len() + stack@.len();
    while k < stack[stack.len() - 2].term.len()
        invariant
            stack@.len() >= 2,
            path_ok(stack@, rs),
            records_linked(rs),
            dict_out@ == d0 + records_bytes(rs),
            base == d0.len(),
            rs.len() + stack@.len() == sum,
            sum < u32::MAX,
            is_prefix(stack@.last().term@, cur_term),
            k <= cur_term.len(),
            cur_term.take(k as int) == nullterm@.take(k as int),
            enc.docs.wf(),
            enc.tfs.wf(),
            enc.positions.wf(),
            terms_placeable(ts),
            0 <= i < ts.len(),
            reach_ok(stack@, rs, ts, ps, enc_streams(*enc, o, *last_tf as int), i, cur_term),
            ps.len() == i,
            fork_reach_ok(stack@, rs, ts, new_terms@),
            new_terms@ == old(new_terms)@,
            stack@.len() <= old_len,
            stack@.len() == old_len ==> stack@.last() == old_top,
            stack@.len() < old_len ==> k < stack@.last().term@.len(),
            counted(*enc, o, *postings_ptr as int, *last_tf as int),
            streams_grow(s_start, enc_streams(*enc, o, *last_tf as int)),
        decreases stack@.len(),
    {
        let ghost st = stack@;
        let ghost s_before = enc_streams(*enc, o, *last_tf as int);
        proof {
            lemma_path_roots(st, rs);
            lemma_path_node(st, rs, st.len() - 1);
        }
        let res = pop_and_flush(stack, dict_out, base, postings_ptr, last_tf, enc, Ghost(rs), Ghost(d0), Ghost(o));
        match res {
            Ok(h) => {
                proof {
                    lemma_streams_grow_trans(s_start, s_before, enc_streams(*enc, o, *last_tf as int));
                    lemma_prefix_trans(st[st.len() - 2].term@, st.last().term@, cur_term);
                    assert(same_head(stack@[stack@.len() - 1], st[st.len() - 2]));
                    if dictionary_order(ts) {
                        lemma_reach_pop(
                            st,
                            rs,
                            ts,
                            ps,
                            s_before,
                            enc_streams(*enc, o, *last_tf as int),
                            i,
                            cur_term,
                            h,
                            stack@,
                        );
                        lemma_forks_pop(st, rs, ts, ps, s_before, i, cur_term, new_terms@, h, stack@);
                    } else {
                        lemma_reach_unordered(
                            stack@,
                            rs.push((h, child_letters(st.last().children@), child_pointers(st.last().children@))),
                            ts,
                            ps,
                            enc_streams(*enc, o, *last_tf as int),
                            i,
                            cur_term,
                        );
                        lemma_forks_unordered(
                            stack@,
                            rs.push((h, child_letters(st.last().children@), child_pointers(st.last().children@))),
                            ts,
                            new_terms@,
                        );
                    }
                    rs = rs.push((h, child_letters(st.last().children@), child_pointers(st.last().children@)));
                    lemma_path_roots(stack@, rs);
                }
            },
            Err(e) => {
                return Err(e);
            },
        }
    }
    let top = stack.len() - 1;
    let cur_len = stack[top].term.len();
    let par_len = stack[top - 1].term.len();
    let ghost mut nf: int = 0;
    if k >= cur_len {
        // the last node becomes the parent of the new term
        proof {
            lemma_common_prefix_chars(cur_term, nullterm@);
            if i >= 1 {
                lemma_fork_term(ts, i);
            }
        }
    } else if k == par_len {
        let ghost st = stack@;
        let ghost s_before = enc_streams(*enc, o, *last_tf as int);
        proof {
            lemma_path_roots(st, rs);
            lemma_path_node(st, rs, st.len() - 1);
        }
        let res = pop_and_flush(stack, dict_out, base, postings_ptr, last_tf, enc, Ghost(rs), Ghost(d0), Ghost(o));
        match res {
            Ok(h) => {
                proof {
                    lemma_streams_grow_trans(s_start, s_before, enc_streams(*enc, o, *last_tf as int));
                    lemma_prefix_trans(st[st.len() - 2].term@, st.last().term@, cur_term);
                    assert(same_head(stack@[stack@.len() - 1], st[st.len() - 2]));
                    if dictionary_order(ts) {
                        lemma_reach_pop(
                            st,
                            rs,
                            ts,
                            ps,
                            s_before,
                            enc_streams(*enc, o, *last_tf as int),
                            i,
                            cur_term,
                            h,
                            stack@,
                        );
                        lemma_forks_pop(st, rs, ts, ps, s_before, i, cur_term, new_terms@, h, stack@);
                        if st.len() - 2 >= 2 {
                            lemma_reach_fork_at(st, rs, ts, ps, s_before, i, cur_term, st.len() - 2);
                        }
                    } else {
                        lemma_reach_unordered(
                            stack@,
                            rs.push((h, child_letters(st.last().children@), child_pointers(st.last().children@))),
                            ts,
                            ps,
                            enc_streams(*enc, o, *last_tf as int),
                            i,
                            cur_term,
                        );
                        lemma_forks_unordered(
                            stack@,
                            rs.push((h, child_letters(st.last().children@), child_pointers(st.last().children@))),
                            ts,
                            new_terms@,
                        );
                    }
                    rs = rs.push((h, child_letters(st.last().children@), child_pointers(st.last().children@)));
                }
            },
            Err(e) => {
                return Err(e);
            },
        }
    } else {
        // the new term parts from the last one below its end: add their common prefix
        let ghost st = stack@;
        proof {
            lemma_path_roots(st, rs);
            lemma_path_node(st, rs, st.len() - 1);
        }
        let node_term_ptr = stack[top].term_ptr;
        let fork_chars = take_chars(&stack[top].term, k);
        let fork_bytes = prefix_bytes(&stack[top].term, k);
        *serial = *serial + 1;
        let ghost nt_before = new_terms@;
        let w_new = WrittenTerm::new(take_chars(&stack[top].term, k), *serial, node_term_ptr);
        let ghost w_new_ghost = w_new;
        new_terms.push(w_new);
        let node = stack.pop().unwrap();
        let ghost node_children = node.children@;
        proof {
            assert(node == st.last());
            lemma_utf8_len_take_le(node.term@, k as int);
        }
        let ghost s_fork = enc_streams(*enc, o, *last_tf as int);
        let res = flush(node, k, fork_bytes, dict_out, base, postings_ptr, last_tf, enc, Ghost(o));
        match res {
            Ok((c, h)) => {
                let ghost rec = (h, child_letters(node_children), child_pointers(node_children));
                let ghost rs_before = rs;
                proof {
                    lemma_streams_grow_trans(s_start, s_fork, enc_streams(*enc, o, *last_tf as int));
                    lemma_records_bytes_push(rs, rec);
                    lemma_records_linked_push(rs, node_children, h);
                    lemma_path_drop(st, rs, rec);
                    lemma_record_offset_push(rs, rec, rs.len() as int);
                    rs = rs.push(rec);
                    assert(stack@ == st.drop_last());
                }
                let mut fork_children: Vec<Child> = Vec::new();
                fork_children.push(c);
                let fork = Node {
                    term: fork_chars,
                    byte_len: fork_bytes,
                    term_ptr: node_term_ptr,
                    term_id: *serial,
                    postings: None,
                    children: fork_children,
                };
                proof {
                    assert(record_start(rs, fork.children@[0].pointer));
                    assert(children_linked(fork.children@, rs));
                    assert(forall|x: int|
                        0 <= x < fork.children@.len() ==> child_ok(#[trigger] fork.children@[x]));
                    assert(node_ok(fork));
                    let pt = st[st.len() - 2].term@;
                    assert(fork.term@.take(pt.len() as int) =~= st.last().term@.take(pt.len() as int));
                    assert(is_prefix(stack@.last().term@, fork.term@));
                    lemma_path_push(stack@, rs, fork);
                    nf = 1;
                    assert(cur_term.take(k as int) =~= st.last().term@.take(k as int));
                    // the new node is where the new term parts from the one before
                    assert(i >= 1);
                    assert(fork.term@ =~= cur_term.take(k as int));
                    assert(fork.term@ == fork_term(ts, i));
                }
                stack.push(fork);
                proof {
                    assert(stack@.last() == fork);
                    if dictionary_order(ts) {
                        lemma_reach_fork(
                            st,
                            rs_before,
                            ts,
                            ps,
                            s_fork,
                            enc_streams(*enc, o, *last_tf as int),
                            i,
                            cur_term,
                            k as int,
                            h,
                            stack@,
                        );
                        lemma_forks_fork(
                            st,
                            rs_before,
                            ts,
                            ps,
                            s_fork,
                            i,
                            cur_term,
                            k as int,
                            nt_before,
                            w_new_ghost,
                            h,
                            stack@,
                        );
                        assert(nt_before.push(w_new_ghost) == new_terms@);
                    } else {
                        lemma_reach_unordered(stack@, rs, ts, ps, enc_streams(*enc, o, *last_tf as int), i, cur_term);
                        lemma_forks_unordered(stack@, rs, ts, new_terms@);
                    }
                }
            },
            Err(e) => {
                return Err(e);
            },
        }
    }
    proof {
        // the node that takes the new term shares its whole term with it
        let lt = stack@.last().term@;
        assert(lt.len() <= k);
        assert(is_prefix(lt, cur_term));
        assert(nullterm@.take(lt.len() as int) =~= nullterm@.take(k as int).take(lt.len() as int));
        assert(cur_term.take(k as int).take(lt.len() as int) =~= cur_term.take(lt.len() as int));
        assert(is_prefix(lt, nullterm@));
    }
    Ok(Ghost((rs, nf)))
}

/// Writes the rest of the path and then the root. Returns where the root's record starts.
fn finish<DE: SequenceEncoder, TE: SequenceEncoder, PE: SequenceEncoder>(
    stack: &mut Vec<Node>,
    dict_out: &mut Vec<u8>,
    base: usize,
    postings_ptr: &mut DocId,
    last_tf: &mut DocId,
    enc: &mut PostingsEncoders<DE, TE, PE>,
    Ghost(rs): Ghost<Seq<Record>>,
    Ghost(d0): Ghost<Seq<u8>>,
    Ghost(ts): Ghost<Seq<Term>>,
    Ghost(o): Ghost<(int, int, int)>,
    Ghost(ps): Ghost<Seq<PostingsView>>,
    Ghost(nt): Ghost<Seq<WrittenTerm>>,
) -> (r: Result<(usize, Ghost<Seq<Record>>), TrieError>)
    requires
        fork_reach_ok(old(stack)@, rs, ts, nt),
        counted(*old(enc), o, *old(postings_ptr) as int, *old(last_tf) as int),
        terms_placeable(ts),
        ps.len() == ts.len(),
        reach_ok(
            old(stack)@,
            rs,
            ts,
            ps,
            enc_streams(*old(enc), o, *old(last_tf) as int),
            ts.len() as int,
            old(stack)@.last().term@,
        ),
        path_ok(old(stack)@, rs),
        records_linked(rs),
        old(dict_out)@ == d0 + records_bytes(rs),
        base == d0.len(),
        rs.len() + old(stack)@.len() < u32::MAX,
        old(enc).docs.wf(),
        old(enc).tfs.wf(),
        old(enc).positions.wf(),
    ensures
        final(enc).docs.wf(),
        final(enc).tfs.wf(),
        final(enc).positions.wf(),
        r matches Ok((root_ptr, g)) ==> {
            let rs2 = g@;
            &&& rs2.len() > 0
            &&& records_linked(rs2)
            &&& final(dict_out)@ == d0 + records_bytes(rs2)
            &&& root_ptr == record_offset(rs2, rs2.len() - 1)
            &&& rs2.last().0.term_id == 0
            &&& (dictionary_order(ts) && records_bytes(rs2).len() <= u32::MAX && terms_bytes(ts).len()
                <= u32::MAX ==> postings_found(
                records_bytes(rs2),
                terms_bytes(ts),
                root_ptr as int,
                ts,
                ps,
                enc_streams(*final(enc), o, *final(last_tf) as int),
            ))
            &&& (dictionary_order(ts) && records_bytes(rs2).len() <= u32::MAX && terms_bytes(ts).len()
                <= u32::MAX ==> prefixes_found(records_bytes(rs2), terms_bytes(ts), root_ptr as int, ts, nt))
            &&& counted(*final(enc), o, *final(postings_ptr) as int, *final(last_tf) as int)
            &&& streams_grow(
                enc_streams(*old(enc), o, *old(last_tf) as int),
                enc_streams(*final(enc), o, *final(last_tf) as int),
            )
        },
        r matches Err(e) ==> !(e is MissingPostings),
{
    let ghost mut rs = rs;
    let ghost sum = rs.len() + stack@.len();
    let ghost cur = stack@.last().term@;
    let ghost s_start = enc_streams(*enc, o, *last_tf as int);
    proof {
        lemma_streams_grow_same(s_start);
        lemma_path_roots(stack@, rs);
        assert(cur.take(cur.len() as int) =~= cur);
    }
    while stack.len() > 2
        invariant
            stack@.len() >= 2,
            path_ok(stack@, rs),
            records_linked(rs),
            dict_out@ == d0 + records_bytes(rs),
            base == d0.len(),
            rs.len() + stack@.len() == sum,
            sum < u32::MAX,
            enc.docs.wf(),
            enc.tfs.wf(),
            enc.positions.wf(),
            terms_placeable(ts),
            reach_ok(stack@, rs, ts, ps, enc_streams(*enc, o, *last_tf as int), ts.len() as int, cur),
            ps.len() == ts.len(),
            fork_reach_ok(stack@, rs, ts, nt),
            is_prefix(stack@.last().term@, cur),
            counted(*enc, o, *postings_ptr as int, *last_tf as int),
            streams_grow(s_start, enc_streams(*enc, o, *last_tf as int)),
        decreases stack@.len(),
    {
        let ghost st = stack@;
        let ghost s_before = enc_streams(*enc, o, *last_tf as int);
        proof {
            lemma_path_node(st, rs, st.len() - 1);
        }
        let res = pop_and_flush(stack, dict_out, base, postings_ptr, last_tf, enc, Ghost(rs), Ghost(d0), Ghost(o));
        match res {
            Ok(h) => {
                proof {
                    lemma_streams_grow_trans(s_start, s_before, enc_streams(*enc, o, *last_tf as int));
                    lemma_prefix_trans(st[st.len() - 2].term@, st.last().term@, cur);
                    assert(same_head(stack@[stack@.len() - 1], st[st.len() - 2]));
                    if dictionary_order(ts) {
                        lemma_reach_pop(
                            st,
                            rs,
                            ts,
                            ps,
                            s_before,
                            enc_streams(*enc, o, *last_tf as int),
                            ts.len() as int,
                            cur,
                            h,
                            stack@,
                        );
                        lemma_forks_pop(st, rs, ts, ps, s_before, ts.len() as int, cur, nt, h, stack@);
                    } else {
                        lemma_reach_unordered(
                            stack@,
                            rs.push((h, child_letters(st.last().children@), child_pointers(st.last().children@))),
                            ts,
                            ps,
                            enc_streams(*enc, o, *last_tf as int),
                            ts.len() as int,
                            cur,
                        );
                        lemma_forks_unordered(
                            stack@,
                            rs.push((h, child_letters(st.last().children@), child_pointers(st.last().children@))),
                            ts,
                            nt,
                        );
                    }
                    rs = rs.push((h, child_letters(st.last().children@), child_pointers(st.last().children@)));
                    lemma_path_roots(stack@, rs);
                }
            },
            Err(e) => {
                return Err(e);
            },
        }
    }
    let root_ptr = dict_out.len() - base;
    let ghost st = stack@;
    proof {
        lemma_path_roots(st, rs);
        lemma_path_node(st, rs, 1);
    }
    let root = stack.pop().unwrap();
    proof {
        assert(root == st[1]);
        assert(root.term@.take(0) =~= Seq::<char>::empty());
        assert(encode_utf8(Seq::<char>::empty()) =~= Seq::<u8>::empty());
    }
    let ghost root_children = root.children@;
    let ghost s_root = enc_streams(*enc, o, *last_tf as int);
    let res = flush(root, 0, 0, dict_out, base, postings_ptr, last_tf, enc, Ghost(o));
    match res {
        Ok((_c, h)) => {
            let ghost rec = (h, child_letters(root_children), child_pointers(root_children));
            proof {
                lemma_streams_grow_trans(s_start, s_root, enc_streams(*enc, o, *last_tf as int));
                if dictionary_order(ts) {
                    lemma_reach_root(st, rs, ts, ps, s_root, enc_streams(*enc, o, *last_tf as int), cur, h);
                    lemma_forks_root(st, rs, ts, ps, s_root, cur, nt, h);
                }
                lemma_records_bytes_push(rs, rec);
                lemma_records_linked_push(rs, root_children, h);
                lemma_record_offset_push(rs, rec, rs.len() as int);
                rs = rs.push(rec);
            }
            Ok((root_ptr, Ghost(rs)))
        },
        Err(e) => Err(e),
    }
}

/// What placeable terms promise of one term.
proof fn lemma_placeable(ts: Seq<Term>, i: int)
    requires
        terms_placeable(ts),
        0 <= i < ts.len(),
    ensures
        ts[i].term_id != 0,
        utf8_len(ts[i].term@) + 1 < 65535,
{
    reveal(terms_placeable);
}

/// The path of the two roots, before any term is placed.
proof fn lemma_start(st: Seq<Node>, ts: Seq<Term>)
    requires
        st.len() == 2,
        forall|j: int| 0 <= j < 2 ==> root_ok(#[trigger] st[j]) && st[j].children@.len() == 0,
    ensures
        path_ok(st, Seq::empty()),
        records_linked(Seq::empty()),
        leaf_positions(Seq::empty(), ts.take(0), Seq::empty()),
        term_offset(ts, 0) == 0,
{
    reveal(path_ok);
    reveal(records_linked);
    reveal(leaf_positions);
    assert(encode_utf8(Seq::<char>::empty()) =~= Seq::<u8>::empty());
    assert(ts.take(0) =~= Seq::<Term>::empty());
    assert(root_ok(st[0]) && root_ok(st[1]));
    assert(st[1].term@.take(0) =~= st[0].term@);
    assert forall|j: int| 0 <= j < st.len() implies node_ok(#[trigger] st[j]) by {
        assert(root_ok(st[j]));
    }
}

/// Builds the prefix trie of `terms`, which come in dictionary order, writing node records
/// to `dict_out` children first and the postings of every node through `enc`.
///
/// Whole terms are placed with a zero character appended; where two neighbouring terms
/// part, a node for their common prefix is added with the next identifier after
/// `term_serial`. A prefix node takes the merged postings of its children. After the
/// records come the bytes of all terms. Returns the placed terms (prefixes and whole
/// terms, in the order they were made), the size of the records, where the root's
/// record starts, and the size of the term bytes.
///
/// When the terms are in dictionary order, looking up from the root any term that is not
/// empty and does not start the term after it finds the node with that term's identifier
/// (as long as the records and the term bytes can be addressed with 32-bit offsets); when
/// moreover no two terms share an identifier, that node points at the postings the store
/// held for the term, which can be read back from what the encoders wrote. Likewise every
/// prefix node placed is found by looking up its characters.
#[verifier::rlimit(100)]
pub fn create_trie<PS: PostingsStore, DE: SequenceEncoder, TE: SequenceEncoder, PE: SequenceEncoder>(
    term_serial: TermId,
    terms: &[Term],
    postings_store: &mut PS,
    dict_out: &mut Vec<u8>,
    enc: &mut PostingsEncoders<DE, TE, PE>,
) -> (r: Result<(Vec<WrittenTerm>, usize, usize, usize), TrieError>)
    requires
        terms_placeable(terms@),
        term_serial + terms@.len() <= u32::MAX,
        2 * terms@.len() + 4 < u32::MAX,
        terms_bytes(terms@).len() < usize::MAX,
        old(enc).docs.wf(),
        old(enc).tfs.wf(),
        old(enc).positions.wf(),
    ensures
        final(enc).docs.wf(),
        final(enc).tfs.wf(),
        final(enc).positions.wf(),
        r matches Ok(x) ==> trie_output(old(dict_out)@, final(dict_out)@, terms@, x.1, x.2),
        r matches Ok(x) ==> x.3 == terms_bytes(terms@).len(),
        r matches Ok(x) ==> leaves_placed(x.0@, terms@),
        r matches Ok(x) ==> (dictionary_order(terms@) && x.1 <= u32::MAX && terms_bytes(terms@).len()
            <= u32::MAX ==> terms_found(
            final(dict_out)@.subrange(old(dict_out)@.len() as int, old(dict_out)@.len() + x.1),
            final(dict_out)@.subrange(old(dict_out)@.len() + x.1, final(dict_out)@.len() as int),
            x.2 as int,
            terms@,
        )),
        r matches Ok(x) ==> (dictionary_order(terms@) && ids_distinct(terms@) && x.1 <= u32::MAX
            && terms_bytes(terms@).len() <= u32::MAX ==> postings_readable(
            final(dict_out)@.subrange(old(dict_out)@.len() as int, old(dict_out)@.len() + x.1),
            final(dict_out)@.subrange(old(dict_out)@.len() + x.1, final(dict_out)@.len() as int),
            x.2 as int,
            terms@,
            *old(postings_store),
            final(enc).docs.items().skip(old(enc).docs.items().len() as int),
            final(enc).tfs.items().skip(old(enc).tfs.items().len() as int),
            final(enc).positions.items().skip(old(enc).positions.items().len() as int),
        )),
        r matches Ok(x) ==> (dictionary_order(terms@) && x.1 <= u32::MAX && terms_bytes(terms@).len()
            <= u32::MAX ==> prefixes_found(
            final(dict_out)@.subrange(old(dict_out)@.len() as int, old(dict_out)@.len() + x.1),
            final(dict_out)@.subrange(old(dict_out)@.len() + x.1, final(dict_out)@.len() as int),
            x.2 as int,
            terms@,
            x.0@,
        )),
        r matches Err(TrieError::MissingPostings(id)) ==> exists|i: int|
            0 <= i < terms@.len() && #[trigger] terms@[i].term_id == id,
        r matches Err(TrieError::MissingPostings(id)) ==> (ids_distinct(terms@)
            ==> old(postings_store).postings_of(id) is None),
        ids_distinct(terms@) && (forall|i: int|
            0 <= i < terms@.len() ==> old(postings_store).postings_of(#[trigger] terms@[i].term_id) is Some)
            ==> !(r matches Err(TrieError::MissingPostings(_))),
{
    let base = dict_out.len();
    let ghost d0 = dict_out@;
    let mut new_terms: Vec<WrittenTerm> = Vec::new();
    let mut stack: Vec<Node> = Vec::new();
    // two roots, so that the last node always has a parent
    stack.push(
        Node {
            term: Vec::new(),
            byte_len: 0,
            term_ptr: 0,
            term_id: 0,
            postings: None,
            children: Vec::new(),
        },
    );
    stack.push(
        Node {
            term: Vec::new(),
            byte_len: 0,
            term_ptr: 0,
            term_id: 0,
            postings: None,
            children: Vec::new(),
        },
    );
    let mut serial = term_serial;
    let mut term_ptr: usize = 0;
    let mut postings_ptr: DocId = 0;
    let mut last_tf: DocId = 0;
    let ghost mut rs: Seq<Record> = Seq::empty();
    let ghost mut idx: Seq<int> = Seq::empty();
    let ghost o = (
        enc.docs.items().len() as int,
        enc.tfs.items().len() as int,
        enc.positions.items().len() as int,
    );
    let ghost mut forks: int = 0;
    let ghost mut ps: Seq<PostingsView> = Seq::empty();
    proof {
        lemma_start(stack@, terms@);
        lemma_reach_start(stack@, terms@, ps, enc_streams(*enc, o, 0));
        lemma_forks_start(stack@, terms@);
        assert(new_terms@ =~= Seq::<WrittenTerm>::empty());
        assert(records_bytes(rs) =~= Seq::<u8>::empty());
        assert(dict_out@ =~= d0 + records_bytes(rs));
    }
    let mut i: usize = 0;
    while i < terms.len()
        invariant
            i <= terms@.len(),
            terms_placeable(terms@),
            term_serial + terms@.len() <= u32::MAX,
            2 * terms@.len() + 4 < u32::MAX,
            terms_bytes(terms@).len() < usize::MAX,
            path_ok(stack@, rs),
            records_linked(rs),
            dict_out@ == d0 + records_bytes(rs),
            base == d0.len(),
            rs.len() + stack@.len() == 2 + i + forks,
            0 <= forks <= i,
            serial == term_serial + forks,
            term_ptr == term_offset(terms@, i as int),
            leaf_positions(new_terms@, terms@.take(i as int), idx),
            enc.docs.wf(),
            enc.tfs.wf(),
            enc.positions.wf(),
            reach_ok(stack@, rs, terms@, ps, enc_streams(*enc, o, last_tf as int), i as int, stack@.last().term@),
            fork_reach_ok(stack@, rs, terms@, new_terms@),
            i == 0 ==> stack@.len() == 2 && stack@[1].children@.len() == 0,
            i > 0 ==> leaf_of(stack@.last(), terms@, i - 1) && stack@.len() > 2,
            counted(*enc, o, postings_ptr as int, last_tf as int),
            o == (
                old(enc).docs.items().len() as int,
                old(enc).tfs.items().len() as int,
                old(enc).positions.items().len() as int,
            ),
            ps.len() == i,
            forall|m: int| 0 <= m < i ==> plain_ok(#[trigger] ps[m].0, ps[m].1, ps[m].2),
            forall|id: TermId|
                (forall|m: int| 0 <= m < i ==> terms@[m].term_id != id) ==> #[trigger] postings_store.postings_of(id)
                    == old(postings_store).postings_of(id),
            forall|m: int|
                0 <= m < i ==> (ids_distinct(terms@) ==> old(postings_store).postings_of(
                    #[trigger] terms@[m].term_id,
                ) == Some(ps[m])),
        decreases terms@.len() - i,
    {
        proof {
            lemma_path_roots(stack@, rs);
        }
        let t = &terms[i];
        let nullterm = null_terminate(t.term.as_str());
        let tlen = t.term.as_str().as_bytes().len();
        let top = stack.len() - 1;
        let k = common_prefix(&stack[top].term, &nullterm);
        proof {
            lemma_placeable(terms@, i as int);
            lemma_null_terminated_len(t.term@);
            lemma_terms_bytes_step(terms@, i as int);
            lemma_terms_bytes_prefix(terms@, i + 1);
        }
        let ghost store_before = *postings_store;
        let got = postings_store.get_postings(t.term_id);
        proof {
            if ids_distinct(terms@) {
                assert forall|m: int| 0 <= m < i implies terms@[m].term_id != t.term_id by {
                    assert(terms@[m].term_id != terms@[i as int].term_id);
                }
                assert(store_before.postings_of(t.term_id) == old(postings_store).postings_of(t.term_id));
            }
        }
        let leaf_postings = match got {
            None => {
                return Err(TrieError::MissingPostings(t.term_id));
            },
            Some(p) => {
                if !check_plain(&p) {
                    return Err(TrieError::InvalidPostings(t.term_id));
                }
                p
            },
        };
        let ghost nt0 = new_terms@;
        let ghost cur = stack@.last().term@;
        let res = descend(
            &mut stack,
            k,
            &nullterm,
            &mut new_terms,
            &mut serial,
            dict_out,
            base,
            &mut postings_ptr,
            &mut last_tf,
            enc,
            Ghost(rs),
            Ghost(d0),
            Ghost(terms@),
            Ghost(i as int),
            Ghost(o),
            Ghost(ps),
        );
        match res {
            Ok(g) => {
                proof {
                    rs = g@.0;
                    forks = forks + g@.1;
                    lemma_leaf_positions_extend(nt0, new_terms@, terms@.take(i as int), idx);
                }
            },
            Err(e) => {
                return Err(e);
            },
        }
        // the new term goes below the last node
        let ghost before_nt = new_terms@;
        let w = WrittenTerm::new(copy_chars(&nullterm), t.term_id, term_ptr);
        let ghost w_ghost = w;
        proof {
            lemma_leaf_push(before_nt, w, terms@, i as int, idx);
            idx = idx.push(before_nt.len() as int);
        }
        new_terms.push(w);
        let ghost lp = pview(&leaf_postings);
        let leaf = Node {
            term: nullterm,
            byte_len: tlen + 1,
            term_ptr: term_ptr,
            term_id: t.term_id,
            postings: Some(leaf_postings),
            children: Vec::new(),
        };
        proof {
            assert(node_ok(leaf));
            assert(children_linked(leaf.children@, rs));
            lemma_path_push(stack@, rs, leaf);
            assert(leaf_of(leaf, terms@, i as int));
            lemma_path_roots(stack@, rs);
            if dictionary_order(terms@) {
                lemma_reach_push(stack@, rs, terms@, ps, enc_streams(*enc, o, last_tf as int), i as int, cur, leaf, lp);
                lemma_forks_push(stack@, rs, terms@, before_nt, i as int, leaf, w_ghost);
                assert(before_nt.push(w_ghost) == new_terms@);
            } else {
                lemma_forks_unordered(stack@.push(leaf), rs, terms@, new_terms@);
                lemma_reach_unordered(
                    stack@.push(leaf),
                    rs,
                    terms@,
                    ps.push(lp),
                    enc_streams(*enc, o, last_tf as int),
                    i + 1,
                    leaf.term@,
                );
            }
            // what the store held for this term, and still holds for terms not yet placed
            let id = terms@[i as int].term_id;
            assert(store_before.postings_of(id) == Some(lp));
            assert forall|other: TermId|
                (forall|m: int| 0 <= m < i + 1 ==> terms@[m].term_id != other) implies #[trigger] postings_store.postings_of(
                other,
            ) == old(postings_store).postings_of(other) by {
                assert(terms@[i as int].term_id != other);
                assert(forall|m: int| 0 <= m < i ==> terms@[m].term_id != other);
            }
            if ids_distinct(terms@) {
                assert forall|m: int| 0 <= m < i implies terms@[m].term_id != id by {
                    assert(terms@[m].term_id != terms@[i as int].term_id);
                }
                assert(old(postings_store).postings_of(id) == Some(lp));
            }
            ps = ps.push(lp);
        }
        stack.push(leaf);
        proof {
            assert(stack@.last() == leaf);
        }
        term_ptr = term_ptr + tlen;
        i += 1;
    }
    let res = finish(
        &mut stack,
        dict_out,
        base,
        &mut postings_ptr,
        &mut last_tf,
        enc,
        Ghost(rs),
        Ghost(d0),
        Ghost(terms@),
        Ghost(o),
        Ghost(ps),
        Ghost(new_terms@),
    );
    let (root_ptr, g) = match res {
        Ok(x) => x,
        Err(e) => {
            return Err(e);
        },
    };
    let ghost s_fin = enc_streams(*enc, o, last_tf as int);
    proof {
        rs = g@;
    }
    // the offsets need one more entry so that every document has an end
    let _ = enc.tfs.write(last_tf);
    proof {
        let s_out = enc_streams(*enc, o, last_tf as int);
        assert(s_out.1 =~= s_fin.1.push(last_tf));
        assert(s_out.1.take(s_fin.1.len() as int) =~= s_fin.1);
        assert(s_out.0.take(s_fin.0.len() as int) =~= s_fin.0);
        assert(s_out.2.take(s_fin.2.len() as int) =~= s_fin.2);
        assert(streams_grow(s_fin, s_out));
        if dictionary_order(terms@) && ids_distinct(terms@) && records_bytes(rs).len() <= u32::MAX
            && terms_bytes(terms@).len() <= u32::MAX {
            lemma_postings_readable(
                records_bytes(rs),
                terms_bytes(terms@),
                root_ptr as int,
                terms@,
                ps,
                s_fin,
                s_out,
                *old(postings_store),
            );
        }
    }
    let dict_size = dict_out.len() - base;
    let ghost nodes_end = dict_out@;
    let mut j: usize = 0;
    proof {
        assert(terms@.take(0) =~= Seq::<Term>::empty());
        assert(nodes_end =~= nodes_end + terms_bytes(terms@.take(0)));
    }
    while j < terms.len()
        invariant
            j <= terms@.len(),
            dict_out@ == nodes_end + terms_bytes(terms@.take(j as int)),
        decreases terms@.len() - j,
    {
        let bytes = terms[j].term.as_str().as_bytes();
        let mut v = vstd::slice::slice_to_vec(bytes);
        dict_out.append(&mut v);
        proof {
            lemma_terms_bytes_step(terms@, j as int);
        }
        j += 1;
    }
    proof {
        assert(terms@.take(terms@.len() as int) =~= terms@);
        assert(trie_written(rs, d0, dict_out@, terms@, dict_size, root_ptr));
        assert(leaf_positions(new_terms@, terms@, idx));
        assert(leaves_placed(new_terms@, terms@));
        assert(term_ptr == terms_bytes(terms@).len());
        assert(d0 == old(dict_out)@);
        assert(trie_written(rs, old(dict_out)@, dict_out@, terms@, dict_size, root_ptr));
        assert(trie_output(old(dict_out)@, dict_out@, terms@, dict_size, root_ptr));
        assert(dict_out@.subrange(d0.len() as int, d0.len() + dict_size) =~= records_bytes(rs));
        assert(dict_out@.subrange(d0.len() + dict_size, dict_out@.len() as int) =~= terms_bytes(terms@));
    }
    Ok((new_terms, dict_size, root_ptr, term_ptr))
}

/// Whether the term with terminator `a` is a prefix of the term with terminator `b`.
fn null_terminated_prefix(a: &Vec<char>, b: &Vec<char>) -> (r: bool)
    ensures
        r == is_prefix(null_terminated(a@), null_terminated(b@)),
{
    let ghost na = null_terminated(a@);
    let ghost nb = null_terminated(b@);
    if a.len() > b.len() {
        return false;
    }
    let mut i: usize = 0;
    while i < a.len()
        invariant
            i <= a@.len() <= b@.len(),
            na == null_terminated(a@),
            nb == null_terminated(b@),
            forall|k: int| 0 <= k < i ==> a@[k] == b@[k],
        decreases a@.len() - i,
    {
        if a[i] != b[i] {
            proof {
                assert(nb.take(na.len() as int)[i as int] != na[i as int]);
            }
            return false;
        }
        i += 1;
    }
    let r = a.len() == b.len() || b[a.len()] == '\0';
    proof {
        if r {
            assert(nb.take(na.len() as int) =~= na);
        } else {
            assert(nb.take(na.len() as int)[a@.len() as int] != na[a@.len() as int]);
        }
    }
    r
}

/// Whether `create_trie` may be called with `term_serial` and `terms`: the terms can be
/// placed, the identifiers of the prefixes still fit, and the term bytes can be counted.
pub fn check_trie_input(term_serial: TermId, terms: &[Term]) -> (r: bool)
    ensures
        r == (terms_placeable(terms@) && term_serial + terms@.len() <= u32::MAX && 2 * terms@.len() + 4
            < u32::MAX && terms_bytes(terms@).len() < usize::MAX),
{
    let n = terms.len();
    if n > (u32::MAX - term_serial) as usize || n > 2147483645 {
        return false;
    }
    let mut total: usize = 0;
    let mut i: usize = 0;
    while i < n
        invariant
            n == terms@.len(),
            i <= n,
            total == terms_bytes(terms@.take(i as int)).len(),
            total < usize::MAX,
            forall|k: int| 0 <= k < i ==> (#[trigger] terms@[k]).term_id != 0,
            forall|k: int| 0 <= k < i ==> utf8_len((#[trigger] terms@[k]).term@) + 1 < 65535,
            forall|k: int|
                1 <= k < i ==> !is_prefix(
                    null_terminated(terms@[k - 1].term@),
                    null_terminated((#[trigger] terms@[k]).term@),
                ),
        decreases n - i,
    {
        let t = &terms[i];
        if t.term_id == 0 {
            proof {
                reveal(terms_placeable);
                assert(terms@[i as int].term_id == 0);
            }
            return false;
        }
        let len = t.term.as_str().as_bytes().len();
        proof {
            lemma_terms_bytes_step(terms@, i as int);
            lemma_terms_bytes_prefix(terms@, i + 1);
        }
        if len >= 65534 {
            proof {
                reveal(terms_placeable);
                assert(utf8_len(terms@[i as int].term@) + 1 >= 65535);
            }
            return false;
        }
        if len >= usize::MAX - total {
            proof {
                assert(terms_bytes(terms@.take(i + 1)).len() >= usize::MAX);
                assert(term_offset(terms@, i + 1) <= terms_bytes(terms@).len());
            }
            return false;
        }
        if i > 0 {
            let prev = to_wide(terms[i - 1].term.as_str());
            let cur = to_wide(t.term.as_str());
            if null_terminated_prefix(&prev, &cur) {
                proof {
                    reveal(terms_placeable);
                    assert(is_prefix(null_terminated(terms@[i - 1].term@), null_terminated(terms@[i as int].term@)));
                }
                return false;
            }
        }
        total = total + len;
        i += 1;
    }
    proof {
        assert(terms@.take(n as int) =~= terms@);
        reveal(terms_placeable);
    }
    true
}

// ---------------------------------------------------------------------------
// Looking up what was written
// ---------------------------------------------------------------------------

/// The parts of a record appended after others read back where it starts.
proof fn lemma_last_record(rs: Seq<Record>, rec: Record)
    requires
        rec.1.len() == rec.0.num_children,
        rec.2.len() == rec.0.num_children,
    ensures
        ({
            let rb = records_bytes(rs.push(rec));
            let off = records_bytes(rs).len() as int;
            let nc = rec.0.num_children as int;
            &&& rb == records_bytes(rs) + record_bytes(rec)
            &&& off + 32 + 8 * nc <= rb.len()
            &&& header_at(rb, off) == rec.0
            &&& u32s_at(rb, off + 32, nc) == rec.1
            &&& u32s_at(rb, off + 32 + 4 * nc, nc) == rec.2
        }),
{
    lemma_records_bytes_push(rs, rec);
    let pre = records_bytes(rs);
    let rb = pre + record_bytes(rec);
    let off = pre.len() as int;
    let nc = rec.0.num_children as int;
    let l = le_concat_u32(rec.1);
    let p = le_concat_u32(rec.2);
    crate::util::lemma_le_concat_u32(rec.1);
    crate::util::lemma_le_concat_u32(rec.2);
    assert(header_bytes(rec.0).len() == 32);
    assert(rb =~= pre + header_bytes(rec.0) + (l + p));
    crate::header::lemma_header_roundtrip(pre, rec.0, l + p);
    assert forall|c: int| 0 <= c < nc implies #[trigger] u32s_at(rb, off + 32, nc)[c] == rec.1[c] by {
        assert(rb.subrange(off + 32 + 4 * c, off + 32 + 4 * c + 4) =~= l.subrange(4 * c, 4 * c + 4));
        crate::util::lemma_le_u32_roundtrip(rec.1[c]);
    }
    assert(u32s_at(rb, off + 32, nc) =~= rec.1);
    assert forall|c: int| 0 <= c < nc implies #[trigger] u32s_at(rb, off + 32 + 4 * nc, nc)[c] == rec.2[c] by {
        assert(rb.subrange(off + 32 + 4 * nc + 4 * c, off + 32 + 4 * nc + 4 * c + 4) =~= p.subrange(4 * c, 4 * c + 4));
        crate::util::lemma_le_u32_roundtrip(rec.2[c]);
    }
    assert(u32s_at(rb, off + 32 + 4 * nc, nc) =~= rec.2);
}

/// The stored term of a header: the term bytes from its pointer, as many as its length
/// says, cut at the end of the term bytes.
pub open spec fn stored_term(h: TrieNodeHeader, t: Seq<u8>) -> Seq<u8> {
    let end = if h.term_ptr + h.term_length <= t.len() {
        h.term_ptr + h.term_length
    } else {
        t.len() as int
    };
    t.subrange(h.term_ptr as int, end)
}

/// A lookup at a record appended last that spells out the whole query finds that record.
proof fn lemma_find_last_whole(rs: Seq<Record>, rec: Record, t: Seq<u8>, q: Seq<char>)
    requires
        rec.1.len() == rec.0.num_children,
        rec.2.len() == rec.0.num_children,
        rec.0.term_ptr <= t.len(),
        matched_chars(q, stored_term(rec.0, t)) == q.len(),
    ensures
        find_spec(records_bytes(rs.push(rec)), t, records_bytes(rs).len() as int, q) == Some(rec.0),
{
    lemma_last_record(rs, rec);
}

/// A lookup at a record appended last that spells out the start of the query goes on at
/// the child listed under the next character.
#[verifier::spinoff_prover]
#[verifier::rlimit(30)]
proof fn lemma_find_last_child(rs: Seq<Record>, rec: Record, t: Seq<u8>, q: Seq<char>, x: int)
    requires
        rec.1.len() == rec.0.num_children,
        rec.2.len() == rec.0.num_children,
        rec.0.term_ptr <= t.len(),
        matched_chars(q, stored_term(rec.0, t)) < q.len(),
        0 <= x < rec.1.len(),
        forall|a: int, b: int| 0 <= a < b < rec.1.len() ==> rec.1[a] < rec.1[b],
        rec.1[x] == q[matched_chars(q, stored_term(rec.0, t)) as int] as u32,
        rec.2[x] < records_bytes(rs).len(),
        find_spec(
            records_bytes(rs),
            t,
            rec.2[x] as int,
            q.skip(matched_chars(q, stored_term(rec.0, t)) as int),
        ) is Some,
    ensures
        find_spec(records_bytes(rs.push(rec)), t, records_bytes(rs).len() as int, q) == find_spec(
            records_bytes(rs),
            t,
            rec.2[x] as int,
            q.skip(matched_chars(q, stored_term(rec.0, t)) as int),
        ),
{
    lemma_last_record(rs, rec);
    let k = matched_chars(q, stored_term(rec.0, t));
    let rest = q.skip(k as int);
    assert(rest[0] == q[k as int]);
    lemma_first_index_increasing(rec.1, x);
    lemma_find_extend(records_bytes(rs), record_bytes(rec), t, rec.2[x] as int, rest);
}


// ---------------------------------------------------------------------------
// Every term placed can be looked up
// ---------------------------------------------------------------------------

/// A lookup of `q` from the record at `at` finds a node with identifier `id`.
pub open spec fn finds(rb: Seq<u8>, tb: Seq<u8>, at: int, q: Seq<char>, id: TermId) -> bool {
    find_spec(rb, tb, at, q) matches Some(h) && h.term_id == id
}

/// Every term that a lookup tells apart is found from the root by its characters.
pub open spec fn terms_found(trie: Seq<u8>, terms: Seq<u8>, root: int, ts: Seq<Term>) -> bool {
    forall|m: int|
        0 <= m < ts.len() && #[trigger] distinguishable(ts, m) ==> finds(
            trie,
            terms,
            root,
            ts[m].term@,
            ts[m].term_id,
        )
}

/// A lookup of `q` from the record at `at` finds a node with identifier `id` whose
/// postings, as its header points at them, are `p` in the streams `s`.
pub open spec fn found(
    rb: Seq<u8>,
    tb: Seq<u8>,
    at: int,
    q: Seq<char>,
    id: TermId,
    p: PostingsView,
    s: Streams,
) -> bool {
    find_spec(rb, tb, at, q) matches Some(h) && {
        &&& h.term_id == id
        &&& h.num_postings == p.0.len()
        &&& list_stored(h.postings_ptr as int, s, p)
    }
}

spec fn letters_increasing(cs: Seq<Child>) -> bool {
    forall|a: int, b: int| 0 <= a < b < cs.len() ==> (#[trigger] cs[a]).letter < (#[trigger] cs[b]).letter
}

/// The children of every node are listed under increasing letters, none past the
/// character of `cur` that follows the node, and all before it but at the last node.
spec fn letters_ok(st: Seq<Node>, cur: Seq<char>) -> bool {
    &&& forall|j: int| 1 <= j < st.len() ==> letters_increasing((#[trigger] st[j]).children@)
    &&& forall|j: int, x: int|
        1 <= j < st.len() && 0 <= x < st[j].children@.len() ==> st[j].term@.len() < cur.len() && (
        #[trigger] st[j].children@[x]).letter <= cur[st[j].term@.len() as int] as u32
    &&& forall|j: int, x: int|
        1 <= j < st.len() - 1 && 0 <= x < st[j].children@.len() ==> (
        #[trigger] st[j].children@[x]).letter < cur[st[j].term@.len() as int] as u32
}

/// The characters of the node start those of a term whose bytes start where the node's
/// do; a last node may instead be the childless leaf of that term.
spec fn node_text(n: Node, ts: Seq<Term>, last: bool) -> bool {
    exists|a: int|
        0 <= a < ts.len() && n.term_ptr == #[trigger] term_offset(ts, a) && (is_prefix(
            n.term@,
            ts[a].term@,
        ) || (last && n.term@ == null_terminated(ts[a].term@) && n.children@.len() == 0))
}

/// Below the roots the nodes get longer and have their characters stored with a term;
/// all but the last are shared starts of neighbouring terms.
spec fn shape_ok(st: Seq<Node>, ts: Seq<Term>) -> bool {
    &&& forall|j: int| 2 <= j < st.len() ==> st[j - 1].term@.len() < (#[trigger] st[j]).term@.len()
    &&& forall|j: int| 2 <= j < st.len() ==> node_text(#[trigger] st[j], ts, j == st.len() - 1)
    &&& forall|j: int| 2 <= j < st.len() - 1 ==> is_fork(ts, (#[trigger] st[j]).term@)
}

/// The node is the leaf of term `m`, not yet written.
spec fn leaf_of(n: Node, ts: Seq<Term>, m: int) -> bool {
    &&& n.term@ == null_terminated(ts[m].term@)
    &&& n.term_ptr == term_offset(ts, m)
    &&& n.term_id == ts[m].term_id
    &&& n.children@.len() == 0
}

/// The node holds the postings `ps[m]`.
spec fn leaf_holds(n: Node, ps: Seq<PostingsView>, m: int) -> bool {
    n.postings matches Some(p) && pview(&p) == ps[m]
}

/// Term `m` hangs below child `x` of node `j` of the path: a lookup of the rest of the
/// term from that child finds it, with its postings `ps[m]` in the streams `s`.
spec fn hangs(
    st: Seq<Node>,
    rs: Seq<Record>,
    ts: Seq<Term>,
    ps: Seq<PostingsView>,
    s: Streams,
    m: int,
    j: int,
    x: int,
) -> bool {
    &&& 1 <= j < st.len()
    &&& 0 <= x < st[j].children@.len()
    &&& is_prefix(st[j].term@, ts[m].term@)
    &&& st[j].term@.len() < ts[m].term@.len()
    &&& st[j].children@[x].letter == ts[m].term@[st[j].term@.len() as int] as u32
    &&& found(
        records_bytes(rs),
        terms_bytes(ts),
        st[j].children@[x].pointer as int,
        ts[m].term@.skip(st[j].term@.len() as int),
        ts[m].term_id,
        ps[m],
        s,
    )
}

/// Every one of the first `n` terms that a lookup tells apart is the last node or hangs
/// below a node of the path, while records and term bytes can be addressed in 32 bits.
spec fn reached(st: Seq<Node>, rs: Seq<Record>, ts: Seq<Term>, ps: Seq<PostingsView>, s: Streams, n: int) -> bool {
    records_bytes(rs).len() <= u32::MAX && terms_bytes(ts).len() <= u32::MAX ==> forall|m: int|
        0 <= m < n && #[trigger] distinguishable(ts, m) ==> (leaf_of(st.last(), ts, m) && leaf_holds(
            st.last(),
            ps,
            m,
        )) || exists|j: int, x: int| hangs(st, rs, ts, ps, s, m, j, x)
}

/// For terms in dictionary order: the shape of the path, the letters of its children
/// (against `cur`), and where the first `n` terms and their postings `ps` are found.
#[verifier::opaque]
spec fn reach_ok(
    st: Seq<Node>,
    rs: Seq<Record>,
    ts: Seq<Term>,
    ps: Seq<PostingsView>,
    s: Streams,
    n: int,
    cur: Seq<char>,
) -> bool {
    dictionary_order(ts) ==> {
        &&& shape_ok(st, ts)
        &&& letters_ok(st, cur)
        &&& reached(st, rs, ts, ps, s, n)
    }
}

/// A record starts at least a header's size before the end of the records.
proof fn lemma_record_start_inside(rs: Seq<Record>, ptr: usize)
    requires
        record_start(rs, ptr),
    ensures
        ptr + 32 <= records_bytes(rs).len(),
{
    let j = choose|j: int| 0 <= j < rs.len() && ptr == record_offset(rs, j);
    lemma_records_bytes_concat(rs, j + 1);
    lemma_records_bytes_split(rs, j);
    assert(header_bytes(rs[j].0).len() == 32);
}

/// A lookup that finds a node still does once a record is appended and the streams
/// grow.
proof fn lemma_found_push(
    rs: Seq<Record>,
    rec: Record,
    tb: Seq<u8>,
    at: int,
    q: Seq<char>,
    id: TermId,
    p: PostingsView,
    s: Streams,
    s2: Streams,
)
    requires
        found(records_bytes(rs), tb, at, q, id, p, s),
        streams_grow(s, s2),
    ensures
        found(records_bytes(rs.push(rec)), tb, at, q, id, p, s2),
{
    lemma_records_bytes_push(rs, rec);
    lemma_find_extend(records_bytes(rs), record_bytes(rec), tb, at, q);
    let h = find_spec(records_bytes(rs), tb, at, q).unwrap();
    lemma_list_stored_grow(h.postings_ptr as int, s, s2, p);
}

/// Once a node is written below a parent with `p_term`, what lies below one of its
/// children with the characters `tm` is found from the node's record with the characters
/// past the parent's.
proof fn lemma_hang_through(
    rs: Seq<Record>,
    ts: Seq<Term>,
    c_node: Node,
    p_term: Seq<char>,
    p_bytes: usize,
    h: TrieNodeHeader,
    tm: Seq<char>,
    x: int,
)
    requires
        node_ok(c_node),
        children_linked(c_node.children@, rs),
        letters_increasing(c_node.children@),
        node_text(c_node, ts, true),
        0 <= x < c_node.children@.len(),
        is_prefix(c_node.term@, tm),
        c_node.term@.len() < tm.len(),
        c_node.children@[x].letter == tm[c_node.term@.len() as int] as u32,
        find_spec(
            records_bytes(rs),
            terms_bytes(ts),
            c_node.children@[x].pointer as int,
            tm.skip(c_node.term@.len() as int),
        ) is Some,
        is_prefix(p_term, c_node.term@),
        p_term.len() < c_node.term@.len(),
        p_bytes == utf8_len(p_term),
        h.num_children == c_node.children@.len(),
        h.term_ptr == (c_node.term_ptr + p_bytes) as u32,
        h.term_length == (c_node.byte_len - p_bytes) as u16,
        records_bytes(rs).len() <= u32::MAX,
        terms_bytes(ts).len() <= u32::MAX,
    ensures
        find_spec(
            records_bytes(rs.push((h, child_letters(c_node.children@), child_pointers(c_node.children@)))),
            terms_bytes(ts),
            records_bytes(rs).len() as int,
            tm.skip(p_term.len() as int),
        ) == find_spec(
            records_bytes(rs),
            terms_bytes(ts),
            c_node.children@[x].pointer as int,
            tm.skip(c_node.term@.len() as int),
        ),
{
    let t = c_node.term@;
    let plen = p_term.len() as int;
    let rec = (h, child_letters(c_node.children@), child_pointers(c_node.children@));
    let tb = terms_bytes(ts);
    let a = choose|a: int|
        0 <= a < ts.len() && c_node.term_ptr == #[trigger] term_offset(ts, a) && (is_prefix(t, ts[a].term@) || (
        true && t == null_terminated(ts[a].term@) && c_node.children@.len() == 0));
    assert(is_prefix(t, ts[a].term@));
    assert(p_term =~= t.take(plen));
    lemma_utf8_len_take_le(t, plen);
    lemma_utf8_len_take_le(ts[a].term@, t.len() as int);
    lemma_term_text(ts, a);
    assert(h.term_ptr as int == term_offset(ts, a) + utf8_len(t.take(plen)));
    assert(h.term_length as int == utf8_len(t) - utf8_len(t.take(plen)));
    lemma_matched_node(ts, a, t, plen, tm, h);
    let q = tm.skip(plen);
    let k = matched_chars(q, stored_term(h, tb));
    let ptr = c_node.children@[x].pointer;
    assert(record_start(rs, ptr));
    lemma_record_start_inside(rs, ptr);
    assert(rec.2[x] == ptr as u32);
    assert(rec.1[x] == c_node.children@[x].letter);
    assert(q[k as int] == tm[t.len() as int]);
    assert(q.skip(k as int) =~= tm.skip(t.len() as int));
    assert forall|u: int, v: int| 0 <= u < v < rec.1.len() implies rec.1[u] < rec.1[v] by {
        assert(rec.1[u] == c_node.children@[u].letter);
        assert(rec.1[v] == c_node.children@[v].letter);
    }
    lemma_find_last_child(rs, rec, tb, q, x);
}

/// Once the leaf of term `m` is written below a parent with `p_term`, the term is found
/// from the leaf's record with the characters past the parent's.
proof fn lemma_hang_leaf(
    rs: Seq<Record>,
    ts: Seq<Term>,
    c_node: Node,
    p_term: Seq<char>,
    p_bytes: usize,
    h: TrieNodeHeader,
    m: int,
)
    requires
        node_ok(c_node),
        0 <= m < ts.len(),
        leaf_of(c_node, ts, m),
        is_prefix(p_term, c_node.term@),
        p_term.len() < ts[m].term@.len(),
        p_bytes == utf8_len(p_term),
        h.num_children == c_node.children@.len(),
        h.term_id == c_node.term_id,
        h.term_ptr == (c_node.term_ptr + p_bytes) as u32,
        h.term_length == (c_node.byte_len - p_bytes) as u16,
        terms_bytes(ts).len() <= u32::MAX,
    ensures
        find_spec(
            records_bytes(rs.push((h, child_letters(c_node.children@), child_pointers(c_node.children@)))),
            terms_bytes(ts),
            records_bytes(rs).len() as int,
            ts[m].term@.skip(p_term.len() as int),
        ) == Some(h),
{
    let tm = ts[m].term@;
    let plen = p_term.len() as int;
    let rec = (h, child_letters(c_node.children@), child_pointers(c_node.children@));
    assert(p_term =~= tm.take(plen));
    lemma_null_terminated_len(tm);
    lemma_utf8_len_take_le(tm, plen);
    lemma_term_text(ts, m);
    assert(h.term_ptr as int == term_offset(ts, m) + utf8_len(tm.take(plen)));
    assert(h.term_length as int == utf8_len(tm) + 1 - utf8_len(tm.take(plen)));
    lemma_matched_leaf(ts, m, plen, h);
    lemma_find_last_whole(rs, rec, terms_bytes(ts), tm.skip(plen));
}

/// Every term that a lookup tells apart is found from the root with its postings `ps`
/// in the streams `s`.
pub open spec fn postings_found(
    trie: Seq<u8>,
    terms: Seq<u8>,
    root: int,
    ts: Seq<Term>,
    ps: Seq<PostingsView>,
    s: Streams,
) -> bool {
    forall|m: int|
        0 <= m < ts.len() && #[trigger] distinguishable(ts, m) ==> found(
            trie,
            terms,
            root,
            ts[m].term@,
            ts[m].term_id,
            ps[m],
            s,
        )
}

/// Every term that a lookup tells apart is found from the root with the identifier it
/// came with, and the header found points at the postings the store held for it: read
/// back from the documents, offsets and positions written, they are those postings.
pub open spec fn postings_readable<PS: PostingsStore>(
    trie: Seq<u8>,
    terms: Seq<u8>,
    root: int,
    ts: Seq<Term>,
    store: PS,
    docs: Seq<DocId>,
    tfs: Seq<DocId>,
    positions: Seq<DocId>,
) -> bool {
    forall|m: int|
        0 <= m < ts.len() && #[trigger] distinguishable(ts, m) ==> (find_spec(trie, terms, root, ts[m].term@) matches Some(
            h,
        ) && store.postings_of(ts[m].term_id) matches Some(p) && {
            &&& h.term_id == ts[m].term_id
            &&& h.num_postings == p.0.len()
            &&& plain_ok(p.0, p.1, p.2)
            &&& list_readable(h.postings_ptr as int, docs, tfs, positions, p)
        })
}

/// Once the offsets hold one more entry, every term found with its postings in the
/// streams can have them read back, and they are what the store held for it.
proof fn lemma_postings_readable<PS: PostingsStore>(
    rb: Seq<u8>,
    tb: Seq<u8>,
    root: int,
    ts: Seq<Term>,
    ps: Seq<PostingsView>,
    s: Streams,
    s2: Streams,
    store: PS,
)
    requires
        postings_found(rb, tb, root, ts, ps, s),
        streams_grow(s, s2),
        s2.1.len() > s.1.len(),
        ps.len() == ts.len(),
        forall|m: int| 0 <= m < ts.len() ==> plain_ok(#[trigger] ps[m].0, ps[m].1, ps[m].2),
        forall|m: int| 0 <= m < ts.len() ==> store.postings_of(#[trigger] ts[m].term_id) == Some(ps[m]),
    ensures
        postings_readable(rb, tb, root, ts, store, s2.0, s2.1, s2.2),
{
    assert forall|m: int| 0 <= m < ts.len() && #[trigger] distinguishable(ts, m) implies (find_spec(
        rb,
        tb,
        root,
        ts[m].term@,
    ) matches Some(h) && store.postings_of(ts[m].term_id) matches Some(p) && {
        &&& h.term_id == ts[m].term_id
        &&& h.num_postings == p.0.len()
        &&& plain_ok(p.0, p.1, p.2)
        &&& list_readable(h.postings_ptr as int, s2.0, s2.1, s2.2, p)
    }) by {
        assert(found(rb, tb, root, ts[m].term@, ts[m].term_id, ps[m], s));
        let h = find_spec(rb, tb, root, ts[m].term@).unwrap();
        let p = ps[m];
        lemma_list_stored_grow(h.postings_ptr as int, s, s2, p);
        assert(store.postings_of(ts[m].term_id) == Some(p));
        lemma_list_readable(h.postings_ptr as int, s2, p);
    }
}

/// A lookup that reaches what another one found finds it too, in grown streams.
proof fn lemma_found_through(
    rb: Seq<u8>,
    rb2: Seq<u8>,
    tb: Seq<u8>,
    at: int,
    at2: int,
    q: Seq<char>,
    q2: Seq<char>,
    id: TermId,
    p: PostingsView,
    s: Streams,
    s2: Streams,
)
    requires
        found(rb, tb, at, q, id, p, s),
        find_spec(rb2, tb, at2, q2) == find_spec(rb, tb, at, q),
        streams_grow(s, s2),
    ensures
        found(rb2, tb, at2, q2, id, p, s2),
{
    let h = find_spec(rb, tb, at, q).unwrap();
    lemma_list_stored_grow(h.postings_ptr as int, s, s2, p);
}

/// The path of the two roots reaches nothing yet and is in shape.
proof fn lemma_reach_start(st: Seq<Node>, ts: Seq<Term>, ps: Seq<PostingsView>, s: Streams)
    requires
        st.len() == 2,
        st[1].children@.len() == 0,
    ensures
        reach_ok(st, Seq::empty(), ts, ps, s, 0, st.last().term@),
{
    reveal(reach_ok);
}

/// Writing the last node of the path below its parent keeps the path in shape and every
/// term found.
#[verifier::spinoff_prover]
#[verifier::rlimit(80)]
proof fn lemma_reach_pop(
    st: Seq<Node>,
    rs: Seq<Record>,
    ts: Seq<Term>,
    ps: Seq<PostingsView>,
    s: Streams,
    s2: Streams,
    n: int,
    cur: Seq<char>,
    h: TrieNodeHeader,
    st2: Seq<Node>,
)
    requires
        dictionary_order(ts),
        terms_placeable(ts),
        0 <= n <= ts.len(),
        n <= ps.len(),
        st.len() > 2,
        path_ok(st, rs),
        reach_ok(st, rs, ts, ps, s, n, cur),
        streams_grow(s, s2),
        st.last().children@.len() == 0 && st.last().term_id != 0 ==> (st.last().postings matches Some(p) && {
            &&& h.num_postings == p.docs@.len()
            &&& list_stored(h.postings_ptr as int, s2, pview(&p))
        }),
        is_prefix(st.last().term@, cur),
        h.num_children == st.last().children@.len(),
        h.term_id == st.last().term_id,
        h.term_ptr == (st.last().term_ptr + st[st.len() - 2].byte_len) as u32,
        h.term_length == (st.last().byte_len - st[st.len() - 2].byte_len) as u16,
        st2.len() == st.len() - 1,
        forall|j: int| 0 <= j < st.len() - 2 ==> #[trigger] st2[j] == st[j],
        same_head(st2.last(), st[st.len() - 2]),
        st2.last().children@ == st[st.len() - 2].children@.push(st2.last().children@.last()),
        st2.last().children@.last().pointer == records_bytes(rs).len(),
        st2.last().children@.last().letter == letter_of(st.last().term@, st[st.len() - 2].term@.len() as int),
    ensures
        reach_ok(
            st2,
            rs.push((h, child_letters(st.last().children@), child_pointers(st.last().children@))),
            ts,
            ps,
            s2,
            n,
            cur,
        ),
{
    reveal(reach_ok);
    let len = st.len() as int;
    let c_node = st[len - 1];
    let p = st[len - 2];
    let p2 = st2[len - 2];
    let rec = (h, child_letters(c_node.children@), child_pointers(c_node.children@));
    let rs2 = rs.push(rec);
    let pc = p.children@;
    let newc = p2.children@.last();
    let plen = p.term@.len() as int;
    lemma_path_node(st, rs, len - 1);
    lemma_path_node(st, rs, len - 2);
    lemma_path_roots(st, rs);
    assert(st2.last() == p2);
    assert(plen < c_node.term@.len());
    assert(cur.take(c_node.term@.len() as int) == c_node.term@);
    assert(c_node.term@[plen] == cur[plen]);
    assert(newc.letter == cur[plen] as u32);
    // the shape of the path
    assert forall|j: int| 2 <= j < st2.len() implies st2[j - 1].term@.len() < (#[trigger] st2[j]).term@.len() by {
        assert(st2[j - 1].term@ == st[j - 1].term@);
        assert(st2[j].term@ == st[j].term@);
    }
    assert forall|j: int| 2 <= j < st2.len() implies node_text(#[trigger] st2[j], ts, j == st2.len() - 1) by {
        if j < len - 2 {
            assert(st2[j] == st[j]);
        } else {
            assert(node_text(st[j], ts, false));
            let a = choose|a: int|
                0 <= a < ts.len() && st[j].term_ptr == #[trigger] term_offset(ts, a) && (is_prefix(
                    st[j].term@,
                    ts[a].term@,
                ) || (false && st[j].term@ == null_terminated(ts[a].term@) && st[j].children@.len() == 0));
            assert(st2[j].term_ptr == term_offset(ts, a));
        }
    }
    assert forall|j: int| 2 <= j < st2.len() - 1 implies is_fork(ts, (#[trigger] st2[j]).term@) by {
        assert(st2[j] == st[j]);
    }
    // the letters
    assert forall|j: int| 1 <= j < st2.len() implies letters_increasing((#[trigger] st2[j]).children@) by {
        if j < len - 2 {
            assert(st2[j] == st[j]);
        } else {
            let cs = p2.children@;
            assert forall|u: int, v: int| 0 <= u < v < cs.len() implies (#[trigger] cs[u]).letter < (
            #[trigger] cs[v]).letter by {
                assert(cs[u] == pc[u]);
                assert(pc[u] == st[len - 2].children@[u]);
                if v < cs.len() - 1 {
                    assert(cs[v] == pc[v]);
                }
            }
        }
    }
    assert forall|j: int, x: int| 1 <= j < st2.len() && 0 <= x < st2[j].children@.len() implies st2[j].term@.len()
        < cur.len() && (#[trigger] st2[j].children@[x]).letter <= cur[st2[j].term@.len() as int] as u32 by {
        if j < len - 2 {
            assert(st2[j] == st[j]);
        } else if x < pc.len() {
            assert(st2[j].children@[x] == st[len - 2].children@[x]);
        }
    }
    assert forall|j: int, x: int| 1 <= j < st2.len() - 1 && 0 <= x < st2[j].children@.len() implies (
    #[trigger] st2[j].children@[x]).letter < cur[st2[j].term@.len() as int] as u32 by {
        assert(st2[j] == st[j]);
    }
    // where the terms are found
    if records_bytes(rs2).len() <= u32::MAX && terms_bytes(ts).len() <= u32::MAX {
        lemma_records_bytes_push(rs, rec);
        assert forall|m: int| 0 <= m < n && #[trigger] distinguishable(ts, m) implies (leaf_of(st2.last(), ts, m)
            && leaf_holds(st2.last(), ps, m)) || exists|j: int, x: int| hangs(st2, rs2, ts, ps, s2, m, j, x) by {
            let newx = pc.len() as int;
            assert(p2.children@[newx] == newc);
            let tb = terms_bytes(ts);
            if leaf_of(c_node, ts, m) && leaf_holds(c_node, ps, m) {
                if len - 2 >= 2 {
                    assert(is_fork(ts, st[len - 2].term@));
                }
                lemma_parent_shorter(ts, p.term@, m);
                lemma_placeable(ts, m);
                lemma_hang_leaf(rs, ts, c_node, p.term@, p.byte_len, h, m);
                assert(ts[m].term@[plen] == c_node.term@[plen]);
                assert(found(
                    records_bytes(rs2),
                    tb,
                    newc.pointer as int,
                    ts[m].term@.skip(plen),
                    ts[m].term_id,
                    ps[m],
                    s2,
                ));
                assert(hangs(st2, rs2, ts, ps, s2, m, len - 2, newx));
            } else {
                assert(exists|j: int, x: int| hangs(st, rs, ts, ps, s, m, j, x));
                let (j, x) = choose|j: int, x: int| hangs(st, rs, ts, ps, s, m, j, x);
                let ptr = st[j].children@[x].pointer as int;
                let q = ts[m].term@.skip(st[j].term@.len() as int);
                if j < len - 2 {
                    lemma_found_push(rs, rec, tb, ptr, q, ts[m].term_id, ps[m], s, s2);
                    assert(st2[j] == st[j]);
                    assert(hangs(st2, rs2, ts, ps, s2, m, j, x));
                } else if j == len - 2 {
                    assert(st2[j].children@[x] == st[j].children@[x]);
                    lemma_found_push(rs, rec, tb, ptr, q, ts[m].term_id, ps[m], s, s2);
                    assert(hangs(st2, rs2, ts, ps, s2, m, j, x));
                } else {
                    assert(letters_increasing(st[len - 1].children@));
                    assert(node_text(st[len - 1], ts, true));
                    lemma_hang_through(rs, ts, c_node, p.term@, p.byte_len, h, ts[m].term@, x);
                    lemma_found_through(
                        records_bytes(rs),
                        records_bytes(rs2),
                        tb,
                        ptr,
                        newc.pointer as int,
                        q,
                        ts[m].term@.skip(plen),
                        ts[m].term_id,
                        ps[m],
                        s,
                        s2,
                    );
                    lemma_prefix_trans(p.term@, c_node.term@, ts[m].term@);
                    assert(ts[m].term@[plen] == c_node.term@[plen]);
                    assert(hangs(st2, rs2, ts, ps, s2, m, len - 2, newx));
                }
            }
        }
    }
}

/// Splitting the last node of the path where the next term parts from it keeps the path in
/// shape and every term found.
#[verifier::rlimit(40)]
proof fn lemma_reach_fork(
    st: Seq<Node>,
    rs: Seq<Record>,
    ts: Seq<Term>,
    ps: Seq<PostingsView>,
    s: Streams,
    s2: Streams,
    n: int,
    cur: Seq<char>,
    k: int,
    h: TrieNodeHeader,
    st2: Seq<Node>,
)
    requires
        dictionary_order(ts),
        terms_placeable(ts),
        0 <= n <= ts.len(),
        n <= ps.len(),
        st.len() > 2,
        path_ok(st, rs),
        reach_ok(st, rs, ts, ps, s, n, cur),
        streams_grow(s, s2),
        st.last().children@.len() == 0 && st.last().term_id != 0 ==> (st.last().postings matches Some(p) && {
            &&& h.num_postings == p.docs@.len()
            &&& list_stored(h.postings_ptr as int, s2, pview(&p))
        }),
        is_prefix(st.last().term@, cur),
        st[st.len() - 2].term@.len() < k < st.last().term@.len(),
        h.num_children == st.last().children@.len(),
        h.term_id == st.last().term_id,
        h.term_ptr == (st.last().term_ptr + utf8_len(st.last().term@.take(k))) as u32,
        h.term_length == (st.last().byte_len - utf8_len(st.last().term@.take(k))) as u16,
        st2.len() == st.len(),
        forall|j: int| 0 <= j < st.len() - 1 ==> #[trigger] st2[j] == st[j],
        st2.last().term@ == st.last().term@.take(k),
        st2.last().term_ptr == st.last().term_ptr,
        st2.last().children@.len() == 1,
        st2.last().children@[0].pointer == records_bytes(rs).len(),
        st2.last().children@[0].letter == st.last().term@[k] as u32,
        is_fork(ts, st2.last().term@),
    ensures
        reach_ok(
            st2,
            rs.push((h, child_letters(st.last().children@), child_pointers(st.last().children@))),
            ts,
            ps,
            s2,
            n,
            cur,
        ),
{
    reveal(reach_ok);
    let len = st.len() as int;
    let c_node = st[len - 1];
    let f = st2[len - 1];
    let rec = (h, child_letters(c_node.children@), child_pointers(c_node.children@));
    let rs2 = rs.push(rec);
    let fc = f.children@[0];
    lemma_path_node(st, rs, len - 1);
    lemma_path_roots(st, rs);
    assert(st2.last() == f);
    assert(cur.take(c_node.term@.len() as int) == c_node.term@);
    assert(c_node.term@[k] == cur[k]);
    // the shape of the path
    assert forall|j: int| 2 <= j < st2.len() implies st2[j - 1].term@.len() < (#[trigger] st2[j]).term@.len() by {
        assert(st2[j - 1] == st[j - 1]);
        if j < len - 1 {
            assert(st2[j] == st[j]);
        }
    }
    assert forall|j: int| 2 <= j < st2.len() implies node_text(#[trigger] st2[j], ts, j == st2.len() - 1) by {
        if j < len - 1 {
            assert(st2[j] == st[j]);
        } else {
            assert(node_text(st[j], ts, true));
            let a = choose|a: int|
                0 <= a < ts.len() && st[j].term_ptr == #[trigger] term_offset(ts, a) && (is_prefix(
                    st[j].term@,
                    ts[a].term@,
                ) || (true && st[j].term@ == null_terminated(ts[a].term@) && st[j].children@.len() == 0));
            assert(f.term@ =~= ts[a].term@.take(k));
            assert(st2[j].term_ptr == term_offset(ts, a));
        }
    }
    assert forall|j: int| 2 <= j < st2.len() - 1 implies is_fork(ts, (#[trigger] st2[j]).term@) by {
        assert(st2[j] == st[j]);
    }
    // the letters
    assert forall|j: int| 1 <= j < st2.len() implies letters_increasing((#[trigger] st2[j]).children@) by {
        if j < len - 1 {
            assert(st2[j] == st[j]);
        }
    }
    assert forall|j: int, x: int| 1 <= j < st2.len() && 0 <= x < st2[j].children@.len() implies st2[j].term@.len()
        < cur.len() && (#[trigger] st2[j].children@[x]).letter <= cur[st2[j].term@.len() as int] as u32 by {
        if j < len - 1 {
            assert(st2[j] == st[j]);
        }
    }
    assert forall|j: int, x: int| 1 <= j < st2.len() - 1 && 0 <= x < st2[j].children@.len() implies (
    #[trigger] st2[j].children@[x]).letter < cur[st2[j].term@.len() as int] as u32 by {
        assert(st2[j] == st[j]);
    }
    // where the terms are found
    if records_bytes(rs2).len() <= u32::MAX && terms_bytes(ts).len() <= u32::MAX {
        lemma_records_bytes_push(rs, rec);
        assert(c_node.term@.take(k).len() == k);
        lemma_utf8_len_take_le(c_node.term@, k);
        assert forall|m: int| 0 <= m < n && #[trigger] distinguishable(ts, m) implies (leaf_of(st2.last(), ts, m)
            && leaf_holds(st2.last(), ps, m)) || exists|j: int, x: int| hangs(st2, rs2, ts, ps, s2, m, j, x) by {
            let tb = terms_bytes(ts);
            if leaf_of(c_node, ts, m) && leaf_holds(c_node, ps, m) {
                lemma_parent_shorter(ts, f.term@, m);
                lemma_placeable(ts, m);
                lemma_hang_leaf(rs, ts, c_node, f.term@, utf8_len(f.term@) as usize, h, m);
                assert(ts[m].term@[k] == c_node.term@[k]);
                assert(found(records_bytes(rs2), tb, fc.pointer as int, ts[m].term@.skip(k), ts[m].term_id, ps[m], s2));
                assert(hangs(st2, rs2, ts, ps, s2, m, len - 1, 0));
            } else {
                assert(exists|j: int, x: int| hangs(st, rs, ts, ps, s, m, j, x));
                let (j, x) = choose|j: int, x: int| hangs(st, rs, ts, ps, s, m, j, x);
                let ptr = st[j].children@[x].pointer as int;
                let q = ts[m].term@.skip(st[j].term@.len() as int);
                if j < len - 1 {
                    lemma_found_push(rs, rec, tb, ptr, q, ts[m].term_id, ps[m], s, s2);
                    assert(st2[j] == st[j]);
                    assert(hangs(st2, rs2, ts, ps, s2, m, j, x));
                } else {
                    assert(letters_increasing(st[len - 1].children@));
                    assert(node_text(st[len - 1], ts, true));
                    lemma_hang_through(rs, ts, c_node, f.term@, utf8_len(f.term@) as usize, h, ts[m].term@, x);
                    lemma_found_through(
                        records_bytes(rs),
                        records_bytes(rs2),
                        tb,
                        ptr,
                        fc.pointer as int,
                        q,
                        ts[m].term@.skip(k),
                        ts[m].term_id,
                        ps[m],
                        s,
                        s2,
                    );
                    lemma_prefix_trans(f.term@, c_node.term@, ts[m].term@);
                    assert(ts[m].term@[k] == c_node.term@[k]);
                    assert(hangs(st2, rs2, ts, ps, s2, m, len - 1, 0));
                }
            }
        }
    }
}

/// Putting the leaf of the next term below the last node of the path, where that term
/// parts from the one before, keeps the path in shape and every term found.
#[verifier::rlimit(40)]
proof fn lemma_reach_push(
    st: Seq<Node>,
    rs: Seq<Record>,
    ts: Seq<Term>,
    ps: Seq<PostingsView>,
    s: Streams,
    i: int,
    cur: Seq<char>,
    leaf: Node,
    lp: PostingsView,
)
    requires
        dictionary_order(ts),
        terms_placeable(ts),
        0 <= i < ts.len(),
        ps.len() == i,
        st.len() >= 2,
        path_ok(st, rs),
        reach_ok(st, rs, ts, ps, s, i, cur),
        st.last().term@.len() == common_prefix_chars(cur, null_terminated(ts[i].term@)),
        st.len() == 2 || is_fork(ts, st.last().term@),
        i == 0 ==> st.len() == 2 && st[1].children@.len() == 0,
        i >= 1 ==> cur == null_terminated(ts[i - 1].term@),
        leaf_of(leaf, ts, i),
        leaf_holds(leaf, ps.push(lp), i),
    ensures
        reach_ok(st.push(leaf), rs, ts, ps.push(lp), s, i + 1, leaf.term@),
{
    reveal(reach_ok);
    let len = st.len() as int;
    let st2 = st.push(leaf);
    let t = st.last();
    let y = null_terminated(ts[i].term@);
    let k = t.term@.len() as int;
    lemma_path_roots(st, rs);
    lemma_common_prefix_chars(cur, y);
    if i >= 1 {
        lemma_next_letter(ts, i);
    }
    assert(k < y.len());
    assert(st2.last() == leaf);
    // the last node is the root or a shared start, so no leaf
    assert forall|b: int| 0 <= b < ts.len() implies t.term@ != null_terminated(#[trigger] ts[b].term@) by {
        if len > 2 {
            let af = choose|af: int| 1 <= af < ts.len() && t.term@ == #[trigger] fork_term(ts, af);
            lemma_fork_not_terminated(ts, af, b);
        } else {
            assert(t.term@.len() == 0);
        }
    }
    // the shape of the path
    assert forall|j: int| 2 <= j < st2.len() implies st2[j - 1].term@.len() < (#[trigger] st2[j]).term@.len() by {
        assert(st2[j - 1] == st[j - 1]);
        if j < len {
            assert(st2[j] == st[j]);
        }
    }
    assert forall|j: int| 2 <= j < st2.len() implies node_text(#[trigger] st2[j], ts, j == st2.len() - 1) by {
        if j < len - 1 {
            assert(st2[j] == st[j]);
        } else if j == len - 1 {
            assert(st2[j] == t);
            assert(node_text(t, ts, true));
            let a = choose|a: int|
                0 <= a < ts.len() && t.term_ptr == #[trigger] term_offset(ts, a) && (is_prefix(t.term@, ts[a].term@) || (
                true && t.term@ == null_terminated(ts[a].term@) && t.children@.len() == 0));
            assert(t.term@ != null_terminated(ts[a].term@));
            assert(st2[j].term_ptr == term_offset(ts, a));
        } else {
            assert(st2[j].term_ptr == term_offset(ts, i));
        }
    }
    assert forall|j: int| 2 <= j < st2.len() - 1 implies is_fork(ts, (#[trigger] st2[j]).term@) by {
        assert(st2[j] == st[j]);
    }
    // the letters, now against the new term
    assert forall|j: int| 1 <= j < st2.len() implies letters_increasing((#[trigger] st2[j]).children@) by {
        if j < len {
            assert(st2[j] == st[j]);
        }
    }
    assert forall|j: int, x: int| 1 <= j < st2.len() - 1 && 0 <= x < st2[j].children@.len() implies st2[j].term@.len()
        < y.len() && (#[trigger] st2[j].children@[x]).letter < y[st2[j].term@.len() as int] as u32 by {
        assert(st2[j] == st[j]);
        let tj = st[j].term@;
        if j < len - 1 {
            lemma_path_node(st, rs, j + 1);
            lemma_path_prefixes(st, rs, j + 1);
            assert(tj.len() < st[j + 1].term@.len());
            assert(cur.take(k)[tj.len() as int] == y.take(k)[tj.len() as int]);
        } else {
            assert(i >= 1);
        }
    }
    assert forall|j: int, x: int| 1 <= j < st2.len() && 0 <= x < st2[j].children@.len() implies st2[j].term@.len()
        < y.len() && (#[trigger] st2[j].children@[x]).letter <= y[st2[j].term@.len() as int] as u32 by {
        assert(j < st2.len() - 1);
    }
    // where the terms are found
    if records_bytes(rs).len() <= u32::MAX && terms_bytes(ts).len() <= u32::MAX {
        let ps2 = ps.push(lp);
        assert forall|m: int| 0 <= m < i + 1 && #[trigger] distinguishable(ts, m) implies (leaf_of(st2.last(), ts, m)
            && leaf_holds(st2.last(), ps2, m)) || exists|j: int, x: int| hangs(st2, rs, ts, ps2, s, m, j, x) by {
            if m < i {
                assert(t.term@ != null_terminated(ts[m].term@));
                let (j, x) = choose|j: int, x: int| hangs(st, rs, ts, ps, s, m, j, x);
                assert(st2[j] == st[j]);
                assert(ps2[m] == ps[m]);
                assert(hangs(st2, rs, ts, ps2, s, m, j, x));
            }
        }
    }
}

/// Writing the root after the rest of the path leaves every term found from the root.
#[verifier::rlimit(40)]
proof fn lemma_reach_root(
    st: Seq<Node>,
    rs: Seq<Record>,
    ts: Seq<Term>,
    ps: Seq<PostingsView>,
    s: Streams,
    s2: Streams,
    cur: Seq<char>,
    h: TrieNodeHeader,
)
    requires
        dictionary_order(ts),
        st.len() == 2,
        path_ok(st, rs),
        reach_ok(st, rs, ts, ps, s, ts.len() as int, cur),
        streams_grow(s, s2),
        h.num_children == st[1].children@.len(),
        h.term_ptr == 0,
        h.term_length == 0,
    ensures
        ({
            let rs2 = rs.push((h, child_letters(st[1].children@), child_pointers(st[1].children@)));
            records_bytes(rs2).len() <= u32::MAX && terms_bytes(ts).len() <= u32::MAX ==> postings_found(
                records_bytes(rs2),
                terms_bytes(ts),
                records_bytes(rs).len() as int,
                ts,
                ps,
                s2,
            )
        }),
{
    reveal(reach_ok);
    let root = st[1];
    let rec = (h, child_letters(root.children@), child_pointers(root.children@));
    let rs2 = rs.push(rec);
    let tb = terms_bytes(ts);
    lemma_path_roots(st, rs);
    lemma_path_node(st, rs, 1);
    if records_bytes(rs2).len() <= u32::MAX && terms_bytes(ts).len() <= u32::MAX {
        lemma_records_bytes_push(rs, rec);
        assert forall|m: int| 0 <= m < ts.len() && #[trigger] distinguishable(ts, m) implies found(
            records_bytes(rs2),
            tb,
            records_bytes(rs).len() as int,
            ts[m].term@,
            ts[m].term_id,
            ps[m],
            s2,
        ) by {
            let tm = ts[m].term@;
            if leaf_of(root, ts, m) {
                assert(root.term@.len() == tm.len() + 1);
            }
            let (j, x) = choose|j: int, x: int| hangs(st, rs, ts, ps, s, m, j, x);
            assert(j == 1);
            assert(stored_term(h, tb) =~= Seq::<u8>::empty());
            lemma_matched_exhausted(tm);
            let ptr = root.children@[x].pointer;
            assert(record_start(rs, ptr));
            lemma_record_start_inside(rs, ptr);
            assert(rec.2[x] == ptr as u32);
            assert(rec.1[x] == root.children@[x].letter);
            assert(tm.skip(0) =~= tm);
            assert(letters_increasing(st[1].children@));
            assert forall|u: int, v: int| 0 <= u < v < rec.1.len() implies rec.1[u] < rec.1[v] by {
                assert(rec.1[u] == root.children@[u].letter);
                assert(rec.1[v] == root.children@[v].letter);
            }
            lemma_find_last_child(rs, rec, tb, tm, x);
            lemma_found_through(
                records_bytes(rs),
                records_bytes(rs2),
                tb,
                ptr as int,
                records_bytes(rs).len() as int,
                tm.skip(0),
                tm,
                ts[m].term_id,
                ps[m],
                s,
                s2,
            );
        }
    }
}

/// For terms out of dictionary order nothing is claimed.
proof fn lemma_reach_unordered(
    st: Seq<Node>,
    rs: Seq<Record>,
    ts: Seq<Term>,
    ps: Seq<PostingsView>,
    s: Streams,
    n: int,
    cur: Seq<char>,
)
    requires
        !dictionary_order(ts),
    ensures
        reach_ok(st, rs, ts, ps, s, n, cur),
{
    reveal(reach_ok);
}

/// Every node of the path below the roots but the last is a shared start of neighbours.
proof fn lemma_reach_fork_at(
    st: Seq<Node>,
    rs: Seq<Record>,
    ts: Seq<Term>,
    ps: Seq<PostingsView>,
    s: Streams,
    n: int,
    cur: Seq<char>,
    j: int,
)
    requires
        dictionary_order(ts),
        reach_ok(st, rs, ts, ps, s, n, cur),
        2 <= j < st.len() - 1,
    ensures
        is_fork(ts, st[j].term@),
{
    reveal(reach_ok);
}

// ---------------------------------------------------------------------------
// Every prefix node placed can be looked up
// ---------------------------------------------------------------------------

/// Written term `w` hangs below child `x` of node `j` of the path: a lookup of the rest
/// of its characters from that child finds a node with its identifier.
spec fn fork_hangs(st: Seq<Node>, rs: Seq<Record>, ts: Seq<Term>, w: (Seq<char>, usize, TermId), j: int, x: int) -> bool {
    &&& 1 <= j < st.len()
    &&& 0 <= x < st[j].children@.len()
    &&& is_prefix(st[j].term@, w.0)
    &&& st[j].term@.len() < w.0.len()
    &&& st[j].children@[x].letter == w.0[st[j].term@.len() as int] as u32
    &&& finds(
        records_bytes(rs),
        terms_bytes(ts),
        st[j].children@[x].pointer as int,
        w.0.skip(st[j].term@.len() as int),
        w.2,
    )
}

/// Written term `w` is a node of the path below the roots.
spec fn fork_on_path(st: Seq<Node>, w: (Seq<char>, usize, TermId)) -> bool {
    exists|j: int| 2 <= j < st.len() && (#[trigger] st[j]).term@ == w.0 && st[j].term_id == w.2
}

/// Every written term that is a shared start of neighbours is a node of the path or hangs
/// below one (while records and term bytes can be addressed in 32 bits).
spec fn forks_reached(st: Seq<Node>, rs: Seq<Record>, ts: Seq<Term>, nt: Seq<WrittenTerm>) -> bool {
    records_bytes(rs).len() <= u32::MAX && terms_bytes(ts).len() <= u32::MAX ==> forall|e: int|
        0 <= e < nt.len() && #[trigger] is_fork(ts, nt[e]@.0) ==> fork_on_path(st, nt[e]@) || exists|
            j: int,
            x: int,
        | fork_hangs(st, rs, ts, nt[e]@, j, x)
}

/// For terms in dictionary order, where the prefix nodes written so far are found.
#[verifier::opaque]
spec fn fork_reach_ok(st: Seq<Node>, rs: Seq<Record>, ts: Seq<Term>, nt: Seq<WrittenTerm>) -> bool {
    dictionary_order(ts) ==> forks_reached(st, rs, ts, nt)
}

/// Every written term that is a shared start of neighbours is found from the root by its
/// characters, with its identifier.
pub open spec fn prefixes_found(trie: Seq<u8>, terms: Seq<u8>, root: int, ts: Seq<Term>, nt: Seq<WrittenTerm>) -> bool {
    forall|e: int|
        0 <= e < nt.len() && #[trigger] is_fork(ts, nt[e]@.0) ==> finds(trie, terms, root, nt[e]@.0, nt[e]@.2)
}

/// For terms out of dictionary order nothing is claimed.
proof fn lemma_forks_unordered(st: Seq<Node>, rs: Seq<Record>, ts: Seq<Term>, nt: Seq<WrittenTerm>)
    requires
        !dictionary_order(ts),
    ensures
        fork_reach_ok(st, rs, ts, nt),
{
    reveal(fork_reach_ok);
}

/// Nothing is written yet.
proof fn lemma_forks_start(st: Seq<Node>, ts: Seq<Term>)
    ensures
        fork_reach_ok(st, Seq::empty(), ts, Seq::empty()),
{
    reveal(fork_reach_ok);
}

/// Once a node whose characters start a term (and are no whole term with its terminator) is
/// written below a parent with `p_term`, a lookup of its characters past the parent's from
/// its record finds it.
proof fn lemma_find_node_whole(
    rs: Seq<Record>,
    ts: Seq<Term>,
    c_node: Node,
    p_term: Seq<char>,
    p_bytes: usize,
    h: TrieNodeHeader,
)
    requires
        node_ok(c_node),
        node_text(c_node, ts, true),
        forall|b: int| 0 <= b < ts.len() ==> c_node.term@ != null_terminated(#[trigger] ts[b].term@),
        is_prefix(p_term, c_node.term@),
        p_term.len() < c_node.term@.len(),
        p_bytes == utf8_len(p_term),
        h.num_children == c_node.children@.len(),
        h.term_ptr == (c_node.term_ptr + p_bytes) as u32,
        h.term_length == (c_node.byte_len - p_bytes) as u16,
        terms_bytes(ts).len() <= u32::MAX,
    ensures
        find_spec(
            records_bytes(rs.push((h, child_letters(c_node.children@), child_pointers(c_node.children@)))),
            terms_bytes(ts),
            records_bytes(rs).len() as int,
            c_node.term@.skip(p_term.len() as int),
        ) == Some(h),
{
    let t = c_node.term@;
    let plen = p_term.len() as int;
    let rec = (h, child_letters(c_node.children@), child_pointers(c_node.children@));
    let a = choose|a: int|
        0 <= a < ts.len() && c_node.term_ptr == #[trigger] term_offset(ts, a) && (is_prefix(t, ts[a].term@) || (
        true && t == null_terminated(ts[a].term@) && c_node.children@.len() == 0));
    assert(t != null_terminated(ts[a].term@));
    assert(is_prefix(t, ts[a].term@));
    assert(p_term =~= t.take(plen));
    lemma_utf8_len_take_le(t, plen);
    lemma_utf8_len_take_le(ts[a].term@, t.len() as int);
    lemma_term_text(ts, a);
    assert(h.term_ptr as int == term_offset(ts, a) + utf8_len(t.take(plen)));
    assert(h.term_length as int == utf8_len(t) - utf8_len(t.take(plen)));
    lemma_matched_node_whole(ts, a, t, plen, h);
    lemma_find_last_whole(rs, rec, terms_bytes(ts), t.skip(plen));
}

/// A path node other than the roots is a shared start of neighbours, or the last node;
/// either way, one that is a shared start is no whole term with its terminator.
proof fn lemma_fork_node_not_leaf(ts: Seq<Term>, t: Seq<char>)
    requires
        dictionary_order(ts),
        terms_placeable(ts),
        is_fork(ts, t),
    ensures
        forall|b: int| 0 <= b < ts.len() ==> t != null_terminated(#[trigger] ts[b].term@),
{
    let af = choose|af: int| 1 <= af < ts.len() && t == #[trigger] fork_term(ts, af);
    assert forall|b: int| 0 <= b < ts.len() implies t != null_terminated(#[trigger] ts[b].term@) by {
        lemma_fork_not_terminated(ts, af, b);
    }
}

/// A lookup that finds a node still does once a record is appended.
proof fn lemma_finds_push(rs: Seq<Record>, rec: Record, tb: Seq<u8>, at: int, q: Seq<char>, id: TermId)
    requires
        finds(records_bytes(rs), tb, at, q, id),
    ensures
        finds(records_bytes(rs.push(rec)), tb, at, q, id),
{
    lemma_records_bytes_push(rs, rec);
    lemma_find_extend(records_bytes(rs), record_bytes(rec), tb, at, q);
}

/// Writing the last node of the path below its parent keeps every prefix node found.
#[verifier::spinoff_prover]
#[verifier::rlimit(60)]
proof fn lemma_forks_pop(
    st: Seq<Node>,
    rs: Seq<Record>,
    ts: Seq<Term>,
    ps: Seq<PostingsView>,
    s: Streams,
    n: int,
    cur: Seq<char>,
    nt: Seq<WrittenTerm>,
    h: TrieNodeHeader,
    st2: Seq<Node>,
)
    requires
        dictionary_order(ts),
        terms_placeable(ts),
        st.len() > 2,
        path_ok(st, rs),
        reach_ok(st, rs, ts, ps, s, n, cur),
        fork_reach_ok(st, rs, ts, nt),
        h.num_children == st.last().children@.len(),
        h.term_id == st.last().term_id,
        h.term_ptr == (st.last().term_ptr + st[st.len() - 2].byte_len) as u32,
        h.term_length == (st.last().byte_len - st[st.len() - 2].byte_len) as u16,
        st2.len() == st.len() - 1,
        forall|j: int| 0 <= j < st.len() - 2 ==> #[trigger] st2[j] == st[j],
        same_head(st2.last(), st[st.len() - 2]),
        st2.last().children@ == st[st.len() - 2].children@.push(st2.last().children@.last()),
        st2.last().children@.last().pointer == records_bytes(rs).len(),
        st2.last().children@.last().letter == letter_of(st.last().term@, st[st.len() - 2].term@.len() as int),
    ensures
        fork_reach_ok(
            st2,
            rs.push((h, child_letters(st.last().children@), child_pointers(st.last().children@))),
            ts,
            nt,
        ),
{
    reveal(reach_ok);
    reveal(fork_reach_ok);
    let len = st.len() as int;
    let c_node = st[len - 1];
    let p = st[len - 2];
    let p2 = st2[len - 2];
    let rec = (h, child_letters(c_node.children@), child_pointers(c_node.children@));
    let rs2 = rs.push(rec);
    let pc = p.children@;
    let newc = p2.children@.last();
    let plen = p.term@.len() as int;
    let tb = terms_bytes(ts);
    lemma_path_node(st, rs, len - 1);
    lemma_path_node(st, rs, len - 2);
    lemma_path_roots(st, rs);
    assert(st2.last() == p2);
    assert(plen < c_node.term@.len());
    if records_bytes(rs2).len() <= u32::MAX && tb.len() <= u32::MAX {
        lemma_records_bytes_push(rs, rec);
        assert forall|e: int| 0 <= e < nt.len() && #[trigger] is_fork(ts, nt[e]@.0) implies fork_on_path(st2, nt[e]@)
            || exists|j: int, x: int| fork_hangs(st2, rs2, ts, nt[e]@, j, x) by {
            let w = nt[e]@;
            let newx = pc.len() as int;
            assert(p2.children@[newx] == newc);
            if fork_on_path(st, w) {
                let j = choose|j: int| 2 <= j < st.len() && (#[trigger] st[j]).term@ == w.0 && st[j].term_id == w.2;
                if j < len - 2 {
                    assert(st2[j] == st[j]);
                    assert(fork_on_path(st2, w));
                } else if j == len - 2 {
                    assert(st2[j].term@ == w.0 && st2[j].term_id == w.2);
                    assert(fork_on_path(st2, w));
                } else {
                    lemma_fork_node_not_leaf(ts, w.0);
                    assert(node_text(st[len - 1], ts, true));
                    lemma_find_node_whole(rs, ts, c_node, p.term@, p.byte_len, h);
                    assert(w.0[plen] == c_node.term@[plen]);
                    assert(fork_hangs(st2, rs2, ts, w, len - 2, newx));
                }
            } else {
                let (j, x) = choose|j: int, x: int| fork_hangs(st, rs, ts, w, j, x);
                let ptr = st[j].children@[x].pointer as int;
                let q = w.0.skip(st[j].term@.len() as int);
                if j < len - 2 {
                    lemma_finds_push(rs, rec, tb, ptr, q, w.2);
                    assert(st2[j] == st[j]);
                    assert(fork_hangs(st2, rs2, ts, w, j, x));
                } else if j == len - 2 {
                    assert(st2[j].children@[x] == st[j].children@[x]);
                    lemma_finds_push(rs, rec, tb, ptr, q, w.2);
                    assert(fork_hangs(st2, rs2, ts, w, j, x));
                } else {
                    assert(letters_increasing(st[len - 1].children@));
                    assert(node_text(st[len - 1], ts, true));
                    lemma_hang_through(rs, ts, c_node, p.term@, p.byte_len, h, w.0, x);
                    lemma_prefix_trans(p.term@, c_node.term@, w.0);
                    assert(w.0[plen] == c_node.term@[plen]);
                    assert(fork_hangs(st2, rs2, ts, w, len - 2, newx));
                }
            }
        }
    }
}

/// Splitting the last node of the path where the next term parts from it keeps every
/// prefix node found, the new one included.
#[verifier::spinoff_prover]
#[verifier::rlimit(60)]
proof fn lemma_forks_fork(
    st: Seq<Node>,
    rs: Seq<Record>,
    ts: Seq<Term>,
    ps: Seq<PostingsView>,
    s: Streams,
    n: int,
    cur: Seq<char>,
    k: int,
    nt: Seq<WrittenTerm>,
    w_new: WrittenTerm,
    h: TrieNodeHeader,
    st2: Seq<Node>,
)
    requires
        dictionary_order(ts),
        terms_placeable(ts),
        st.len() > 2,
        path_ok(st, rs),
        reach_ok(st, rs, ts, ps, s, n, cur),
        fork_reach_ok(st, rs, ts, nt),
        st[st.len() - 2].term@.len() < k < st.last().term@.len(),
        h.num_children == st.last().children@.len(),
        h.term_id == st.last().term_id,
        h.term_ptr == (st.last().term_ptr + utf8_len(st.last().term@.take(k))) as u32,
        h.term_length == (st.last().byte_len - utf8_len(st.last().term@.take(k))) as u16,
        st2.len() == st.len(),
        forall|j: int| 0 <= j < st.len() - 1 ==> #[trigger] st2[j] == st[j],
        st2.last().term@ == st.last().term@.take(k),
        st2.last().children@.len() == 1,
        st2.last().children@[0].pointer == records_bytes(rs).len(),
        st2.last().children@[0].letter == st.last().term@[k] as u32,
        w_new@.0 == st2.last().term@,
        w_new@.2 == st2.last().term_id,
    ensures
        fork_reach_ok(
            st2,
            rs.push((h, child_letters(st.last().children@), child_pointers(st.last().children@))),
            ts,
            nt.push(w_new),
        ),
{
    reveal(reach_ok);
    reveal(fork_reach_ok);
    let len = st.len() as int;
    let c_node = st[len - 1];
    let f = st2[len - 1];
    let rec = (h, child_letters(c_node.children@), child_pointers(c_node.children@));
    let rs2 = rs.push(rec);
    let fc = f.children@[0];
    let tb = terms_bytes(ts);
    let nt2 = nt.push(w_new);
    lemma_path_node(st, rs, len - 1);
    lemma_path_roots(st, rs);
    assert(st2.last() == f);
    if records_bytes(rs2).len() <= u32::MAX && tb.len() <= u32::MAX {
        lemma_records_bytes_push(rs, rec);
        assert(c_node.term@.take(k).len() == k);
        lemma_utf8_len_take_le(c_node.term@, k);
        assert forall|e: int| 0 <= e < nt2.len() && #[trigger] is_fork(ts, nt2[e]@.0) implies fork_on_path(
            st2,
            nt2[e]@,
        ) || exists|j: int, x: int| fork_hangs(st2, rs2, ts, nt2[e]@, j, x) by {
            let w = nt2[e]@;
            if e == nt.len() {
                assert(st2[len - 1].term@ == w.0);
                assert(fork_on_path(st2, w));
            } else {
                assert(nt2[e] == nt[e]);
                if fork_on_path(st, w) {
                    let j = choose|j: int| 2 <= j < st.len() && (#[trigger] st[j]).term@ == w.0 && st[j].term_id == w.2;
                    if j < len - 1 {
                        assert(st2[j] == st[j]);
                        assert(fork_on_path(st2, w));
                    } else {
                        lemma_fork_node_not_leaf(ts, w.0);
                        assert(node_text(st[len - 1], ts, true));
                        lemma_find_node_whole(rs, ts, c_node, f.term@, utf8_len(f.term@) as usize, h);
                        assert(w.0[k] == c_node.term@[k]);
                        assert(fork_hangs(st2, rs2, ts, w, len - 1, 0));
                    }
                } else {
                    let (j, x) = choose|j: int, x: int| fork_hangs(st, rs, ts, w, j, x);
                    let ptr = st[j].children@[x].pointer as int;
                    let q = w.0.skip(st[j].term@.len() as int);
                    if j < len - 1 {
                        lemma_finds_push(rs, rec, tb, ptr, q, w.2);
                        assert(st2[j] == st[j]);
                        assert(fork_hangs(st2, rs2, ts, w, j, x));
                    } else {
                        assert(letters_increasing(st[len - 1].children@));
                        assert(node_text(st[len - 1], ts, true));
                        lemma_hang_through(rs, ts, c_node, f.term@, utf8_len(f.term@) as usize, h, w.0, x);
                        lemma_prefix_trans(f.term@, c_node.term@, w.0);
                        assert(w.0[k] == c_node.term@[k]);
                        assert(fork_hangs(st2, rs2, ts, w, len - 1, 0));
                    }
                }
            }
        }
    }
}

/// Putting a leaf below the last node of the path, and its term among the written ones,
/// keeps every prefix node found.
proof fn lemma_forks_push(
    st: Seq<Node>,
    rs: Seq<Record>,
    ts: Seq<Term>,
    nt: Seq<WrittenTerm>,
    i: int,
    leaf: Node,
    w_leaf: WrittenTerm,
)
    requires
        dictionary_order(ts),
        terms_placeable(ts),
        0 <= i < ts.len(),
        fork_reach_ok(st, rs, ts, nt),
        w_leaf@.0 == null_terminated(ts[i].term@),
    ensures
        fork_reach_ok(st.push(leaf), rs, ts, nt.push(w_leaf)),
{
    reveal(fork_reach_ok);
    let st2 = st.push(leaf);
    let nt2 = nt.push(w_leaf);
    if records_bytes(rs).len() <= u32::MAX && terms_bytes(ts).len() <= u32::MAX {
        assert forall|e: int| 0 <= e < nt2.len() && #[trigger] is_fork(ts, nt2[e]@.0) implies fork_on_path(
            st2,
            nt2[e]@,
        ) || exists|j: int, x: int| fork_hangs(st2, rs, ts, nt2[e]@, j, x) by {
            let w = nt2[e]@;
            if e == nt.len() {
                lemma_fork_node_not_leaf(ts, w.0);
            } else {
                assert(nt2[e] == nt[e]);
                if fork_on_path(st, w) {
                    let j = choose|j: int| 2 <= j < st.len() && (#[trigger] st[j]).term@ == w.0 && st[j].term_id == w.2;
                    assert(st2[j] == st[j]);
                    assert(fork_on_path(st2, w));
                } else {
                    let (j, x) = choose|j: int, x: int| fork_hangs(st, rs, ts, w, j, x);
                    assert(st2[j] == st[j]);
                    assert(fork_hangs(st2, rs, ts, w, j, x));
                }
            }
        }
    }
}

/// Writing the root after the rest of the path leaves every prefix node found from it.
proof fn lemma_forks_root(
    st: Seq<Node>,
    rs: Seq<Record>,
    ts: Seq<Term>,
    ps: Seq<PostingsView>,
    s: Streams,
    cur: Seq<char>,
    nt: Seq<WrittenTerm>,
    h: TrieNodeHeader,
)
    requires
        dictionary_order(ts),
        st.len() == 2,
        path_ok(st, rs),
        reach_ok(st, rs, ts, ps, s, ts.len() as int, cur),
        fork_reach_ok(st, rs, ts, nt),
        h.num_children == st[1].children@.len(),
        h.term_ptr == 0,
        h.term_length == 0,
    ensures
        ({
            let rs2 = rs.push((h, child_letters(st[1].children@), child_pointers(st[1].children@)));
            records_bytes(rs2).len() <= u32::MAX && terms_bytes(ts).len() <= u32::MAX ==> prefixes_found(
                records_bytes(rs2),
                terms_bytes(ts),
                records_bytes(rs).len() as int,
                ts,
                nt,
            )
        }),
{
    reveal(reach_ok);
    reveal(fork_reach_ok);
    let root = st[1];
    let rec = (h, child_letters(root.children@), child_pointers(root.children@));
    let rs2 = rs.push(rec);
    let tb = terms_bytes(ts);
    lemma_path_roots(st, rs);
    lemma_path_node(st, rs, 1);
    if records_bytes(rs2).len() <= u32::MAX && tb.len() <= u32::MAX {
        lemma_records_bytes_push(rs, rec);
        assert forall|e: int| 0 <= e < nt.len() && #[trigger] is_fork(ts, nt[e]@.0) implies finds(
            records_bytes(rs2),
            tb,
            records_bytes(rs).len() as int,
            nt[e]@.0,
            nt[e]@.2,
        ) by {
            let w = nt[e]@;
            let tm = w.0;
            let (j, x) = choose|j: int, x: int| fork_hangs(st, rs, ts, w, j, x);
            assert(j == 1);
            assert(stored_term(h, tb) =~= Seq::<u8>::empty());
            lemma_matched_exhausted(tm);
            let ptr = root.children@[x].pointer;
            assert(record_start(rs, ptr));
            lemma_record_start_inside(rs, ptr);
            assert(rec.2[x] == ptr as u32);
            assert(rec.1[x] == root.children@[x].letter);
            assert(tm.skip(0) =~= tm);
            assert(letters_increasing(st[1].children@));
            assert forall|u: int, v: int| 0 <= u < v < rec.1.len() implies rec.1[u] < rec.1[v] by {
                assert(rec.1[u] == root.children@[u].letter);
                assert(rec.1[v] == root.children@[v].letter);
            }
            lemma_find_last_child(rs, rec, tb, tm, x);
        }
    }
}

} // verus!
