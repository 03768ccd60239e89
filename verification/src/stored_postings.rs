use vstd::prelude::*;
use crate::types::DocId;
use crate::util::{ascending, delta_encode, delta_seq};
use crate::postings::{VecPostings};
use crate::sequence::{SequenceEncoder, SequenceStorage};

verus! {

// ---------------------------------------------------------------------------
// Postings as they are handed to the trie, and as they are stored
// ---------------------------------------------------------------------------

/// Sum of the first `k` term frequencies.
pub open spec fn tf_sum(tfs: Seq<DocId>, k: int) -> int
    decreases k,
{
    if k <= 0 {
        0
    } else {
        tf_sum(tfs, k - 1) + tfs[k - 1]
    }
}

/// The positions of the `i`-th document of a plain postings list.
pub open spec fn segment(tfs: Seq<DocId>, pos: Seq<DocId>, i: int) -> Seq<DocId> {
    pos.subrange(tf_sum(tfs, i), tf_sum(tfs, i + 1))
}

/// A postings list in plain form: documents strictly increasing, one positive term
/// frequency per document, and the positions of each document, ascending, in turn.
pub open spec fn plain_ok(docs: Seq<DocId>, tfs: Seq<DocId>, pos: Seq<DocId>) -> bool {
    &&& docs.len() > 0
    &&& tfs.len() == docs.len()
    &&& forall|i: int, j: int| 0 <= i < j < docs.len() ==> docs[i] < docs[j]
    &&& forall|i: int| 0 <= i < tfs.len() ==> #[trigger] tfs[i] > 0
    &&& tf_sum(tfs, tfs.len() as int) == pos.len()
    &&& forall|i: int| 0 <= i < tfs.len() ==> ascending(#[trigger] segment(tfs, pos, i))
}

/// The offsets that replace the term frequencies once a list is stored: where the
/// positions of each document begin, and where the last one ends.
pub open spec fn stored_tfs(tfs: Seq<DocId>) -> Seq<DocId> {
    Seq::new(tfs.len() + 1, |k: int| tf_sum(tfs, k) as DocId)
}

/// A postings list in stored form: `tfs` holds one more offset than there are
/// documents, starting at zero, strictly increasing, and ending at the number of positions.
pub open spec fn stored_ok(docs: Seq<DocId>, tfs: Seq<DocId>, pos: Seq<DocId>) -> bool {
    &&& docs.len() > 0
    &&& tfs.len() == docs.len() + 1
    &&& forall|i: int, j: int| 0 <= i < j < docs.len() ==> docs[i] < docs[j]
    &&& tfs[0] == 0
    &&& forall|i: int, j: int| 0 <= i < j < tfs.len() ==> tfs[i] < tfs[j]
    &&& tfs[docs.len() as int] == pos.len()
}

/// The delta-coded positions of documents `0..k` of a plain list, one document after another.
pub open spec fn delta_positions(tfs: Seq<DocId>, pos: Seq<DocId>, k: int) -> Seq<DocId>
    decreases k,
{
    if k <= 0 {
        Seq::empty()
    } else {
        delta_positions(tfs, pos, k - 1) + delta_seq(segment(tfs, pos, k - 1)).map_values(
            |x: int| x as DocId,
        )
    }
}

/// Running offsets grow with the number of documents.
pub proof fn lemma_tf_sum_mono(tfs: Seq<DocId>, i: int, j: int)
    requires
        0 <= i <= j <= tfs.len(),
    ensures
        tf_sum(tfs, i) <= tf_sum(tfs, j),
    decreases j - i,
{
    if i < j {
        lemma_tf_sum_mono(tfs, i, j - 1);
    }
}

/// With positive frequencies the offsets strictly grow.
pub proof fn lemma_tf_sum_strict(tfs: Seq<DocId>, i: int, j: int)
    requires
        0 <= i < j <= tfs.len(),
        forall|k: int| 0 <= k < tfs.len() ==> #[trigger] tfs[k] > 0,
    ensures
        tf_sum(tfs, i) < tf_sum(tfs, j),
    decreases j - i,
{
    if i < j - 1 {
        lemma_tf_sum_strict(tfs, i, j - 1);
    } else {
        assert(tfs[j - 1] > 0);
    }
    lemma_tf_sum_mono(tfs, i, j - 1);
}

/// Offsets of a plain list are bounded by its number of positions.
pub proof fn lemma_tf_sum_bounds(tfs: Seq<DocId>, total: int)
    requires
        tf_sum(tfs, tfs.len() as int) == total,
    ensures
        forall|k: int| 0 <= k <= tfs.len() ==> 0 <= #[trigger] tf_sum(tfs, k) <= total,
{
    assert forall|k: int| 0 <= k <= tfs.len() implies 0 <= #[trigger] tf_sum(tfs, k) <= total by {
        lemma_tf_sum_mono(tfs, 0, k);
        lemma_tf_sum_mono(tfs, k, tfs.len() as int);
    }
}

/// Stored form of a plain list.
pub proof fn lemma_stored_of_plain(docs: Seq<DocId>, tfs: Seq<DocId>, pos: Seq<DocId>)
    requires
        plain_ok(docs, tfs, pos),
        pos.len() <= u64::MAX,
    ensures
        stored_ok(docs, stored_tfs(tfs), pos),
        forall|k: int| 0 <= k <= tfs.len() ==> #[trigger] stored_tfs(tfs)[k] == tf_sum(tfs, k),
{
    lemma_tf_sum_bounds(tfs, pos.len() as int);
    let st = stored_tfs(tfs);
    assert forall|k: int| 0 <= k <= tfs.len() implies #[trigger] st[k] == tf_sum(tfs, k) by {
        assert(0 <= tf_sum(tfs, k) <= pos.len());
    }
    assert forall|i: int, j: int| 0 <= i < j < st.len() implies st[i] < st[j] by {
        lemma_tf_sum_strict(tfs, i, j);
    }
}

/// Whether `p` is a postings list in plain form.
pub fn check_plain(p: &VecPostings) -> (r: bool)
    ensures
        r == plain_ok(p.docs@, p.tfs@, p.positions@),
{
    let n = p.docs.len();
    if n == 0 || p.tfs.len() != n {
        return false;
    }
    let mut i: usize = 1;
    while i < n
        invariant
            1 <= i <= n,
            n == p.docs@.len(),
            forall|a: int, b: int| 0 <= a < b < i ==> p.docs@[a] < p.docs@[b],
        decreases n - i,
    {
        if p.docs[i - 1] >= p.docs[i] {
            return false;
        }
        i += 1;
    }
    let total = p.positions.len();
    let ghost tfs = p.tfs@;
    let ghost pos = p.positions@;
    let mut cum: usize = 0;
    let mut i: usize = 0;
    while i < n
        invariant
            i <= n,
            n == tfs.len(),
            tfs == p.tfs@,
            pos == p.positions@,
            total == pos.len(),
            cum == tf_sum(tfs, i as int),
            cum <= total,
            forall|k: int| 0 <= k < i ==> #[trigger] tfs[k] > 0,
            forall|k: int| 0 <= k < i ==> ascending(#[trigger] segment(tfs, pos, k)),
        decreases n - i,
    {
        let tf = p.tfs[i];
        if tf == 0 {
            return false;
        }
        if tf > (total - cum) as u64 {
            proof {
                // the offsets can only grow past the end
                lemma_tf_sum_mono(tfs, i + 1, n as int);
            }
            return false;
        }
        let end = cum + tf as usize;
        assert(tf_sum(tfs, i + 1) == end);
        let mut j: usize = cum + 1;
        while j < end
            invariant
                cum + 1 <= j <= end,
                end <= total,
                cum == tf_sum(tfs, i as int),
                end == tf_sum(tfs, i + 1),
                i < n,
                n == tfs.len(),
                tfs == p.tfs@,
                pos == p.positions@,
                total == pos.len(),
                forall|a: int, b: int| cum <= a <= b < j ==> pos[a] <= pos[b],
            decreases end - j,
        {
            if p.positions[j - 1] > p.positions[j] {
                proof {
                    let seg = segment(tfs, pos, i as int);
                    assert(seg[j - 1 - cum] == pos[j - 1]);
                    assert(seg[(j - cum) as int] == pos[j as int]);
                    assert(!ascending(seg));
                }
                return false;
            }
            j += 1;
        }
        proof {
            let seg = segment(tfs, pos, i as int);
            assert forall|a: int, b: int| 0 <= a <= b < seg.len() implies seg[a] <= seg[b] by {
                assert(seg[a] == pos[cum + a]);
                assert(seg[b] == pos[cum + b]);
            }
        }
        cum = end;
        i += 1;
    }
    if cum != total {
        return false;
    }
    true
}

/// Writes a plain postings list through the encoders and turns it into stored form.
///
/// The positions of each document go out delta-coded, the documents as they are, and
/// the offsets shifted by `last_tf`. Afterwards `p.tfs` holds the offsets, `postings_ptr`
/// has grown by the number of documents and `last_tf` by the number of positions.
pub fn write_postings<DE: SequenceEncoder, TE: SequenceEncoder, PE: SequenceEncoder>(
    p: &mut VecPostings,
    docs_enc: &mut DE,
    tfs_enc: &mut TE,
    pos_enc: &mut PE,
    postings_ptr: &mut DocId,
    last_tf: &mut DocId,
) -> (ok: bool)
    requires
        plain_ok(old(p).docs@, old(p).tfs@, old(p).positions@),
        old(docs_enc).wf(),
        old(tfs_enc).wf(),
        old(pos_enc).wf(),
    ensures
        final(docs_enc).wf(),
        final(tfs_enc).wf(),
        final(pos_enc).wf(),
        ok <==> (*old(last_tf) + old(p).positions@.len() <= u64::MAX && *old(postings_ptr)
            + old(p).docs@.len() <= u64::MAX),
        ok ==> {
            &&& final(p).docs@ == old(p).docs@
            &&& final(p).positions@ == old(p).positions@
            &&& final(p).tfs@ == stored_tfs(old(p).tfs@)
            &&& stored_ok(final(p).docs@, final(p).tfs@, final(p).positions@)
            &&& final(docs_enc).items() == old(docs_enc).items() + old(p).docs@
            &&& final(pos_enc).items() == old(pos_enc).items() + delta_positions(
                old(p).tfs@,
                old(p).positions@,
                old(p).tfs@.len() as int,
            )
            &&& final(tfs_enc).items() == old(tfs_enc).items() + Seq::new(
                old(p).tfs@.len(),
                |k: int| (*old(last_tf) + tf_sum(old(p).tfs@, k)) as DocId,
            )
            &&& *final(postings_ptr) == *old(postings_ptr) + old(p).docs@.len()
            &&& *final(last_tf) == *old(last_tf) + old(p).positions@.len()
        },
        !ok ==> {
            &&& *final(p) == *old(p)
            &&& final(docs_enc).items() == old(docs_enc).items()
            &&& final(tfs_enc).items() == old(tfs_enc).items()
            &&& final(pos_enc).items() == old(pos_enc).items()
            &&& *final(postings_ptr) == *old(postings_ptr)
            &&& *final(last_tf) == *old(last_tf)
        },
{
    let n = p.tfs.len();
    let total = p.positions.len();
    if *last_tf > u64::MAX - total as u64 || *postings_ptr > u64::MAX - n as u64 {
        return false;
    }
    let ghost tfs0 = p.tfs@;
    let ghost pos = p.positions@;
    proof {
        lemma_tf_sum_bounds(tfs0, total as int);
    }
    let mut cum: usize = 0;
    let mut i: usize = 0;
    let ghost pe0 = pos_enc.items();
    while i < n
        invariant
            i <= n,
            n == tfs0.len(),
            n == p.docs@.len(),
            plain_ok(p.docs@, tfs0, pos),
            pos == p.positions@,
            total == pos.len(),
            p.docs@ == old(p).docs@,
            tfs0 == old(p).tfs@,
            pos == old(p).positions@,
            p.tfs@.len() == n,
            forall|k: int| 0 <= k < i ==> #[trigger] p.tfs@[k] == tf_sum(tfs0, k),
            forall|k: int| i <= k < n ==> #[trigger] p.tfs@[k] == tfs0[k],
            cum == tf_sum(tfs0, i as int),
            forall|k: int| 0 <= k <= n ==> 0 <= #[trigger] tf_sum(tfs0, k) <= total,
            pos_enc.wf(),
            pos_enc.items() == pe0 + delta_positions(tfs0, pos, i as int),
            pe0 == old(pos_enc).items(),
        decreases n - i,
    {
        let tf = p.tfs[i];
        assert(tf_sum(tfs0, i + 1) == cum + tf);
        let end = cum + tf as usize;
        let seg = vstd::slice::slice_subrange(p.positions.as_slice(), cum, end);
        assert(seg@ == segment(tfs0, pos, i as int));
        assert(ascending(segment(tfs0, pos, i as int)));
        let deltas = delta_encode(seg);
        let ghost before = pos_enc.items();
        pos_enc.write_sequence((&deltas).to_sequence());
        proof {
            assert(deltas@ =~= delta_seq(segment(tfs0, pos, i as int)).map_values(|x: int| x as DocId));
            assert(pos_enc.items() =~= pe0 + delta_positions(tfs0, pos, i + 1));
        }
        p.tfs.set(i, cum as DocId);
        cum = end;
        i += 1;
    }
    let ghost de0 = docs_enc.items();
    docs_enc.write_sequence((&p.docs).to_sequence());
    let mut seq: Vec<DocId> = Vec::with_capacity(n);
    let mut k: usize = 0;
    while k < n
        invariant
            k <= n,
            n == p.tfs@.len(),
            seq@.len() == k,
            forall|a: int| 0 <= a < n ==> #[trigger] p.tfs@[a] == tf_sum(tfs0, a),
            forall|a: int| 0 <= a <= n ==> 0 <= #[trigger] tf_sum(tfs0, a) <= total,
            *last_tf + total <= u64::MAX,
            *last_tf == *old(last_tf),
            forall|a: int| 0 <= a < k ==> #[trigger] seq@[a] == (*old(last_tf) + tf_sum(tfs0, a)) as DocId,
        decreases n - k,
    {
        assert(p.tfs@[k as int] == tf_sum(tfs0, k as int));
        seq.push(*last_tf + p.tfs[k]);
        k += 1;
    }
    let ghost te0 = tfs_enc.items();
    tfs_enc.write_sequence((&seq).to_sequence());
    p.tfs.push(cum as DocId);
    *postings_ptr = *postings_ptr + n as DocId;
    *last_tf = *last_tf + total as DocId;
    proof {
        lemma_stored_of_plain(old(p).docs@, tfs0, pos);
        assert(p.tfs@ =~= stored_tfs(tfs0));
        assert(seq@ =~= Seq::new(n as nat, |a: int| (*old(last_tf) + tf_sum(tfs0, a)) as DocId));
    }
    true
}


// ---------------------------------------------------------------------------
// Where a written list lies in the streams
// ---------------------------------------------------------------------------

/// The delta-coded positions of the first `k` documents take as many items as those
/// documents have positions.
pub proof fn lemma_delta_positions_len(tfs: Seq<DocId>, pos: Seq<DocId>, k: int)
    requires
        0 <= k <= tfs.len(),
        tf_sum(tfs, tfs.len() as int) == pos.len(),
    ensures
        delta_positions(tfs, pos, k).len() == tf_sum(tfs, k),
    decreases k,
{
    lemma_tf_sum_bounds(tfs, pos.len() as int);
    if k > 0 {
        lemma_delta_positions_len(tfs, pos, k - 1);
        assert(0 <= tf_sum(tfs, k - 1) <= tf_sum(tfs, k) <= pos.len()) by {
            lemma_tf_sum_mono(tfs, k - 1, k);
        }
    }
}

/// Stored postings as streams: documents, offsets, positions, and the offset the next
/// list written will start from.
pub type Streams = (Seq<DocId>, Seq<DocId>, Seq<DocId>, int);

/// A postings list's documents, term frequencies and positions.
pub type PostingsView = (Seq<DocId>, Seq<DocId>, Seq<DocId>);

/// The plain list `p` lies at document `ptr` of the streams `s`, its positions from
/// `first` on: its documents, its offsets counted from `first`, its delta-coded positions;
/// the offset after its own is where its positions end (the next offset to be written,
/// while it is the last list).
pub open spec fn list_at(ptr: int, first: int, s: Streams, p: PostingsView) -> bool {
    let n = p.0.len() as int;
    let end = first + p.2.len();
    &&& p.1.len() == n
    &&& 0 <= ptr
    &&& 0 <= first
    &&& ptr + n <= s.0.len()
    &&& s.0.subrange(ptr, ptr + n) == p.0
    &&& ptr + n <= s.1.len()
    &&& s.1.subrange(ptr, ptr + n) == Seq::new(p.1.len(), |k: int| (first + tf_sum(p.1, k)) as DocId)
    &&& end <= s.2.len()
    &&& s.2.subrange(first, end) == delta_positions(p.1, p.2, p.1.len() as int)
    &&& (ptr + n < s.1.len() ==> s.1[ptr + n] == end)
    &&& (ptr + n == s.1.len() ==> s.3 == end)
}

/// The list `p` lies at document `ptr` of the streams, wherever its positions start.
pub open spec fn list_stored(ptr: int, s: Streams, p: PostingsView) -> bool {
    exists|first: int| #[trigger] list_at(ptr, first, s, p)
}

/// The streams `s2` extend `s` by appending, the first offset appended being the one
/// `s` expects next.
pub open spec fn streams_grow(s: Streams, s2: Streams) -> bool {
    &&& s.0.len() <= s2.0.len()
    &&& s2.0.take(s.0.len() as int) == s.0
    &&& s.1.len() <= s2.1.len()
    &&& s2.1.take(s.1.len() as int) == s.1
    &&& s.2.len() <= s2.2.len()
    &&& s2.2.take(s.2.len() as int) == s.2
    &&& (s2.1.len() > s.1.len() ==> s2.1[s.1.len() as int] == s.3)
    &&& (s2.1.len() == s.1.len() ==> s2.3 == s.3)
}

/// A stored list stays where it is while the streams grow.
pub proof fn lemma_list_stored_grow(ptr: int, s: Streams, s2: Streams, p: PostingsView)
    requires
        list_stored(ptr, s, p),
        streams_grow(s, s2),
    ensures
        list_stored(ptr, s2, p),
{
    let first = choose|first: int| #[trigger] list_at(ptr, first, s, p);
    let n = p.0.len() as int;
    let end = first + p.2.len();
    assert(s2.0.subrange(ptr, ptr + n) =~= s.0.subrange(ptr, ptr + n)) by {
        assert forall|k: int| 0 <= k < n implies #[trigger] s2.0.subrange(ptr, ptr + n)[k] == s.0.subrange(
            ptr,
            ptr + n,
        )[k] by {
            assert(s2.0.take(s.0.len() as int)[ptr + k] == s.0[ptr + k]);
        }
    }
    assert(s2.1.subrange(ptr, ptr + n) =~= s.1.subrange(ptr, ptr + n)) by {
        assert forall|k: int| 0 <= k < n implies #[trigger] s2.1.subrange(ptr, ptr + n)[k] == s.1.subrange(
            ptr,
            ptr + n,
        )[k] by {
            assert(s2.1.take(s.1.len() as int)[ptr + k] == s.1[ptr + k]);
        }
    }
    assert(s2.2.subrange(first, end) =~= s.2.subrange(first, end)) by {
        assert forall|k: int| 0 <= k < end - first implies #[trigger] s2.2.subrange(first, end)[k] == s.2.subrange(
            first,
            end,
        )[k] by {
            assert(s2.2.take(s.2.len() as int)[first + k] == s.2[first + k]);
        }
    }
    if ptr + n < s.1.len() {
        assert(s2.1.take(s.1.len() as int)[ptr + n] == s.1[ptr + n]);
    }
    assert(list_at(ptr, first, s2, p));
}

/// Growing the streams twice is growing them.
pub proof fn lemma_streams_grow_trans(s1: Streams, s2: Streams, s3: Streams)
    requires
        streams_grow(s1, s2),
        streams_grow(s2, s3),
    ensures
        streams_grow(s1, s3),
{
    assert(s3.0.take(s1.0.len() as int) =~= s3.0.take(s2.0.len() as int).take(s1.0.len() as int));
    assert(s3.1.take(s1.1.len() as int) =~= s3.1.take(s2.1.len() as int).take(s1.1.len() as int));
    assert(s3.2.take(s1.2.len() as int) =~= s3.2.take(s2.2.len() as int).take(s1.2.len() as int));
    if s3.1.len() > s1.1.len() {
        if s2.1.len() > s1.1.len() {
            assert(s3.1.take(s2.1.len() as int)[s1.1.len() as int] == s2.1[s1.1.len() as int]);
        }
    }
}

/// Streams grow into themselves.
pub proof fn lemma_streams_grow_same(s: Streams)
    ensures
        streams_grow(s, s),
{
    assert(s.0.take(s.0.len() as int) =~= s.0);
    assert(s.1.take(s.1.len() as int) =~= s.1);
    assert(s.2.take(s.2.len() as int) =~= s.2);
}

/// The items written for a plain list `p`, appended to streams whose documents and offsets
/// reach `ptr` and whose positions reach `first`, hold it there.
pub proof fn lemma_list_written(
    s: Streams,
    ptr: int,
    first: int,
    p: PostingsView,
)
    requires
        plain_ok(p.0, p.1, p.2),
        s.0.len() == ptr,
        s.1.len() == ptr,
        s.2.len() == first,
        s.3 == first,
        first + p.2.len() <= u64::MAX,
    ensures
        ({
            let s2 = (
                s.0 + p.0,
                s.1 + Seq::new(p.1.len(), |k: int| (first + tf_sum(p.1, k)) as DocId),
                s.2 + delta_positions(p.1, p.2, p.1.len() as int),
                first + p.2.len(),
            );
            &&& list_at(ptr, first, s2, p)
            &&& list_stored(ptr, s2, p)
            &&& streams_grow(s, s2)
        }),
{
    let offs = Seq::new(p.1.len(), |k: int| (first + tf_sum(p.1, k)) as DocId);
    let dp = delta_positions(p.1, p.2, p.1.len() as int);
    let s2 = (s.0 + p.0, s.1 + offs, s.2 + dp, first + p.2.len());
    lemma_delta_positions_len(p.1, p.2, p.1.len() as int);
    lemma_tf_sum_bounds(p.1, p.2.len() as int);
    let n = p.0.len() as int;
    assert(s2.0.subrange(ptr, ptr + n) =~= p.0);
    assert(s2.1.subrange(ptr, ptr + n) =~= offs);
    assert(s2.2.subrange(first, first + p.2.len()) =~= dp);
    assert(s2.0.take(s.0.len() as int) =~= s.0);
    assert(s2.1.take(s.1.len() as int) =~= s.1);
    assert(s2.2.take(s.2.len() as int) =~= s.2);
    assert(s2.1[s.1.len() as int] == offs[0]);
    assert(list_at(ptr, first, s2, p));
}


/// The plain list `p` can be read back at document `ptr` of stored documents, offsets and
/// positions: its documents there, its offsets there counted from where its positions
/// begin, its delta-coded positions from there on, and after its offsets the one where
/// its positions end.
pub open spec fn list_readable(
    ptr: int,
    docs: Seq<DocId>,
    tfs: Seq<DocId>,
    positions: Seq<DocId>,
    p: PostingsView,
) -> bool {
    exists|first: int| #[trigger] list_at(ptr, first, (docs, tfs, positions, 0int), p) && ptr + p.0.len() < tfs.len()
}

/// A stored list followed by another offset can be read back.
pub proof fn lemma_list_readable(ptr: int, s: Streams, p: PostingsView)
    requires
        list_stored(ptr, s, p),
        ptr + p.0.len() < s.1.len(),
    ensures
        list_readable(ptr, s.0, s.1, s.2, p),
{
    let first = choose|first: int| #[trigger] list_at(ptr, first, s, p);
    assert(list_at(ptr, first, (s.0, s.1, s.2, 0int), p));
}

} // verus!
