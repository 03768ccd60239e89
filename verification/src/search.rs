use vstd::prelude::*;
use crate::types::DocId;
use crate::util::strictly_ascending;
use crate::sequence::{Sequence, SliceSequence};
use crate::postings::{
    PostingsStore, Postings, PostingsCursor, RawCursor, VecPostings, Group, pview, add_entries, group_entries,
    empty_view, raw_groups, offsets_ok, Entry, lemma_add_entries_parts, lemma_group_entries_contains_any,
};
use crate::intersect::{
    Intersect, intersect_groups, ups_of, docs_strict, docs_of, in_all, common_docs, entries_at,
    group_of, lemma_common_docs, lemma_docs_of_contains,
};
use crate::header::TrieNodeHeader;
use crate::trie_read::{StaticTrie, find_spec};
use crate::trie::postings_readable;
use crate::term_order::distinguishable;
use crate::types::Term;
use crate::util::delta_seq;
use crate::stored_postings::{
    plain_ok, tf_sum, segment, delta_positions, lemma_tf_sum_bounds, lemma_tf_sum_mono,
    lemma_delta_positions_len, list_at, list_readable, PostingsView,
};

verus! {

/// Postings whose three parts range over slices of the stored index.
pub type SlicePostings<'a> = Postings<SliceSequence<'a>, SliceSequence<'a>, SliceSequence<'a>>;

/// The header the dictionary holds for `term`, if any.
pub open spec fn lookup(dict: StaticTrie, term: Seq<char>) -> Option<TrieNodeHeader> {
    find_spec(dict.trie(), dict.terms(), dict.root(), term)
}

/// Whether the dictionary holds every term of the query.
pub open spec fn all_found(dict: StaticTrie, q: Seq<&str>) -> bool {
    forall|i: int| 0 <= i < q.len() ==> (#[trigger] lookup(dict, q[i]@)) is Some
}

/// The headers of the terms of the query, term by term.
pub open spec fn found_headers(dict: StaticTrie, q: Seq<&str>) -> Seq<TrieNodeHeader> {
    Seq::new(q.len(), |i: int| lookup(dict, q[i]@).unwrap())
}

/// The groups of the postings that `h` points at: documents `ptr .. ptr + n`, offsets
/// `ptr ..= ptr + n` and all positions.
pub open spec fn term_groups<DS: Sequence, TS: Sequence, PS: Sequence>(
    h: TrieNodeHeader,
    p: Postings<DS, TS, PS>,
) -> Seq<Group> {
    raw_groups(
        p.docs.sub_rest(h.postings_ptr as int, h.num_postings as int),
        p.tfs.sub_rest(h.postings_ptr as int, h.num_postings + 1),
        p.positions,
    )
}

/// Whether the postings `h` points at lie inside the stored documents `docs`, offsets
/// `tfs` and `npos` positions, with strictly increasing documents and offsets that never
/// decrease and stay inside the positions.
pub open spec fn fits(h: TrieNodeHeader, docs: Seq<DocId>, tfs: Seq<DocId>, npos: int) -> bool {
    let ptr = h.postings_ptr as int;
    let n = h.num_postings as int;
    &&& ptr + n <= docs.len()
    &&& ptr + n + 1 <= tfs.len()
    &&& strictly_ascending(docs.subrange(ptr, ptr + n))
    &&& forall|i: int, j: int| ptr <= i <= j <= ptr + n ==> tfs[i] <= tfs[j]
    &&& tfs[ptr + n] <= npos
}

/// `fits` for the slices under `p`.
pub open spec fn fits_in(h: TrieNodeHeader, p: SlicePostings) -> bool {
    fits(h, p.docs.base(), p.tfs.base(), p.positions.base().len() as int)
}

/// Whether `a` comes before `b` when terms are taken by increasing number of
/// documents, and in query order among terms with as many.
pub open spec fn smaller_first(hs: Seq<TrieNodeHeader>, a: int, b: int) -> bool {
    ||| hs[a].num_postings < hs[b].num_postings
    ||| hs[a].num_postings == hs[b].num_postings && a < b
}

/// Whether `t` occurs in `order`.
pub open spec fn lists(order: Seq<usize>, t: int) -> bool {
    exists|k: int| 0 <= k < order.len() && order[k] == t
}

/// `order` lists every index of `hs` once, by increasing number of documents, in query
/// order among terms with as many.
pub open spec fn size_order(hs: Seq<TrieNodeHeader>, order: Seq<usize>) -> bool {
    &&& order.len() == hs.len()
    &&& forall|k: int| 0 <= k < order.len() ==> #[trigger] order[k] < hs.len()
    &&& forall|t: int| 0 <= t < hs.len() ==> #[trigger] lists(order, t)
    &&& forall|k: int, l: int|
        0 <= k < l < order.len() ==> smaller_first(hs, #[trigger] order[k] as int, #[trigger] order[l] as int)
}

/// The groups of the terms of `hs`, taken in the order `order`.
pub open spec fn ordered_groups(hs: Seq<TrieNodeHeader>, order: Seq<usize>, p: SlicePostings) -> Seq<
    Seq<Group>,
> {
    Seq::new(order.len(), |k: int| term_groups(hs[order[k] as int], p))
}

/// What a query answers once all its terms are found: for every document all of them
/// have, in increasing order, the postings of every term for it, the terms taken by
/// increasing number of documents.
pub open spec fn answer(hs: Seq<TrieNodeHeader>, p: SlicePostings, v: (Seq<DocId>, Seq<DocId>, Seq<DocId>)) -> bool {
    exists|order: Seq<usize>|
        size_order(hs, order) && v == add_entries(
            empty_view(),
            group_entries(intersect_groups(#[trigger] ordered_groups(hs, order, p))),
        )
}

/// Why a query could not be answered from the stored index.
#[derive(Debug, Clone, Copy, PartialEq, Eq)]
pub enum QueryError {
    /// The postings of the term at this index of the query do not fit the stored index.
    CorruptPostings(usize),
}

/// The postings of `len` documents starting at document `ptr`; the offsets take one
/// more, and the positions are all kept.
pub fn get_postings<DS: Sequence, TS: Sequence, PS: Sequence>(
    ptr: usize,
    len: usize,
    p: &Postings<DS, TS, PS>,
) -> (r: Postings<DS, TS, PS>)
    requires
        p.docs.wf(),
        p.tfs.wf(),
        p.positions.wf(),
        len < usize::MAX,
        p.docs.sub_ok(ptr as int, len as int),
        p.tfs.sub_ok(ptr as int, len + 1),
    ensures
        r.docs.wf(),
        r.tfs.wf(),
        r.positions.wf(),
        r.docs.rest() == p.docs.sub_rest(ptr as int, len as int),
        r.tfs.rest() == p.tfs.sub_rest(ptr as int, len + 1),
        r.positions.rest() == p.positions.rest(),
        forall|start: int, len: int|
            #![trigger r.positions.sub_ok(start, len)]
            #![trigger r.positions.sub_rest(start, len)]
            r.positions.sub_ok(start, len) == p.positions.sub_ok(start, len) && r.positions.sub_rest(
                start,
                len,
            ) == p.positions.sub_rest(start, len),
{
    Postings {
        docs: p.docs.subsequence(ptr, len),
        tfs: p.tfs.subsequence(ptr, len + 1),
        positions: p.positions.duplicate(),
    }
}

/// The postings of the term whose header is `header`.
pub fn exact_postings<DS: Sequence, TS: Sequence, PS: Sequence>(
    header: &TrieNodeHeader,
    postings: &Postings<DS, TS, PS>,
) -> (r: Postings<DS, TS, PS>)
    requires
        postings.docs.wf(),
        postings.tfs.wf(),
        postings.positions.wf(),
        header.postings_ptr <= usize::MAX,
        header.num_postings < usize::MAX,
        postings.docs.sub_ok(header.postings_ptr as int, header.num_postings as int),
        postings.tfs.sub_ok(header.postings_ptr as int, header.num_postings + 1),
    ensures
        r.docs.wf(),
        r.tfs.wf(),
        r.positions.wf(),
        r.docs.rest() == postings.docs.sub_rest(header.postings_ptr as int, header.num_postings as int),
        r.tfs.rest() == postings.tfs.sub_rest(header.postings_ptr as int, header.num_postings + 1),
        r.positions.rest() == postings.positions.rest(),
        forall|start: int, len: int|
            #![trigger r.positions.sub_ok(start, len)]
            #![trigger r.positions.sub_rest(start, len)]
            r.positions.sub_ok(start, len) == postings.positions.sub_ok(start, len)
                && r.positions.sub_rest(start, len) == postings.positions.sub_rest(start, len),
{
    get_postings(header.postings_ptr as usize, header.num_postings as usize, postings)
}

/// Looks up every term of the query; nothing as soon as one is missing.
pub fn find_terms(dict: &StaticTrie, exact: bool, query: &[&str]) -> (r: Option<Vec<TrieNodeHeader>>)
    ensures
        r is Some <==> all_found(*dict, query@),
        r is Some ==> r.unwrap()@ == found_headers(*dict, query@),
{
    let mut headers: Vec<TrieNodeHeader> = Vec::new();
    let mut i: usize = 0;
    while i < query.len()
        invariant
            i <= query@.len(),
            headers@.len() == i,
            forall|k: int| 0 <= k < i ==> (#[trigger] lookup(*dict, query@[k]@)) is Some,
            forall|k: int| 0 <= k < i ==> Some(#[trigger] headers@[k]) == lookup(*dict, query@[k]@),
        decreases query@.len() - i,
    {
        match dict.find_term(query[i], !exact) {
            Some(header) => headers.push(header),
            None => {
                assert(lookup(*dict, query@[i as int]@) is None);
                return None;
            },
        }
        i += 1;
    }
    assert(headers@ =~= found_headers(*dict, query@));
    Some(headers)
}

/// Whether the postings `header` points at fit the slices under `postings`.
pub fn postings_fit(header: &TrieNodeHeader, postings: &SlicePostings) -> (r: bool)
    ensures
        r == fits_in(*header, *postings),
{
    let docs = postings.docs.base_slice();
    let tfs = postings.tfs.base_slice();
    let npos = postings.positions.base_slice().len();
    let ptr = header.postings_ptr;
    let n = header.num_postings;
    if ptr > docs.len() as u64 || n > docs.len() as u64 - ptr {
        return false;
    }
    if ptr + n >= tfs.len() as u64 {
        return false;
    }
    let start = ptr as usize;
    let end = (ptr + n) as usize;
    let mut i: usize = start;
    while end - i > 1
        invariant
            start <= i <= end,
            i < end || i == start,
            docs@ == postings.docs.base(),
            tfs@ == postings.tfs.base(),
            start == header.postings_ptr,
            end == header.postings_ptr + header.num_postings,
            end <= docs@.len(),
            end + 1 <= tfs@.len(),
            strictly_ascending(docs@.subrange(start as int, i + 1)) || i == start,
        decreases end - i,
    {
        if docs[i] >= docs[i + 1] {
            proof {
                let s = docs@.subrange(start as int, end as int);
                assert(s[i - start] >= s[i + 1 - start]);
                assert(!strictly_ascending(s));
                assert(docs@ == postings.docs.base());
            }
            return false;
        }
        proof {
            let s = docs@.subrange(start as int, i + 2);
            assert forall|a: int, b: int| 0 <= a < b < s.len() implies s[a] < s[b] by {
                if b < s.len() - 1 {
                    assert(s[a] == docs@.subrange(start as int, i + 1)[a]);
                    assert(s[b] == docs@.subrange(start as int, i + 1)[b]);
                } else if a < b - 1 {
                    assert(s[a] == docs@.subrange(start as int, i + 1)[a]);
                    assert(docs@.subrange(start as int, i + 1)[a] < docs@.subrange(start as int, i + 1)[b - 1]);
                }
            }
        }
        i += 1;
    }
    proof {
        let s = docs@.subrange(start as int, end as int);
        if end > start + 1 {
            assert(s =~= docs@.subrange(start as int, i + 1));
        }
        assert(strictly_ascending(s));
    }
    let mut j: usize = start;
    while j < end
        invariant
            start <= j <= end,
            end + 1 <= tfs@.len(),
            end <= docs@.len(),
            docs@ == postings.docs.base(),
            tfs@ == postings.tfs.base(),
            start == header.postings_ptr,
            end == header.postings_ptr + header.num_postings,
            forall|a: int, b: int| start <= a <= b <= j ==> tfs@[a] <= tfs@[b],
        decreases end - j,
    {
        if tfs[j] > tfs[j + 1] {
            proof {
                assert(tfs@ == postings.tfs.base());
                assert(!(tfs@[j as int] <= tfs@[j + 1]));
            }
            return false;
        }
        proof {
            assert forall|a: int, b: int| start <= a <= b <= j + 1 implies tfs@[a] <= tfs@[b] by {
                if b == j + 1 && a <= j {
                    assert(tfs@[a] <= tfs@[j as int]);
                }
            }
        }
        j += 1;
    }
    tfs[end] <= npos as u64
}

/// The indexes of `headers`, by increasing number of documents, in query order among
/// terms with as many.
pub fn order_by_size(headers: &Vec<TrieNodeHeader>) -> (r: Vec<usize>)
    ensures
        size_order(headers@, r@),
{
    let mut order: Vec<usize> = Vec::new();
    let mut i: usize = 0;
    while i < headers.len()
        invariant
            i <= headers@.len(),
            order@.len() == i,
            forall|k: int| 0 <= k < order@.len() ==> #[trigger] order@[k] < i,
            forall|t: int| 0 <= t < i ==> #[trigger] lists(order@, t),
            forall|k: int, l: int|
                0 <= k < l < order@.len() ==> smaller_first(headers@, #[trigger] order@[k] as int, #[trigger] order@[l] as int),
        decreases headers@.len() - i,
    {
        let key = headers[i].num_postings;
        let mut p: usize = 0;
        while p < order.len() && headers[order[p]].num_postings <= key
            invariant
                p <= order@.len(),
                i < headers@.len(),
                key == headers@[i as int].num_postings,
                forall|k: int| 0 <= k < order@.len() ==> #[trigger] order@[k] < i,
                forall|k: int| 0 <= k < p ==> headers@[#[trigger] order@[k] as int].num_postings <= key,
            decreases order@.len() - p,
        {
            p += 1;
        }
        let ghost before = order@;
        proof {
            assert forall|k: int| p <= k < before.len() implies headers@[#[trigger] before[k] as int].num_postings
                > key by {
                if headers@[before[k] as int].num_postings <= key {
                    assert(smaller_first(headers@, before[p as int] as int, before[k] as int));
                    if k > p {
                        assert(headers@[before[p as int] as int].num_postings <= headers@[before[k] as int].num_postings);
                    }
                }
            }
        }
        order.insert(p, i);
        proof {
            let s = order@;
            assert(s == before.insert(p as int, i));
            assert forall|k: int| 0 <= k < s.len() implies #[trigger] s[k] < i + 1 by {
                if k < p {
                    assert(s[k] == before[k]);
                } else if k > p {
                    assert(s[k] == before[k - 1]);
                }
            }
            assert forall|t: int| 0 <= t < i + 1 implies #[trigger] lists(s, t) by {
                if t == i {
                    assert(s[p as int] == t);
                } else {
                    assert(lists(before, t));
                    let k0 = choose|k: int| 0 <= k < before.len() && before[k] == t;
                    if k0 < p {
                        assert(s[k0] == t);
                    } else {
                        assert(s[k0 + 1] == t);
                    }
                }
            }
            assert forall|k: int, l: int| 0 <= k < l < s.len() implies smaller_first(
                headers@,
                #[trigger] s[k] as int,
                #[trigger] s[l] as int,
            ) by {
                if l < p {
                    assert(s[k] == before[k] && s[l] == before[l]);
                } else if l == p {
                    assert(s[k] == before[k]);
                    assert(before[k] < i);
                } else if k < p {
                    assert(s[k] == before[k] && s[l] == before[l - 1]);
                    if headers@[before[k] as int].num_postings == headers@[before[l - 1] as int].num_postings {
                        assert(headers@[before[k] as int].num_postings <= key);
                    }
                    assert(smaller_first(headers@, before[k] as int, before[l - 1] as int));
                } else if k == p {
                    assert(s[l] == before[l - 1]);
                } else {
                    assert(s[k] == before[k - 1] && s[l] == before[l - 1]);
                }
            }
        }
        i += 1;
    }
    order
}

/// Cursors over the postings of `headers`, in the order `order`.
fn ordered_cursors<'a>(headers: &Vec<TrieNodeHeader>, order: &Vec<usize>, postings: &SlicePostings<'a>) -> (r: Vec<
    RawCursor<SliceSequence<'a>, SliceSequence<'a>, SliceSequence<'a>>,
>)
    requires
        postings.docs.wf(),
        postings.tfs.wf(),
        postings.positions.wf(),
        size_order(headers@, order@),
        forall|k: int| 0 <= k < headers@.len() ==> fits_in(#[trigger] headers@[k], *postings),
    ensures
        r@.len() == order@.len(),
        forall|k: int| 0 <= k < r@.len() ==> (#[trigger] r@[k]).wf(),
        forall|k: int| 0 <= k < r@.len() ==> (#[trigger] r@[k]).cur() is None,
        forall|k: int| 0 <= k < r@.len() ==> docs_strict((#[trigger] r@[k]).upcoming()),
        ups_of(r@) == ordered_groups(headers@, order@, *postings),
{
    let mut cursors: Vec<RawCursor<SliceSequence<'a>, SliceSequence<'a>, SliceSequence<'a>>> = Vec::new();
    let npos = postings.positions.base_slice().len();
    let ntfs = postings.tfs.base_slice().len();
    let mut k: usize = 0;
    while k < order.len()
        invariant
            k <= order@.len(),
            cursors@.len() == k,
            postings.docs.wf(),
            postings.tfs.wf(),
            postings.positions.wf(),
            npos == postings.positions.base().len(),
            ntfs == postings.tfs.base().len(),
            size_order(headers@, order@),
            forall|m: int| 0 <= m < headers@.len() ==> fits_in(#[trigger] headers@[m], *postings),
            forall|m: int| 0 <= m < k ==> (#[trigger] cursors@[m]).wf(),
            forall|m: int| 0 <= m < k ==> (#[trigger] cursors@[m]).cur() is None,
            forall|m: int| 0 <= m < k ==> docs_strict((#[trigger] cursors@[m]).upcoming()),
            forall|m: int| 0 <= m < k ==> (#[trigger] cursors@[m]).upcoming() == term_groups(
                headers@[order@[m] as int],
                *postings,
            ),
        decreases order@.len() - k,
    {
        let idx = order[k];
        assert(order@[k as int] < headers@.len());
        let h = headers[idx];
        let ghost hv = headers@[idx as int];
        assert(fits_in(hv, *postings));
        let ghost ptr = h.postings_ptr as int;
        let ghost n = h.num_postings as int;
        let ghost tb = postings.tfs.base();
        proof {
            postings.docs.lemma_sub(ptr, n);
            postings.tfs.lemma_sub(ptr, n + 1);
        }
        let ps = exact_postings(&h, postings);
        let ghost ext = ps.tfs.rest();
        proof {
            assert(ext =~= tb.subrange(ptr, ptr + n + 1));
            assert forall|j: int| 0 <= j <= n implies #[trigger] ext[j] <= usize::MAX by {
                assert(ext[j] == tb[ptr + j]);
                assert(tb[ptr + j] <= tb[ptr + n]);
            }
            assert forall|j: int| 0 <= j < n implies #[trigger] ps.positions.sub_ok(
                ext[j] as int,
                ext[j + 1] - ext[j],
            ) by {
                postings.positions.lemma_sub(ext[j] as int, ext[j + 1] - ext[j]);
                assert(ext[j] == tb[ptr + j]);
                assert(ext[j + 1] == tb[ptr + j + 1]);
                assert(tb[ptr + j] <= tb[ptr + j + 1]);
                assert(tb[ptr + j + 1] <= tb[ptr + n]);
            }
            assert forall|a: int, b: int| 0 <= a <= b <= n implies ext[a] <= ext[b] by {
                assert(ext[a] == tb[ptr + a]);
                assert(ext[b] == tb[ptr + b]);
            }
            assert(offsets_ok(ext, 0, n, ps.positions));
        }
        let c = RawCursor::new(ps);
        proof {
            let d = postings.docs.base().subrange(ptr, ptr + n);
            assert(ps.docs.rest() == d);
            assert forall|a: int, b: int| 0 <= a < b < c.upcoming().len() implies c.upcoming()[a].0
                < c.upcoming()[b].0 by {
                assert(c.upcoming()[a].0 == d[a]);
                assert(c.upcoming()[b].0 == d[b]);
            }
        }
        cursors.push(c);
        k += 1;
    }
    assert(ups_of(cursors@) =~= ordered_groups(headers@, order@, *postings));
    cursors
}

/// Answers a query of one or more terms from the dictionary and the stored postings:
/// nothing when a term is missing, an error when the postings of a term do not fit the
/// stored index, and otherwise the intersection of the postings of all terms, taken by
/// increasing number of documents.
pub fn query<'a>(dict: &StaticTrie, postings: &SlicePostings<'a>, exact: bool, q: &[&str]) -> (r: Result<
    Option<VecPostings>,
    QueryError,
>)
    requires
        q@.len() > 0,
        postings.docs.wf(),
        postings.tfs.wf(),
        postings.positions.wf(),
    ensures
        !all_found(*dict, q@) ==> r == Ok::<Option<VecPostings>, QueryError>(None),
        all_found(*dict, q@) ==> match r {
            Ok(Some(v)) => {
                &&& forall|k: int| 0 <= k < q@.len() ==> fits_in(#[trigger] found_headers(*dict, q@)[k], *postings)
                &&& answer(found_headers(*dict, q@), *postings, pview(&v))
            },
            Ok(None) => false,
            Err(QueryError::CorruptPostings(i)) => {
                &&& i < q@.len()
                &&& !fits_in(found_headers(*dict, q@)[i as int], *postings)
                &&& forall|k: int| 0 <= k < i ==> fits_in(#[trigger] found_headers(*dict, q@)[k], *postings)
            },
        },
{
    let headers = match find_terms(dict, exact, q) {
        Some(hs) => hs,
        None => {
            return Ok(None);
        },
    };
    let mut i: usize = 0;
    while i < headers.len()
        invariant
            i <= headers@.len(),
            all_found(*dict, q@),
            headers@ == found_headers(*dict, q@),
            forall|k: int| 0 <= k < i ==> fits_in(#[trigger] headers@[k], *postings),
        decreases headers@.len() - i,
    {
        if !postings_fit(&headers[i], postings) {
            return Err(QueryError::CorruptPostings(i));
        }
        i += 1;
    }
    let order = order_by_size(&headers);
    let cursors = ordered_cursors(&headers, &order, postings);
    let mut inter = Intersect::new(cursors);
    let result = inter.collect();
    proof {
        assert(size_order(headers@, order@) && pview(&result) == add_entries(
            empty_view(),
            group_entries(intersect_groups(ordered_groups(headers@, order@, *postings))),
        ));
    }
    Ok(Some(result))
}

// ---------------------------------------------------------------------------
// What a query finds
// ---------------------------------------------------------------------------

/// The documents of the postings that `h` points at.
pub open spec fn term_docs<DS: Sequence, TS: Sequence, PS: Sequence>(
    h: TrieNodeHeader,
    p: Postings<DS, TS, PS>,
) -> Seq<DocId> {
    p.docs.sub_rest(h.postings_ptr as int, h.num_postings as int)
}

/// Every group holds a posting, and each of its postings is for the group's document.
pub open spec fn entries_match(gs: Seq<Group>) -> bool {
    &&& forall|k: int| 0 <= k < gs.len() ==> #[trigger] gs[k].1.len() > 0
    &&& forall|k: int, m: int|
        #![trigger gs[k].1[m]]
        0 <= k < gs.len() && 0 <= m < gs[k].1.len() ==> gs[k].1[m].0 == gs[k].0
}

/// The groups of a term are its documents, one posting each.
pub proof fn lemma_term_groups<DS: Sequence, TS: Sequence, PS: Sequence>(
    h: TrieNodeHeader,
    p: Postings<DS, TS, PS>,
)
    ensures
        docs_of(term_groups(h, p)) == term_docs(h, p),
        entries_match(term_groups(h, p)),
{
    let gs = term_groups(h, p);
    assert(docs_of(gs) =~= term_docs(h, p));
    assert forall|k: int, m: int| #![trigger gs[k].1[m]] 0 <= k < gs.len() && 0 <= m < gs[k].1.len() implies gs[k].1[m].0
        == gs[k].0 by {
        assert(m == 0);
    }
}

/// The postings all runs have for a document they all have are postings for that
/// document, and there is at least one.
proof fn lemma_entries_at(ups: Seq<Seq<Group>>, x: DocId)
    requires
        forall|i: int| 0 <= i < ups.len() ==> entries_match(#[trigger] ups[i]),
        in_all(ups, x),
    ensures
        forall|m: int| 0 <= m < entries_at(ups, x).len() ==> (#[trigger] entries_at(ups, x)[m]).0 == x,
        ups.len() > 0 ==> entries_at(ups, x).len() > 0,
    decreases ups.len(),
{
    if ups.len() > 0 {
        let init = ups.drop_last();
        assert forall|i: int| 0 <= i < init.len() implies entries_match(#[trigger] init[i]) by {
            assert(init[i] == ups[i]);
        }
        assert forall|i: int| 0 <= i < init.len() implies #[trigger] docs_of(init[i]).contains(x) by {
            assert(init[i] == ups[i]);
            assert(docs_of(ups[i]).contains(x));
        }
        lemma_entries_at(init, x);
        let last = ups.last();
        assert(docs_of(ups[ups.len() - 1]).contains(x));
        assert(entries_match(ups[ups.len() - 1]));
        lemma_docs_of_contains(last, x);
        assert(exists|k: int| 0 <= k < last.len() && last[k].0 == x && group_of(last, x) == last[k]);
        let k = choose|k: int| 0 <= k < last.len() && last[k].0 == x && group_of(last, x) == last[k];
        let e = entries_at(ups, x);
        let a = entries_at(init, x);
        assert(e == a + last[k].1);
        assert forall|m: int| 0 <= m < e.len() implies (#[trigger] e[m]).0 == x by {
            if m >= a.len() {
                assert(e[m] == last[k].1[m - a.len()]);
            } else {
                assert(e[m] == a[m]);
            }
        }
        assert(last[k].1.len() > 0);
    }
}

/// A query answers with exactly the documents that every one of its terms occurs in.
pub proof fn lemma_answer_docs(hs: Seq<TrieNodeHeader>, p: SlicePostings, v: (Seq<DocId>, Seq<DocId>, Seq<DocId>))
    requires
        hs.len() > 0,
        forall|k: int| 0 <= k < hs.len() ==> fits_in(#[trigger] hs[k], p),
        answer(hs, p, v),
    ensures
        forall|d: DocId|
            #[trigger] v.0.contains(d) <==> (forall|k: int| 0 <= k < hs.len() ==> #[trigger] term_docs(hs[k], p).contains(d)),
{
    let order = choose|order: Seq<usize>|
        size_order(hs, order) && v == add_entries(
            empty_view(),
            group_entries(intersect_groups(#[trigger] ordered_groups(hs, order, p))),
        );
    let ups = ordered_groups(hs, order, p);
    assert forall|i: int| 0 <= i < ups.len() implies entries_match(#[trigger] ups[i]) && docs_of(ups[i])
        == term_docs(hs[order[i] as int], p) by {
        lemma_term_groups(hs[order[i] as int], p);
    }
    let h0 = hs[order[0] as int];
    assert(fits_in(h0, p));
    p.docs.lemma_sub(h0.postings_ptr as int, h0.num_postings as int);
    assert(docs_strict(ups[0])) by {
        let d0 = term_docs(h0, p);
        assert forall|a: int, b: int| 0 <= a < b < ups[0].len() implies ups[0][a].0 < ups[0][b].0 by {
            assert(docs_of(ups[0])[a] == ups[0][a].0);
            assert(docs_of(ups[0])[b] == ups[0][b].0);
            assert(d0[a] < d0[b]);
        }
    }
    lemma_common_docs(ups);
    let ig = intersect_groups(ups);
    let cd = common_docs(ups);
    let es = group_entries(ig);
    lemma_add_entries_parts(empty_view(), es);
    let ds = es.map_values(|e: Entry| e.0);
    assert(v.0 =~= ds);
    assert forall|d: DocId| #[trigger] v.0.contains(d) <==> (forall|k: int| 0 <= k < hs.len() ==> #[trigger] term_docs(hs[k], p).contains(d)) by {
        let every = forall|k: int| 0 <= k < hs.len() ==> #[trigger] term_docs(hs[k], p).contains(d);
        if every {
            assert forall|i: int| 0 <= i < ups.len() implies #[trigger] docs_of(ups[i]).contains(d) by {
                assert(term_docs(hs[order[i] as int], p).contains(d));
            }
        }
        if in_all(ups, d) {
            assert forall|k: int| 0 <= k < hs.len() implies #[trigger] term_docs(hs[k], p).contains(d) by {
                assert(lists(order, k));
                let i = choose|i: int| 0 <= i < order.len() && order[i] == k;
                assert(docs_of(ups[i]).contains(d));
            }
            assert(cd.contains(d));
            let j = choose|j: int| 0 <= j < cd.len() && cd[j] == d;
            assert(ig[j] == (d, entries_at(ups, d)));
            lemma_entries_at(ups, d);
            let e = ig[j].1[0];
            assert(ig[j].1.contains(e));
            lemma_group_entries_contains_any(ig, e);
            let idx = choose|idx: int| 0 <= idx < es.len() && es[idx] == e;
            assert(ds[idx] == d);
            assert(v.0.contains(d));
        }
        if v.0.contains(d) {
            let idx = choose|idx: int| 0 <= idx < ds.len() && ds[idx] == d;
            let e = es[idx];
            assert(es.contains(e));
            lemma_group_entries_contains_any(ig, e);
            let j = choose|j: int| 0 <= j < ig.len() && #[trigger] ig[j].1.contains(e);
            assert(cd.contains(cd[j]));
            lemma_entries_at(ups, cd[j]);
            let m = choose|m: int| 0 <= m < ig[j].1.len() && ig[j].1[m] == e;
            assert(e.0 == cd[j]);
            assert(in_all(ups, d));
        }
    }
}


// ---------------------------------------------------------------------------
// Reading back what was written
// ---------------------------------------------------------------------------

/// The delta-coded positions of document `j` lie between its offsets.
proof fn lemma_delta_positions_at(tfs: Seq<DocId>, pos: Seq<DocId>, j: int, k: int)
    requires
        0 <= j < k <= tfs.len(),
        tf_sum(tfs, tfs.len() as int) == pos.len(),
    ensures
        delta_positions(tfs, pos, k).subrange(tf_sum(tfs, j), tf_sum(tfs, j + 1)) == delta_seq(
            segment(tfs, pos, j),
        ).map_values(|x: int| x as DocId),
    decreases k,
{
    lemma_tf_sum_bounds(tfs, pos.len() as int);
    lemma_tf_sum_mono(tfs, j, j + 1);
    lemma_tf_sum_mono(tfs, j + 1, k);
    lemma_delta_positions_len(tfs, pos, k - 1);
    lemma_delta_positions_len(tfs, pos, j);
    let whole = delta_positions(tfs, pos, k);
    let lo = tf_sum(tfs, j);
    let hi = tf_sum(tfs, j + 1);
    if j == k - 1 {
        let d = delta_seq(segment(tfs, pos, j)).map_values(|x: int| x as DocId);
        assert(whole == delta_positions(tfs, pos, j) + d);
        assert(whole.subrange(lo, hi) =~= d);
    } else {
        lemma_delta_positions_at(tfs, pos, j, k - 1);
        let before = delta_positions(tfs, pos, k - 1);
        lemma_tf_sum_mono(tfs, j + 1, k - 1);
        assert(whole.subrange(lo, hi) =~= before.subrange(lo, hi));
    }
}

/// Postings that can be read back where a header points (as `create_trie` leaves the
/// postings of every term it finds) are read back by the lookup's cursor as the list's
/// documents, each with its term frequency and its positions delta-coded.
pub proof fn lemma_written_postings_read_back(pv: PostingsView, h: TrieNodeHeader, p: SlicePostings)
    requires
        plain_ok(pv.0, pv.1, pv.2),
        h.num_postings == pv.0.len(),
        list_readable(h.postings_ptr as int, p.docs.base(), p.tfs.base(), p.positions.base(), pv),
    ensures
        term_groups(h, p).len() == pv.0.len(),
        forall|k: int|
            0 <= k < pv.0.len() ==> #[trigger] term_groups(h, p)[k] == (
                pv.0[k],
                seq![
                    (
                        pv.0[k],
                        pv.1[k],
                        delta_seq(segment(pv.1, pv.2, k)).map_values(|x: int| x as DocId),
                    ),
                ],
            ),
{
    let docs = pv.0;
    let tfs = pv.1;
    let pos = pv.2;
    let n = docs.len() as int;
    let ptr = h.postings_ptr as int;
    let base_t = p.tfs.base();
    let first = choose|first: int|
        #[trigger] list_at(ptr, first, (p.docs.base(), p.tfs.base(), p.positions.base(), 0int), pv) && ptr + n
            < base_t.len();
    p.docs.lemma_sub(ptr, n);
    p.tfs.lemma_sub(ptr, n + 1);
    let d = p.docs.sub_rest(ptr, n);
    let ext = p.tfs.sub_rest(ptr, n + 1);
    lemma_tf_sum_bounds(tfs, pos.len() as int);
    assert(d =~= docs);
    assert(base_t[ptr + n] == first + pos.len());
    assert forall|j: int| 0 <= j <= n implies #[trigger] ext[j] == first + tf_sum(tfs, j) by {
        if j < n {
            assert(ext[j] == base_t.subrange(ptr, ptr + n)[j]);
        }
    }
    assert forall|k: int| 0 <= k < n implies #[trigger] term_groups(h, p)[k] == (
        docs[k],
        seq![(docs[k], tfs[k], delta_seq(segment(tfs, pos, k)).map_values(|x: int| x as DocId))],
    ) by {
        assert(ext[k] == first + tf_sum(tfs, k));
        assert(ext[k + 1] == first + tf_sum(tfs, k + 1));
        let lo = ext[k] as int;
        let len = ext[k + 1] - ext[k];
        assert(len == tfs[k]);
        p.positions.lemma_sub(lo, len);
        lemma_delta_positions_at(tfs, pos, k, n);
        lemma_tf_sum_mono(tfs, k, k + 1);
        lemma_tf_sum_mono(tfs, k + 1, n);
        let base_p = p.positions.base();
        assert(base_p.subrange(lo, lo + len) =~= base_p.subrange(first, first + pos.len()).subrange(
            tf_sum(tfs, k),
            tf_sum(tfs, k + 1),
        ));
    }
}


// ---------------------------------------------------------------------------
// Searching what was indexed
// ---------------------------------------------------------------------------

/// The postings found for query term `k` are those the store held for the term it names.
proof fn lemma_found_postings<PS: PostingsStore>(
    dict: StaticTrie,
    p: SlicePostings,
    ts: Seq<Term>,
    store: PS,
    q: Seq<&str>,
    at: Seq<int>,
    k: int,
)
    requires
        postings_readable(dict.trie(), dict.terms(), dict.root(), ts, store, p.docs.base(), p.tfs.base(), p.positions.base()),
        at.len() == q.len(),
        forall|j: int|
            0 <= j < q.len() ==> 0 <= #[trigger] at[j] < ts.len() && distinguishable(ts, at[j]) && q[j]@
                == ts[at[j]].term@,
        0 <= k < q.len(),
    ensures
        lookup(dict, q[k]@) is Some,
        store.postings_of(ts[at[k]].term_id) is Some,
        fits_in(lookup(dict, q[k]@).unwrap(), p),
        term_docs(lookup(dict, q[k]@).unwrap(), p) == store.postings_of(ts[at[k]].term_id).unwrap().0,
{
    let m = at[k];
    assert(distinguishable(ts, m));
    let h = lookup(dict, q[k]@).unwrap();
    let pv = store.postings_of(ts[m].term_id).unwrap();
    let ptr = h.postings_ptr as int;
    let n = pv.0.len() as int;
    let first = choose|first: int|
        #[trigger] list_at(ptr, first, (p.docs.base(), p.tfs.base(), p.positions.base(), 0int), pv) && ptr + n
            < p.tfs.base().len();
    p.docs.lemma_sub(ptr, n);
    let tb = p.tfs.base();
    let tfs = pv.1;
    lemma_tf_sum_bounds(tfs, pv.2.len() as int);
    assert(tb[ptr + n] == first + pv.2.len());
    assert forall|j: int| ptr <= j <= ptr + n implies #[trigger] tb[j] == first + tf_sum(tfs, j - ptr) by {
        if j < ptr + n {
            assert(tb[j] == tb.subrange(ptr, ptr + n)[j - ptr]);
        }
    }
    assert forall|i: int, j: int| ptr <= i <= j <= ptr + n implies tb[i] <= tb[j] by {
        assert(tb[i] == first + tf_sum(tfs, i - ptr));
        assert(tb[j] == first + tf_sum(tfs, j - ptr));
        lemma_tf_sum_mono(tfs, i - ptr, j - ptr);
    }
    assert(p.docs.base().subrange(ptr, ptr + n) == pv.0);
    assert(fits(h, p.docs.base(), tb, p.positions.base().len() as int));
}

/// Every term of a query names a term the index was built from that a lookup tells apart:
/// every lookup succeeds, and the postings found fit the stored index (so a search answers).
pub proof fn lemma_indexed_terms_found<PS: PostingsStore>(
    dict: StaticTrie,
    p: SlicePostings,
    ts: Seq<Term>,
    store: PS,
    q: Seq<&str>,
    at: Seq<int>,
)
    requires
        postings_readable(dict.trie(), dict.terms(), dict.root(), ts, store, p.docs.base(), p.tfs.base(), p.positions.base()),
        at.len() == q.len(),
        forall|j: int|
            0 <= j < q.len() ==> 0 <= #[trigger] at[j] < ts.len() && distinguishable(ts, at[j]) && q[j]@
                == ts[at[j]].term@,
    ensures
        all_found(dict, q),
        forall|k: int| 0 <= k < q.len() ==> fits_in(#[trigger] found_headers(dict, q)[k], p),
{
    assert forall|k: int| 0 <= k < q.len() implies (#[trigger] lookup(dict, q[k]@)) is Some by {
        lemma_found_postings(dict, p, ts, store, q, at, k);
    }
    assert forall|k: int| 0 <= k < q.len() implies fits_in(#[trigger] found_headers(dict, q)[k], p) by {
        lemma_found_postings(dict, p, ts, store, q, at, k);
    }
}

/// Searching an index for terms it was built from, each told apart by a lookup, answers
/// exactly the documents that the store's postings of every one of those terms hold.
pub proof fn lemma_search_of_indexed_terms<PS: PostingsStore>(
    dict: StaticTrie,
    p: SlicePostings,
    ts: Seq<Term>,
    store: PS,
    q: Seq<&str>,
    at: Seq<int>,
    v: (Seq<DocId>, Seq<DocId>, Seq<DocId>),
)
    requires
        postings_readable(dict.trie(), dict.terms(), dict.root(), ts, store, p.docs.base(), p.tfs.base(), p.positions.base()),
        q.len() > 0,
        at.len() == q.len(),
        forall|j: int|
            0 <= j < q.len() ==> 0 <= #[trigger] at[j] < ts.len() && distinguishable(ts, at[j]) && q[j]@
                == ts[at[j]].term@,
        answer(found_headers(dict, q), p, v),
    ensures
        forall|d: DocId|
            #[trigger] v.0.contains(d) <==> (forall|k: int|
                0 <= k < q.len() ==> #[trigger] store.postings_of(ts[at[k]].term_id).unwrap().0.contains(d)),
{
    let hs = found_headers(dict, q);
    lemma_indexed_terms_found(dict, p, ts, store, q, at);
    lemma_answer_docs(hs, p, v);
    assert forall|k: int| 0 <= k < q.len() implies #[trigger] term_docs(hs[k], p) == store.postings_of(
        ts[at[k]].term_id,
    ).unwrap().0 by {
        lemma_found_postings(dict, p, ts, store, q, at, k);
    }
    assert forall|d: DocId| #[trigger] v.0.contains(d) <==> (forall|k: int|
        0 <= k < q.len() ==> #[trigger] store.postings_of(ts[at[k]].term_id).unwrap().0.contains(d)) by {
        if v.0.contains(d) {
            assert forall|k: int| 0 <= k < q.len() implies #[trigger] store.postings_of(
                ts[at[k]].term_id,
            ).unwrap().0.contains(d) by {
                assert(term_docs(hs[k], p).contains(d));
            }
        }
        if forall|k: int| 0 <= k < q.len() ==> #[trigger] store.postings_of(ts[at[k]].term_id).unwrap().0.contains(d) {
            assert forall|k: int| 0 <= k < hs.len() implies #[trigger] term_docs(hs[k], p).contains(d) by {
                assert(store.postings_of(ts[at[k]].term_id).unwrap().0.contains(d));
            }
        }
    }
}

} // verus!
