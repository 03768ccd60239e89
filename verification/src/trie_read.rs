use vstd::prelude::*;
use vstd::utf8::encode_scalar;
use crate::util::{to_wide, le_value_u32, read_u32_le};
use vstd::utf8::encode_utf8;
use crate::header::{TrieNodeHeader, header_at};

verus! {

// ---------------------------------------------------------------------------
// Looking terms up in a stored trie
// ---------------------------------------------------------------------------

/// How many leading characters of `q` the bytes `stored` spell out, character by
/// character in UTF-8.
pub open spec fn matched_chars(q: Seq<char>, stored: Seq<u8>) -> nat
    decreases q.len(),
{
    if q.len() == 0 {
        0
    } else {
        let e = encode_scalar(q[0] as u32);
        if e.len() <= stored.len() && stored.take(e.len() as int) == e {
            1 + matched_chars(q.drop_first(), stored.skip(e.len() as int))
        } else {
            0
        }
    }
}

/// The `n` values stored as 32-bit little-endian numbers from `at` on.
pub open spec fn u32s_at(b: Seq<u8>, at: int, n: int) -> Seq<u32> {
    Seq::new(n as nat, |c: int| le_value_u32(b.subrange(at + 4 * c, at + 4 * c + 4)))
}

/// Position of the first `x` in `s`.
pub open spec fn first_index(s: Seq<u32>, x: u32) -> Option<int>
    decreases s.len(),
{
    if s.len() == 0 {
        None
    } else if s[0] == x {
        Some(0)
    } else {
        match first_index(s.drop_first(), x) {
            Some(j) => Some(j + 1),
            None => None,
        }
    }
}

/// The header found for `q` starting from the node whose record starts at `at`: where
/// the node's term spells out all of `q`, that node; otherwise the child listed under the
/// next character of `q`, with the rest of `q`. A node's term is cut at the end of the
/// term bytes (a whole term's stored length counts its terminator, which is not written).
/// Nothing is found where a record, the start of a term or a child lies outside the
/// buffers, or a child does not come before its parent.
pub open spec fn find_spec(trie: Seq<u8>, terms: Seq<u8>, at: int, q: Seq<char>) -> Option<
    TrieNodeHeader,
>
    decreases at,
{
    if at < 0 || at + 32 > trie.len() {
        None
    } else {
        let h = header_at(trie, at);
        if h.term_ptr > terms.len() {
            None
        } else {
            let end = if h.term_ptr + h.term_length <= terms.len() {
                h.term_ptr + h.term_length
            } else {
                terms.len() as int
            };
            let stored = terms.subrange(h.term_ptr as int, end);
            let k = matched_chars(q, stored);
            if k < q.len() {
                let rest = q.skip(k as int);
                let nc = h.num_children as int;
                if at + 32 + 8 * nc > trie.len() {
                    None
                } else {
                    match first_index(u32s_at(trie, at + 32, nc), rest[0] as u32) {
                        None => None,
                        Some(j) => {
                            let child = u32s_at(trie, at + 32 + 4 * nc, nc)[j] as int;
                            if child >= at {
                                None
                            } else {
                                find_spec(trie, terms, child, rest)
                            }
                        },
                    }
                }
            } else {
                Some(h)
            }
        }
    }
}

/// The bytes the term of the record at `at` is stored as, cut at the end of the term
/// bytes.
pub open spec fn stored_text(trie: Seq<u8>, terms: Seq<u8>, at: int) -> Seq<u8> {
    let h = header_at(trie, at);
    let end = if h.term_ptr + h.term_length <= terms.len() {
        h.term_ptr + h.term_length
    } else {
        terms.len() as int
    };
    terms.subrange(h.term_ptr as int, end)
}

/// Where the records listed as children of the record at `at` start.
pub open spec fn children_of(trie: Seq<u8>, at: int) -> Seq<u32> {
    let nc = header_at(trie, at).num_children as int;
    u32s_at(trie, at + 32 + 4 * nc, nc)
}

/// Link `i` of a chain of records: the record starts inside the trie, is followed by one
/// of its children, and its stored term begins with the UTF-8 bytes of the piece of `q`
/// between `cuts[i]` and `cuts[i + 1]`.
pub open spec fn spells_at(
    trie: Seq<u8>,
    terms: Seq<u8>,
    nodes: Seq<int>,
    cuts: Seq<int>,
    q: Seq<char>,
    i: int,
) -> bool {
    let piece = encode_utf8(q.subrange(cuts[i], cuts[i + 1]));
    &&& 0 <= cuts[i] <= cuts[i + 1] <= q.len()
    &&& 0 <= nodes[i] && nodes[i] + 32 <= trie.len()
    &&& i < nodes.len() - 1 ==> children_of(trie, nodes[i]).contains(nodes[i + 1] as u32)
    &&& piece.len() <= stored_text(trie, terms, nodes[i]).len()
    &&& stored_text(trie, terms, nodes[i]).take(piece.len() as int) == piece
}

/// `nodes` is a chain of records, each listed among the children of the one before,
/// whose stored terms begin, in turn, with the UTF-8 bytes of the pieces of `q` between
/// the `cuts`: the characters stored along the chain spell out `q`.
pub open spec fn spells(trie: Seq<u8>, terms: Seq<u8>, nodes: Seq<int>, cuts: Seq<int>, q: Seq<char>) -> bool {
    &&& nodes.len() > 0
    &&& cuts.len() == nodes.len() + 1
    &&& cuts[0] == 0
    &&& cuts[nodes.len() as int] == q.len()
    &&& forall|i: int| 0 <= i < nodes.len() ==> #[trigger] spells_at(trie, terms, nodes, cuts, q, i)
}

/// The characters `stored` spells out of `q` are the first ones: `stored` begins with
/// their UTF-8 bytes.
proof fn lemma_matched_spells(q: Seq<char>, stored: Seq<u8>)
    ensures
        matched_chars(q, stored) <= q.len(),
        encode_utf8(q.take(matched_chars(q, stored) as int)).len() <= stored.len(),
        stored.take(encode_utf8(q.take(matched_chars(q, stored) as int)).len() as int) == encode_utf8(
            q.take(matched_chars(q, stored) as int),
        ),
    decreases q.len(),
{
    let m = matched_chars(q, stored) as int;
    if q.len() == 0 || m == 0 {
        assert(q.take(m) =~= Seq::<char>::empty());
        assert(stored.take(0) =~= Seq::<u8>::empty());
    } else {
        let e = encode_scalar(q[0] as u32);
        let rest = stored.skip(e.len() as int);
        lemma_matched_spells(q.drop_first(), rest);
        assert(m == 1 + matched_chars(q.drop_first(), rest));
        let t = q.take(m);
        assert(t[0] == q[0]);
        assert(t.drop_first() =~= q.drop_first().take(m - 1));
        let tail = encode_utf8(q.drop_first().take(m - 1));
        assert(encode_utf8(t) == e + tail);
        assert(stored.take((e.len() + tail.len()) as int) =~= e + rest.take(tail.len() as int));
    }
}

/// A record whose term begins with the first `k` characters of `q`, followed by a chain
/// from one of its children that spells the rest, spells `q`.
proof fn lemma_spells_prepend(
    trie: Seq<u8>,
    terms: Seq<u8>,
    at: int,
    k: int,
    q: Seq<char>,
    nodes2: Seq<int>,
    cuts2: Seq<int>,
)
    requires
        0 <= k <= q.len(),
        0 <= at && at + 32 <= trie.len(),
        encode_utf8(q.take(k)).len() <= stored_text(trie, terms, at).len(),
        stored_text(trie, terms, at).take(encode_utf8(q.take(k)).len() as int) == encode_utf8(q.take(k)),
        spells(trie, terms, nodes2, cuts2, q.skip(k)),
        children_of(trie, at).contains(nodes2[0] as u32),
    ensures
        spells(trie, terms, seq![at] + nodes2, seq![0int] + cuts2.map_values(|c: int| c + k), q),
{
    let rest = q.skip(k);
    let nodes = seq![at] + nodes2;
    let cuts = seq![0int] + cuts2.map_values(|c: int| c + k);
    assert(q.subrange(0, k) =~= q.take(k));
    assert forall|i: int| 0 <= i < nodes.len() implies #[trigger] spells_at(trie, terms, nodes, cuts, q, i) by {
        if i > 0 {
            assert(spells_at(trie, terms, nodes2, cuts2, rest, i - 1));
            assert(nodes[i] == nodes2[i - 1]);
            assert(cuts[i] == cuts2[i - 1] + k);
            assert(cuts[i + 1] == cuts2[i] + k);
            if i < nodes.len() - 1 {
                assert(nodes[i + 1] == nodes2[i]);
            }
            assert(q.subrange(cuts[i], cuts[i + 1]) =~= rest.subrange(cuts2[i - 1], cuts2[i]));
        } else {
            assert(spells_at(trie, terms, nodes2, cuts2, rest, 0));
            assert(cuts[1] == cuts2[0] + k);
            assert(nodes[1] == nodes2[0]);
        }
    }
    assert(cuts[nodes.len() as int] == cuts2[nodes2.len() as int] + k);
}

/// A lookup only finds a node whose term is the query: when `find_spec` finds a header
/// for `q` from the record at `at`, a chain of records from there, each listed as a child
/// of the one before and ending at the record with that header, spells out exactly `q`.
pub proof fn lemma_found_node_spells_query(trie: Seq<u8>, terms: Seq<u8>, at: int, q: Seq<char>)
    ensures
        find_spec(trie, terms, at, q) matches Some(h) ==> exists|nodes: Seq<int>, cuts: Seq<int>|
            #[trigger] spells(trie, terms, nodes, cuts, q) && nodes[0] == at && header_at(
                trie,
                nodes.last(),
            ) == h,
    decreases at,
{
    if find_spec(trie, terms, at, q) is Some {
        let h = header_at(trie, at);
        let stored = stored_text(trie, terms, at);
        let k = matched_chars(q, stored) as int;
        lemma_matched_spells(q, stored);
        if k < q.len() {
            let rest = q.skip(k);
            let nc = h.num_children as int;
            let j = first_index(u32s_at(trie, at + 32, nc), rest[0] as u32)->0;
            let child = u32s_at(trie, at + 32 + 4 * nc, nc)[j] as int;
            lemma_first_index_range(u32s_at(trie, at + 32, nc), rest[0] as u32);
            assert(find_spec(trie, terms, at, q) == find_spec(trie, terms, child, rest));
            lemma_found_node_spells_query(trie, terms, child, rest);
            let (nodes2, cuts2) = choose|nodes: Seq<int>, cuts: Seq<int>|
                #[trigger] spells(trie, terms, nodes, cuts, rest) && nodes[0] == child && header_at(
                    trie,
                    nodes.last(),
                ) == find_spec(trie, terms, at, q)->0;
            assert(children_of(trie, at)[j] == child as u32);
            lemma_spells_prepend(trie, terms, at, k, q, nodes2, cuts2);
            let nodes = seq![at] + nodes2;
            assert(nodes.last() == nodes2.last());
            assert(spells(trie, terms, nodes, seq![0int] + cuts2.map_values(|c: int| c + k), q));
        } else {
            let nodes = seq![at];
            let cuts = seq![0int, q.len() as int];
            assert(q.subrange(0, q.len() as int) =~= q.take(k));
            assert(spells_at(trie, terms, nodes, cuts, q, 0));
            assert(spells(trie, terms, nodes, cuts, q));
        }
    }
}

/// A position `first_index` gives lies inside the sequence.
proof fn lemma_first_index_range(s: Seq<u32>, x: u32)
    ensures
        first_index(s, x) matches Some(j) ==> 0 <= j < s.len() && s[j] == x,
    decreases s.len(),
{
    if s.len() > 0 && s[0] != x {
        lemma_first_index_range(s.drop_first(), x);
    }
}

/// The UTF-8 bytes of `c`.
fn encode_char(c: char) -> (r: Vec<u8>)
    ensures
        r@ == encode_scalar(c as u32),
{
    let v = c as u32;
    proof {
        vstd::utf8::char_is_scalar(c);
    }
    let mut r: Vec<u8> = Vec::new();
    if v <= 0x7F {
        r.push((v & 0x7F) as u8);
    } else if v <= 0x7FF {
        r.push(0xC0 | ((v >> 6) & 0x1F) as u8);
        r.push(0x80 | (v & 0x3F) as u8);
    } else if v <= 0xFFFF {
        r.push(0xE0 | ((v >> 12) & 0x0F) as u8);
        r.push(0x80 | ((v >> 6) & 0x3F) as u8);
        r.push(0x80 | (v & 0x3F) as u8);
    } else {
        r.push(0xF0 | ((v >> 18) & 0x7) as u8);
        r.push(0x80 | ((v >> 12) & 0x3F) as u8);
        r.push(0x80 | ((v >> 6) & 0x3F) as u8);
        r.push(0x80 | (v & 0x3F) as u8);
    }
    assert(r@ =~= encode_scalar(v));
    r
}

/// How many characters of `q[from..]` the bytes `buf[start..start + len]` spell out.
fn match_chars(q: &Vec<char>, from: usize, buf: &[u8], start: usize, len: usize) -> (r: usize)
    requires
        from <= q@.len(),
        start + len <= buf@.len(),
    ensures
        r == matched_chars(q@.skip(from as int), buf@.subrange(start as int, start + len)),
        from + r <= q@.len(),
{
    let ghost whole = buf@.subrange(start as int, start + len);
    let mut i: usize = from;
    let mut off: usize = start;
    assert(buf@.len() == buf.len());
    let end = start + len;
    while i < q.len()
        invariant_except_break
            from <= i <= q@.len(),
            start <= off <= end,
            end == start + len,
            end <= buf@.len(),
            whole == buf@.subrange(start as int, end as int),
            matched_chars(q@.skip(from as int), whole) == (i - from) + matched_chars(
                q@.skip(i as int),
                buf@.subrange(off as int, end as int),
            ),
        ensures
            matched_chars(q@.skip(from as int), whole) == i - from,
            i <= q@.len(),
        decreases q@.len() - i,
    {
        let e = encode_char(q[i]);
        let ghost rest = buf@.subrange(off as int, end as int);
        let ghost qs = q@.skip(i as int);
        proof {
            assert(qs[0] == q@[i as int]);
            assert(qs.drop_first() =~= q@.skip(i + 1));
        }
        if e.len() > end - off {
            break;
        }
        let mut same = true;
        let mut j: usize = 0;
        while j < e.len()
            invariant
                j <= e@.len(),
                off + e@.len() <= end,
                end <= buf@.len(),
                same <==> (forall|x: int| 0 <= x < j ==> buf@[off + x] == e@[x]),
            decreases e@.len() - j,
        {
            if buf[off + j] != e[j] {
                same = false;
            }
            j += 1;
        }
        proof {
            if same {
                assert(rest.take(e@.len() as int) =~= e@) by {
                    assert forall|x: int| 0 <= x < e@.len() implies rest.take(e@.len() as int)[x] == e@[x] by {
                        assert(buf@[off + x] == e@[x]);
                    }
                }
                assert(rest.skip(e@.len() as int) =~= buf@.subrange(off + e@.len(), end as int));
            } else {
                let x = choose|x: int| 0 <= x < e@.len() && buf@[off + x] != e@[x];
                assert(rest.take(e@.len() as int)[x] == buf@[off + x]);
            }
        }
        if !same {
            break;
        }
        off = off + e.len();
        i += 1;
    }
    i - from
}

/// A prefix trie stored in a dictionary buffer, followed by the bytes of its terms.
pub struct StaticTrie<'a> {
    root: usize,
    trie_buffer: &'a [u8],
    term_buffer: &'a [u8],
}

impl<'a> StaticTrie<'a> {
    /// The node records.
    pub closed spec fn trie(&self) -> Seq<u8> {
        self.trie_buffer@
    }

    /// The bytes of the terms.
    pub closed spec fn terms(&self) -> Seq<u8> {
        self.term_buffer@
    }

    /// Where the root's record starts.
    pub closed spec fn root(&self) -> int {
        self.root as int
    }

    /// The trie whose records are the first `dict_size` bytes of `bytes`, with the root's
    /// record at `root_ptr`; the rest of `bytes` holds the terms.
    pub fn new(bytes: &'a [u8], dict_size: usize, root_ptr: usize, terms_size: usize) -> (r: Self)
        requires
            dict_size <= bytes@.len(),
            root_ptr + 32 <= dict_size,
        ensures
            r.trie() == bytes@.subrange(0, dict_size as int),
            r.terms() == bytes@.subrange(dict_size as int, bytes@.len() as int),
            r.root() == root_ptr,
    {
        let trie = vstd::slice::slice_subrange(bytes, 0, dict_size);
        let terms = vstd::slice::slice_subrange(bytes, dict_size, bytes.len());
        StaticTrie { root: root_ptr, trie_buffer: trie, term_buffer: terms }
    }

    /// The header of the node reached by following `term` from the root, as `find_spec`
    /// describes it. Nearest and exact lookups find the same node.
    pub fn find_term(&self, term: &str, find_nearest: bool) -> (r: Option<TrieNodeHeader>)
        ensures
            r == find_spec(self.trie(), self.terms(), self.root(), term@),
    {
        let q = to_wide(term);
        proof {
            assert(q@.skip(0) =~= q@);
        }
        let mut from: usize = 0;
        let mut cursor = self.root;
        let trie = self.trie_buffer;
        let terms = self.term_buffer;
        let tlen = trie.len();
        loop
            invariant
                from <= q@.len(),
                q@ == term@,
                trie@ == self.trie(),
                terms@ == self.terms(),
                tlen == trie@.len(),
                find_spec(trie@, terms@, cursor as int, q@.skip(from as int)) == find_spec(
                    trie@,
                    terms@,
                    self.root(),
                    term@,
                ),
            decreases cursor,
        {
            let ghost qs = q@.skip(from as int);
            if cursor > tlen || tlen - cursor < 32 {
                return None;
            }
            let h = TrieNodeHeader::from_bytes(trie, cursor);
            let tp = h.term_ptr as usize;
            if tp > terms.len() {
                return None;
            }
            let tl = if h.term_length as usize <= terms.len() - tp {
                h.term_length as usize
            } else {
                terms.len() - tp
            };
            let skip = match_chars(&q, from, terms, tp, tl);
            if skip < q.len() - from {
                proof {
                    assert(q@.skip(from + skip) =~= qs.skip(skip as int));
                }
                from = from + skip;
                let letter = q[from] as u32;
                let nc = h.num_children as usize;
                if (tlen - cursor - 32) / 8 < nc {
                    return None;
                }
                let base = cursor + 32;
                assert(base + 8 * nc <= tlen) by (nonlinear_arith)
                    requires
                        (tlen - cursor - 32) / 8 >= nc,
                        base == cursor + 32,
                        cursor + 32 <= tlen,
                ;
                let ghost index = u32s_at(trie@, base as int, nc as int);
                proof {
                    assert(index.skip(0) =~= index);
                }
                let mut j: usize = 0;
                while j < nc && read_u32_le(trie, base + 4 * j) != letter
                    invariant
                        j <= nc,
                        base + 8 * nc <= trie@.len(),
                        trie@.len() == tlen,
                        index == u32s_at(trie@, base as int, nc as int),
                        first_index(index, letter) == (match first_index(index.skip(j as int), letter) {
                            Some(x) => Some(x + j),
                            None => None,
                        }),
                    decreases nc - j,
                {
                    proof {
                        let s = index.skip(j as int);
                        assert(s[0] == index[j as int]);
                        assert(s.drop_first() =~= index.skip(j + 1));
                    }
                    j += 1;
                }
                if j == nc {
                    proof {
                        assert(index.skip(j as int) =~= Seq::<u32>::empty());
                    }
                    return None;
                }
                proof {
                    let s = index.skip(j as int);
                    assert(s[0] == index[j as int]);
                }
                let child = read_u32_le(trie, base + 4 * nc + 4 * j) as usize;
                proof {
                    assert(u32s_at(trie@, base + 4 * nc, nc as int)[j as int] == child);
                }
                if child >= cursor {
                    return None;
                }
                cursor = child;
            } else {
                return Some(h);
            }
        }
    }
}

// ---------------------------------------------------------------------------
// What a lookup reads
// ---------------------------------------------------------------------------

/// Characters whose encoding leads the stored bytes are all matched, and matching goes
/// on with what follows.
pub proof fn lemma_matched_prefix(x: Seq<char>, y: Seq<char>, z: Seq<u8>)
    ensures
        matched_chars(x + y, encode_utf8(x) + z) == x.len() + matched_chars(y, z),
    decreases x.len(),
{
    if x.len() == 0 {
        assert(x + y =~= y);
        assert(encode_utf8(x) + z =~= z);
    } else {
        let e = encode_scalar(x[0] as u32);
        let q = x + y;
        let st = encode_utf8(x) + z;
        assert(q[0] == x[0]);
        assert(encode_utf8(x) == e + encode_utf8(x.drop_first()));
        assert(st =~= e + (encode_utf8(x.drop_first()) + z));
        assert(st.take(e.len() as int) =~= e);
        assert(q.drop_first() =~= x.drop_first() + y);
        assert(st.skip(e.len() as int) =~= encode_utf8(x.drop_first()) + z);
        lemma_matched_prefix(x.drop_first(), y, z);
    }
}

/// Nothing more is matched once the stored bytes are used up.
pub proof fn lemma_matched_exhausted(y: Seq<char>)
    requires
        y.len() > 0,
    ensures
        matched_chars(y, Seq::<u8>::empty()) == 0,
{
    assert(encode_scalar(y[0] as u32).len() >= 1);
}

/// The position of an item in strictly increasing values is its first one.
pub proof fn lemma_first_index_increasing(s: Seq<u32>, x: int)
    requires
        0 <= x < s.len(),
        forall|a: int, b: int| 0 <= a < b < s.len() ==> s[a] < s[b],
    ensures
        first_index(s, s[x]) == Some(x),
    decreases s.len(),
{
    if x > 0 {
        let t = s.drop_first();
        assert forall|a: int, b: int| 0 <= a < b < t.len() implies t[a] < t[b] by {
            assert(t[a] == s[a + 1] && t[b] == s[b + 1]);
        }
        assert(t[x - 1] == s[x]);
        lemma_first_index_increasing(t, x - 1);
        assert(s[0] < s[x]);
    }
}

/// A lookup that finds a node keeps finding it when more bytes follow the records.
pub proof fn lemma_find_extend(b: Seq<u8>, x: Seq<u8>, t: Seq<u8>, at: int, q: Seq<char>)
    requires
        find_spec(b, t, at, q) is Some,
    ensures
        find_spec(b + x, t, at, q) == find_spec(b, t, at, q),
    decreases at,
{
    let bx = b + x;
    assert(0 <= at && at + 32 <= b.len());
    assert(bx.subrange(at, at + 8) =~= b.subrange(at, at + 8));
    assert(bx.subrange(at + 8, at + 16) =~= b.subrange(at + 8, at + 16));
    assert(bx.subrange(at + 16, at + 20) =~= b.subrange(at + 16, at + 20));
    assert(bx.subrange(at + 20, at + 24) =~= b.subrange(at + 20, at + 24));
    assert(bx.subrange(at + 24, at + 28) =~= b.subrange(at + 24, at + 28));
    assert(bx.subrange(at + 28, at + 30) =~= b.subrange(at + 28, at + 30));
    assert(bx[at + 30] == b[at + 30]);
    let h = header_at(b, at);
    assert(header_at(bx, at) == h);
    if h.term_ptr <= t.len() {
        let end = if h.term_ptr + h.term_length <= t.len() {
            h.term_ptr + h.term_length
        } else {
            t.len() as int
        };
        let k = matched_chars(q, t.subrange(h.term_ptr as int, end));
        if k < q.len() {
            let nc = h.num_children as int;
            let rest = q.skip(k as int);
            assert(at + 32 + 8 * nc <= b.len());
            assert forall|c: int| 0 <= c < nc implies #[trigger] u32s_at(bx, at + 32, nc)[c] == u32s_at(b, at + 32, nc)[c] by {
                assert(bx.subrange(at + 32 + 4 * c, at + 32 + 4 * c + 4) =~= b.subrange(at + 32 + 4 * c, at + 32 + 4 * c + 4));
            }
            assert(u32s_at(bx, at + 32, nc) =~= u32s_at(b, at + 32, nc));
            assert forall|c: int| 0 <= c < nc implies #[trigger] u32s_at(bx, at + 32 + 4 * nc, nc)[c] == u32s_at(b, at + 32 + 4 * nc, nc)[c] by {
                assert(bx.subrange(at + 32 + 4 * nc + 4 * c, at + 32 + 4 * nc + 4 * c + 4) =~= b.subrange(at + 32 + 4 * nc + 4 * c, at + 32 + 4 * nc + 4 * c + 4));
            }
            assert(u32s_at(bx, at + 32 + 4 * nc, nc) =~= u32s_at(b, at + 32 + 4 * nc, nc));
            match first_index(u32s_at(b, at + 32, nc), rest[0] as u32) {
                Some(j) => {
                    let child = u32s_at(b, at + 32 + 4 * nc, nc)[j] as int;
                    if child < at {
                        lemma_find_extend(b, x, t, child, rest);
                    }
                },
                None => {},
            }
        }
    }
}

} // verus!
