use vstd::prelude::*;
use vstd::utf8::encode_utf8;
use crate::types::Term;
use crate::util::{utf8_len, common_prefix_chars, lemma_common_prefix_chars, lemma_encode_utf8_concat};
use crate::indexing::{chars_le, terms_sorted};
use crate::header::TrieNodeHeader;
use crate::trie::{is_prefix, null_terminated, terms_bytes, term_offset, terms_placeable, stored_term};
use crate::trie_read::{matched_chars, lemma_matched_prefix, lemma_matched_exhausted};

verus! {

// ---------------------------------------------------------------------------
// Terms in dictionary order
// ---------------------------------------------------------------------------

/// The terms come in strictly increasing order of their characters.
pub open spec fn dictionary_order(ts: Seq<Term>) -> bool {
    forall|a: int, b: int|
        #![trigger ts[a], ts[b]]
        0 <= a < b < ts.len() ==> chars_le(ts[a].term@, ts[b].term@) && ts[a].term@ != ts[b].term@
}

/// No two terms share an identifier.
pub open spec fn ids_distinct(ts: Seq<Term>) -> bool {
    forall|a: int, b: int| #![trigger ts[a], ts[b]] 0 <= a < b < ts.len() ==> ts[a].term_id != ts[b].term_id
}

/// A term that a lookup tells apart from the nodes above it: it is not empty, and it does
/// not start the term after it.
pub open spec fn distinguishable(ts: Seq<Term>, m: int) -> bool {
    &&& ts[m].term@.len() > 0
    &&& m + 1 < ts.len() ==> !is_prefix(ts[m].term@, ts[m + 1].term@)
}

/// The characters that term `a`, with its terminator, shares with the term before it.
pub open spec fn fork_term(ts: Seq<Term>, a: int) -> Seq<char> {
    let x = null_terminated(ts[a - 1].term@);
    x.take(common_prefix_chars(x, null_terminated(ts[a].term@)) as int)
}

/// `t` is the shared start of two neighbouring terms.
pub open spec fn is_fork(ts: Seq<Term>, t: Seq<char>) -> bool {
    exists|a: int| 1 <= a < ts.len() && t == #[trigger] fork_term(ts, a)
}

// ---------------------------------------------------------------------------
// The order of characters
// ---------------------------------------------------------------------------

/// A prefix comes first.
pub proof fn lemma_prefix_le(x: Seq<char>, y: Seq<char>)
    requires
        is_prefix(x, y),
    ensures
        chars_le(x, y),
    decreases x.len(),
{
    if x.len() > 0 {
        assert(y[0] == y.take(x.len() as int)[0]);
        assert(y.drop_first().take(x.len() - 1) =~= x.drop_first());
        lemma_prefix_le(x.drop_first(), y.drop_first());
    }
}

/// The two characters are the same when their code points are.
proof fn lemma_char_eq(c: char, d: char)
    requires
        c as u32 == d as u32,
    ensures
        c == d,
{
    vstd::utf8::char_u32_cast(c, c as u32);
    vstd::utf8::char_u32_cast(d, d as u32);
}

/// Each coming no later than the other, the two are the same.
pub proof fn lemma_le_antisymmetric(x: Seq<char>, y: Seq<char>)
    requires
        chars_le(x, y),
        chars_le(y, x),
    ensures
        x == y,
    decreases x.len(),
{
    if x.len() == 0 {
        assert(x =~= y);
    } else {
        if x[0] != y[0] {
            if (x[0] as u32) == (y[0] as u32) {
                lemma_char_eq(x[0], y[0]);
            }
        }
        lemma_le_antisymmetric(x.drop_first(), y.drop_first());
        assert(x =~= seq![x[0]] + x.drop_first());
        assert(y =~= seq![y[0]] + y.drop_first());
    }
}

/// What lies between a prefix of `z` and `z` itself starts with that prefix.
pub proof fn lemma_between(x: Seq<char>, y: Seq<char>, z: Seq<char>)
    requires
        is_prefix(x, z),
        chars_le(x, y),
        chars_le(y, z),
    ensures
        is_prefix(x, y),
    decreases x.len(),
{
    if x.len() > 0 {
        assert(z[0] == z.take(x.len() as int)[0]);
        if x[0] != y[0] {
            if (x[0] as u32) == (y[0] as u32) {
                lemma_char_eq(x[0], y[0]);
            }
        }
        assert(z.drop_first().take(x.len() - 1) =~= x.drop_first());
        lemma_between(x.drop_first(), y.drop_first(), z.drop_first());
        assert(y.take(x.len() as int) =~= seq![y[0]] + y.drop_first().take(x.len() - 1));
        assert(x =~= seq![x[0]] + x.drop_first());
    } else {
        assert(y.take(0) =~= x);
    }
}

/// Where two ordered sequences first differ, the first has the smaller character.
pub proof fn lemma_le_at_difference(a: Seq<char>, b: Seq<char>, k: int)
    requires
        chars_le(a, b),
        0 <= k < a.len(),
        k < b.len(),
        a.take(k) == b.take(k),
        a[k] != b[k],
    ensures
        (a[k] as u32) < (b[k] as u32),
    decreases k,
{
    if k == 0 {
        if (a[0] as u32) == (b[0] as u32) {
            lemma_char_eq(a[0], b[0]);
        }
    } else {
        assert(a[0] == a.take(k)[0] && b[0] == b.take(k)[0]);
        assert(a.drop_first().take(k - 1) =~= a.take(k).drop_first());
        assert(b.drop_first().take(k - 1) =~= b.take(k).drop_first());
        lemma_le_at_difference(a.drop_first(), b.drop_first(), k - 1);
    }
}

// ---------------------------------------------------------------------------
// Neighbouring terms
// ---------------------------------------------------------------------------

/// Terms sorted by their characters, no two of them the same, are in dictionary order.
pub proof fn lemma_sorted_distinct_terms(ts: Seq<Term>)
    requires
        terms_sorted(ts),
        forall|a: int, b: int| #![trigger ts[a], ts[b]] 0 <= a < b < ts.len() ==> ts[a].term@ != ts[b].term@,
    ensures
        dictionary_order(ts),
{
}

/// Of two terms at different places, the earlier comes first and they differ.
pub proof fn lemma_ordered_pair(ts: Seq<Term>, a: int, b: int)
    requires
        dictionary_order(ts),
        0 <= a < b < ts.len(),
    ensures
        chars_le(ts[a].term@, ts[b].term@),
        ts[a].term@ != ts[b].term@,
{
}

/// A term followed by the zero character still comes no later than a greater term.
pub proof fn lemma_le_push_zero(t: Seq<char>, u: Seq<char>)
    requires
        chars_le(t, u),
        t != u,
    ensures
        chars_le(t.push('\0'), u),
    decreases t.len(),
{
    let tz = t.push('\0');
    if t.len() == 0 {
        assert(u.len() > 0) by {
            if u.len() == 0 {
                assert(t =~= u);
            }
        }
        assert(tz[0] == '\0');
        assert(('\0' as u32) == 0);
        if (tz[0] as u32) == (u[0] as u32) {
            lemma_char_eq(tz[0], u[0]);
            assert(tz.drop_first() =~= Seq::<char>::empty());
            assert(chars_le(tz.drop_first(), u.drop_first()));
        } else {
            assert((tz[0] as u32) < (u[0] as u32));
        }
    } else {
        assert(u.len() > 0);
        assert(tz[0] == t[0]);
        if t[0] == u[0] {
            if t.drop_first() == u.drop_first() {
                assert(t =~= seq![t[0]] + t.drop_first());
                assert(u =~= seq![u[0]] + u.drop_first());
            }
            assert(chars_le(t.drop_first(), u.drop_first()));
            lemma_le_push_zero(t.drop_first(), u.drop_first());
            assert(tz.drop_first() =~= t.drop_first().push('\0'));
            assert(chars_le(tz.drop_first(), u.drop_first()));
        } else {
            if (t[0] as u32) == (u[0] as u32) {
                lemma_char_eq(t[0], u[0]);
            }
            assert((t[0] as u32) < (u[0] as u32));
        }
    }
}

/// The shared start of two neighbours is shorter than the first with its terminator,
/// and starts the first without it and the second with it.
pub proof fn lemma_fork_term(ts: Seq<Term>, a: int)
    requires
        terms_placeable(ts),
        1 <= a < ts.len(),
    ensures
        fork_term(ts, a).len() <= ts[a - 1].term@.len(),
        is_prefix(fork_term(ts, a), ts[a - 1].term@),
        is_prefix(fork_term(ts, a), null_terminated(ts[a].term@)),
        fork_term(ts, a).len() == common_prefix_chars(
            null_terminated(ts[a - 1].term@),
            null_terminated(ts[a].term@),
        ),
{
    reveal(terms_placeable);
    let x = null_terminated(ts[a - 1].term@);
    let y = null_terminated(ts[a].term@);
    let k = common_prefix_chars(x, y) as int;
    lemma_common_prefix_chars(x, y);
    if k == x.len() {
        assert(x.take(k) =~= x);
        assert(is_prefix(x, y));
    }
    assert(x.take(k) =~= ts[a - 1].term@.take(k));
}

/// No shared start of neighbours is a whole term with its terminator.
pub proof fn lemma_fork_not_terminated(ts: Seq<Term>, a: int, b: int)
    requires
        dictionary_order(ts),
        terms_placeable(ts),
        1 <= a < ts.len(),
        0 <= b < ts.len(),
    ensures
        fork_term(ts, a) != null_terminated(ts[b].term@),
{
    let f = fork_term(ts, a);
    let tb = ts[b].term@;
    let x = null_terminated(tb);
    lemma_fork_term(ts, a);
    if f == x {
        let prev = ts[a - 1].term@;
        // the term with its terminator starts the term before `a`
        assert(prev.take(f.len() as int) == f);
        assert(tb =~= prev.take(tb.len() as int));
        assert(is_prefix(tb, prev));
        lemma_prefix_le(tb, prev);
        assert(tb != prev);
        if b > a - 1 {
            lemma_ordered_pair(ts, a - 1, b);
            lemma_le_antisymmetric(tb, prev);
        }
        assert(b < a - 1);
        let next = ts[b + 1].term@;
        lemma_ordered_pair(ts, b, b + 1);
        lemma_le_push_zero(tb, next);
        if b + 1 < a - 1 {
            lemma_ordered_pair(ts, b + 1, a - 1);
        } else {
            assert(prev.take(prev.len() as int) =~= prev);
            lemma_prefix_le(prev, prev);
        }
        lemma_between(x, next, prev);
        assert(null_terminated(next).take(x.len() as int) =~= next.take(x.len() as int));
        reveal(terms_placeable);
        assert(is_prefix(null_terminated(ts[b].term@), null_terminated(ts[b + 1].term@)));
    }
}

/// No shared start of neighbours is a whole term that a lookup tells apart.
pub proof fn lemma_fork_not_term(ts: Seq<Term>, a: int, m: int)
    requires
        dictionary_order(ts),
        terms_placeable(ts),
        1 <= a < ts.len(),
        0 <= m < ts.len(),
        distinguishable(ts, m),
    ensures
        fork_term(ts, a) != ts[m].term@,
{
    let f = fork_term(ts, a);
    let tm = ts[m].term@;
    lemma_fork_term(ts, a);
    if f == tm {
        let k = tm.len() as int;
        let x = null_terminated(ts[a - 1].term@);
        let y = null_terminated(ts[a].term@);
        lemma_common_prefix_chars(x, y);
        let prev = ts[a - 1].term@;
        if k == prev.len() {
            assert(prev =~= prev.take(k));
            if a - 1 < m {
                lemma_ordered_pair(ts, a - 1, m);
            } else if m < a - 1 {
                lemma_ordered_pair(ts, m, a - 1);
            }
            // so the term is the one before `a`, and `a` goes on past it
            assert(m == a - 1);
            let next = ts[a].term@;
            if k == y.len() {
                assert(y.take(k) =~= y);
                lemma_fork_not_terminated(ts, a, a);
            } else {
                assert(x[k] == '\0');
                if k == next.len() {
                    assert(y[k] == '\0');
                }
                assert(next.take(k) =~= y.take(k));
                assert(is_prefix(tm, next));
            }
        } else {
            lemma_prefix_le(tm, prev);
            if a - 1 < m {
                lemma_ordered_pair(ts, a - 1, m);
                lemma_le_antisymmetric(tm, prev);
            } else {
                assert(m < a - 1);
                let mid = ts[m + 1].term@;
                lemma_ordered_pair(ts, m, m + 1);
                if m + 1 < a - 1 {
                    lemma_ordered_pair(ts, m + 1, a - 1);
                } else {
                    assert(prev.take(prev.len() as int) =~= prev);
                    lemma_prefix_le(prev, prev);
                }
                lemma_between(tm, mid, prev);
            }
        }
    }
}

/// A node with the shared start of neighbours, or the root, above a term that a lookup
/// tells apart is shorter than that term.
pub proof fn lemma_parent_shorter(ts: Seq<Term>, p: Seq<char>, m: int)
    requires
        dictionary_order(ts),
        terms_placeable(ts),
        0 <= m < ts.len(),
        distinguishable(ts, m),
        p.len() == 0 || is_fork(ts, p),
        is_prefix(p, null_terminated(ts[m].term@)),
    ensures
        p.len() < ts[m].term@.len(),
        is_prefix(p, ts[m].term@),
{
    let tm = ts[m].term@;
    if p.len() == 0 {
        assert(tm.take(0) =~= p);
    } else {
        let a = choose|a: int| 1 <= a < ts.len() && p == #[trigger] fork_term(ts, a);
        if p.len() == tm.len() + 1 {
            assert(p =~= null_terminated(tm));
            lemma_fork_not_terminated(ts, a, m);
        }
        assert(tm.take(p.len() as int) =~= null_terminated(tm).take(p.len() as int));
        if p.len() == tm.len() {
            assert(tm.take(p.len() as int) =~= tm);
            lemma_fork_not_term(ts, a, m);
        }
    }
}

/// Where a term parts from the one before it, the earlier has the smaller character,
/// and both go on past that point (counting their terminators).
pub proof fn lemma_next_letter(ts: Seq<Term>, i: int)
    requires
        dictionary_order(ts),
        terms_placeable(ts),
        1 <= i < ts.len(),
    ensures
        ({
            let x = null_terminated(ts[i - 1].term@);
            let y = null_terminated(ts[i].term@);
            let k = common_prefix_chars(x, y) as int;
            &&& k < x.len()
            &&& k < y.len()
            &&& (x[k] as u32) < (y[k] as u32)
        }),
{
    let prev = ts[i - 1].term@;
    let cur = ts[i].term@;
    let x = null_terminated(prev);
    let y = null_terminated(cur);
    let k = common_prefix_chars(x, y) as int;
    lemma_fork_term(ts, i);
    lemma_common_prefix_chars(x, y);
    lemma_ordered_pair(ts, i - 1, i);
    if k == y.len() {
        // the term with its terminator would start the one before it
        assert(y.take(k) =~= y);
        assert(cur =~= prev.take(cur.len() as int));
        assert(is_prefix(cur, prev));
        lemma_prefix_le(cur, prev);
        lemma_le_antisymmetric(cur, prev);
    }
    assert(k < y.len());
    if k == prev.len() {
        assert(x[k] == '\0');
        if (x[k] as u32) == (y[k] as u32) {
            lemma_char_eq(x[k], y[k]);
        }
    } else if k == cur.len() {
        assert(y[k] == '\0');
        assert(cur =~= y.take(k));
        assert(prev.take(k) =~= x.take(k));
        assert(is_prefix(cur, prev));
        lemma_prefix_le(cur, prev);
        lemma_le_antisymmetric(cur, prev);
    } else {
        assert(prev.take(k) =~= x.take(k));
        assert(cur.take(k) =~= y.take(k));
        lemma_le_at_difference(prev, cur, k);
    }
}

// ---------------------------------------------------------------------------
// Where the characters of a node are stored
// ---------------------------------------------------------------------------

/// The term bytes are those of the first terms followed by those of the rest.
pub proof fn lemma_terms_bytes_concat(ts: Seq<Term>, j: int)
    requires
        0 <= j <= ts.len(),
    ensures
        terms_bytes(ts) == terms_bytes(ts.take(j)) + terms_bytes(ts.skip(j)),
    decreases ts.len(),
{
    if j == ts.len() {
        assert(ts.take(j) =~= ts);
        assert(ts.skip(j) =~= Seq::<Term>::empty());
        assert(terms_bytes(ts) + Seq::<u8>::empty() =~= terms_bytes(ts));
    } else {
        lemma_terms_bytes_concat(ts.drop_last(), j);
        assert(ts.drop_last().take(j) =~= ts.take(j));
        assert(ts.skip(j).drop_last() =~= ts.drop_last().skip(j));
        assert(ts.skip(j).last() == ts.last());
        assert(terms_bytes(ts) =~= terms_bytes(ts.take(j)) + terms_bytes(ts.skip(j)));
    }
}

/// The bytes of term `a` lie at its offset.
pub proof fn lemma_term_text(ts: Seq<Term>, a: int)
    requires
        0 <= a < ts.len(),
    ensures
        term_offset(ts, a) + utf8_len(ts[a].term@) <= terms_bytes(ts).len(),
        terms_bytes(ts).subrange(term_offset(ts, a), term_offset(ts, a) + utf8_len(ts[a].term@))
            == encode_utf8(ts[a].term@),
{
    lemma_terms_bytes_concat(ts, a + 1);
    assert(ts.take(a + 1).drop_last() =~= ts.take(a));
    let pre = terms_bytes(ts.take(a));
    let e = encode_utf8(ts[a].term@);
    assert(terms_bytes(ts.take(a + 1)) == pre + e);
    assert(terms_bytes(ts).subrange(pre.len() as int, (pre.len() + e.len()) as int) =~= e);
}

/// A node whose characters start term `a`, and which lies strictly above the end of `q`
/// on the way down, spells out its own characters of `q` and no more.
pub proof fn lemma_matched_node(
    ts: Seq<Term>,
    a: int,
    t: Seq<char>,
    plen: int,
    q: Seq<char>,
    h: TrieNodeHeader,
)
    requires
        0 <= a < ts.len(),
        is_prefix(t, ts[a].term@),
        0 <= plen <= t.len(),
        is_prefix(t, q),
        t.len() < q.len(),
        h.term_ptr as int == term_offset(ts, a) + utf8_len(t.take(plen)),
        h.term_length as int == utf8_len(t) - utf8_len(t.take(plen)),
    ensures
        h.term_ptr <= terms_bytes(ts).len(),
        matched_chars(q.skip(plen), stored_term(h, terms_bytes(ts))) == t.len() - plen,
{
    let ta = ts[a].term@;
    let tb = terms_bytes(ts);
    let off = term_offset(ts, a);
    lemma_term_text(ts, a);
    assert(ta =~= t + ta.skip(t.len() as int));
    lemma_encode_utf8_concat(t, ta.skip(t.len() as int));
    assert(t =~= t.take(plen) + t.skip(plen));
    lemma_encode_utf8_concat(t.take(plen), t.skip(plen));
    let e = encode_utf8(t.skip(plen));
    let start = off + utf8_len(t.take(plen));
    let end = off + utf8_len(t);
    let full = tb.subrange(off, off + utf8_len(ta));
    assert(full == encode_utf8(t.take(plen)) + e + encode_utf8(ta.skip(t.len() as int)));
    assert forall|c: int| 0 <= c < e.len() implies #[trigger] tb.subrange(start, end)[c] == e[c] by {
        assert(tb.subrange(start, end)[c] == full[start - off + c]);
    }
    assert(tb.subrange(start, end) =~= e);
    assert(stored_term(h, tb) == tb.subrange(start, end));
    let rest = q.skip(t.len() as int);
    assert(q.skip(plen) =~= t.skip(plen) + rest);
    assert(e + Seq::<u8>::empty() =~= e);
    lemma_matched_prefix(t.skip(plen), rest, Seq::<u8>::empty());
    lemma_matched_exhausted(rest);
}

/// A node whose characters start term `a`, stored after the first `plen` of them, spells
/// out the rest of its own characters.
pub proof fn lemma_matched_node_whole(ts: Seq<Term>, a: int, t: Seq<char>, plen: int, h: TrieNodeHeader)
    requires
        0 <= a < ts.len(),
        is_prefix(t, ts[a].term@),
        0 <= plen <= t.len(),
        h.term_ptr as int == term_offset(ts, a) + utf8_len(t.take(plen)),
        h.term_length as int == utf8_len(t) - utf8_len(t.take(plen)),
    ensures
        h.term_ptr <= terms_bytes(ts).len(),
        matched_chars(t.skip(plen), stored_term(h, terms_bytes(ts))) == t.len() - plen,
{
    let ta = ts[a].term@;
    let tb = terms_bytes(ts);
    let off = term_offset(ts, a);
    lemma_term_text(ts, a);
    assert(ta =~= t + ta.skip(t.len() as int));
    lemma_encode_utf8_concat(t, ta.skip(t.len() as int));
    assert(t =~= t.take(plen) + t.skip(plen));
    lemma_encode_utf8_concat(t.take(plen), t.skip(plen));
    let e = encode_utf8(t.skip(plen));
    let start = off + utf8_len(t.take(plen));
    let end = off + utf8_len(t);
    let full = tb.subrange(off, off + utf8_len(ta));
    assert(full == encode_utf8(t.take(plen)) + e + encode_utf8(ta.skip(t.len() as int)));
    assert forall|c: int| 0 <= c < e.len() implies #[trigger] tb.subrange(start, end)[c] == e[c] by {
        assert(tb.subrange(start, end)[c] == full[start - off + c]);
    }
    assert(tb.subrange(start, end) =~= e);
    assert(stored_term(h, tb) == tb.subrange(start, end));
    assert(t.skip(plen) + Seq::<char>::empty() =~= t.skip(plen));
    assert(e + Seq::<u8>::empty() =~= e);
    lemma_matched_prefix(t.skip(plen), Seq::<char>::empty(), Seq::<u8>::empty());
}

/// The leaf of term `m`, stored after the first `plen` characters, spells out the rest of
/// the term.
pub proof fn lemma_matched_leaf(ts: Seq<Term>, m: int, plen: int, h: TrieNodeHeader)
    requires
        0 <= m < ts.len(),
        0 <= plen <= ts[m].term@.len(),
        h.term_ptr as int == term_offset(ts, m) + utf8_len(ts[m].term@.take(plen)),
        h.term_length as int == utf8_len(ts[m].term@) + 1 - utf8_len(ts[m].term@.take(plen)),
    ensures
        h.term_ptr <= terms_bytes(ts).len(),
        matched_chars(ts[m].term@.skip(plen), stored_term(h, terms_bytes(ts))) == ts[m].term@.len()
            - plen,
{
    let t = ts[m].term@;
    let tb = terms_bytes(ts);
    let off = term_offset(ts, m);
    lemma_term_text(ts, m);
    assert(t =~= t.take(plen) + t.skip(plen));
    lemma_encode_utf8_concat(t.take(plen), t.skip(plen));
    let e = encode_utf8(t.skip(plen));
    let start = off + utf8_len(t.take(plen));
    let mid = off + utf8_len(t);
    let end = if mid + 1 <= tb.len() {
        mid + 1
    } else {
        tb.len() as int
    };
    let z = tb.subrange(mid, end);
    let full = tb.subrange(off, mid);
    assert(full == encode_utf8(t.take(plen)) + e);
    assert forall|c: int| 0 <= c < e.len() + z.len() implies #[trigger] tb.subrange(start, end)[c] == (e + z)[c] by {
        if c < e.len() {
            assert(tb.subrange(start, end)[c] == full[start - off + c]);
        } else {
            assert(tb.subrange(start, end)[c] == z[c - e.len()]);
        }
    }
    assert(tb.subrange(start, end) =~= e + z);
    assert(stored_term(h, tb) == tb.subrange(start, end));
    assert(t.skip(plen) + Seq::<char>::empty() =~= t.skip(plen));
    lemma_matched_prefix(t.skip(plen), Seq::<char>::empty(), z);
}

} // verus!
