use vstd::prelude::*;
use vstd::std_specs::iter::IteratorSpec;
use vstd::utf8::{encode_scalar, encode_utf8};
use crate::types::DocId;

verus! {

broadcast use vstd::string::group_string_axioms;

// ---------------------------------------------------------------------------
// Characters and their UTF-8 widths
// ---------------------------------------------------------------------------

/// Number of characters at the start of `a` and `b` that agree.
pub open spec fn common_prefix_chars(a: Seq<char>, b: Seq<char>) -> nat
    decreases a.len(),
{
    if a.len() == 0 || b.len() == 0 || a[0] != b[0] {
        0
    } else {
        1 + common_prefix_chars(a.drop_first(), b.drop_first())
    }
}

/// The common prefix does not depend on the order of the two sequences; a sequence
/// shares all of itself with itself and with every extension of itself.
pub proof fn lemma_common_prefix_laws(a: Seq<char>, b: Seq<char>, c: Seq<char>)
    ensures
        common_prefix_chars(a, b) == common_prefix_chars(b, a),
        utf8_len(a.take(common_prefix_chars(a, b) as int)) == utf8_len(b.take(common_prefix_chars(b, a) as int)),
        common_prefix_chars(a, a) == a.len(),
        common_prefix_chars(a, a + c) == a.len(),
    decreases a.len(),
{
    lemma_common_prefix_chars(a, b);
    if a.len() > 0 && b.len() > 0 && a[0] == b[0] {
        lemma_common_prefix_laws(a.drop_first(), b.drop_first(), c);
    }
    if a.len() > 0 {
        lemma_common_prefix_laws(a.drop_first(), a.drop_first(), c);
        assert((a + c).drop_first() =~= a.drop_first() + c);
        assert((a + c)[0] == a[0]);
    }
}

/// UTF-8 length in bytes of a character sequence.
pub open spec fn utf8_len(s: Seq<char>) -> nat {
    encode_utf8(s).len()
}

/// `common_prefix_chars` is the length of the longest common prefix.
pub proof fn lemma_common_prefix_chars(a: Seq<char>, b: Seq<char>)
    ensures
        common_prefix_chars(a, b) <= a.len(),
        common_prefix_chars(a, b) <= b.len(),
        a.take(common_prefix_chars(a, b) as int) == b.take(common_prefix_chars(a, b) as int),
        common_prefix_chars(a, b) < a.len() && common_prefix_chars(a, b) < b.len() ==> a[common_prefix_chars(a, b) as int]
            != b[common_prefix_chars(a, b) as int],
    decreases a.len(),
{
    if a.len() == 0 || b.len() == 0 || a[0] != b[0] {
        assert(a.take(0) =~= b.take(0));
    } else {
        let k = common_prefix_chars(a.drop_first(), b.drop_first());
        lemma_common_prefix_chars(a.drop_first(), b.drop_first());
        assert(a.take(k + 1int) =~= seq![a[0]] + a.drop_first().take(k as int));
        assert(b.take(k + 1int) =~= seq![b[0]] + b.drop_first().take(k as int));
    }
}

/// UTF-8 encoding distributes over concatenation.
pub proof fn lemma_encode_utf8_concat(a: Seq<char>, b: Seq<char>)
    ensures
        encode_utf8(a + b) == encode_utf8(a) + encode_utf8(b),
    decreases a.len(),
{
    if a.len() == 0 {
        assert(a + b =~= b);
        assert(encode_utf8(a) + encode_utf8(b) =~= encode_utf8(b));
    } else {
        lemma_encode_utf8_concat(a.drop_first(), b);
        assert((a + b).drop_first() =~= a.drop_first() + b);
        assert((a + b)[0] == a[0]);
        assert(encode_utf8(a + b) =~= encode_scalar(a[0] as u32) + (encode_utf8(a.drop_first())
            + encode_utf8(b)));
    }
}

/// Extending a character prefix by one character adds that character's width.
pub proof fn lemma_utf8_len_take_step(s: Seq<char>, k: int)
    requires
        0 <= k < s.len(),
    ensures
        utf8_len(s.take(k + 1)) == utf8_len(s.take(k)) + encode_scalar(s[k] as u32).len(),
{
    assert(s.take(k + 1) =~= s.take(k) + seq![s[k]]);
    lemma_encode_utf8_concat(s.take(k), seq![s[k]]);
    let one = seq![s[k]];
    assert(one.drop_first() =~= Seq::<char>::empty());
    assert(encode_utf8(one.drop_first()) =~= Seq::<u8>::empty());
    assert(encode_utf8(one) =~= encode_scalar(one[0] as u32) + encode_utf8(one.drop_first()));
    assert(encode_utf8(one) =~= encode_scalar(s[k] as u32));
}

/// A character prefix never encodes to more bytes than the whole sequence.
pub proof fn lemma_utf8_len_take_le(s: Seq<char>, k: int)
    requires
        0 <= k <= s.len(),
    ensures
        utf8_len(s.take(k)) <= utf8_len(s),
{
    assert(s =~= s.take(k) + s.skip(k));
    lemma_encode_utf8_concat(s.take(k), s.skip(k));
}

/// Width in bytes of the UTF-8 encoding of `c`.
pub fn utf8_width(c: char) -> (r: usize)
    ensures
        r == encode_scalar(c as u32).len(),
        1 <= r <= 4,
{
    let v = c as u32;
    proof {
        vstd::utf8::char_is_scalar(c);
    }
    if v <= 0x7F {
        1
    } else if v <= 0x7FF {
        2
    } else if v <= 0xFFFF {
        3
    } else {
        4
    }
}

/// The characters of a string slice, in order.
pub fn to_wide(s: &str) -> (r: Vec<char>)
    ensures
        r@ == s@,
{
    let mut res: Vec<char> = Vec::new();
    for c in it: s.chars()
        invariant
            res@ == it.seq().take(it.index() as int),
            it.seq() == s@,
    {
        res.push(c);
    }
    res
}

/// Appends `c` to `s` with `String::push`, which std documents as appending the given
/// character to the end of the string; the contract claims just that of the characters.
#[verifier::external_body]
fn string_push(s: &mut String, c: char)
    ensures
        final(s)@ == old(s)@.push(c),
{
    s.push(c)
}

/// The string made of the characters `s`, in order.
pub fn from_wide(s: &Vec<char>) -> (r: String)
    ensures
        r@ == s@,
{
    let mut r = String::new();
    let mut i: usize = 0;
    while i < s.len()
        invariant
            i <= s@.len(),
            r@ == s@.take(i as int),
        decreases s@.len() - i,
    {
        string_push(&mut r, s[i]);
        assert(r@ =~= s@.take(i + 1));
        i += 1;
    }
    assert(s@.take(s@.len() as int) =~= s@);
    r
}

/// Byte length of the longest common character prefix of `a` and `b`.
pub fn common_prefix_len(a: &str, b: &str) -> (r: usize)
    ensures
        r == utf8_len(a@.take(common_prefix_chars(a@, b@) as int)),
{
    let total = a.as_bytes().len();
    let aw = to_wide(a);
    let bw = to_wide(b);
    let mut i: usize = 0;
    let mut acc: usize = 0;
    proof {
        lemma_common_prefix_chars(a@, b@);
    }
    let ghost k = common_prefix_chars(a@, b@);
    while i < aw.len() && i < bw.len() && aw[i] == bw[i]
        invariant
            aw@ == a@,
            bw@ == b@,
            i <= k,
            k == common_prefix_chars(a@, b@),
            k <= a@.len(),
            k <= b@.len(),
            a@.take(k as int) == b@.take(k as int),
            k < a@.len() && k < b@.len() ==> a@[k as int] != b@[k as int],
            acc == utf8_len(a@.take(i as int)),
            total == utf8_len(a@),
        decreases aw.len() - i,
    {
        proof {
            if i == k {
                assert(false);
            }
            lemma_utf8_len_take_step(a@, i as int);
            lemma_utf8_len_take_le(a@, i + 1);
        }
        acc = acc + utf8_width(aw[i]);
        i += 1;
    }
    proof {
        if i < k {
            assert(a@.take(k as int)[i as int] == b@.take(k as int)[i as int]);
            assert(false);
        }
    }
    acc
}

/// The first character of a non-empty string, as its code point.
pub fn first_letter(s: &str) -> (r: u32)
    requires
        s@.len() > 0,
    ensures
        r == s@[0] as u32,
{
    let mut it = s.chars();
    match it.next() {
        Some(c) => c as u32,
        None => {
            proof {
                assert(false);
            }
            0
        },
    }
}

// ---------------------------------------------------------------------------
// Alignment
// ---------------------------------------------------------------------------

/// Number of padding bytes that bring `n` up to a multiple of `alignment`.
pub fn align_to(n: usize, alignment: usize) -> (r: usize)
    requires
        alignment > 0,
        n + alignment - 1 <= usize::MAX,
    ensures
        r < alignment,
        (n + r) % (alignment as int) == 0,
{
    let m = (n + (alignment - 1)) % alignment;
    let r = (alignment - 1) - m;
    proof {
        lemma_align_to(n as int, alignment as int, m as int);
    }
    r
}

proof fn lemma_align_to(n: int, a: int, m: int)
    requires
        a > 0,
        n >= 0,
        m == (n + a - 1) % a,
    ensures
        (n + (a - 1 - m)) % a == 0,
{
    vstd::arithmetic::div_mod::lemma_fundamental_div_mod(n + a - 1, a);
    let q = (n + a - 1) / a;
    assert(n + (a - 1 - m) == a * q);
    vstd::arithmetic::mul::lemma_mul_is_commutative(a, q);
    vstd::arithmetic::div_mod::lemma_mod_multiples_basic(q, a);
}

// ---------------------------------------------------------------------------
// Sorted sequences
// ---------------------------------------------------------------------------

/// Every element is no larger than the ones after it.
pub open spec fn ascending(s: Seq<DocId>) -> bool {
    forall|i: int, j: int| 0 <= i <= j < s.len() ==> s[i] <= s[j]
}

/// Every element is smaller than the ones after it.
pub open spec fn strictly_ascending(s: Seq<DocId>) -> bool {
    forall|i: int, j: int| 0 <= i < j < s.len() ==> s[i] < s[j]
}

/// Whether the elements of `seq` never decrease.
pub fn is_sorted_ascending(seq: &[DocId]) -> (r: bool)
    ensures
        r == ascending(seq@),
{
    if seq.len() < 1 {
        return true;
    }
    let mut previous = seq[0];
    let mut i: usize = 0;
    while i < seq.len()
        invariant
            0 <= i <= seq.len(),
            seq.len() >= 1,
            previous == seq@[if i == 0 { 0 } else { i - 1 }],
            forall|a: int, b: int| 0 <= a <= b < i ==> seq@[a] <= seq@[b],
        decreases seq.len() - i,
    {
        let item = seq[i];
        if previous > item {
            return false;
        }
        previous = item;
        i += 1;
    }
    true
}

// ---------------------------------------------------------------------------
// Run-length deduplication
// ---------------------------------------------------------------------------

/// `s` with every run of equal adjacent elements collapsed to one element.
pub open spec fn dedup_adjacent(s: Seq<DocId>) -> Seq<DocId>
    decreases s.len(),
{
    if s.len() == 0 {
        s
    } else {
        let d = dedup_adjacent(s.drop_last());
        if d.len() > 0 && d.last() == s.last() {
            d
        } else {
            d.push(s.last())
        }
    }
}

proof fn lemma_dedup_adjacent_push(s: Seq<DocId>, x: DocId)
    ensures
        dedup_adjacent(s.push(x)) == (if dedup_adjacent(s).len() > 0 && dedup_adjacent(s).last()
            == x {
            dedup_adjacent(s)
        } else {
            dedup_adjacent(s).push(x)
        }),
{
    assert(s.push(x).drop_last() =~= s);
}

proof fn lemma_dedup_adjacent_last(s: Seq<DocId>)
    requires
        s.len() > 0,
    ensures
        dedup_adjacent(s).len() > 0,
        dedup_adjacent(s).last() == s.last(),
{
}

/// The elements of `xs`, keeping one element of each run of equal neighbours.
pub fn keep_unique(xs: &[DocId]) -> (r: Vec<DocId>)
    ensures
        r@ == dedup_adjacent(xs@),
{
    let mut res: Vec<DocId> = Vec::new();
    if xs.len() > 0 {
        let mut group_elem = xs[0];
        let mut i: usize = 1;
        proof {
            lemma_dedup_adjacent_push(Seq::<DocId>::empty(), xs@[0]);
            assert(Seq::<DocId>::empty().push(xs@[0]) =~= xs@.take(1));
            assert(dedup_adjacent(Seq::<DocId>::empty()) =~= Seq::<DocId>::empty());
        }
        while i < xs.len()
            invariant
                1 <= i <= xs.len(),
                res@.push(group_elem) == dedup_adjacent(xs@.take(i as int)),
                group_elem == xs@[i - 1],
            decreases xs.len() - i,
        {
            let x = xs[i];
            proof {
                assert(xs@.take(i as int).push(x) =~= xs@.take(i + 1));
                lemma_dedup_adjacent_push(xs@.take(i as int), x);
                lemma_dedup_adjacent_last(xs@.take(i as int));
            }
            if x != group_elem {
                res.push(group_elem);
                group_elem = x;
            }
            i += 1;
        }
        res.push(group_elem);
        assert(xs@.take(xs.len() as int) =~= xs@);
    }
    res
}

/// Deduplicating a non-decreasing sequence leaves a strictly increasing one.
pub proof fn lemma_dedup_sorted_strict(s: Seq<DocId>)
    requires
        ascending(s),
    ensures
        strictly_ascending(dedup_adjacent(s)),
        s.len() > 0 ==> dedup_adjacent(s).last() == s.last(),
    decreases s.len(),
{
    if s.len() > 0 {
        let p = s.drop_last();
        lemma_dedup_sorted_strict(p);
        lemma_dedup_elements(p);
        let d = dedup_adjacent(p);
        if d.len() > 0 {
            assert(d.last() == p.last());
            assert forall|i: int| 0 <= i < d.len() implies d[i] <= s.last() by {
                assert(d.contains(d[i]));
                let j = choose|j: int| 0 <= j < p.len() && p[j] == d[i];
                assert(s[j] <= s[s.len() - 1]);
            }
        }
    }
}

/// Deduplication keeps exactly the elements of the sequence.
pub proof fn lemma_dedup_elements(s: Seq<DocId>)
    ensures
        forall|x: DocId| #[trigger] dedup_adjacent(s).contains(x) <==> s.contains(x),
    decreases s.len(),
{
    if s.len() > 0 {
        let p = s.drop_last();
        lemma_dedup_elements(p);
        let d = dedup_adjacent(p);
        let e = dedup_adjacent(s);
        assert(e == d || e == d.push(s.last()));
        assert forall|x: DocId| #[trigger] e.contains(x) implies s.contains(x) by {
            let k = choose|k: int| 0 <= k < e.len() && e[k] == x;
            if k < d.len() {
                assert(e[k] == d[k]);
                assert(d.contains(x));
                assert(p.contains(x));
                let j = choose|j: int| 0 <= j < p.len() && p[j] == x;
                assert(s[j] == x);
            } else {
                assert(s[s.len() - 1] == x);
            }
        }
        assert forall|x: DocId| #[trigger] s.contains(x) implies e.contains(x) by {
            let j = choose|j: int| 0 <= j < s.len() && s[j] == x;
            if j < s.len() - 1 {
                assert(p[j] == x);
                assert(p.contains(x));
                assert(d.contains(x));
                let k = choose|k: int| 0 <= k < d.len() && d[k] == x;
                assert(e[k] == x);
            } else {
                lemma_dedup_adjacent_last(s);
                assert(e[e.len() - 1] == x);
            }
        }
    }
}

// ---------------------------------------------------------------------------
// Delta coding of a vector
// ---------------------------------------------------------------------------

/// The first element, then the difference of each element to its predecessor.
pub open spec fn delta_seq(xs: Seq<DocId>) -> Seq<int> {
    Seq::new(xs.len(), |i: int| if i == 0 { xs[0] as int } else { xs[i] - xs[i - 1] })
}

/// Sum of the first `n` elements.
pub open spec fn prefix_sum(xs: Seq<int>, n: int) -> int
    decreases n,
{
    if n <= 0 {
        0
    } else {
        prefix_sum(xs, n - 1) + xs[n - 1]
    }
}

/// The first element followed by the gaps between neighbours.
pub fn delta_encode(xs: &[DocId]) -> (r: Vec<DocId>)
    requires
        ascending(xs@),
    ensures
        r@.len() == xs@.len(),
        forall|i: int| 0 <= i < r@.len() ==> r@[i] as int == #[trigger] delta_seq(xs@)[i],
{
    let mut v: Vec<DocId> = Vec::new();
    if xs.len() < 1 {
        return v;
    }
    v.push(xs[0]);
    let mut i: usize = 1;
    while i < xs.len()
        invariant
            1 <= i <= xs.len(),
            ascending(xs@),
            v@.len() == i,
            forall|k: int| 0 <= k < i ==> v@[k] as int == #[trigger] delta_seq(xs@)[k],
        decreases xs.len() - i,
    {
        v.push(xs[i] - xs[i - 1]);
        i += 1;
    }
    v
}

/// Summing the deltas of a sequence gives back its elements.
pub proof fn lemma_delta_prefix_sum(xs: Seq<DocId>, n: int)
    requires
        0 < n <= xs.len(),
    ensures
        prefix_sum(delta_seq(xs), n) == xs[n - 1] as int,
    decreases n,
{
    if n > 1 {
        lemma_delta_prefix_sum(xs, n - 1);
    } else {
        assert(prefix_sum(delta_seq(xs), 0) == 0);
    }
}

// ---------------------------------------------------------------------------
// Little-endian byte encodings
// ---------------------------------------------------------------------------

/// The eight little-endian bytes of `x`.
pub open spec fn le_bytes_u64(x: u64) -> Seq<u8> {
    Seq::new(8, |k: int| ((x >> (8 * k) as u64) & 0xff) as u8)
}

/// The four little-endian bytes of `x`.
pub open spec fn le_bytes_u32(x: u32) -> Seq<u8> {
    Seq::new(4, |k: int| ((x >> (8 * k) as u32) & 0xff) as u8)
}

/// The two little-endian bytes of `x`.
pub open spec fn le_bytes_u16(x: u16) -> Seq<u8> {
    seq![(x & 0xff) as u8, ((x >> 8u16) & 0xff) as u8]
}

/// The value of two little-endian bytes.
pub open spec fn le_value_u16(b: Seq<u8>) -> u16 {
    (b[0] as u16) | ((b[1] as u16) << 8u16)
}

/// Decoding the encoding of a `u16` gives the value back.
pub proof fn lemma_le_u16_roundtrip(x: u16)
    ensures
        le_value_u16(le_bytes_u16(x)) == x,
{
    let b0 = (x & 0xff) as u8;
    let b1 = ((x >> 8u16) & 0xff) as u8;
    assert((b0 as u16) | ((b1 as u16) << 8u16) == x) by (bit_vector)
        requires
            b0 == (x & 0xff) as u8,
            b1 == ((x >> 8u16) & 0xff) as u8,
    ;
}

/// Appends the little-endian bytes of `x` to `out`.
pub fn push_u16_le(out: &mut Vec<u8>, x: u16)
    ensures
        final(out)@ == old(out)@ + le_bytes_u16(x),
{
    out.push((x & 0xff) as u8);
    out.push(((x >> 8u16) & 0xff) as u8);
    assert(out@ =~= old(out)@ + le_bytes_u16(x));
}

/// Reads the `u16` stored little-endian at `buf[at..at + 2]`.
pub fn read_u16_le(buf: &[u8], at: usize) -> (r: u16)
    requires
        at + 2 <= buf@.len(),
    ensures
        r == le_value_u16(buf@.subrange(at as int, at + 2)),
{
    (buf[at] as u16) | ((buf[at + 1] as u16) << 8u16)
}

/// The value of eight little-endian bytes.
pub open spec fn le_value_u64(b: Seq<u8>) -> u64 {
    (b[0] as u64) | ((b[1] as u64) << 8u64) | ((b[2] as u64) << 16u64) | ((b[3] as u64) << 24u64) | ((
    b[4] as u64) << 32u64) | ((b[5] as u64) << 40u64) | ((b[6] as u64) << 48u64) | ((b[7] as u64)
        << 56u64)
}

/// The value of four little-endian bytes.
pub open spec fn le_value_u32(b: Seq<u8>) -> u32 {
    (b[0] as u32) | ((b[1] as u32) << 8u32) | ((b[2] as u32) << 16u32) | ((b[3] as u32) << 24u32)
}

/// Concatenated little-endian encodings of every element.
pub open spec fn le_concat_u64(xs: Seq<u64>) -> Seq<u8>
    decreases xs.len(),
{
    if xs.len() == 0 {
        Seq::empty()
    } else {
        le_concat_u64(xs.drop_last()) + le_bytes_u64(xs.last())
    }
}

/// Concatenated little-endian encodings of every element.
pub open spec fn le_concat_u32(xs: Seq<u32>) -> Seq<u8>
    decreases xs.len(),
{
    if xs.len() == 0 {
        Seq::empty()
    } else {
        le_concat_u32(xs.drop_last()) + le_bytes_u32(xs.last())
    }
}

/// Appending an element appends its encoding.
pub proof fn lemma_le_concat_u64_push(xs: Seq<u64>, x: u64)
    ensures
        le_concat_u64(xs.push(x)) == le_concat_u64(xs) + le_bytes_u64(x),
{
    assert(xs.push(x).drop_last() =~= xs);
}

/// Decoding the encoding of a `u64` gives the value back.
pub proof fn lemma_le_u64_roundtrip(x: u64)
    ensures
        le_value_u64(le_bytes_u64(x)) == x,
{
    let b = le_bytes_u64(x);
    let b0 = (x & 0xff) as u8;
    let b1 = ((x >> 8u64) & 0xff) as u8;
    let b2 = ((x >> 16u64) & 0xff) as u8;
    let b3 = ((x >> 24u64) & 0xff) as u8;
    let b4 = ((x >> 32u64) & 0xff) as u8;
    let b5 = ((x >> 40u64) & 0xff) as u8;
    let b6 = ((x >> 48u64) & 0xff) as u8;
    let b7 = ((x >> 56u64) & 0xff) as u8;
    assert(b[0] == ((x >> 0u64) & 0xff) as u8);
    assert(x >> 0u64 == x) by (bit_vector);
    assert(b[0] == b0 && b[1] == b1 && b[2] == b2 && b[3] == b3);
    assert(b[4] == b4 && b[5] == b5 && b[6] == b6 && b[7] == b7);
    assert((b0 as u64) | ((b1 as u64) << 8u64) | ((b2 as u64) << 16u64) | ((b3 as u64) << 24u64) | ((
    b4 as u64) << 32u64) | ((b5 as u64) << 40u64) | ((b6 as u64) << 48u64) | ((b7 as u64) << 56u64)
        == x) by (bit_vector)
        requires
            b0 == (x & 0xff) as u8,
            b1 == ((x >> 8u64) & 0xff) as u8,
            b2 == ((x >> 16u64) & 0xff) as u8,
            b3 == ((x >> 24u64) & 0xff) as u8,
            b4 == ((x >> 32u64) & 0xff) as u8,
            b5 == ((x >> 40u64) & 0xff) as u8,
            b6 == ((x >> 48u64) & 0xff) as u8,
            b7 == ((x >> 56u64) & 0xff) as u8,
    ;
}

/// Decoding the encoding of a `u32` gives the value back.
pub proof fn lemma_le_u32_roundtrip(x: u32)
    ensures
        le_value_u32(le_bytes_u32(x)) == x,
{
    let b = le_bytes_u32(x);
    let b0 = (x & 0xff) as u8;
    let b1 = ((x >> 8u32) & 0xff) as u8;
    let b2 = ((x >> 16u32) & 0xff) as u8;
    let b3 = ((x >> 24u32) & 0xff) as u8;
    assert(b[0] == ((x >> 0u32) & 0xff) as u8);
    assert(x >> 0u32 == x) by (bit_vector);
    assert(b[0] == b0 && b[1] == b1 && b[2] == b2 && b[3] == b3);
    assert((b0 as u32) | ((b1 as u32) << 8u32) | ((b2 as u32) << 16u32) | ((b3 as u32) << 24u32)
        == x) by (bit_vector)
        requires
            b0 == (x & 0xff) as u8,
            b1 == ((x >> 8u32) & 0xff) as u8,
            b2 == ((x >> 16u32) & 0xff) as u8,
            b3 == ((x >> 24u32) & 0xff) as u8,
    ;
}

/// Appends the little-endian bytes of `x` to `out`.
pub fn push_u64_le(out: &mut Vec<u8>, x: u64)
    ensures
        final(out)@ == old(out)@ + le_bytes_u64(x),
{
    let mut k: u64 = 0;
    let ghost start = out@;
    while k < 8
        invariant
            k <= 8,
            out@ == start + le_bytes_u64(x).take(k as int),
        decreases 8 - k,
    {
        let b = ((x >> (8 * k)) & 0xff) as u8;
        assert(le_bytes_u64(x).take(k + 1) =~= le_bytes_u64(x).take(k as int).push(b));
        out.push(b);
        k += 1;
    }
    assert(le_bytes_u64(x).take(8) =~= le_bytes_u64(x));
}

/// Appends the little-endian bytes of `x` to `out`.
pub fn push_u32_le(out: &mut Vec<u8>, x: u32)
    ensures
        final(out)@ == old(out)@ + le_bytes_u32(x),
{
    let mut k: u32 = 0;
    let ghost start = out@;
    while k < 4
        invariant
            k <= 4,
            out@ == start + le_bytes_u32(x).take(k as int),
        decreases 4 - k,
    {
        let b = ((x >> (8 * k)) & 0xff) as u8;
        assert(le_bytes_u32(x).take(k + 1) =~= le_bytes_u32(x).take(k as int).push(b));
        out.push(b);
        k += 1;
    }
    assert(le_bytes_u32(x).take(4) =~= le_bytes_u32(x));
}

/// Reads the `u64` stored little-endian at `buf[at..at + 8]`.
pub fn read_u64_le(buf: &[u8], at: usize) -> (r: u64)
    requires
        at + 8 <= buf@.len(),
    ensures
        r == le_value_u64(buf@.subrange(at as int, at + 8)),
{
    (buf[at] as u64) | ((buf[at + 1] as u64) << 8u64) | ((buf[at + 2] as u64) << 16u64) | ((buf[at
        + 3] as u64) << 24u64) | ((buf[at + 4] as u64) << 32u64) | ((buf[at + 5] as u64) << 40u64)
        | ((buf[at + 6] as u64) << 48u64) | ((buf[at + 7] as u64) << 56u64)
}

/// Reads the `u32` stored little-endian at `buf[at..at + 4]`.
pub fn read_u32_le(buf: &[u8], at: usize) -> (r: u32)
    requires
        at + 4 <= buf@.len(),
    ensures
        r == le_value_u32(buf@.subrange(at as int, at + 4)),
{
    (buf[at] as u32) | ((buf[at + 1] as u32) << 8u32) | ((buf[at + 2] as u32) << 16u32) | ((buf[at
        + 3] as u32) << 24u32)
}

/// The bytes of a slice of document ids, each little-endian.
pub fn typed_to_bytes(slice: &[DocId]) -> (r: Vec<u8>)
    ensures
        r@ == le_concat_u64(slice@),
{
    let mut out: Vec<u8> = Vec::new();
    let mut i: usize = 0;
    while i < slice.len()
        invariant
            i <= slice.len(),
            out@ == le_concat_u64(slice@.take(i as int)),
        decreases slice.len() - i,
    {
        assert(slice@.take(i + 1).drop_last() =~= slice@.take(i as int));
        push_u64_le(&mut out, slice[i]);
        i += 1;
    }
    assert(slice@.take(slice.len() as int) =~= slice@);
    out
}

/// The bytes of a slice of 32-bit values, each little-endian.
pub fn u32s_to_bytes(slice: &[u32]) -> (r: Vec<u8>)
    ensures
        r@ == le_concat_u32(slice@),
{
    let mut out: Vec<u8> = Vec::new();
    let mut i: usize = 0;
    while i < slice.len()
        invariant
            i <= slice.len(),
            out@ == le_concat_u32(slice@.take(i as int)),
        decreases slice.len() - i,
    {
        assert(slice@.take(i + 1).drop_last() =~= slice@.take(i as int));
        push_u32_le(&mut out, slice[i]);
        i += 1;
    }
    assert(slice@.take(slice.len() as int) =~= slice@);
    out
}

/// Length and layout of the concatenated encoding of 32-bit values.
pub proof fn lemma_le_concat_u32(xs: Seq<u32>)
    ensures
        le_concat_u32(xs).len() == 4 * xs.len(),
        forall|i: int|
            0 <= i < xs.len() ==> #[trigger] le_concat_u32(xs).subrange(4 * i, 4 * i + 4)
                == le_bytes_u32(xs[i]),
    decreases xs.len(),
{
    if xs.len() > 0 {
        let p = xs.drop_last();
        lemma_le_concat_u32(p);
        let c = le_concat_u32(xs);
        assert forall|i: int| 0 <= i < xs.len() implies #[trigger] c.subrange(4 * i, 4 * i + 4)
            == le_bytes_u32(xs[i]) by {
            if i < p.len() {
                assert(c.subrange(4 * i, 4 * i + 4) =~= le_concat_u32(p).subrange(4 * i, 4 * i + 4));
                assert(p[i] == xs[i]);
            } else {
                assert(c.subrange(4 * i, 4 * i + 4) =~= le_bytes_u32(xs.last()));
            }
        }
    }
}

/// Length and layout of the concatenated encoding.
pub proof fn lemma_le_concat_u64(xs: Seq<u64>)
    ensures
        le_concat_u64(xs).len() == 8 * xs.len(),
        forall|i: int|
            0 <= i < xs.len() ==> #[trigger] le_concat_u64(xs).subrange(8 * i, 8 * i + 8)
                == le_bytes_u64(xs[i]),
    decreases xs.len(),
{
    if xs.len() > 0 {
        let p = xs.drop_last();
        lemma_le_concat_u64(p);
        let c = le_concat_u64(xs);
        assert forall|i: int| 0 <= i < xs.len() implies #[trigger] c.subrange(8 * i, 8 * i + 8)
            == le_bytes_u64(xs[i]) by {
            if i < p.len() {
                assert(c.subrange(8 * i, 8 * i + 8) =~= le_concat_u64(p).subrange(8 * i, 8 * i + 8));
                assert(p[i] == xs[i]);
            } else {
                assert(c.subrange(8 * i, 8 * i + 8) =~= le_bytes_u64(xs.last()));
            }
        }
    }
}

/// The document ids stored little-endian in `buf`; trailing bytes that do not
/// make a whole id are ignored.
pub fn bytes_to_typed(buf: &[u8]) -> (r: Vec<DocId>)
    ensures
        r@.len() == buf@.len() / 8,
        forall|i: int|
            0 <= i < r@.len() ==> #[trigger] r@[i] == le_value_u64(buf@.subrange(8 * i, 8 * i + 8)),
{
    let len = buf.len();
    let n = len / 8;
    let mut out: Vec<DocId> = Vec::new();
    let mut i: usize = 0;
    while i < n
        invariant
            len == buf@.len(),
            n == len / 8,
            i <= n,
            out@.len() == i,
            forall|k: int|
                0 <= k < i ==> #[trigger] out@[k] == le_value_u64(buf@.subrange(8 * k, 8 * k + 8)),
        decreases n - i,
    {
        assert(8 * i + 8 <= buf@.len()) by (nonlinear_arith)
            requires
                i < n,
                n == len / 8,
                len == buf@.len(),
        ;
        out.push(read_u64_le(buf, 8 * i));
        i += 1;
    }
    out
}

/// Decoding the bytes of a slice of ids gives the ids back.
pub proof fn lemma_typed_bytes_roundtrip(xs: Seq<DocId>)
    ensures
        le_concat_u64(xs).len() / 8 == xs.len(),
        forall|i: int|
            0 <= i < xs.len() ==> le_value_u64(#[trigger] le_concat_u64(xs).subrange(8 * i, 8 * i + 8))
                == xs[i],
{
    lemma_le_concat_u64(xs);
    assert forall|i: int| 0 <= i < xs.len() implies le_value_u64(
        #[trigger] le_concat_u64(xs).subrange(8 * i, 8 * i + 8),
    ) == xs[i] by {
        lemma_le_u64_roundtrip(xs[i]);
    }
}

} // verus!
