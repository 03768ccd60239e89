use vstd::prelude::*;
use vstd::multiset::Multiset;
use crate::types::{DocId, TermId, Term};
use crate::util::{ascending, to_wide, from_wide};
use crate::termbuf::{TermBuf, all_present};

verus! {

// ---------------------------------------------------------------------------
// The fields of a document
// ---------------------------------------------------------------------------

/// A field of a document: the term found there and the field's position.
pub type Field = (TermId, u32);

/// The pieces of a line between the separators `|`, in order; a line without separators
/// is one piece.
pub open spec fn pieces(s: Seq<char>) -> Seq<Seq<char>>
    decreases s.len(),
{
    if s.len() == 0 {
        seq![Seq::<char>::empty()]
    } else {
        let init = pieces(s.drop_last());
        if s.last() == '|' {
            init.push(Seq::<char>::empty())
        } else {
            init.update(init.len() - 1, init.last().push(s.last()))
        }
    }
}

/// The non-empty pieces among `ps`, each with its place among all of them.
pub open spec fn numbered_pieces(ps: Seq<Seq<char>>) -> Seq<(u32, Seq<char>)>
    decreases ps.len(),
{
    if ps.len() == 0 {
        Seq::empty()
    } else {
        let init = numbered_pieces(ps.drop_last());
        if ps.last().len() > 0 {
            init.push(((ps.len() - 1) as u32, ps.last()))
        } else {
            init
        }
    }
}

/// The fields of a document line, as text: its non-empty pieces between the separators
/// `|`, each with its place on the line.
pub open spec fn line_fields(line: Seq<char>) -> Seq<(u32, Seq<char>)> {
    numbered_pieces(pieces(line))
}

/// Pieces joined again, with the separator `|` between neighbours.
pub open spec fn joined(ps: Seq<Seq<char>>) -> Seq<char>
    decreases ps.len(),
{
    if ps.len() == 0 {
        Seq::empty()
    } else if ps.len() == 1 {
        ps[0]
    } else {
        joined(ps.drop_last()) + seq!['|'] + ps.last()
    }
}

proof fn lemma_pieces_join(s: Seq<char>)
    ensures
        pieces(s).len() > 0,
        joined(pieces(s)) == s,
        forall|i: int, k: int|
            0 <= i < pieces(s).len() && 0 <= k < pieces(s)[i].len() ==> #[trigger] pieces(s)[i][k] != '|',
    decreases s.len(),
{
    if s.len() > 0 {
        let init = pieces(s.drop_last());
        lemma_pieces_join(s.drop_last());
        let c = s.last();
        let ps = pieces(s);
        if c == '|' {
            assert(ps == init.push(Seq::<char>::empty()));
            assert(ps.drop_last() =~= init);
            assert(joined(ps) =~= s);
            assert forall|i: int, k: int| 0 <= i < ps.len() && 0 <= k < ps[i].len() implies #[trigger] ps[i][k] != '|' by {
                assert(i < init.len());
                assert(ps[i] == init[i]);
            }
        } else {
            let l = init.len() - 1;
            assert(ps == init.update(l, init.last().push(c)));
            if init.len() == 1 {
                assert(joined(init) == init[0]);
                assert(joined(ps) =~= s);
            } else {
                assert(ps.drop_last() =~= init.drop_last());
                assert(joined(init) == joined(init.drop_last()) + seq!['|'] + init.last());
                assert(ps.last() == init.last().push(c));
                assert(joined(ps) == joined(ps.drop_last()) + seq!['|'] + ps.last());
                assert(s =~= s.drop_last().push(c));
                assert(joined(ps) =~= joined(init).push(c));
                assert(joined(ps) =~= s);
            }
            assert forall|i: int, k: int| 0 <= i < ps.len() && 0 <= k < ps[i].len() implies #[trigger] ps[i][k] != '|' by {
                if i < l {
                    assert(ps[i] == init[i]);
                } else if k < init.last().len() {
                    assert(ps[i][k] == init[l][k]);
                }
            }
        }
    } else {
        assert(joined(pieces(s)) =~= s);
    }
}

proof fn lemma_numbered_pieces(ps: Seq<Seq<char>>)
    ensures
        forall|k: int|
            0 <= k < numbered_pieces(ps).len() ==> exists|i: int|
                0 <= i < ps.len() && ps[i].len() > 0 && #[trigger] numbered_pieces(ps)[k] == (i as u32, ps[i]),
        forall|i: int|
            0 <= i < ps.len() && (#[trigger] ps[i]).len() > 0 ==> exists|k: int|
                0 <= k < numbered_pieces(ps).len() && numbered_pieces(ps)[k] == (i as u32, ps[i]),
        ps.len() <= u32::MAX + 1 ==> forall|k: int|
            0 <= k < numbered_pieces(ps).len() ==> (#[trigger] numbered_pieces(ps)[k]).0 < ps.len(),
        ps.len() <= u32::MAX + 1 ==> forall|k1: int, k2: int|
            0 <= k1 < k2 < numbered_pieces(ps).len() ==> (#[trigger] numbered_pieces(ps)[k1]).0
                < (#[trigger] numbered_pieces(ps)[k2]).0,
    decreases ps.len(),
{
    if ps.len() > 0 {
        let init = ps.drop_last();
        lemma_numbered_pieces(init);
        let nb0 = numbered_pieces(init);
        let nb = numbered_pieces(ps);
        let n = init.len() as int;
        assert forall|k: int| 0 <= k < nb.len() implies exists|i: int|
            0 <= i < ps.len() && ps[i].len() > 0 && #[trigger] nb[k] == (i as u32, ps[i]) by {
            if k < nb0.len() {
                assert(nb[k] == nb0[k]);
                let i = choose|i: int| 0 <= i < init.len() && init[i].len() > 0 && #[trigger] nb0[k] == (i as u32, init[i]);
                assert(init[i] == ps[i]);
            } else {
                assert(nb[k] == (n as u32, ps[n]));
            }
        }
        assert forall|i: int| 0 <= i < ps.len() && (#[trigger] ps[i]).len() > 0 implies exists|k: int|
            0 <= k < nb.len() && nb[k] == (i as u32, ps[i]) by {
            if i < n {
                assert(init[i] == ps[i]);
                let k = choose|k: int| 0 <= k < nb0.len() && nb0[k] == (i as u32, init[i]);
                assert(nb[k] == nb0[k]);
            } else {
                assert(nb[nb.len() - 1] == (n as u32, ps[n]));
            }
        }
        if ps.len() <= u32::MAX + 1 {
            assert forall|k: int| 0 <= k < nb.len() implies (#[trigger] nb[k]).0 < ps.len() by {
                if k < nb0.len() {
                    assert(nb[k] == nb0[k]);
                }
            }
            assert forall|k1: int, k2: int| 0 <= k1 < k2 < nb.len() implies (#[trigger] nb[k1]).0 < (#[trigger] nb[k2]).0 by {
                assert(nb[k1] == nb0[k1]);
                assert(nb0[k1].0 < init.len());
                if k2 < nb0.len() {
                    assert(nb[k2] == nb0[k2]);
                }
            }
        }
    }
}

/// Splitting a line at `|` loses nothing and cuts nowhere else: joining its pieces with
/// `|` gives the line back and no piece holds a `|` (any other character, a space too,
/// stays inside its piece); the fields are the non-empty pieces, each with its place
/// among all of them, in order.
pub proof fn lemma_split_fields_law(line: Seq<char>)
    ensures
        pieces(line).len() > 0,
        joined(pieces(line)) == line,
        forall|i: int, k: int|
            0 <= i < pieces(line).len() && 0 <= k < pieces(line)[i].len() ==> #[trigger] pieces(line)[i][k] != '|',
        forall|k: int|
            0 <= k < line_fields(line).len() ==> exists|i: int|
                0 <= i < pieces(line).len() && pieces(line)[i].len() > 0 && #[trigger] line_fields(line)[k] == (
                    i as u32,
                    pieces(line)[i],
                ),
        forall|i: int|
            0 <= i < pieces(line).len() && (#[trigger] pieces(line)[i]).len() > 0 ==> exists|k: int|
                0 <= k < line_fields(line).len() && line_fields(line)[k] == (i as u32, pieces(line)[i]),
        pieces(line).len() <= u32::MAX + 1 ==> forall|k1: int, k2: int|
            0 <= k1 < k2 < line_fields(line).len() ==> (#[trigger] line_fields(line)[k1]).0
                < (#[trigger] line_fields(line)[k2]).0,
{
    lemma_pieces_join(line);
    let ps = pieces(line);
    lemma_numbered_pieces(ps);
    assert(line_fields(line) == numbered_pieces(ps));
    assert forall|i: int| 0 <= i < ps.len() && (#[trigger] ps[i]).len() > 0 implies exists|k: int|
        0 <= k < line_fields(line).len() && line_fields(line)[k] == (i as u32, ps[i]) by {
        let k = choose|k: int| 0 <= k < numbered_pieces(ps).len() && numbered_pieces(ps)[k] == (i as u32, ps[i]);
        assert(line_fields(line)[k] == (i as u32, ps[i]));
    }
}

/// Splits a document line at the separators `|` into its non-empty pieces, each with
/// its place on the line.
pub fn split_fields(line: &str) -> (r: Vec<(u32, String)>)
    ensures
        r@.map_values(|f: (u32, String)| (f.0, f.1@)) == line_fields(line@),
{
    let chars = to_wide(line);
    let n = chars.len();
    let mut out: Vec<(u32, String)> = Vec::new();
    let mut cur: Vec<char> = Vec::new();
    let mut place: usize = 0;
    let ghost s = line@;
    proof {
        assert(s.take(0) =~= Seq::<char>::empty());
        assert(pieces(s.take(0)).drop_last() =~= Seq::<Seq<char>>::empty());
    }
    let mut i: usize = 0;
    while i < n
        invariant
            i <= n,
            n == s.len(),
            chars@ == s,
            pieces(s.take(i as int)).len() == place + 1,
            pieces(s.take(i as int)).last() == cur@,
            out@.map_values(|f: (u32, String)| (f.0, f.1@)) == numbered_pieces(pieces(s.take(i as int)).drop_last()),
            place <= i,
        decreases n - i,
    {
        let c = chars[i];
        let ghost ps = pieces(s.take(i as int));
        proof {
            assert(s.take(i + 1).drop_last() =~= s.take(i as int));
            assert(s.take(i + 1).last() == c);
        }
        if c == '|' {
            let ghost before = out@;
            if cur.len() > 0 {
                let text = from_wide(&cur);
                out.push((place as u32, text));
            }
            proof {
                let ps2 = pieces(s.take(i + 1));
                assert(ps2 == ps.push(Seq::<char>::empty()));
                assert(ps2.drop_last() =~= ps);
                assert(ps.drop_last() =~= pieces(s.take(i as int)).drop_last());
                assert(out@.map_values(|f: (u32, String)| (f.0, f.1@)) =~= numbered_pieces(ps));
            }
            cur = Vec::new();
            place = place + 1;
        } else {
            cur.push(c);
            proof {
                let ps2 = pieces(s.take(i + 1));
                assert(ps2.drop_last() =~= ps.drop_last());
                assert(ps2.last() == cur@);
            }
        }
        i += 1;
    }
    let ghost before = out@;
    if cur.len() > 0 {
        let text = from_wide(&cur);
        out.push((place as u32, text));
    }
    proof {
        assert(s.take(n as int) =~= s);
        assert(out@.map_values(|f: (u32, String)| (f.0, f.1@)) =~= numbered_pieces(pieces(s)));
    }
    out
}

/// Fields ordered by term, then by position.
pub open spec fn field_le(a: Field, b: Field) -> bool {
    a.0 < b.0 || (a.0 == b.0 && a.1 <= b.1)
}

/// Fields in order of term, then position.
pub open spec fn fields_sorted(s: Seq<Field>) -> bool {
    forall|i: int, j: int| 0 <= i <= j < s.len() ==> field_le(s[i], s[j])
}

/// The positions of the fields of `s` whose term is `t`, in the order of `s`.
pub open spec fn term_positions(s: Seq<Field>, t: int) -> Seq<DocId>
    decreases s.len(),
{
    if s.len() == 0 {
        Seq::empty()
    } else {
        let rest = term_positions(s.drop_last(), t);
        if s.last().0 == t {
            rest.push(s.last().1 as DocId)
        } else {
            rest
        }
    }
}

/// The fields sorted by term, then by position.
pub fn sort_fields(fields: &[Field]) -> (r: Vec<Field>)
    ensures
        r@.to_multiset() == fields@.to_multiset(),
        fields_sorted(r@),
{
    broadcast use vstd::seq_lib::group_to_multiset_ensures;
    let mut out: Vec<Field> = Vec::new();
    let mut i: usize = 0;
    while i < fields.len()
        invariant
            i <= fields@.len(),
            out@.to_multiset() == fields@.take(i as int).to_multiset(),
            fields_sorted(out@),
        decreases fields@.len() - i,
    {
        let x = fields[i];
        let mut p: usize = 0;
        while p < out.len() && (out[p].0 < x.0 || (out[p].0 == x.0 && out[p].1 <= x.1))
            invariant
                p <= out@.len(),
                fields_sorted(out@),
                forall|k: int| 0 <= k < p ==> field_le(#[trigger] out@[k], x),
            decreases out@.len() - p,
        {
            p += 1;
        }
        let ghost before = out@;
        proof {
            assert forall|k: int| p <= k < before.len() implies field_le(x, #[trigger] before[k]) by {
                assert(!field_le(before[p as int], x));
                assert(field_le(before[p as int], before[k]));
            }
        }
        out.insert(p, x);
        proof {
            let s = out@;
            assert(s == before.insert(p as int, x));
            assert forall|a: int, b: int| 0 <= a <= b < s.len() implies field_le(s[a], s[b]) by {
                if a == p && b > p {
                    assert(s[b] == before[b - 1]);
                } else if b == p && a < p {
                    assert(s[a] == before[a]);
                } else if a != p && b != p {
                    let a0 = if a < p { a } else { a - 1 };
                    let b0 = if b < p { b } else { b - 1 };
                    assert(s[a] == before[a0]);
                    assert(s[b] == before[b0]);
                }
            }
            assert(fields@.take(i + 1) =~= fields@.take(i as int).push(x));
            vstd::seq_lib::to_multiset_insert(before, p as int, x);
            vstd::seq_lib::to_multiset_build(fields@.take(i as int), x);
        }
        i += 1;
    }
    assert(fields@.take(fields@.len() as int) =~= fields@);
    out
}

/// Whether `x` is the position of a field of `s` with term `t`.
spec fn is_position_of(s: Seq<Field>, t: int, x: DocId) -> bool {
    exists|i: int| 0 <= i < s.len() && s[i].0 == t && x == s[i].1 as DocId
}

/// Every position listed for `t` is that of a field of `s` with term `t`.
proof fn lemma_term_positions_from(s: Seq<Field>, t: int)
    ensures
        forall|j: int| 0 <= j < term_positions(s, t).len() ==> is_position_of(s, t, #[trigger] term_positions(s, t)[j]),
    decreases s.len(),
{
    if s.len() > 0 {
        let init = s.drop_last();
        lemma_term_positions_from(init, t);
        let tp = term_positions(s, t);
        assert forall|j: int| 0 <= j < tp.len() implies is_position_of(s, t, #[trigger] tp[j]) by {
            if j < term_positions(init, t).len() {
                assert(is_position_of(init, t, term_positions(init, t)[j]));
                let i = choose|i: int| 0 <= i < init.len() && init[i].0 == t && term_positions(init, t)[j] == init[i].1 as DocId;
                assert(s[i] == init[i]);
                assert(tp[j] == term_positions(init, t)[j]);
                assert(0 <= i < s.len() && s[i].0 == t && tp[j] == s[i].1 as DocId);
            } else {
                let w = s.len() - 1;
                assert(s.last().0 == t);
                assert(tp[j] == s[w].1 as DocId);
                assert(0 <= w < s.len() && s[w].0 == t && tp[j] == s[w].1 as DocId);
            }
        }
    }
}

/// Fields sorted by term and position list the positions of each term in increasing
/// order.
pub proof fn lemma_term_positions_ascending(s: Seq<Field>, t: int)
    requires
        fields_sorted(s),
    ensures
        ascending(term_positions(s, t)),
    decreases s.len(),
{
    if s.len() > 0 {
        let init = s.drop_last();
        assert(fields_sorted(init)) by {
            assert forall|i: int, j: int| 0 <= i <= j < init.len() implies field_le(init[i], init[j]) by {
                assert(init[i] == s[i] && init[j] == s[j]);
            }
        }
        lemma_term_positions_ascending(init, t);
        lemma_term_positions_from(init, t);
        let a = term_positions(init, t);
        let last = s[s.len() - 1];
        if last.0 == t {
            let b = a.push(last.1 as DocId);
            assert forall|i: int, j: int| 0 <= i <= j < b.len() implies b[i] <= b[j] by {
                if j == b.len() - 1 && i < j {
                    assert(is_position_of(init, t, a[i]));
                    let m = choose|m: int| 0 <= m < init.len() && init[m].0 == t && a[i] == init[m].1 as DocId;
                    assert(field_le(s[m], last));
                } else if j < b.len() - 1 {
                    assert(b[i] == a[i] && b[j] == a[j]);
                }
            }
        }
    }
}

// ---------------------------------------------------------------------------
// Adding a document to the term buffers
// ---------------------------------------------------------------------------

/// The larger of two numbers.
pub open spec fn imax(a: int, b: int) -> int {
    if a >= b {
        a
    } else {
        b
    }
}

/// The term of the last field, or zero without fields.
pub open spec fn top_term(s: Seq<Field>) -> int {
    if s.len() > 0 {
        s.last().0 as int
    } else {
        0
    }
}

/// Buffers after every slot below `max` got `adds(slot)` appended; slots past the old
/// ones start empty.
pub open spec fn appended(
    old: Seq<Option<Seq<DocId>>>,
    max: int,
    adds: spec_fn(int) -> Seq<DocId>,
) -> Seq<Option<Seq<DocId>>> {
    Seq::new(
        max as nat,
        |u: int|
            Some(
                (if u < old.len() {
                    old[u].unwrap()
                } else {
                    Seq::empty()
                }) + adds(u),
            ),
    )
}

/// Whether the sorted fields `s` have a field with term `u`, or, for a document without
/// fields, whether `u` is the zero term.
pub open spec fn gets_entry(s: Seq<Field>, u: int) -> bool {
    term_positions(s, u).len() > 0 || (s.len() == 0 && u == 0)
}

/// What a document adds to the document buffer of each term.
pub open spec fn docs_added(s: Seq<Field>, doc: DocId) -> spec_fn(int) -> Seq<DocId> {
    |u: int|
        if gets_entry(s, u) {
            seq![doc]
        } else {
            Seq::empty()
        }
}

/// What a document adds to the frequency buffer of each term: its number of fields.
pub open spec fn tfs_added(s: Seq<Field>) -> spec_fn(int) -> Seq<DocId> {
    |u: int|
        if gets_entry(s, u) {
            seq![term_positions(s, u).len() as DocId]
        } else {
            Seq::empty()
        }
}

/// What a document adds to the position buffer of each term: the positions of its fields.
pub open spec fn positions_added(s: Seq<Field>) -> spec_fn(int) -> Seq<DocId> {
    |u: int| term_positions(s, u)
}

/// The buffers `d1`, `t1`, `p1` are `d0`, `t0`, `p0` after document `doc` with the fields
/// `s`, sorted by term and position, was added: every term of the document gets the
/// document, its number of fields and their positions in increasing order; a document
/// without fields is put under the zero term with no fields.
pub open spec fn sorted_document_added(
    s: Seq<Field>,
    doc: DocId,
    d0: Seq<Option<Seq<DocId>>>,
    t0: Seq<Option<Seq<DocId>>>,
    p0: Seq<Option<Seq<DocId>>>,
    d1: Seq<Option<Seq<DocId>>>,
    t1: Seq<Option<Seq<DocId>>>,
    p1: Seq<Option<Seq<DocId>>>,
) -> bool {
    &&& d1 == appended(d0, imax(d0.len() as int, top_term(s) + 1), docs_added(s, doc))
    &&& t1 == appended(t0, imax(t0.len() as int, top_term(s) + 1), tfs_added(s))
    &&& p1 == appended(
        p0,
        if s.len() > 0 {
            imax(p0.len() as int, top_term(s) + 1)
        } else {
            p0.len() as int
        },
        positions_added(s),
    )
}

/// The buffers after document `doc` with the fields `fields` was added, the fields
/// taken in order of term and position.
pub open spec fn document_added(
    fields: Seq<Field>,
    doc: DocId,
    d0: Seq<Option<Seq<DocId>>>,
    t0: Seq<Option<Seq<DocId>>>,
    p0: Seq<Option<Seq<DocId>>>,
    d1: Seq<Option<Seq<DocId>>>,
    t1: Seq<Option<Seq<DocId>>>,
    p1: Seq<Option<Seq<DocId>>>,
) -> bool {
    exists|s: Seq<Field>|
        #![trigger sorted_document_added(s, doc, d0, t0, p0, d1, t1, p1)]
        s.to_multiset() == fields.to_multiset() && fields_sorted(s) && sorted_document_added(
            s,
            doc,
            d0,
            t0,
            p0,
            d1,
            t1,
            p1,
        )
}

/// Whether every field names a term that the buffers can take.
pub open spec fn fields_ok(fields: Seq<Field>) -> bool {
    forall|i: int| 0 <= i < fields.len() ==> 0 < (#[trigger] fields[i]).0 < u32::MAX
}

/// Whether every field names a term that the buffers can take.
pub fn check_fields(fields: &[Field]) -> (r: bool)
    ensures
        r == fields_ok(fields@),
{
    let mut i: usize = 0;
    while i < fields.len()
        invariant
            i <= fields@.len(),
            forall|k: int| 0 <= k < i ==> 0 < (#[trigger] fields@[k]).0 < u32::MAX,
        decreases fields@.len() - i,
    {
        if fields[i].0 == 0 || fields[i].0 == u32::MAX {
            return false;
        }
        i += 1;
    }
    true
}

/// A slot added to by `add_doc` keeps the shape of `appended`.
proof fn lemma_appended_add(
    old: Seq<Option<Seq<DocId>>>,
    m: int,
    adds: spec_fn(int) -> Seq<DocId>,
    adds2: spec_fn(int) -> Seq<DocId>,
    t: int,
    x: DocId,
    cur: Seq<Option<Seq<DocId>>>,
    new: Seq<Option<Seq<DocId>>>,
    nm: int,
)
    requires
        all_present(old),
        old.len() <= m,
        0 <= t,
        cur == appended(old, m, adds),
        forall|u: int| m <= u ==> #[trigger] adds(u) == Seq::<DocId>::empty(),
        nm == (if t < m {
            m
        } else {
            t + 1
        }),
        new.len() == nm,
        forall|u: int|
            0 <= u < nm && u != t ==> #[trigger] new[u] == if u < m {
                cur[u]
            } else {
                Some(Seq::<DocId>::empty())
            },
        new[t] == Some(
            (if t < m {
                cur[t].unwrap()
            } else {
                Seq::<DocId>::empty()
            }).push(x),
        ),
        forall|u: int| 0 <= u < nm ==> #[trigger] adds2(u) == if u == t {
            adds(u).push(x)
        } else {
            adds(u)
        },
    ensures
        new == appended(old, nm, adds2),
{
    let target = appended(old, nm, adds2);
    assert forall|u: int| 0 <= u < nm implies new[u] == #[trigger] target[u] by {
        let base = if u < old.len() {
            old[u].unwrap()
        } else {
            Seq::<DocId>::empty()
        };
        if u == t {
            if t < m {
                assert(base + adds(u).push(x) =~= (base + adds(u)).push(x));
            } else {
                assert(base + adds(u).push(x) =~= Seq::<DocId>::empty().push(x));
            }
        } else if u >= m {
            assert(base + adds2(u) =~= Seq::<DocId>::empty());
        }
    }
    assert(new =~= target);
}

/// The positions of a longer prefix of the fields.
proof fn lemma_term_positions_step(s: Seq<Field>, k: int, u: int)
    requires
        0 <= k < s.len(),
    ensures
        term_positions(s.take(k + 1), u) == if s[k].0 == u {
            term_positions(s.take(k), u).push(s[k].1 as DocId)
        } else {
            term_positions(s.take(k), u)
        },
{
    assert(s.take(k + 1).drop_last() =~= s.take(k));
}

/// In sorted fields, a term smaller than a later field's has no fields from there on.
proof fn lemma_term_positions_sorted_prefix(s: Seq<Field>, k: int, u: int)
    requires
        fields_sorted(s),
        0 <= k <= s.len(),
        k > 0 ==> u > s[k - 1].0,
    ensures
        term_positions(s.take(k), u).len() == 0,
    decreases k,
{
    if k > 0 {
        assert(s.take(k).drop_last() =~= s.take(k - 1));
        if k > 1 {
            assert(field_le(s[k - 2], s[k - 1]));
        }
        lemma_term_positions_sorted_prefix(s, k - 1, u);
    }
}

/// What the terms before the current one have added to the document buffers.
spec fn flushed_docs(s: Seq<Field>, k: int, last: int, doc: DocId) -> spec_fn(int) -> Seq<DocId> {
    |u: int|
        if u != last && term_positions(s.take(k), u).len() > 0 {
            seq![doc]
        } else {
            Seq::empty()
        }
}

/// What the terms before the current one have added to the frequency buffers.
spec fn flushed_tfs(s: Seq<Field>, k: int, last: int) -> spec_fn(int) -> Seq<DocId> {
    |u: int|
        if u != last && term_positions(s.take(k), u).len() > 0 {
            seq![term_positions(s.take(k), u).len() as DocId]
        } else {
            Seq::empty()
        }
}

/// The term of the field before position `k`, or zero at the start.
spec fn term_before(s: Seq<Field>, k: int) -> int {
    if k > 0 {
        s[k - 1].0 as int
    } else {
        0
    }
}

/// In sorted fields, the term of the field before `k` has a field among the first `k`,
/// and no later term has one.
proof fn lemma_prefix_terms(s: Seq<Field>, k: int)
    requires
        fields_sorted(s),
        0 <= k <= s.len(),
    ensures
        k > 0 ==> term_positions(s.take(k), term_before(s, k)).len() > 0,
        forall|u: int| u > term_before(s, k) && k > 0 ==> #[trigger] term_positions(s.take(k), u).len() == 0,
        k == 0 ==> forall|u: int| #[trigger] term_positions(s.take(k), u).len() == 0,
{
    if k > 0 {
        lemma_term_positions_step(s, k - 1, term_before(s, k));
        assert forall|u: int| u > term_before(s, k) && k > 0 implies #[trigger] term_positions(s.take(k), u).len()
            == 0 by {
            lemma_term_positions_sorted_prefix(s, k, u);
        }
    } else {
        assert forall|u: int| #[trigger] term_positions(s.take(k), u).len() == 0 by {
            assert(s.take(0) =~= Seq::<Field>::empty());
        }
    }
}

/// Adds document `doc`, whose fields are `fields`, to the three term buffers: each term of
/// the document gets the document, its number of fields and their positions in
/// increasing order.
pub fn add_document(
    doc: DocId,
    fields: &[Field],
    docbufs: &mut TermBuf,
    tfbufs: &mut TermBuf,
    posbufs: &mut TermBuf,
)
    requires
        old(docbufs).wf(),
        old(tfbufs).wf(),
        old(posbufs).wf(),
        all_present(old(docbufs).view_slots()),
        all_present(old(tfbufs).view_slots()),
        all_present(old(posbufs).view_slots()),
        fields_ok(fields@),
    ensures
        final(docbufs).wf(),
        final(tfbufs).wf(),
        final(posbufs).wf(),
        all_present(final(docbufs).view_slots()),
        all_present(final(tfbufs).view_slots()),
        all_present(final(posbufs).view_slots()),
        document_added(
            fields@,
            doc,
            old(docbufs).view_slots(),
            old(tfbufs).view_slots(),
            old(posbufs).view_slots(),
            final(docbufs).view_slots(),
            final(tfbufs).view_slots(),
            final(posbufs).view_slots(),
        ),
{
    broadcast use vstd::seq_lib::group_to_multiset_ensures;
    let sorted = sort_fields(fields);
    let ghost s = sorted@;
    let ghost d0 = docbufs.view_slots();
    let ghost t0 = tfbufs.view_slots();
    let ghost p0 = posbufs.view_slots();
    proof {
        docbufs.lemma_slot_count();
        tfbufs.lemma_slot_count();
        posbufs.lemma_slot_count();
        assert forall|i: int| 0 <= i < s.len() implies 0 < (#[trigger] s[i]).0 < u32::MAX by {
            assert(s.contains(s[i]));
            assert(s.to_multiset().count(s[i]) > 0);
            assert(fields@.to_multiset().count(s[i]) > 0);
            let j = choose|j: int| 0 <= j < fields@.len() && fields@[j] == s[i];
            assert(0 < fields@[j].0 < u32::MAX);
        }
        assert(appended(d0, d0.len() as int, flushed_docs(s, 0, 0, doc)) =~= d0);
        assert(appended(t0, t0.len() as int, flushed_tfs(s, 0, 0)) =~= t0);
        assert(appended(p0, p0.len() as int, positions_added(s.take(0))) =~= p0) by {
            lemma_prefix_terms(s, 0);
        }
    }
    let mut last_term_id: TermId = 0;
    let mut tf: DocId = 0;
    let mut k: usize = 0;
    while k < sorted.len()
        invariant
            s == sorted@,
            k <= s.len(),
            fields_sorted(s),
            forall|i: int| 0 <= i < s.len() ==> 0 < (#[trigger] s[i]).0 < u32::MAX,
            all_present(d0),
            all_present(t0),
            all_present(p0),
            docbufs.wf(),
            tfbufs.wf(),
            posbufs.wf(),
            last_term_id == term_before(s, k as int),
            tf == term_positions(s.take(k as int), last_term_id as int).len(),
            tf <= k,
            posbufs.max() == (if k > 0 {
                imax(p0.len() as int, s[k - 1].0 + 1)
            } else {
                p0.len() as int
            }),
            posbufs.view_slots() == appended(p0, posbufs.max() as int, positions_added(s.take(k as int))),
            d0.len() <= docbufs.max() <= imax(d0.len() as int, last_term_id as int),
            t0.len() <= tfbufs.max() <= imax(t0.len() as int, last_term_id as int),
            forall|u: int|
                u != last_term_id && term_positions(s.take(k as int), u).len() > 0 ==> u < docbufs.max()
                    && u < tfbufs.max(),
            docbufs.view_slots() == appended(d0, docbufs.max() as int, flushed_docs(s, k as int, last_term_id as int, doc)),
            tfbufs.view_slots() == appended(t0, tfbufs.max() as int, flushed_tfs(s, k as int, last_term_id as int)),
        decreases s.len() - k,
    {
        let (term_id, position) = sorted[k];
        let ghost kk = k as int;
        let ghost t = term_id as int;
        proof {
            lemma_prefix_terms(s, kk);
            lemma_prefix_terms(s, kk + 1);
            if kk > 0 {
                assert(field_le(s[kk - 1], s[kk]));
            }
            assert forall|u: int| #![trigger term_positions(s.take(kk + 1), u)] true implies term_positions(
                s.take(kk + 1),
                u,
            ) == if s[kk].0 == u {
                term_positions(s.take(kk), u).push(s[kk].1 as DocId)
            } else {
                term_positions(s.take(kk), u)
            } by {
                lemma_term_positions_step(s, kk, u);
            }
        }
        let ghost pslots = posbufs.view_slots();
        let ghost pm = posbufs.max() as int;
        posbufs.add_doc(term_id, position as DocId);
        proof {
            assert forall|u: int| pm <= u implies #[trigger] positions_added(s.take(kk))(u) == Seq::<DocId>::empty() by {
                if kk > 0 {
                    assert(u > term_before(s, kk));
                }
            }
            lemma_appended_add(
                p0,
                pm,
                positions_added(s.take(kk)),
                positions_added(s.take(kk + 1)),
                t,
                position as DocId,
                pslots,
                posbufs.view_slots(),
                posbufs.max() as int,
            );
        }
        if term_id == last_term_id {
            proof {
                assert(appended(d0, docbufs.max() as int, flushed_docs(s, kk + 1, t, doc)) =~= appended(
                    d0,
                    docbufs.max() as int,
                    flushed_docs(s, kk, t, doc),
                ));
                assert(appended(t0, tfbufs.max() as int, flushed_tfs(s, kk + 1, t)) =~= appended(
                    t0,
                    tfbufs.max() as int,
                    flushed_tfs(s, kk, t),
                ));
            }
            tf = tf + 1;
        } else {
            if last_term_id != 0 {
                let ghost last = last_term_id as int;
                let ghost dslots = docbufs.view_slots();
                let ghost dm = docbufs.max() as int;
                docbufs.add_doc(last_term_id, doc);
                proof {
                    lemma_appended_add(
                        d0,
                        dm,
                        flushed_docs(s, kk, last, doc),
                        flushed_docs(s, kk + 1, t, doc),
                        last,
                        doc,
                        dslots,
                        docbufs.view_slots(),
                        docbufs.max() as int,
                    );
                }
                let ghost tslots = tfbufs.view_slots();
                let ghost tm = tfbufs.max() as int;
                tfbufs.add_doc(last_term_id, tf);
                proof {
                    lemma_appended_add(
                        t0,
                        tm,
                        flushed_tfs(s, kk, last),
                        flushed_tfs(s, kk + 1, t),
                        last,
                        tf,
                        tslots,
                        tfbufs.view_slots(),
                        tfbufs.max() as int,
                    );
                }
            } else {
                proof {
                    assert(appended(d0, docbufs.max() as int, flushed_docs(s, kk + 1, t, doc)) =~= appended(
                        d0,
                        docbufs.max() as int,
                        flushed_docs(s, kk, 0, doc),
                    ));
                    assert(appended(t0, tfbufs.max() as int, flushed_tfs(s, kk + 1, t)) =~= appended(
                        t0,
                        tfbufs.max() as int,
                        flushed_tfs(s, kk, 0),
                    ));
                }
            }
            last_term_id = term_id;
            tf = 1;
        }
        k += 1;
    }
    let ghost n = s.len() as int;
    proof {
        assert(s.take(n) =~= s);
        lemma_prefix_terms(s, n);
    }
    let ghost last = last_term_id as int;
    let ghost dslots = docbufs.view_slots();
    let ghost dm = docbufs.max() as int;
    docbufs.add_doc(last_term_id, doc);
    proof {
        lemma_appended_add(
            d0,
            dm,
            flushed_docs(s, n, last, doc),
            docs_added(s, doc),
            last,
            doc,
            dslots,
            docbufs.view_slots(),
            docbufs.max() as int,
        );
    }
    let ghost tslots = tfbufs.view_slots();
    let ghost tm = tfbufs.max() as int;
    tfbufs.add_doc(last_term_id, tf);
    proof {
        lemma_appended_add(
            t0,
            tm,
            flushed_tfs(s, n, last),
            tfs_added(s),
            last,
            tf,
            tslots,
            tfbufs.view_slots(),
            tfbufs.max() as int,
        );
        assert(sorted_document_added(
            s,
            doc,
            d0,
            t0,
            p0,
            docbufs.view_slots(),
            tfbufs.view_slots(),
            posbufs.view_slots(),
        ));
    }
}

// ---------------------------------------------------------------------------
// Ordering the terms of the dictionary
// ---------------------------------------------------------------------------

/// Whether the characters `a` come no later than `b`: compared one by one by code point,
/// a prefix first. This is the order of their UTF-8 bytes.
pub open spec fn chars_le(a: Seq<char>, b: Seq<char>) -> bool
    decreases a.len(),
{
    if a.len() == 0 {
        true
    } else if b.len() == 0 {
        false
    } else if (a[0] as u32) < (b[0] as u32) {
        true
    } else if a[0] == b[0] {
        chars_le(a.drop_first(), b.drop_first())
    } else {
        false
    }
}

/// Terms in order of their characters.
pub open spec fn terms_sorted(s: Seq<Term>) -> bool {
    forall|i: int, j: int| 0 <= i <= j < s.len() ==> chars_le(s[i].term@, s[j].term@)
}

/// Of two character sequences, one comes no later than the other.
pub proof fn lemma_chars_le_total(a: Seq<char>, b: Seq<char>)
    ensures
        chars_le(a, b) || chars_le(b, a),
    decreases a.len(),
{
    if a.len() > 0 && b.len() > 0 {
        if a[0] == b[0] {
            lemma_chars_le_total(a.drop_first(), b.drop_first());
        } else {
            vstd::utf8::char_u32_cast(a[0], a[0] as u32);
            vstd::utf8::char_u32_cast(b[0], b[0] as u32);
        }
    }
}

/// The order of character sequences is transitive.
pub proof fn lemma_chars_le_transitive(a: Seq<char>, b: Seq<char>, c: Seq<char>)
    requires
        chars_le(a, b),
        chars_le(b, c),
    ensures
        chars_le(a, c),
    decreases a.len(),
{
    if a.len() > 0 && b.len() > 0 && c.len() > 0 && a[0] == b[0] && b[0] == c[0] {
        lemma_chars_le_transitive(a.drop_first(), b.drop_first(), c.drop_first());
    }
}

/// Whether the characters `a` come no later than `b`.
pub fn chars_le_exec(a: &Vec<char>, b: &Vec<char>) -> (r: bool)
    ensures
        r == chars_le(a@, b@),
{
    let mut i: usize = 0;
    assert(a@.skip(0) =~= a@ && b@.skip(0) =~= b@);
    while i < a.len() && i < b.len() && a[i] == b[i]
        invariant
            i <= a@.len(),
            i <= b@.len(),
            chars_le(a@, b@) == chars_le(a@.skip(i as int), b@.skip(i as int)),
        decreases a@.len() - i,
    {
        proof {
            let x = a@.skip(i as int);
            let y = b@.skip(i as int);
            assert(x[0] == y[0]);
            assert(x.drop_first() =~= a@.skip(i + 1));
            assert(y.drop_first() =~= b@.skip(i + 1));
        }
        i += 1;
    }
    if i == a.len() {
        true
    } else if i == b.len() {
        false
    } else {
        proof {
            let x = a@.skip(i as int);
            let y = b@.skip(i as int);
            assert(x[0] == a@[i as int] && y[0] == b@[i as int]);
        }
        (a[i] as u32) < (b[i] as u32)
    }
}

/// The terms in order of their characters.
pub fn sort_terms(terms: Vec<Term>) -> (r: Vec<Term>)
    ensures
        r@.to_multiset() == terms@.to_multiset(),
        terms_sorted(r@),
{
    broadcast use {
        vstd::seq_lib::group_to_multiset_ensures,
        vstd::multiset::group_multiset_axioms,
    };
    let ghost all = terms@;
    let mut input = terms;
    let mut out: Vec<Term> = Vec::new();
    while input.len() > 0
        invariant
            out@.to_multiset().add(input@.to_multiset()) == all.to_multiset(),
            terms_sorted(out@),
        decreases input@.len(),
    {
        let ghost before_in = input@;
        let t = match input.pop() {
            Some(t) => t,
            None => {
                proof {
                    assert(false);
                }
                return out;
            },
        };
        proof {
            assert(before_in =~= input@.push(t));
        }
        let tw = to_wide(t.term.as_str());
        let mut p: usize = 0;
        while p < out.len() && chars_le_exec(&to_wide(out[p].term.as_str()), &tw)
            invariant
                p <= out@.len(),
                tw@ == t.term@,
                terms_sorted(out@),
                forall|k: int| 0 <= k < p ==> chars_le(#[trigger] out@[k].term@, t.term@),
            decreases out@.len() - p,
        {
            p += 1;
        }
        let ghost before = out@;
        proof {
            assert forall|k: int| p <= k < before.len() implies chars_le(t.term@, #[trigger] before[k].term@) by {
                lemma_chars_le_total(before[p as int].term@, t.term@);
                lemma_chars_le_transitive(t.term@, before[p as int].term@, before[k].term@);
            }
        }
        out.insert(p, t);
        proof {
            let s = out@;
            assert(s == before.insert(p as int, t));
            assert forall|a: int, b: int| 0 <= a <= b < s.len() implies chars_le(s[a].term@, s[b].term@) by {
                if a == b {
                    lemma_chars_le_total(s[a].term@, s[a].term@);
                } else if a == p {
                    assert(s[b] == before[b - 1]);
                } else if b == p {
                    assert(s[a] == before[a]);
                } else {
                    let a0 = if a < p { a } else { a - 1 };
                    let b0 = if b < p { b } else { b - 1 };
                    assert(s[a] == before[a0]);
                    assert(s[b] == before[b0]);
                }
            }
            vstd::seq_lib::to_multiset_insert(before, p as int, t);
            vstd::seq_lib::to_multiset_build(input@, t);
            assert(out@.to_multiset().add(input@.to_multiset()) =~= all.to_multiset());
        }
    }
    proof {
        assert(input@.to_multiset() =~= Multiset::<Term>::empty());
        assert(out@.to_multiset().add(input@.to_multiset()) =~= out@.to_multiset());
    }
    out
}

} // verus!
