use vstd::prelude::*;
use vstd::multiset::Multiset;
use crate::types::{TermId, Term};
use crate::util::to_wide;

verus! {

// ---------------------------------------------------------------------------
// Edit distance
// ---------------------------------------------------------------------------

/// The smallest of three numbers.
pub open spec fn min3(x: int, y: int, z: int) -> int {
    if x <= y && x <= z {
        x
    } else if y <= z {
        y
    } else {
        z
    }
}

/// Levenshtein distance: the fewest insertions, deletions and substitutions of single
/// characters that turn `a` into `b`.
pub open spec fn lev(a: Seq<char>, b: Seq<char>) -> int
    decreases a.len() + b.len(),
{
    if a.len() == 0 {
        b.len() as int
    } else if b.len() == 0 {
        a.len() as int
    } else {
        min3(
            lev(a.drop_last(), b) + 1,
            lev(a, b.drop_last()) + 1,
            lev(a.drop_last(), b.drop_last()) + if a.last() == b.last() {
                0int
            } else {
                1int
            },
        )
    }
}

/// The distance is at most the longer length and never negative.
pub proof fn lemma_lev_bounds(a: Seq<char>, b: Seq<char>)
    ensures
        0 <= lev(a, b) <= a.len() + b.len(),
    decreases a.len() + b.len(),
{
    if a.len() > 0 && b.len() > 0 {
        lemma_lev_bounds(a.drop_last(), b);
        lemma_lev_bounds(a, b.drop_last());
        lemma_lev_bounds(a.drop_last(), b.drop_last());
    }
}

/// Removing the last character of either side changes the distance by at most one, and
/// with both sides non-empty the distance is one of the three ways to end an edit.
proof fn lemma_lev_steps(a: Seq<char>, b: Seq<char>)
    ensures
        a.len() > 0 ==> lev(a, b) <= lev(a.drop_last(), b) + 1,
        b.len() > 0 ==> lev(a, b) <= lev(a, b.drop_last()) + 1,
        a.len() > 0 && b.len() > 0 ==> {
            let s = if a.last() == b.last() {
                0int
            } else {
                1int
            };
            &&& lev(a, b) <= lev(a.drop_last(), b.drop_last()) + s
            &&& (lev(a, b) == lev(a.drop_last(), b) + 1 || lev(a, b) == lev(a, b.drop_last()) + 1 || lev(a, b)
                == lev(a.drop_last(), b.drop_last()) + s)
        },
{
}

/// The distance is at least the difference of the lengths.
pub proof fn lemma_lev_len_diff(a: Seq<char>, b: Seq<char>)
    ensures
        lev(a, b) >= a.len() - b.len(),
        lev(a, b) >= b.len() - a.len(),
    decreases a.len() + b.len(),
{
    if a.len() > 0 && b.len() > 0 {
        lemma_lev_len_diff(a.drop_last(), b);
        lemma_lev_len_diff(a, b.drop_last());
        lemma_lev_len_diff(a.drop_last(), b.drop_last());
    }
}

/// The distance does not depend on the order of its arguments.
pub proof fn lemma_lev_symmetric(a: Seq<char>, b: Seq<char>)
    ensures
        lev(a, b) == lev(b, a),
    decreases a.len() + b.len(),
{
    if a.len() > 0 && b.len() > 0 {
        lemma_lev_symmetric(a.drop_last(), b);
        lemma_lev_symmetric(a, b.drop_last());
        lemma_lev_symmetric(a.drop_last(), b.drop_last());
    }
}

/// Going through a third sequence is never shorter: the distance obeys the triangle
/// inequality.
pub proof fn lemma_lev_triangle(a: Seq<char>, b: Seq<char>, c: Seq<char>)
    ensures
        lev(a, c) <= lev(a, b) + lev(b, c),
    decreases a.len() + b.len() + c.len(),
{
    if b.len() == 0 {
        lemma_lev_bounds(a, c);
    } else if a.len() == 0 {
        lemma_lev_len_diff(b, c);
    } else if c.len() == 0 {
        lemma_lev_len_diff(a, b);
    } else {
        let a1 = a.drop_last();
        let b1 = b.drop_last();
        let c1 = c.drop_last();
        lemma_lev_steps(a, b);
        lemma_lev_steps(b, c);
        lemma_lev_steps(a, c);
        lemma_lev_steps(a, b1);
        lemma_lev_steps(b1, c);
        if lev(a, b) == lev(a1, b) + 1 {
            lemma_lev_triangle(a1, b, c);
        } else if lev(b, c) == lev(b, c1) + 1 {
            lemma_lev_triangle(a, b, c1);
        } else if lev(a, b) == lev(a, b1) + 1 {
            lemma_lev_triangle(a, b1, c);
        } else if lev(b, c) == lev(b1, c) + 1 {
            lemma_lev_triangle(a, b1, c);
        } else {
            lemma_lev_triangle(a1, b1, c1);
        }
    }
}

/// A sequence is at distance zero from itself.
pub proof fn lemma_lev_identity(a: Seq<char>)
    ensures
        lev(a, a) == 0,
    decreases a.len(),
{
    if a.len() > 0 {
        lemma_lev_identity(a.drop_last());
        lemma_lev_bounds(a.drop_last(), a);
        lemma_lev_bounds(a, a.drop_last());
    }
}

/// The distance is a metric on character sequences: zero from a sequence to itself,
/// the same both ways, the length from the empty sequence, at least the difference of
/// the lengths, and never more through a third sequence.
pub proof fn lemma_lev_metric(a: Seq<char>, b: Seq<char>, c: Seq<char>)
    ensures
        lev(a, a) == 0,
        lev(a, b) == lev(b, a),
        lev(a, Seq::<char>::empty()) == a.len(),
        lev(a, b) >= a.len() - b.len(),
        lev(a, b) >= b.len() - a.len(),
        lev(a, c) <= lev(a, b) + lev(b, c),
{
    lemma_lev_identity(a);
    lemma_lev_symmetric(a, b);
    lemma_lev_len_diff(a, b);
    lemma_lev_triangle(a, b, c);
}

/// Levenshtein distance between `a` and `b`, computed row by row.
pub fn metric(a: &Vec<char>, b: &Vec<char>) -> (r: usize)
    requires
        2 * (a@.len() + 1) <= usize::MAX,
        a@.len() + b@.len() < usize::MAX,
    ensures
        r == lev(a@, b@),
{
    let alen = a.len();
    let blen = b.len();
    let mut buf: Vec<usize> = vec![0; 2 * (alen + 1)];
    let mut v0: usize = 0;
    let mut v1: usize = alen + 1;
    let mut j: usize = 0;
    while j < alen + 1
        invariant
            j <= alen + 1,
            v1 == alen + 1,
            alen == a@.len(),
            2 * (a@.len() + 1) <= usize::MAX,
            buf@.len() == 2 * (alen + 1),
            forall|x: int| 0 <= x < j ==> #[trigger] buf@[v1 + x] == lev(a@.take(x), b@.take(0)),
        decreases alen + 1 - j,
    {
        proof {
            assert(b@.take(0).len() == 0);
            assert(lev(a@.take(j as int), b@.take(0)) == j) by {
                if j > 0 {
                    assert(a@.take(j as int).len() == j);
                }
            }
        }
        buf.set(v1 + j, j);
        j += 1;
    }
    let mut i: usize = 1;
    while i < blen + 1
        invariant
            1 <= i <= blen + 1,
            alen == a@.len(),
            blen == b@.len(),
            a@.len() + b@.len() < usize::MAX,
            2 * (a@.len() + 1) <= usize::MAX,
            buf@.len() == 2 * (alen + 1),
            (v0 == 0 && v1 == alen + 1) || (v0 == alen + 1 && v1 == 0),
            forall|x: int| 0 <= x <= alen ==> #[trigger] buf@[v1 + x] == lev(a@.take(x), b@.take(i - 1)),
        decreases blen + 1 - i,
    {
        core::mem::swap(&mut v0, &mut v1);
        proof {
            lemma_lev_bounds(a@.take(0), b@.take(i as int));
        }
        buf.set(v1, i);
        let bchar = b[i - 1];
        let mut j: usize = 1;
        while j < alen + 1
            invariant
                1 <= j <= alen + 1,
                1 <= i <= blen,
                alen == a@.len(),
                blen == b@.len(),
                a@.len() + b@.len() < usize::MAX,
                2 * (a@.len() + 1) <= usize::MAX,
                buf@.len() == 2 * (alen + 1),
                (v0 == 0 && v1 == alen + 1) || (v0 == alen + 1 && v1 == 0),
                bchar == b@[i - 1],
                forall|x: int| 0 <= x <= alen ==> #[trigger] buf@[v0 + x] == lev(a@.take(x), b@.take(i - 1)),
                forall|x: int| 0 <= x < j ==> #[trigger] buf@[v1 + x] == lev(a@.take(x), b@.take(i as int)),
            decreases alen + 1 - j,
        {
            let substitution: usize = if bchar != a[j - 1] {
                1
            } else {
                0
            };
            proof {
                lemma_lev_bounds(a@.take(j - 1), b@.take(i as int));
                lemma_lev_bounds(a@.take(j as int), b@.take(i - 1));
                lemma_lev_bounds(a@.take(j - 1), b@.take(i - 1));
            }
            let jm = j - 1;
            assert(buf@[v1 + jm] == lev(a@.take(jm as int), b@.take(i as int)));
            assert(buf@[v0 + jm] == lev(a@.take(jm as int), b@.take(i - 1)));
            assert(buf@[v0 + j] == lev(a@.take(j as int), b@.take(i - 1)));
            let x0 = buf[v1 + jm] + 1;
            let x1 = buf[v0 + j] + 1;
            let x2 = buf[v0 + jm] + substitution;
            let mut min = x0;
            if min > x1 {
                min = x1;
            }
            if min > x2 {
                min = x2;
            }
            proof {
                let aj = a@.take(j as int);
                let bi = b@.take(i as int);
                assert(aj.drop_last() =~= a@.take(j - 1));
                assert(bi.drop_last() =~= b@.take(i - 1));
                assert(aj.last() == a@[j - 1]);
                assert(bi.last() == b@[i - 1]);
                assert(min == lev(aj, bi));
            }
            buf.set(v1 + j, min);
            j += 1;
        }
        i += 1;
    }
    proof {
        assert(a@.take(alen as int) =~= a@);
        assert(b@.take(blen as int) =~= b@);
    }
    buf[v1 + alen]
}

// ---------------------------------------------------------------------------
// Burkhard-Keller tree
// ---------------------------------------------------------------------------

/// Whether the edit distance of `s` to another such term can be computed without overflow.
pub open spec fn fits(s: Seq<char>) -> bool {
    8 * (s.len() + 1) <= usize::MAX
}

/// A term with its characters.
struct WideTerm<'a> {
    term: &'a str,
    wide_term: Vec<char>,
    term_id: TermId,
}

/// A node: a term, its distance to the parent's term, and children in increasing order
/// of that distance.
struct BKNode<'a> {
    t: WideTerm<'a>,
    distance: usize,
    children: Vec<BKNode<'a>>,
}

/// A tree of terms for finding the terms within an edit distance of a query.
pub struct BKTree<'a> {
    root: BKNode<'a>,
    size: usize,
}

/// A term found near a query, with its distance to the query.
#[derive(Debug)]
pub struct BKFindResult<'a> {
    distance: usize,
    term: &'a str,
    term_id: TermId,
}

impl<'a> BKFindResult<'a> {
    /// The result as distance, characters of the term, and identifier.
    pub closed spec fn view_result(&self) -> (int, Seq<char>, TermId) {
        (self.distance as int, self.term@, self.term_id)
    }

    /// Edit distance between the term and the query.
    pub fn distance(&self) -> (r: usize)
        ensures
            r == self.view_result().0,
    {
        self.distance
    }

    /// The term found.
    pub fn term(&self) -> (r: &'a str)
        ensures
            r@ == self.view_result().1,
    {
        self.term
    }

    /// Identifier of the term found.
    pub fn term_id(&self) -> (r: TermId)
        ensures
            r == self.view_result().2,
    {
        self.term_id
    }
}

/// What a node and its subtree hold: each term's characters with its identifier.
spec fn node_entries(n: BKNode) -> Multiset<(Seq<char>, TermId)>
    decreases n,
{
    Multiset::singleton((n.t.wide_term@, n.t.term_id)).add(children_entries(n.children@))
}

spec fn children_entries(cs: Seq<BKNode>) -> Multiset<(Seq<char>, TermId)>
    decreases cs,
{
    if cs.len() == 0 {
        Multiset::empty()
    } else {
        children_entries(cs.drop_last()).add(node_entries(cs.last()))
    }
}

/// The search order of a BK-tree: children in strictly increasing distance, every
/// term below a child at that child's distance from the node's term, terms short
/// enough to be compared.
spec fn bk_ok(n: BKNode) -> bool
    decreases n,
{
    &&& n.t.wide_term@ == n.t.term@
    &&& fits(n.t.wide_term@)
    &&& forall|i: int, j: int| 0 <= i < j < n.children@.len() ==> n.children@[i].distance < n.children@[j].distance
    &&& forall|i: int, e: (Seq<char>, TermId)|
        0 <= i < n.children@.len() && #[trigger] node_entries(n.children@[i]).count(e) > 0 ==> lev(
            n.t.wide_term@,
            e.0,
        ) == n.children@[i].distance
    &&& forall|i: int| 0 <= i < n.children@.len() ==> bk_ok(#[trigger] n.children@[i])
}

proof fn lemma_children_entries_update(
    cs: Seq<BKNode>,
    i: int,
    x: BKNode,
    e: (Seq<char>, TermId),
)
    requires
        0 <= i < cs.len(),
        node_entries(x) == node_entries(cs[i]).insert(e),
    ensures
        children_entries(cs.update(i, x)) == children_entries(cs).insert(e),
    decreases cs.len(),
{
    let u = cs.update(i, x);
    if i < cs.len() - 1 {
        lemma_children_entries_update(cs.drop_last(), i, x, e);
        assert(u.drop_last() =~= cs.drop_last().update(i, x));
        assert(u.last() == cs.last());
        assert(children_entries(u) =~= children_entries(cs).insert(e));
    } else {
        assert(u.drop_last() =~= cs.drop_last());
        assert(children_entries(u) =~= children_entries(cs).insert(e));
    }
}

proof fn lemma_children_entries_insert(cs: Seq<BKNode>, pos: int, x: BKNode)
    requires
        0 <= pos <= cs.len(),
    ensures
        children_entries(cs.insert(pos, x)) == children_entries(cs).add(node_entries(x)),
    decreases cs.len(),
{
    let u = cs.insert(pos, x);
    if pos == cs.len() {
        assert(u.drop_last() =~= cs);
        assert(u.last() == x);
    } else {
        lemma_children_entries_insert(cs.drop_last(), pos, x);
        assert(u.drop_last() =~= cs.drop_last().insert(pos, x));
        assert(u.last() == cs.last());
        assert(children_entries(u) =~= children_entries(cs).add(node_entries(x)));
    }
}

proof fn lemma_children_entries_has(cs: Seq<BKNode>, i: int, e: (Seq<char>, TermId))
    requires
        0 <= i < cs.len(),
        node_entries(cs[i]).count(e) > 0,
    ensures
        children_entries(cs).count(e) > 0,
    decreases cs.len(),
{
    if i < cs.len() - 1 {
        lemma_children_entries_has(cs.drop_last(), i, e);
        assert(cs.drop_last()[i] == cs[i]);
    }
}

/// Copies a run of characters.
fn copy_wide(v: &Vec<char>) -> (r: Vec<char>)
    ensures
        r@ == v@,
{
    let mut r: Vec<char> = Vec::new();
    let mut i: usize = 0;
    while i < v.len()
        invariant
            i <= v@.len(),
            r@ == v@.take(i as int),
        decreases v@.len() - i,
    {
        r.push(v[i]);
        assert(r@ =~= v@.take(i + 1));
        i += 1;
    }
    assert(v@.take(v@.len() as int) =~= v@);
    r
}

impl<'a> BKNode<'a> {
    fn new(t: &WideTerm<'a>, d: usize) -> (r: BKNode<'a>)
        requires
            t.wide_term@ == t.term@,
            fits(t.wide_term@),
        ensures
            r.t.wide_term@ == t.wide_term@,
            r.t.term@ == t.term@,
            r.t.term_id == t.term_id,
            r.distance == d,
            r.children@.len() == 0,
            bk_ok(r),
            node_entries(r) == Multiset::singleton((t.wide_term@, t.term_id)),
    {
        let r = BKNode {
            t: WideTerm { term: t.term, wide_term: copy_wide(&t.wide_term), term_id: t.term_id },
            distance: d,
            children: Vec::new(),
        };
        assert(children_entries(r.children@) =~= Multiset::empty());
        assert(node_entries(r) =~= Multiset::singleton((t.wide_term@, t.term_id)));
        r
    }

    /// Puts `t` below this node: under the child at the same distance from this node's
    /// term, or as a new child at that distance.
    fn insert(&mut self, t: &WideTerm<'a>)
        requires
            bk_ok(*old(self)),
            t.wide_term@ == t.term@,
            fits(t.wide_term@),
        ensures
            bk_ok(*final(self)),
            node_entries(*final(self)) == node_entries(*old(self)).insert((t.wide_term@, t.term_id)),
            final(self).t == old(self).t,
            final(self).distance == old(self).distance,
        decreases *old(self),
    {
        let d = metric(&self.t.wide_term, &t.wide_term);
        let ghost e = (t.wide_term@, t.term_id);
        let n = self.children.len();
        let mut pos = n;
        let mut i: usize = 0;
        while i < n
            invariant_except_break
                pos == n,
            invariant
                n == self.children@.len(),
                i <= n,
                pos <= n,
                *self == *old(self),
                bk_ok(*old(self)),
                t.wide_term@ == t.term@,
                fits(t.wide_term@),
                e == (t.wide_term@, t.term_id),
                d == lev(self.t.wide_term@, t.wide_term@),
                forall|j: int| 0 <= j < i ==> (#[trigger] self.children@[j]).distance < d,
            ensures
                forall|j: int| 0 <= j < pos ==> (#[trigger] self.children@[j]).distance < d,
                pos < n ==> self.children@[pos as int].distance > d,
            decreases n - i,
        {
            if self.children[i].distance == d {
                let ghost c0 = self.children@[i as int];
                proof {
                    assert(bk_ok(c0));
                }
                let mut c = self.children.remove(i);
                assert(c == c0);
                c.insert(t);
                assert(c.t == c0.t);
                assert(bk_ok(c));
                assert(node_entries(c) =~= node_entries(c0).insert((t.wide_term@, t.term_id)));
                self.children.insert(i, c);
                proof {
                    let c1 = self.children@[i as int];
                    assert(self.children@ =~= old(self).children@.update(i as int, c1));
                    assert(node_entries(c1) =~= node_entries(c0).insert(e));
                    lemma_children_entries_update(old(self).children@, i as int, c1, e);
                    assert(self.children@ =~= old(self).children@.update(i as int, c1));
                    assert(node_entries(*self) =~= node_entries(*old(self)).insert(e));
                    assert forall|a: int, x: (Seq<char>, TermId)|
                        0 <= a < self.children@.len() && #[trigger] node_entries(self.children@[a]).count(x) > 0
                        implies lev(self.t.wide_term@, x.0) == self.children@[a].distance by {
                        if a == i {
                            if x != e {
                                assert(node_entries(c0).count(x) > 0);
                            }
                        } else {
                            assert(self.children@[a] == old(self).children@[a]);
                        }
                    }
                    assert forall|a: int| 0 <= a < self.children@.len() implies bk_ok(#[trigger] self.children@[a]) by {
                        if a != i {
                            assert(self.children@[a] == old(self).children@[a]);
                        }
                    }
                }
                return;
            } else if self.children[i].distance > d {
                pos = i;
                break;
            }
            i += 1;
        }
        let child = BKNode::new(t, d);
        let ghost cs0 = self.children@;
        proof {
            assert(pos < n ==> cs0[pos as int].distance > d);
        }
        self.children.insert(pos, child);
        proof {
            lemma_children_entries_insert(cs0, pos as int, child);
            assert(node_entries(*self) =~= node_entries(*old(self)).insert(e));
            assert forall|a: int, b: int| 0 <= a < b < self.children@.len() implies self.children@[a].distance
                < self.children@[b].distance by {
                let da = if a < pos { cs0[a].distance } else if a == pos { d } else { cs0[a - 1].distance };
                let db = if b < pos { cs0[b].distance } else if b == pos { d } else { cs0[b - 1].distance };
                assert(self.children@[a].distance == da);
                assert(self.children@[b].distance == db);
                if a < pos && b > pos {
                    assert(cs0[a].distance < d);
                    assert(cs0[pos as int].distance > d);
                    if b - 1 > pos {
                        assert(cs0[pos as int].distance < cs0[b - 1].distance);
                    }
                } else if a == pos && b > pos {
                    if b - 1 > pos {
                        assert(cs0[pos as int].distance < cs0[b - 1].distance);
                    }
                } else if a > pos {
                    assert(cs0[a - 1].distance < cs0[b - 1].distance);
                } else if b < pos {
                    assert(cs0[a].distance < cs0[b].distance);
                }
            }
            assert forall|a: int, x: (Seq<char>, TermId)|
                0 <= a < self.children@.len() && #[trigger] node_entries(self.children@[a]).count(x) > 0
                implies lev(self.t.wide_term@, x.0) == self.children@[a].distance by {
                if a < pos {
                    assert(self.children@[a] == cs0[a]);
                } else if a > pos {
                    assert(self.children@[a] == cs0[a - 1]);
                }
            }
            assert forall|a: int| 0 <= a < self.children@.len() implies bk_ok(#[trigger] self.children@[a]) by {
                if a < pos {
                    assert(self.children@[a] == cs0[a]);
                } else if a > pos {
                    assert(self.children@[a] == cs0[a - 1]);
                }
            }
        }
    }
}

/// What a search for `q` within `maxd` collects below node `n`, in the order of the
/// search: the node itself when it is close enough, then, going through the children
/// while their distance is at most `d + maxd` (`d` being the node's distance to `q`),
/// what is found below those whose distance is at least `d - maxd`.
spec fn found(n: BKNode, q: Seq<char>, maxd: int) -> Seq<(int, Seq<char>, TermId)>
    decreases n,
{
    let d = lev(n.t.wide_term@, q);
    (if d <= maxd {
        seq![(d, n.t.term@, n.t.term_id)]
    } else {
        Seq::empty()
    }) + found_in(n.children@, q, maxd, d)
}

spec fn found_in(cs: Seq<BKNode>, q: Seq<char>, maxd: int, d: int) -> Seq<(int, Seq<char>, TermId)>
    decreases cs,
{
    if cs.len() == 0 {
        Seq::empty()
    } else if cs[0].distance > d + maxd {
        Seq::empty()
    } else {
        (if d - maxd <= cs[0].distance {
            found(cs[0], q, maxd)
        } else {
            Seq::empty()
        }) + found_in(cs.drop_first(), q, maxd, d)
    }
}

/// The results held in a vector, as distance, characters of the term, and identifier.
pub open spec fn results_view<'a>(rs: Seq<BKFindResult<'a>>) -> Seq<(int, Seq<char>, TermId)> {
    rs.map_values(|r: BKFindResult<'a>| r.view_result())
}

/// Every entry below a node lies within the sum of the lengths of its term and the
/// longest term allowed.
proof fn lemma_child_distance_bound(n: BKNode, i: int)
    requires
        bk_ok(n),
        0 <= i < n.children@.len(),
    ensures
        n.children@[i].distance <= n.t.wide_term@.len() + n.children@[i].t.wide_term@.len(),
{
    let c = n.children@[i];
    let e = (c.t.wide_term@, c.t.term_id);
    assert(bk_ok(c));
    assert(node_entries(c).count(e) > 0);
    lemma_lev_bounds(n.t.wide_term@, c.t.wide_term@);
}

proof fn lemma_found_in_step(cs: Seq<BKNode>, q: Seq<char>, maxd: int, d: int, i: int)
    requires
        0 <= i < cs.len(),
        cs[i].distance <= d + maxd,
    ensures
        found_in(cs.skip(i), q, maxd, d) == (if d - maxd <= cs[i].distance {
            found(cs[i], q, maxd)
        } else {
            Seq::empty()
        }) + found_in(cs.skip(i + 1), q, maxd, d),
{
    assert(cs.skip(i)[0] == cs[i]);
    assert(cs.skip(i).drop_first() =~= cs.skip(i + 1));
}

/// A search only returns stored terms, each at its true distance from the query, which is
/// within the bound.
proof fn lemma_found_sound(n: BKNode, q: Seq<char>, maxd: int)
    requires
        bk_ok(n),
    ensures
        forall|k: int|
            0 <= k < found(n, q, maxd).len() ==> {
                let r = #[trigger] found(n, q, maxd)[k];
                &&& r.0 == lev(r.1, q)
                &&& r.0 <= maxd
                &&& node_entries(n).count((r.1, r.2)) > 0
            },
    decreases n,
{
    let d = lev(n.t.wide_term@, q);
    let head: Seq<(int, Seq<char>, TermId)> = if d <= maxd {
        seq![(d, n.t.term@, n.t.term_id)]
    } else {
        Seq::empty()
    };
    lemma_found_in_sound(n.children@, q, maxd, d);
    let f = found(n, q, maxd);
    assert(f == head + found_in(n.children@, q, maxd, d));
    assert forall|k: int| 0 <= k < f.len() implies {
        let r = #[trigger] f[k];
        &&& r.0 == lev(r.1, q)
        &&& r.0 <= maxd
        &&& node_entries(n).count((r.1, r.2)) > 0
    } by {
        if k < head.len() {
            assert(f[k] == head[k]);
        } else {
            assert(f[k] == found_in(n.children@, q, maxd, d)[k - head.len()]);
        }
    }
}

proof fn lemma_found_in_sound(cs: Seq<BKNode>, q: Seq<char>, maxd: int, d: int)
    requires
        forall|i: int| 0 <= i < cs.len() ==> bk_ok(#[trigger] cs[i]),
    ensures
        forall|k: int|
            0 <= k < found_in(cs, q, maxd, d).len() ==> {
                let r = #[trigger] found_in(cs, q, maxd, d)[k];
                &&& r.0 == lev(r.1, q)
                &&& r.0 <= maxd
                &&& children_entries(cs).count((r.1, r.2)) > 0
            },
    decreases cs,
{
    if cs.len() > 0 && cs[0].distance <= d + maxd {
        let first: Seq<(int, Seq<char>, TermId)> = if d - maxd <= cs[0].distance {
            found(cs[0], q, maxd)
        } else {
            Seq::empty()
        };
        let rest = cs.drop_first();
        assert(forall|i: int| 0 <= i < rest.len() ==> bk_ok(#[trigger] rest[i])) by {
            assert forall|i: int| 0 <= i < rest.len() implies bk_ok(#[trigger] rest[i]) by {
                assert(rest[i] == cs[i + 1]);
            }
        }
        lemma_found_in_sound(rest, q, maxd, d);
        assert(bk_ok(cs[0]));
        lemma_found_sound(cs[0], q, maxd);
        let f = found_in(cs, q, maxd, d);
        assert(f == first + found_in(rest, q, maxd, d));
        assert forall|k: int| 0 <= k < f.len() implies {
            let r = #[trigger] f[k];
            &&& r.0 == lev(r.1, q)
            &&& r.0 <= maxd
            &&& children_entries(cs).count((r.1, r.2)) > 0
        } by {
            if k < first.len() {
                assert(f[k] == first[k]);
                lemma_children_entries_has(cs, 0, (f[k].1, f[k].2));
            } else {
                let r = f[k];
                assert(r == found_in(rest, q, maxd, d)[k - first.len()]);
                lemma_children_entries_tail(cs, (r.1, r.2));
            }
        }
    }
}

/// What the children after the first hold, the children hold.
proof fn lemma_children_entries_tail(cs: Seq<BKNode>, e: (Seq<char>, TermId))
    requires
        cs.len() > 0,
        children_entries(cs.drop_first()).count(e) > 0,
    ensures
        children_entries(cs).count(e) > 0,
{
    let rest = cs.drop_first();
    let k = choose_index(rest, e);
    lemma_children_entries_has(cs, k + 1, e);
}

/// A child that holds `e`, for a run of children that holds it.
proof fn choose_index(cs: Seq<BKNode>, e: (Seq<char>, TermId)) -> (k: int)
    requires
        children_entries(cs).count(e) > 0,
    ensures
        0 <= k < cs.len(),
        node_entries(cs[k]).count(e) > 0,
    decreases cs.len(),
{
    if children_entries(cs.drop_last()).count(e) > 0 {
        let k = choose_index(cs.drop_last(), e);
        assert(cs.drop_last()[k] == cs[k]);
        k
    } else {
        (cs.len() - 1) as int
    }
}

impl<'a> BKNode<'a> {
    /// Appends to `into` every term that the search order reaches within `maxd` of
    /// `wide_term`, as `found` lists them.
    fn find(&self, into: &mut Vec<BKFindResult<'a>>, wide_term: &Vec<char>, maxd: isize)
        requires
            bk_ok(*self),
            fits(wide_term@),
            0 <= maxd,
            4 * maxd <= usize::MAX,
        ensures
            results_view(final(into)@) == results_view(old(into)@) + found(*self, wide_term@, maxd as int),
        decreases *self,
    {
        proof {
            lemma_lev_bounds(self.t.wide_term@, wide_term@);
        }
        let d0 = metric(&self.t.wide_term, wide_term);
        let d = d0 as isize;
        let lowd = d - maxd;
        let highd = d + maxd;
        let ghost q = wide_term@;
        let ghost m = maxd as int;
        let ghost head: Seq<(int, Seq<char>, TermId)> = if d <= maxd {
            seq![(d as int, self.t.term@, self.t.term_id)]
        } else {
            Seq::empty()
        };
        let ghost cs = self.children@;
        let ghost target = results_view(old(into)@) + found(*self, q, m);
        if d <= maxd {
            into.push(BKFindResult { distance: d as usize, term: self.t.term, term_id: self.t.term_id });
        }
        proof {
            assert(results_view(into@) =~= results_view(old(into)@) + head);
            assert(cs.skip(0) =~= cs);
            assert(target =~= results_view(into@) + found_in(cs.skip(0), q, m, d as int));
        }
        let n = self.children.len();
        let mut i: usize = 0;
        while i < n
            invariant
                n == cs.len(),
                i <= n,
                cs == self.children@,
                bk_ok(*self),
                fits(wide_term@),
                q == wide_term@,
                0 <= maxd,
                4 * maxd <= usize::MAX,
                m == maxd as int,
                d as int == lev(self.t.wide_term@, q),
                lowd == d - maxd,
                highd == d + maxd,
                target == results_view(into@) + found_in(cs.skip(i as int), q, m, d as int),
            ensures
                target == results_view(into@),
            decreases n - i,
        {
            proof {
                lemma_child_distance_bound(*self, i as int);
                assert(bk_ok(cs[i as int]));
            }
            let ch_dist = self.children[i].distance as isize;
            if ch_dist > highd {
                proof {
                    assert(cs.skip(i as int)[0] == cs[i as int]);
                    assert(found_in(cs.skip(i as int), q, m, d as int) =~= Seq::empty());
                    assert(target =~= results_view(into@));
                }
                break;
            }
            let ghost before = results_view(into@);
            proof {
                lemma_found_in_step(cs, q, m, d as int, i as int);
            }
            if lowd <= ch_dist && ch_dist <= highd {
                proof {
                    assert(decreases_to!(*self => self.children));
                }
                self.children[i].find(into, wide_term, maxd);
                proof {
                    assert(target =~= results_view(into@) + found_in(cs.skip(i + 1), q, m, d as int));
                }
            } else {
                proof {
                    assert(target =~= results_view(into@) + found_in(cs.skip(i + 1), q, m, d as int));
                }
            }
            i += 1;
        }
        proof {
            if i == n {
                assert(cs.skip(n as int) =~= Seq::<BKNode>::empty());
                assert(target =~= results_view(into@));
            }
        }
    }
}

impl<'a> BKTree<'a> {
    /// The tree keeps the search order, and its root holds the empty term.
    pub closed spec fn wf(&self) -> bool {
        &&& bk_ok(self.root)
        &&& self.root.t.wide_term@.len() == 0
        &&& self.root.t.term_id == 0
        &&& node_entries(self.root).len() == self.size + 1
        &&& self.size < usize::MAX
    }

    /// The terms held, with their identifiers; the root holds the empty term with zero.
    pub closed spec fn entries(&self) -> Multiset<(Seq<char>, TermId)> {
        node_entries(self.root)
    }

    /// Number of terms inserted.
    pub closed spec fn size(&self) -> nat {
        self.size as nat
    }

    /// What `find` returns for query `q` within `maxd`: the terms the search order
    /// reaches, each with its distance to `q`.
    pub closed spec fn search(&self, q: Seq<char>, maxd: int) -> Seq<(int, Seq<char>, TermId)> {
        found(self.root, q, maxd)
    }

    /// An empty tree: just the root with the empty term.
    pub fn new() -> (r: BKTree<'a>)
        ensures
            r.wf(),
            r.size() == 0,
            r.entries() == Multiset::singleton((Seq::<char>::empty(), 0u32)),
    {
        let root_term = WideTerm { wide_term: Vec::new(), term: "", term_id: 0 };
        proof {
            reveal_strlit("");
            assert(root_term.wide_term@ =~= root_term.term@);
        }
        let root = BKNode::new(&root_term, 0);
        proof {
            broadcast use vstd::multiset::group_multiset_axioms;
            assert(root.t.wide_term@ =~= Seq::<char>::empty());
        }
        BKTree { root: root, size: 0 }
    }

    /// Inserts `term` with its identifier.
    pub fn insert(&mut self, term: &'a str, term_id: TermId)
        requires
            old(self).wf(),
            fits(term@),
            old(self).size() + 1 < usize::MAX,
        ensures
            final(self).wf(),
            final(self).entries() == old(self).entries().insert((term@, term_id)),
            final(self).size() == old(self).size() + 1,
    {
        let wide_term = WideTerm { wide_term: to_wide(term), term: term, term_id: term_id };
        self.root.insert(&wide_term);
        self.size += 1;
        proof {
            broadcast use vstd::multiset::group_multiset_axioms;
        }
    }

    /// Inserts a dictionary term.
    pub fn insert_term(&mut self, term: &'a Term)
        requires
            old(self).wf(),
            fits(term.term@),
            old(self).size() + 1 < usize::MAX,
        ensures
            final(self).wf(),
            final(self).entries() == old(self).entries().insert((term.term@, term.term_id)),
            final(self).size() == old(self).size() + 1,
    {
        self.insert(term.term.as_str(), term.term_id);
    }

    /// The terms within `maxd` edits of `term` that the search reaches, in search order.
    pub fn find(&self, term: &str, maxd: usize) -> (r: Vec<BKFindResult<'a>>)
        requires
            self.wf(),
            fits(term@),
            4 * maxd <= usize::MAX,
        ensures
            results_view(r@) == self.search(term@, maxd as int),
    {
        let mut result: Vec<BKFindResult<'a>> = Vec::new();
        let wide = to_wide(term);
        self.root.find(&mut result, &wide, maxd as isize);
        proof {
            assert(results_view(Seq::<BKFindResult<'a>>::empty()) =~= Seq::empty());
            assert(results_view(result@) =~= self.search(term@, maxd as int));
        }
        result
    }
}

/// A search returns only stored terms, each at its edit distance from the query and
/// within the bound.
pub proof fn lemma_search_sound(t: BKTree, q: Seq<char>, maxd: int)
    requires
        t.wf(),
    ensures
        forall|k: int|
            0 <= k < t.search(q, maxd).len() ==> {
                let r = #[trigger] t.search(q, maxd)[k];
                &&& r.0 == lev(r.1, q)
                &&& r.0 <= maxd
                &&& t.entries().count((r.1, r.2)) > 0
            },
{
    lemma_found_sound(t.root, q, maxd);
}

/// A node whose term is close enough to `q` is found, as is everything found below a
/// child that the search goes through.
proof fn lemma_found_in_has(cs: Seq<BKNode>, q: Seq<char>, maxd: int, d: int, i: int, x: (int, Seq<char>, TermId))
    requires
        0 <= i < cs.len(),
        forall|j: int| 0 <= j <= i ==> #[trigger] cs[j].distance <= d + maxd,
        d - maxd <= cs[i].distance,
        found(cs[i], q, maxd).contains(x),
    ensures
        found_in(cs, q, maxd, d).contains(x),
    decreases cs.len(),
{
    let first: Seq<(int, Seq<char>, TermId)> = if d - maxd <= cs[0].distance {
        found(cs[0], q, maxd)
    } else {
        Seq::empty()
    };
    let rest = cs.drop_first();
    assert(cs[0].distance <= d + maxd);
    assert(found_in(cs, q, maxd, d) == first + found_in(rest, q, maxd, d));
    if i == 0 {
        let k = choose|k: int| 0 <= k < first.len() && first[k] == x;
        assert((first + found_in(rest, q, maxd, d))[k] == x);
    } else {
        assert forall|j: int| 0 <= j <= i - 1 implies #[trigger] rest[j].distance <= d + maxd by {
            assert(rest[j] == cs[j + 1]);
        }
        assert(rest[i - 1] == cs[i]);
        lemma_found_in_has(rest, q, maxd, d, i - 1, x);
        let f = found_in(rest, q, maxd, d);
        let k = choose|k: int| 0 <= k < f.len() && f[k] == x;
        assert((first + f)[first.len() + k] == x);
    }
}

/// A search finds every term held below a node within `maxd` of the query, with its
/// distance.
proof fn lemma_found_complete(n: BKNode, q: Seq<char>, maxd: int, e: (Seq<char>, TermId))
    requires
        bk_ok(n),
        node_entries(n).count(e) > 0,
        lev(e.0, q) <= maxd,
    ensures
        found(n, q, maxd).contains((lev(e.0, q), e.0, e.1)),
    decreases n,
{
    broadcast use vstd::multiset::group_multiset_axioms;
    let d = lev(n.t.wide_term@, q);
    let x = (lev(e.0, q), e.0, e.1);
    let head: Seq<(int, Seq<char>, TermId)> = if d <= maxd {
        seq![(d, n.t.term@, n.t.term_id)]
    } else {
        Seq::empty()
    };
    let cs = n.children@;
    let f = found(n, q, maxd);
    assert(f == head + found_in(cs, q, maxd, d));
    if children_entries(cs).count(e) > 0 {
        let i = choose_index(cs, e);
        let c = cs[i];
        assert(bk_ok(c));
        assert(lev(n.t.wide_term@, e.0) == c.distance);
        lemma_lev_triangle(n.t.wide_term@, q, e.0);
        lemma_lev_triangle(n.t.wide_term@, e.0, q);
        lemma_lev_symmetric(q, e.0);
        assert forall|j: int| 0 <= j <= i implies #[trigger] cs[j].distance <= d + maxd by {
            if j < i {
                assert(cs[j].distance < cs[i].distance);
            }
        }
        lemma_found_complete(c, q, maxd, e);
        lemma_found_in_has(cs, q, maxd, d, i, x);
        let g = found_in(cs, q, maxd, d);
        let k = choose|k: int| 0 <= k < g.len() && g[k] == x;
        assert(f[head.len() + k] == x);
    } else {
        assert(e == (n.t.wide_term@, n.t.term_id));
        assert(f[0] == x);
    }
}

/// A search finds every term of the tree within `maxd` edits of the query, with its
/// distance to the query.
pub proof fn lemma_search_complete(t: BKTree, q: Seq<char>, maxd: int, e: (Seq<char>, TermId))
    requires
        t.wf(),
        t.entries().count(e) > 0,
        lev(e.0, q) <= maxd,
    ensures
        t.search(q, maxd).contains((lev(e.0, q), e.0, e.1)),
{
    lemma_found_complete(t.root, q, maxd, e);
}

/// The descendants of a node in depth-first order, each with its depth below the node
/// (starting at `lvl`), its distance to its parent, and its term.
spec fn outline_of(n: BKNode, lvl: int) -> Seq<(int, int, Seq<char>)>
    decreases n,
{
    outline_in(n.children@, lvl)
}

spec fn outline_in(cs: Seq<BKNode>, lvl: int) -> Seq<(int, int, Seq<char>)>
    decreases cs,
{
    if cs.len() == 0 {
        Seq::empty()
    } else {
        seq![(lvl, cs[0].distance as int, cs[0].t.term@)] + outline_of(cs[0], lvl + 1) + outline_in(
            cs.drop_first(),
            lvl,
        )
    }
}

/// Lines of an outline as depth, distance and term.
pub open spec fn outline_view<'a>(ls: Seq<(usize, usize, &'a str)>) -> Seq<(int, int, Seq<char>)> {
    ls.map_values(|l: (usize, usize, &'a str)| (l.0 as int, l.1 as int, l.2@))
}

/// A child holds fewer entries than its parent.
proof fn lemma_child_entries_len(n: BKNode, i: int)
    requires
        0 <= i < n.children@.len(),
    ensures
        node_entries(n.children@[i]).len() < node_entries(n).len(),
{
    broadcast use vstd::multiset::group_multiset_axioms;
    lemma_children_entries_len(n.children@, i);
}

proof fn lemma_children_entries_len(cs: Seq<BKNode>, i: int)
    requires
        0 <= i < cs.len(),
    ensures
        node_entries(cs[i]).len() <= children_entries(cs).len(),
    decreases cs.len(),
{
    broadcast use vstd::multiset::group_multiset_axioms;
    if i < cs.len() - 1 {
        lemma_children_entries_len(cs.drop_last(), i);
        assert(cs.drop_last()[i] == cs[i]);
    }
}

/// How many lines of an outline show the term `s`.
pub open spec fn lines_with(ls: Seq<(int, int, Seq<char>)>, s: Seq<char>) -> nat
    decreases ls.len(),
{
    if ls.len() == 0 {
        0
    } else {
        lines_with(ls.drop_last(), s) + if ls.last().2 == s {
            1nat
        } else {
            0nat
        }
    }
}

/// How many of the entries `m` hold the term `s`, whatever their identifiers.
pub open spec fn entries_with(m: Multiset<(Seq<char>, TermId)>, s: Seq<char>) -> nat {
    m.filter(holds_term(s)).len()
}

/// Whether an entry holds the term `s`.
pub open spec fn holds_term(s: Seq<char>) -> spec_fn((Seq<char>, TermId)) -> bool {
    |e: (Seq<char>, TermId)| e.0 == s
}

proof fn lemma_lines_with_concat(a: Seq<(int, int, Seq<char>)>, b: Seq<(int, int, Seq<char>)>, s: Seq<char>)
    ensures
        lines_with(a + b, s) == lines_with(a, s) + lines_with(b, s),
    decreases b.len(),
{
    if b.len() > 0 {
        lemma_lines_with_concat(a, b.drop_last(), s);
        assert((a + b).drop_last() =~= a + b.drop_last());
        assert((a + b).last() == b.last());
    } else {
        assert(a + b =~= a);
    }
}

proof fn lemma_entries_with_add(m1: Multiset<(Seq<char>, TermId)>, m2: Multiset<(Seq<char>, TermId)>, s: Seq<char>)
    ensures
        entries_with(m1.add(m2), s) == entries_with(m1, s) + entries_with(m2, s),
{
    broadcast use vstd::multiset::group_multiset_axioms;
    let f = holds_term(s);
    assert(m1.add(m2).filter(f) =~= m1.filter(f).add(m2.filter(f)));
}

proof fn lemma_entries_with_singleton(e: (Seq<char>, TermId), s: Seq<char>)
    ensures
        entries_with(Multiset::singleton(e), s) == if e.0 == s {
            1nat
        } else {
            0nat
        },
{
    broadcast use vstd::multiset::group_multiset_axioms;
    let f = holds_term(s);
    if e.0 == s {
        assert(Multiset::singleton(e).filter(f) =~= Multiset::singleton(e));
    } else {
        assert(Multiset::singleton(e).filter(f) =~= Multiset::empty());
    }
}

/// The children's entries are those of the first child and of the others.
proof fn lemma_children_entries_front(cs: Seq<BKNode>)
    requires
        cs.len() > 0,
    ensures
        children_entries(cs) == node_entries(cs[0]).add(children_entries(cs.drop_first())),
    decreases cs.len(),
{
    broadcast use vstd::multiset::group_multiset_axioms;
    if cs.len() == 1 {
        assert(cs.drop_last() =~= Seq::<BKNode>::empty());
        assert(cs.drop_first() =~= Seq::<BKNode>::empty());
        assert(children_entries(cs) =~= node_entries(cs[0]).add(children_entries(cs.drop_first())));
    } else {
        lemma_children_entries_front(cs.drop_last());
        assert(cs.drop_last().drop_first() =~= cs.drop_first().drop_last());
        assert(cs.drop_first().last() == cs.last());
        assert(cs.drop_last()[0] == cs[0]);
        assert(children_entries(cs) =~= node_entries(cs[0]).add(children_entries(cs.drop_first())));
    }
}

/// The outline below a node has one line per entry below it, showing its term.
proof fn lemma_outline_of_counts(n: BKNode, lvl: int)
    requires
        bk_ok(n),
    ensures
        outline_of(n, lvl).len() == children_entries(n.children@).len(),
        forall|s: Seq<char>| #[trigger] lines_with(outline_of(n, lvl), s) == entries_with(children_entries(n.children@), s),
    decreases n,
{
    lemma_outline_in_counts(n.children@, lvl);
}

proof fn lemma_outline_in_counts(cs: Seq<BKNode>, lvl: int)
    requires
        forall|i: int| 0 <= i < cs.len() ==> bk_ok(#[trigger] cs[i]),
    ensures
        outline_in(cs, lvl).len() == children_entries(cs).len(),
        forall|s: Seq<char>| #[trigger] lines_with(outline_in(cs, lvl), s) == entries_with(children_entries(cs), s),
    decreases cs,
{
    broadcast use vstd::multiset::group_multiset_axioms;
    if cs.len() == 0 {
        assert forall|s: Seq<char>| #[trigger] lines_with(outline_in(cs, lvl), s) == entries_with(children_entries(cs), s) by {
            let f = holds_term(s);
            assert(children_entries(cs).filter(f) =~= Multiset::empty());
        }
    } else {
        let c = cs[0];
        let rest = cs.drop_first();
        assert(bk_ok(c));
        assert forall|i: int| 0 <= i < rest.len() implies bk_ok(#[trigger] rest[i]) by {
            assert(rest[i] == cs[i + 1]);
        }
        lemma_outline_of_counts(c, lvl + 1);
        lemma_outline_in_counts(rest, lvl);
        lemma_children_entries_front(cs);
        let head = seq![(lvl, c.distance as int, c.t.term@)];
        let below = outline_of(c, lvl + 1);
        let after = outline_in(rest, lvl);
        assert(outline_in(cs, lvl) == head + below + after);
        let top = (c.t.wide_term@, c.t.term_id);
        assert(node_entries(c) == Multiset::singleton(top).add(children_entries(c.children@)));
        assert forall|s: Seq<char>| #[trigger] lines_with(outline_in(cs, lvl), s) == entries_with(children_entries(cs), s) by {
            lemma_lines_with_concat(head + below, after, s);
            lemma_lines_with_concat(head, below, s);
            assert(head.drop_last() =~= Seq::<(int, int, Seq<char>)>::empty());
            lemma_entries_with_add(node_entries(c), children_entries(rest), s);
            lemma_entries_with_add(Multiset::singleton(top), children_entries(c.children@), s);
            lemma_entries_with_singleton(top, s);
            assert(lines_with(head, s) == lines_with(head.drop_last(), s) + (if c.t.term@ == s {
                1nat
            } else {
                0nat
            }));
            assert(lines_with(Seq::<(int, int, Seq<char>)>::empty(), s) == 0);
            assert(c.t.term@ == c.t.wide_term@);
            assert(lines_with(below, s) == entries_with(children_entries(c.children@), s));
            assert(lines_with(after, s) == entries_with(children_entries(rest), s));
        }
    }
}

impl<'a> BKNode<'a> {
    /// Appends the outline of the node's descendants, depths starting at `lvl`.
    fn outline(&self, lvl: usize, out: &mut Vec<(usize, usize, &'a str)>)
        requires
            lvl + node_entries(*self).len() <= usize::MAX,
        ensures
            outline_view(final(out)@) == outline_view(old(out)@) + outline_of(*self, lvl as int),
        decreases *self,
    {
        let ghost cs = self.children@;
        let ghost target = outline_view(old(out)@) + outline_of(*self, lvl as int);
        proof {
            assert(cs.skip(0) =~= cs);
            assert(target =~= outline_view(out@) + outline_in(cs.skip(0), lvl as int));
        }
        let n = self.children.len();
        let mut i: usize = 0;
        while i < n
            invariant
                n == cs.len(),
                i <= n,
                cs == self.children@,
                lvl + node_entries(*self).len() <= usize::MAX,
                target == outline_view(out@) + outline_in(cs.skip(i as int), lvl as int),
            decreases n - i,
        {
            proof {
                lemma_child_entries_len(*self, i as int);
                assert(cs.skip(i as int)[0] == cs[i as int]);
                assert(cs.skip(i as int).drop_first() =~= cs.skip(i + 1));
                assert(decreases_to!(*self => self.children));
            }
            let ghost before = out@;
            out.push((lvl, self.children[i].distance, self.children[i].t.term));
            self.children[i].outline(lvl + 1, out);
            proof {
                assert(outline_view(before.push((lvl, cs[i as int].distance, cs[i as int].t.term))) =~= outline_view(
                    before,
                ).push((lvl as int, cs[i as int].distance as int, cs[i as int].t.term@)));
                assert(target =~= outline_view(out@) + outline_in(cs.skip(i + 1), lvl as int));
            }
            i += 1;
        }
        proof {
            assert(cs.skip(n as int) =~= Seq::<BKNode>::empty());
            assert(target =~= outline_view(out@));
        }
    }
}

impl<'a> BKTree<'a> {
    /// The tree below the root, node by node in depth-first order: depth (children of the
    /// root at zero), distance to the parent, and term.
    pub closed spec fn outline_spec(&self) -> Seq<(int, int, Seq<char>)> {
        outline_of(self.root, 0)
    }

    /// Printing a tree shows every term inserted into it, once per insertion: one line
    /// per term held below the root, and for every term as many lines as the tree holds
    /// entries with it, leaving out the root's empty term.
    pub proof fn lemma_outline_lists_every_term(&self)
        requires
            self.wf(),
        ensures
            self.outline_spec().len() == self.size(),
            forall|s: Seq<char>|
                #[trigger] lines_with(self.outline_spec(), s) + (if s.len() == 0 {
                    1nat
                } else {
                    0nat
                }) == entries_with(self.entries(), s),
    {
        broadcast use vstd::multiset::group_multiset_axioms;
        let r = self.root;
        lemma_outline_of_counts(r, 0);
        let top = (r.t.wide_term@, r.t.term_id);
        assert(node_entries(r) == Multiset::singleton(top).add(children_entries(r.children@)));
        assert forall|s: Seq<char>|
            #[trigger] lines_with(self.outline_spec(), s) + (if s.len() == 0 {
                1nat
            } else {
                0nat
            }) == entries_with(self.entries(), s) by {
            lemma_entries_with_add(Multiset::singleton(top), children_entries(r.children@), s);
            lemma_entries_with_singleton(top, s);
            if s.len() == 0 {
                assert(top.0 =~= s);
            }
        }
    }

    /// The lines `print` shows: depth, distance to the parent, and term of every node
    /// below the root, in depth-first order.
    pub fn outline(&self) -> (r: Vec<(usize, usize, &'a str)>)
        requires
            self.wf(),
        ensures
            outline_view(r@) == self.outline_spec(),
    {
        let mut out: Vec<(usize, usize, &'a str)> = Vec::new();
        self.root.outline(0, &mut out);
        proof {
            assert(outline_view(Seq::<(usize, usize, &'a str)>::empty()) =~= Seq::empty());
            assert(outline_view(out@) =~= self.outline_spec());
        }
        out
    }
}

} // verus!
