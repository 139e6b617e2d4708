use vstd::prelude::*;

use crate::element::{covers, Element};
use crate::vec_2::{cell_fits, Vec2};

verus! {

broadcast use vstd::set::group_set_axioms, vstd::map::group_map_axioms;

/// The store's coordinate order: lexicographic, `X` first, then `Y`.
pub open spec fn lex_lt(a: (int, int), b: (int, int)) -> bool {
    a.0 < b.0 || (a.0 == b.0 && a.1 < b.1)
}

/// An entry list in strictly ascending coordinate order. Strictness makes the
/// keys pairwise distinct, so the list denotes a mapping.
pub open spec fn sorted(s: Seq<(Vec2<i16>, Element)>) -> bool {
    forall|i: int, j: int| 0 <= i < j < s.len() ==> lex_lt(s[i].0@, s[j].0@)
}

/// No two entries share a coordinate.
pub open spec fn distinct_cells(s: Seq<(Vec2<i16>, Element)>) -> bool {
    forall|i: int, j: int| 0 <= i < j < s.len() ==> s[i].0@ != s[j].0@
}

/// The mapping an entry list denotes; on a repeated coordinate the later
/// entry wins.
pub open spec fn map_of(s: Seq<(Vec2<i16>, Element)>) -> Map<(int, int), Element>
    decreases s.len(),
{
    if s.len() == 0 {
        Map::empty()
    } else {
        map_of(s.drop_last()).insert(s.last().0@, s.last().1)
    }
}

/// Some entry of the list sits at cell `k`.
pub open spec fn has_cell(s: Seq<(Vec2<i16>, Element)>, k: (int, int)) -> bool {
    exists|i: int| 0 <= i < s.len() && (#[trigger] s[i]).0@ == k
}

/// A strictly ordered entry list never repeats a coordinate: the store keeps
/// at most one element per cell.
pub proof fn lemma_unique_positions(s: Seq<(Vec2<i16>, Element)>)
    requires
        sorted(s),
    ensures
        distinct_cells(s),
{
    assert forall|i: int, j: int| 0 <= i < j < s.len() implies s[i].0@ != s[j].0@ by {
        assert(lex_lt(s[i].0@, s[j].0@));
    }
}

/// The denoted mapping is finite and holds exactly the listed cells.
pub proof fn lemma_map_of_dom(s: Seq<(Vec2<i16>, Element)>)
    ensures
        map_of(s).dom().finite(),
        forall|k: (int, int)| #[trigger] map_of(s).contains_key(k) <==> has_cell(s, k),
    decreases s.len(),
{
    if s.len() == 0 {
        assert(forall|k: (int, int)| !(#[trigger] map_of(s).contains_key(k)));
        assert(forall|k: (int, int)| !has_cell(s, k));
    } else {
        let pre = s.drop_last();
        lemma_map_of_dom(pre);
        assert forall|k: (int, int)| #[trigger] map_of(s).contains_key(k) implies has_cell(s, k) by {
            if k == s.last().0@ {
                assert((s[s.len() - 1]).0@ == k);
            } else {
                let i = choose|i: int| 0 <= i < pre.len() && (#[trigger] pre[i]).0@ == k;
                assert((s[i]).0@ == k);
            }
        }
        assert forall|k: (int, int)| has_cell(s, k) implies map_of(s).contains_key(k) by {
            let i = choose|i: int| 0 <= i < s.len() && (#[trigger] s[i]).0@ == k;
            if i < s.len() - 1 {
                assert((pre[i]).0@ == k);
                assert(has_cell(pre, k));
            }
        }
    }
}

/// On a list with distinct cells, the denoted mapping sends each listed cell
/// to the element listed with it.
pub proof fn lemma_map_of_at(s: Seq<(Vec2<i16>, Element)>)
    requires
        distinct_cells(s),
    ensures
        forall|i: int| 0 <= i < s.len() ==> map_of(s)[(#[trigger] s[i]).0@] == s[i].1,
    decreases s.len(),
{
    if s.len() > 0 {
        let pre = s.drop_last();
        assert(distinct_cells(pre)) by {
            assert(forall|i: int, j: int| 0 <= i < j < pre.len() ==> (#[trigger] pre[i]) == s[i]
                && (#[trigger] pre[j]) == s[j]);
        }
        lemma_map_of_at(pre);
        assert forall|i: int| 0 <= i < s.len() implies map_of(s)[(#[trigger] s[i]).0@] == s[i].1 by {
            if i < s.len() - 1 {
                assert(s[i] == pre[i]);
                assert(s[i].0@ != s.last().0@);
                assert(map_of(s)[s[i].0@] == map_of(pre)[s[i].0@]);
            }
        }
    }
}

/// On a list with distinct cells, the denoted mapping has exactly one entry
/// per listed cell.
pub proof fn lemma_map_of_len(s: Seq<(Vec2<i16>, Element)>)
    requires
        distinct_cells(s),
    ensures
        map_of(s).dom().finite(),
        map_of(s).len() == s.len(),
    decreases s.len(),
{
    lemma_map_of_dom(s);
    if s.len() > 0 {
        let pre = s.drop_last();
        assert(distinct_cells(pre)) by {
            assert(forall|i: int, j: int| 0 <= i < j < pre.len() ==> (#[trigger] pre[i]) == s[i]
                && (#[trigger] pre[j]) == s[j]);
        }
        lemma_map_of_len(pre);
        lemma_map_of_dom(pre);
        assert(!map_of(pre).contains_key(s.last().0@)) by {
            if has_cell(pre, s.last().0@) {
                let i = choose|i: int|
                    0 <= i < pre.len() && (#[trigger] pre[i]).0@ == s.last().0@;
                assert(s[i].0@ == s[s.len() - 1].0@);
            }
        }
        assert(map_of(s).dom() == map_of(pre).dom().insert(s.last().0@));
    }
}

/// The cell `p` lies in the axis-aligned rectangle `[min, max)`, half-open on
/// the max side per axis.
pub open spec fn in_rect(p: (int, int), min: (int, int), max: (int, int)) -> bool {
    min.0 <= p.0 < max.0 && min.1 <= p.1 < max.1
}

/// The part of a mapping whose cells lie in the rectangle `[min, max)`.
pub open spec fn rect_part(
    m: Map<(int, int), Element>,
    min: (int, int),
    max: (int, int),
) -> Map<(int, int), Element> {
    Map::new(|p: (int, int)| m.contains_key(p) && in_rect(p, min, max), |p: (int, int)| m[p])
}

/// The part of a mapping whose cells lie outside the rectangle `[min, max)`.
pub open spec fn rect_rest(
    m: Map<(int, int), Element>,
    min: (int, int),
    max: (int, int),
) -> Map<(int, int), Element> {
    Map::new(|p: (int, int)| m.contains_key(p) && !in_rect(p, min, max), |p: (int, int)| m[p])
}

/// The cell `p` translated by `off`.
pub open spec fn shift(p: (int, int), off: (int, int)) -> (int, int) {
    (p.0 + off.0, p.1 + off.1)
}

/// The mapping `m` with every cell translated by `off`.
pub open spec fn shift_map(m: Map<(int, int), Element>, off: (int, int)) -> Map<
    (int, int),
    Element,
> {
    Map::new(
        |p: (int, int)| m.contains_key((p.0 - off.0, p.1 - off.1)),
        |p: (int, int)| m[(p.0 - off.0, p.1 - off.1)],
    )
}

/// Every cell of `m`, translated by `off`, still fits an `i16` grid cell.
pub open spec fn shift_fits(m: Map<(int, int), Element>, off: (int, int)) -> bool {
    forall|p: (int, int)| #[trigger] m.contains_key(p) ==> cell_fits(shift(p, off))
}

/// No cell of `floating`, translated by `off`, collides with a cell of
/// `store`.
pub open spec fn shift_disjoint(
    store: Map<(int, int), Element>,
    floating: Map<(int, int), Element>,
    off: (int, int),
) -> bool {
    forall|p: (int, int)| #[trigger] floating.contains_key(p) ==> !store.contains_key(
        shift(p, off),
    )
}

/// The result of reattaching `floating` to `store` at `off`: every floating
/// element lands at its stored cell translated by `off`, silently replacing
/// any prior occupant of that exact cell.
pub open spec fn merged(
    store: Map<(int, int), Element>,
    floating: Map<(int, int), Element>,
    off: (int, int),
) -> Map<(int, int), Element> {
    Map::new(
        |p: (int, int)| store.contains_key(p) || shift_map(floating, off).contains_key(p),
        |p: (int, int)|
            if shift_map(floating, off).contains_key(p) {
                shift_map(floating, off)[p]
            } else {
                store[p]
            },
    )
}

/// Offset application law: drawing a floating selection at its stored cells
/// translated by `off` shows each element exactly where reattaching the
/// selection to an empty main store at `off` would place it.
pub proof fn lemma_offset_application_equivalence(f: Map<(int, int), Element>, off: (int, int))
    ensures
        merged(Map::empty(), f, off) == shift_map(f, off),
        forall|p: (int, int)| #[trigger] f.contains_key(p) ==> merged(
            Map::empty(),
            f,
            off,
        ).contains_key(shift(p, off)) && merged(Map::empty(), f, off)[shift(p, off)] == f[p],
{
    assert(merged(Map::empty(), f, off) =~= shift_map(f, off));
    assert forall|p: (int, int)| #[trigger] f.contains_key(p) implies shift_map(
        f,
        off,
    ).contains_key(shift(p, off)) && shift_map(f, off)[shift(p, off)] == f[p] by {
        assert((shift(p, off).0 - off.0, shift(p, off).1 - off.1) == p);
    }
}

/// Some stored element's footprint occupies the cell `c`.
pub open spec fn cell_occupied(m: Map<(int, int), Element>, c: (int, int)) -> bool {
    exists|a: (int, int)| #[trigger] m.contains_key(a) && covers(a, m[a], c)
}

/// The stored element anchored at `a` occupies the cell `c`, and `a` is the
/// least such anchor in the coordinate order.
pub open spec fn is_occupant(m: Map<(int, int), Element>, c: (int, int), a: (int, int)) -> bool {
    &&& m.contains_key(a)
    &&& covers(a, m[a], c)
    &&& forall|b: (int, int)| #[trigger] m.contains_key(b) && covers(b, m[b], c) ==> !lex_lt(b, a)
}

/// A cell has at most one least covering anchor: point-in-footprint lookup is
/// deterministic.
pub proof fn lemma_occupant_unique(
    m: Map<(int, int), Element>,
    c: (int, int),
    a: (int, int),
    b: (int, int),
)
    requires
        is_occupant(m, c, a),
        is_occupant(m, c, b),
    ensures
        a == b,
{
    assert(!lex_lt(a, b));
    assert(!lex_lt(b, a));
}

/// Adjacency lookup law: when exactly one stored element's footprint occupies
/// a cell, point-in-footprint lookup on any of that footprint's cells resolves
/// to that element's anchor.
pub proof fn lemma_adjacency_lookup(m: Map<(int, int), Element>, c: (int, int), a: (int, int))
    requires
        m.contains_key(a),
        covers(a, m[a], c),
        forall|b: (int, int)| #[trigger] m.contains_key(b) && covers(b, m[b], c) ==> b == a,
    ensures
        is_occupant(m, c, a),
{
}

/// The sparse grid element store: an ordered mapping from a grid cell to the
/// element anchored there. At most one element sits at any cell, and the
/// entries are kept in ascending coordinate order.
pub struct Elements {
    entries: Vec<(Vec2<i16>, Element)>,
}

impl View for Elements {
    type V = Map<(int, int), Element>;

    open spec fn view(&self) -> Map<(int, int), Element> {
        map_of(self.entry_seq())
    }
}

/// Decides the store's coordinate order on two cells.
fn lex_lt_cells(a: Vec2<i16>, b: Vec2<i16>) -> (r: bool)
    ensures
        r == lex_lt(a@, b@),
{
    a.0 < b.0 || (a.0 == b.0 && a.1 < b.1)
}

impl Elements {
    /// The entry list behind the store, in ascending coordinate order.
    pub closed spec fn entry_seq(&self) -> Seq<(Vec2<i16>, Element)> {
        self.entries@
    }

    /// The store's invariant: entries strictly ordered by coordinate.
    pub open spec fn wf(&self) -> bool {
        sorted(self.entry_seq())
    }

    /// A well-formed store's entry list agrees with its mapping: one entry per
    /// mapped cell, listing exactly the mapped elements.
    pub proof fn lemma_entries_view(&self)
        requires
            self.wf(),
        ensures
            self@.dom().finite(),
            self@.len() == self.entry_seq().len(),
            distinct_cells(self.entry_seq()),
            forall|i: int| 0 <= i < self.entry_seq().len() ==> self@.contains_pair(
                (#[trigger] self.entry_seq()[i]).0@,
                self.entry_seq()[i].1,
            ),
            forall|k: (int, int)| #[trigger] self@.contains_key(k) ==> has_cell(
                self.entry_seq(),
                k,
            ),
    {
        let s = self.entry_seq();
        lemma_unique_positions(s);
        lemma_map_of_dom(s);
        lemma_map_of_at(s);
        lemma_map_of_len(s);
    }

    /// An empty store.
    pub fn new() -> (r: Elements)
        ensures
            r.wf(),
            r@ == Map::<(int, int), Element>::empty(),
    {
        let r = Elements { entries: Vec::new() };
        proof {
            assert(r@ =~= Map::<(int, int), Element>::empty());
        }
        r
    }

    /// The number of stored elements.
    pub fn len(&self) -> (n: usize)
        requires
            self.wf(),
        ensures
            n == self@.len(),
    {
        proof {
            self.lemma_entries_view();
        }
        self.entries.len()
    }

    /// The entry at the given rank of the coordinate order.
    pub fn entry_at(&self, i: usize) -> (r: (Vec2<i16>, Element))
        requires
            self.wf(),
            (i as int) < self@.len(),
        ensures
            r == self.entry_seq()[i as int],
            self@.contains_pair(r.0@, r.1),
    {
        proof {
            self.lemma_entries_view();
        }
        self.entries[i]
    }

    /// Stores `element` at `coord`, silently replacing and returning any prior
    /// occupant of that exact cell.
    pub fn insert(&mut self, coord: Vec2<i16>, element: Element) -> (replaced: Option<Element>)
        requires
            old(self).wf(),
        ensures
            final(self).wf(),
            final(self)@ == old(self)@.insert(coord@, element),
            replaced == (if old(self)@.contains_key(coord@) {
                Some(old(self)@[coord@])
            } else {
                None::<Element>
            }),
            final(self)@.len() == old(self)@.len() + (if old(self)@.contains_key(coord@) {
                0int
            } else {
                1int
            }),
    {
        let ghost s0 = self.entry_seq();
        proof {
            old(self).lemma_entries_view();
        }
        let n = self.entries.len();
        let mut i: usize = 0;
        loop
            invariant
                self == old(self),
                self.entry_seq() == s0,
                n == s0.len(),
                i <= n,
                forall|j: int| 0 <= j < i ==> lex_lt((#[trigger] s0[j]).0@, coord@),
            ensures
                i <= n,
                forall|j: int| 0 <= j < i ==> lex_lt((#[trigger] s0[j]).0@, coord@),
                i == n || !lex_lt(s0[i as int].0@, coord@),
            decreases n - i,
        {
            if i == n {
                break ;
            }
            if !lex_lt_cells(self.entries[i].0, coord) {
                break ;
            }
            i += 1;
        }
        if i < n && self.entries[i].0 == coord {
            let prior = self.entries[i];
            self.entries.remove(i);
            self.entries.insert(i, (coord, element));
            proof {
                let s1 = self.entry_seq();
                assert(s1 =~= s0.update(i as int, (coord, element)));
                assert(sorted(s1)) by {
                    assert(forall|j: int|
                        0 <= j < s1.len() && j != i ==> #[trigger] s1[j] == s0[j]);
                    assert(s1[i as int].0@ == s0[i as int].0@);
                }
                self.lemma_entries_view();
                assert(self@ =~= old(self)@.insert(coord@, element)) by {
                    assert forall|k: (int, int)| #[trigger] self@.contains_key(k) implies old(
                        self,
                    )@.insert(coord@, element).contains_key(k) by {
                        let j = choose|j: int| 0 <= j < s1.len() && (#[trigger] s1[j]).0@ == k;
                        if j != i {
                            assert(s0[j].0@ == k);
                            assert(has_cell(s0, k));
                        }
                    }
                    assert forall|k: (int, int)| old(self)@.insert(coord@, element).contains_key(
                        k,
                    ) implies #[trigger] self@.contains_key(k) by {
                        if k == coord@ {
                            assert(s1[i as int].0@ == k);
                        } else {
                            let j = choose|j: int| 0 <= j < s0.len() && (#[trigger] s0[j]).0@ == k;
                            assert(s1[j].0@ == k);
                        }
                    }
                    assert forall|k: (int, int)| #[trigger] self@.contains_key(k) && k != coord@
                        implies self@[k] == old(self)@[k] by {
                        let j = choose|j: int| 0 <= j < s1.len() && (#[trigger] s1[j]).0@ == k;
                        assert(s1[j] == s0[j]);
                        assert(self@[k] == s1[j].1);
                        assert(old(self)@[k] == s0[j].1);
                    }
                    assert(self@[coord@] == element) by {
                        assert(self@[s1[i as int].0@] == s1[i as int].1);
                    }
                }
                assert(old(self)@.contains_key(coord@)) by {
                    assert((s0[i as int]).0@ == coord@);
                    assert(has_cell(s0, coord@));
                }
                assert(old(self)@[coord@] == prior.1) by {
                    assert(map_of(s0)[(s0[i as int]).0@] == s0[i as int].1);
                }
                lemma_unique_positions(s1);
                lemma_map_of_len(s1);
            }
            Some(prior.1)
        } else {
            self.entries.insert(i, (coord, element));
            proof {
                let s1 = self.entry_seq();
                assert(s1 == s0.insert(i as int, (coord, element)));
                assert(!old(self)@.contains_key(coord@)) by {
                    if has_cell(s0, coord@) {
                        let j = choose|j: int| 0 <= j < s0.len() && (#[trigger] s0[j]).0@ == coord@;
                        if j >= i {
                            assert(s0[i as int].0@ != coord@) by {
                                if s0[i as int].0@ == coord@ {
                                    assert(s0[i as int].0 == coord);
                                }
                            }
                            assert(lex_lt(s0[i as int].0@, s0[j].0@) || i == j);
                        }
                    }
                }
                assert(sorted(s1)) by {
                    assert(forall|j: int| 0 <= j < i ==> #[trigger] s1[j] == s0[j]);
                    assert(forall|j: int| i < j < s1.len() ==> #[trigger] s1[j] == s0[j - 1]);
                    assert(s1[i as int] == (coord, element));
                    assert forall|j: int| i <= j < s0.len() implies lex_lt(
                        coord@,
                        (#[trigger] s0[j]).0@,
                    ) by {
                        assert(!lex_lt(s0[i as int].0@, coord@));
                        assert(s0[i as int].0@ != coord@) by {
                            if s0[i as int].0@ == coord@ {
                                assert(s0[i as int].0 == coord);
                            }
                        }
                        assert(lex_lt(coord@, s0[i as int].0@));
                        if j > i {
                            assert(lex_lt(s0[i as int].0@, s0[j].0@));
                        }
                    }
                }
                self.lemma_entries_view();
                assert(self@ =~= old(self)@.insert(coord@, element)) by {
                    assert forall|k: (int, int)| #[trigger] self@.contains_key(k) implies old(
                        self,
                    )@.insert(coord@, element).contains_key(k) by {
                        let j = choose|j: int| 0 <= j < s1.len() && (#[trigger] s1[j]).0@ == k;
                        if j < i {
                            assert(s0[j].0@ == k);
                            assert(has_cell(s0, k));
                        } else if j > i {
                            assert(s0[j - 1].0@ == k);
                            assert(has_cell(s0, k));
                        }
                    }
                    assert forall|k: (int, int)| old(self)@.insert(coord@, element).contains_key(
                        k,
                    ) implies #[trigger] self@.contains_key(k) by {
                        if k == coord@ {
                            assert(s1[i as int].0@ == k);
                        } else {
                            let j = choose|j: int| 0 <= j < s0.len() && (#[trigger] s0[j]).0@ == k;
                            if j < i {
                                assert(s1[j].0@ == k);
                            } else {
                                assert(s1[j + 1].0@ == k);
                            }
                        }
                    }
                    assert forall|k: (int, int)| #[trigger] self@.contains_key(k) && k != coord@
                        implies self@[k] == old(self)@[k] by {
                        let j = choose|j: int| 0 <= j < s1.len() && (#[trigger] s1[j]).0@ == k;
                        if j < i {
                            assert(s1[j] == s0[j]);
                            assert(self@[k] == s1[j].1);
                            assert(old(self)@[k] == s0[j].1);
                        } else {
                            assert(j > i);
                            assert(s1[j] == s0[j - 1]);
                            assert(self@[k] == s1[j].1);
                            assert(old(self)@[k] == s0[j - 1].1);
                        }
                    }
                    assert(self@[coord@] == element) by {
                        assert(self@[s1[i as int].0@] == s1[i as int].1);
                    }
                }
                lemma_unique_positions(s1);
                lemma_map_of_len(s1);
            }
            None
        }
    }

    /// Detaches and returns the element anchored at exactly `coord`, or `None`
    /// if that cell anchors nothing.
    pub fn remove(&mut self, coord: Vec2<i16>) -> (removed: Option<Element>)
        requires
            old(self).wf(),
        ensures
            final(self).wf(),
            final(self)@ == old(self)@.remove(coord@),
            removed == (if old(self)@.contains_key(coord@) {
                Some(old(self)@[coord@])
            } else {
                None::<Element>
            }),
            final(self)@.len() == old(self)@.len() - (if old(self)@.contains_key(coord@) {
                1int
            } else {
                0int
            }),
    {
        let ghost s0 = self.entry_seq();
        proof {
            old(self).lemma_entries_view();
        }
        let n = self.entries.len();
        let mut i: usize = 0;
        loop
            invariant
                self == old(self),
                self.entry_seq() == s0,
                n == s0.len(),
                i <= n,
                forall|j: int| 0 <= j < i ==> (#[trigger] s0[j]).0 != coord,
            ensures
                i <= n,
                forall|j: int| 0 <= j < i ==> (#[trigger] s0[j]).0 != coord,
                i == n || s0[i as int].0 == coord,
            decreases n - i,
        {
            if i == n {
                break ;
            }
            if self.entries[i].0 == coord {
                break ;
            }
            i += 1;
        }
        if i == n {
            proof {
                assert(!old(self)@.contains_key(coord@)) by {
                    if has_cell(s0, coord@) {
                        let j = choose|j: int| 0 <= j < s0.len() && (#[trigger] s0[j]).0@ == coord@;
                        assert(s0[j].0 == coord);
                    }
                }
                assert(self@ =~= old(self)@.remove(coord@));
            }
            None
        } else {
            let prior = self.entries[i];
            self.entries.remove(i);
            proof {
                let s1 = self.entry_seq();
                assert(s1 == s0.remove(i as int));
                assert(sorted(s1)) by {
                    assert(forall|j: int| 0 <= j < i ==> #[trigger] s1[j] == s0[j]);
                    assert(forall|j: int| i <= j < s1.len() ==> #[trigger] s1[j] == s0[j + 1]);
                }
                self.lemma_entries_view();
                assert(old(self)@.contains_key(coord@)) by {
                    assert(s0[i as int].0@ == coord@);
                    assert(has_cell(s0, coord@));
                }
                assert(old(self)@[coord@] == prior.1) by {
                    assert(map_of(s0)[(s0[i as int]).0@] == s0[i as int].1);
                }
                assert(self@ =~= old(self)@.remove(coord@)) by {
                    assert forall|k: (int, int)| #[trigger] self@.contains_key(k) implies old(
                        self,
                    )@.remove(coord@).contains_key(k) by {
                        let j = choose|j: int| 0 <= j < s1.len() && (#[trigger] s1[j]).0@ == k;
                        if j < i {
                            assert(s0[j].0@ == k);
                        } else {
                            assert(s0[j + 1].0@ == k);
                        }
                        assert(has_cell(s0, k));
                        assert(k != coord@) by {
                            if j < i {
                                assert(lex_lt(s0[j].0@, s0[i as int].0@));
                            } else {
                                assert(lex_lt(s0[i as int].0@, s0[j + 1].0@));
                            }
                        }
                    }
                    assert forall|k: (int, int)| old(self)@.remove(coord@).contains_key(k)
                        implies #[trigger] self@.contains_key(k) by {
                        let j = choose|j: int| 0 <= j < s0.len() && (#[trigger] s0[j]).0@ == k;
                        assert(j != i);
                        if j < i {
                            assert(s1[j].0@ == k);
                        } else {
                            assert(s1[j - 1].0@ == k);
                        }
                        assert(has_cell(s1, k));
                    }
                    assert forall|k: (int, int)| #[trigger] self@.contains_key(k) implies self@[k]
                        == old(self)@[k] by {
                        let j = choose|j: int| 0 <= j < s1.len() && (#[trigger] s1[j]).0@ == k;
                        assert(self@[k] == s1[j].1);
                        if j < i {
                            assert(s1[j] == s0[j]);
                            assert(old(self)@[k] == s0[j].1);
                        } else {
                            assert(s1[j] == s0[j + 1]);
                            assert(old(self)@[k] == s0[j + 1].1);
                        }
                    }
                }
                lemma_unique_positions(s1);
                lemma_map_of_len(s1);
            }
            Some(prior.1)
        }
    }

    /// Point-in-footprint lookup. A stored element's footprint spans several
    /// cells, but the element is stored only under its minimum corner, so a
    /// query anywhere inside the footprint must still resolve to that corner.
    /// Returns the covering element with the least anchor, or `None` when the
    /// cell is empty.
    pub fn find_occupant(&self, coord: Vec2<i16>) -> (r: Option<(Vec2<i16>, Element)>)
        requires
            self.wf(),
        ensures
            match r {
                Some(hit) => is_occupant(self@, coord@, hit.0@) && self@[hit.0@] == hit.1,
                None => !cell_occupied(self@, coord@),
            },
    {
        let ghost s0 = self.entry_seq();
        proof {
            self.lemma_entries_view();
        }
        let n = self.entries.len();
        let mut i: usize = 0;
        loop
            invariant
                self.entry_seq() == s0,
                self.wf(),
                n == s0.len(),
                i <= n,
                forall|j: int| 0 <= j < i ==> !covers((#[trigger] s0[j]).0@, s0[j].1, coord@),
            ensures
                i <= n,
                forall|j: int| 0 <= j < i ==> !covers((#[trigger] s0[j]).0@, s0[j].1, coord@),
                i < n ==> covers(s0[i as int].0@, s0[i as int].1, coord@),
                i == n ==> forall|j: int|
                    0 <= j < n ==> !covers((#[trigger] s0[j]).0@, s0[j].1, coord@),
            decreases n - i,
        {
            if i == n {
                break ;
            }
            let entry = self.entries[i];
            if crate::element::covers_cell(entry.0, &entry.1, coord) {
                break ;
            }
            i += 1;
        }
        if i == n {
            proof {
                assert(!cell_occupied(self@, coord@)) by {
                    if cell_occupied(self@, coord@) {
                        let b = choose|b: (int, int)| #[trigger] self@.contains_key(b) && covers(
                            b,
                            self@[b],
                            coord@,
                        );
                        let j = choose|j: int| 0 <= j < s0.len() && (#[trigger] s0[j]).0@ == b;
                        assert(self@[b] == s0[j].1) by {
                            assert(map_of(s0)[(s0[j]).0@] == s0[j].1);
                        }
                    }
                }
            }
            None
        } else {
            let hit = self.entries[i];
            proof {
                assert(self@.contains_key(hit.0@)) by {
                    assert((s0[i as int]).0@ == hit.0@);
                }
                assert(self@[hit.0@] == hit.1) by {
                    assert(map_of(s0)[(s0[i as int]).0@] == s0[i as int].1);
                }
                assert forall|b: (int, int)| #[trigger] self@.contains_key(b) && covers(
                    b,
                    self@[b],
                    coord@,
                ) implies !lex_lt(b, hit.0@) by {
                    let j = choose|j: int| 0 <= j < s0.len() && (#[trigger] s0[j]).0@ == b;
                    assert(self@[b] == s0[j].1) by {
                        assert(map_of(s0)[(s0[j]).0@] == s0[j].1);
                    }
                    if j < i {
                        assert(!covers(s0[j].0@, s0[j].1, coord@));
                    } else if j > i {
                        assert(lex_lt(s0[i as int].0@, s0[j].0@));
                    }
                }
            }
            Some(hit)
        }
    }

    /// Removes and returns every element whose anchor cell lies in the
    /// rectangle `[min_corner, max_corner)`, half-open on the max side per
    /// axis; elements outside stay untouched. An empty rectangle removes
    /// nothing.
    pub fn extract_rectangle(&mut self, min_corner: Vec2<i16>, max_corner: Vec2<i16>) -> (extracted:
        Elements)
        requires
            old(self).wf(),
        ensures
            final(self).wf(),
            extracted.wf(),
            extracted@ == rect_part(old(self)@, min_corner@, max_corner@),
            final(self)@ == rect_rest(old(self)@, min_corner@, max_corner@),
            old(self)@.len() == final(self)@.len() + extracted@.len(),
            (min_corner@.0 >= max_corner@.0 || min_corner@.1 >= max_corner@.1) ==> extracted@
                == Map::<(int, int), Element>::empty() && final(self)@ == old(self)@,
    {
        let ghost s0 = self.entry_seq();
        let ghost m0 = old(self)@;
        proof {
            old(self).lemma_entries_view();
        }
        let mut kept: Vec<(Vec2<i16>, Element)> = Vec::new();
        let mut taken: Vec<(Vec2<i16>, Element)> = Vec::new();
        let n = self.entries.len();
        let mut i: usize = 0;
        while i < n
            invariant
                self == old(self),
                self.entry_seq() == s0,
                m0 == map_of(s0),
                sorted(s0),
                n == s0.len(),
                i <= n,
                kept@.len() + taken@.len() == i,
                sorted(kept@),
                sorted(taken@),
                forall|j: int, t: int|
                    #![trigger kept@[j], s0[t]]
                    0 <= j < kept@.len() && i <= t < n ==> lex_lt(kept@[j].0@, s0[t].0@),
                forall|j: int, t: int|
                    #![trigger taken@[j], s0[t]]
                    0 <= j < taken@.len() && i <= t < n ==> lex_lt(taken@[j].0@, s0[t].0@),
                map_of(kept@) == rect_rest(map_of(s0.subrange(0, i as int)), min_corner@,
                max_corner@),
                map_of(taken@) == rect_part(map_of(s0.subrange(0, i as int)), min_corner@,
                max_corner@),
            decreases n - i,
        {
            let entry = self.entries[i];
            let ghost pre = s0.subrange(0, i as int);
            let ghost pre1 = s0.subrange(0, i + 1);
            proof {
                assert(pre1.drop_last() =~= pre);
                assert(pre1.last() == s0[i as int]);
            }
            let inside = min_corner.0 <= entry.0.0 && entry.0.0 < max_corner.0 && min_corner.1
                <= entry.0.1 && entry.0.1 < max_corner.1;
            proof {
                assert(inside == in_rect(entry.0@, min_corner@, max_corner@));
            }
            let ghost kept_pre = kept@;
            let ghost taken_pre = taken@;
            if inside {
                taken.push(entry);
                proof {
                    assert(taken@.drop_last() =~= taken_pre);
                }
            } else {
                kept.push(entry);
                proof {
                    assert(kept@.drop_last() =~= kept_pre);
                }
            }
            proof {
                assert(map_of(kept@) =~= rect_rest(map_of(pre1), min_corner@, max_corner@));
                assert(map_of(taken@) =~= rect_part(map_of(pre1), min_corner@, max_corner@));
            }
            i += 1;
        }
        proof {
            assert(s0.subrange(0, n as int) =~= s0);
        }
        self.entries = kept;
        let extracted = Elements { entries: taken };
        proof {
            self.lemma_entries_view();
            extracted.lemma_entries_view();
            assert(m0.len() == self@.len() + extracted@.len()) by {
                lemma_map_of_len(s0);
            }
            if min_corner@.0 >= max_corner@.0 || min_corner@.1 >= max_corner@.1 {
                assert(extracted@ =~= Map::<(int, int), Element>::empty());
                assert(self@ =~= m0);
            }
        }
        extracted
    }

    /// Reattaches the whole of `other` into this store, placing each of its
    /// elements at its stored cell translated by `offset` and draining
    /// `other`; a reattached element silently replaces any prior occupant of
    /// its target cell. When no reattached element collides with a stored one,
    /// the stores' sizes add up.
    pub fn merge_back(&mut self, other: &mut Elements, offset: Vec2<i16>)
        requires
            old(self).wf(),
            old(other).wf(),
            shift_fits(old(other)@, offset@),
        ensures
            final(self).wf(),
            final(other).wf(),
            final(self)@ == merged(old(self)@, old(other)@, offset@),
            final(other)@ == Map::<(int, int), Element>::empty(),
            shift_disjoint(old(self)@, old(other)@, offset@) ==> final(self)@.len() == old(
                self,
            )@.len() + old(other)@.len(),
    {
        self.merge_copies(other, offset);
        other.entries.clear();
        proof {
            assert(other@ =~= Map::<(int, int), Element>::empty());
        }
    }

    /// Inserts a copy of every element of `other` into this store, each at its
    /// stored cell translated by `offset`, leaving `other` untouched; a copy
    /// silently replaces any prior occupant of its target cell. When no copy
    /// collides with a stored element, the store grows by `other`'s size.
    pub fn merge_copies(&mut self, other: &Elements, offset: Vec2<i16>)
        requires
            old(self).wf(),
            other.wf(),
            shift_fits(other@, offset@),
        ensures
            final(self).wf(),
            final(self)@ == merged(old(self)@, other@, offset@),
            shift_disjoint(old(self)@, other@, offset@) ==> final(self)@.len() == old(
                self,
            )@.len() + other@.len(),
    {
        let ghost m0 = old(self)@;
        let ghost f0 = other@;
        let ghost o0 = other.entry_seq();
        proof {
            other.lemma_entries_view();
            old(self).lemma_entries_view();
        }
        let n = other.entries.len();
        let mut i: usize = 0;
        while i < n
            invariant
                other.entry_seq() == o0,
                f0 == map_of(o0),
                sorted(o0),
                distinct_cells(o0),
                shift_fits(f0, offset@),
                n == o0.len(),
                i <= n,
                self.wf(),
                self@ == merged(m0, map_of(o0.subrange(0, i as int)), offset@),
                forall|t: int| 0 <= t < o0.len() ==> f0.contains_key((#[trigger] o0[t]).0@),
                shift_disjoint(m0, f0, offset@) ==> self@.len() == m0.len() + i,
            decreases n - i,
        {
            let entry = other.entries[i];
            let ghost pre = o0.subrange(0, i as int);
            let ghost pre1 = o0.subrange(0, i + 1);
            proof {
                assert(pre1.drop_last() =~= pre);
                assert(pre1.last() == o0[i as int]);
                assert(f0.contains_key(entry.0@));
                assert(cell_fits(shift(entry.0@, offset@)));
            }
            let target = entry.0.add(offset);
            let ghost before = self@;
            self.insert(target, entry.1);
            proof {
                assert(self@ =~= merged(m0, map_of(pre1), offset@)) by {
                    assert(map_of(pre1) == map_of(pre).insert(entry.0@, entry.1));
                    assert(target@ == shift(entry.0@, offset@));
                }
                if shift_disjoint(m0, f0, offset@) {
                    assert(!before.contains_key(target@)) by {
                        assert(!m0.contains_key(shift(entry.0@, offset@)));
                        if shift_map(map_of(pre), offset@).contains_key(target@) {
                            assert(map_of(pre).contains_key(entry.0@));
                            lemma_map_of_dom(pre);
                            let j = choose|j: int|
                                0 <= j < pre.len() && (#[trigger] pre[j]).0@ == entry.0@;
                            assert(o0[j].0@ == o0[i as int].0@);
                        }
                    }
                }
            }
            i += 1;
        }
        proof {
            assert(o0.subrange(0, n as int) =~= o0);
        }
    }

    /// The entry list with every cell translated by `offset`, in the stored
    /// order: the cells at which a floating selection held at `offset` is
    /// drawn. The translated entries denote exactly the mapping that
    /// reattaching this store at `offset` would add.
    pub fn shifted_entries(&self, offset: Vec2<i16>) -> (r: Vec<(Vec2<i16>, Element)>)
        requires
            self.wf(),
            shift_fits(self@, offset@),
        ensures
            r@.len() == self.entry_seq().len(),
            forall|i: int| 0 <= i < r@.len() ==> (#[trigger] r@[i]).0@ == shift(
                self.entry_seq()[i].0@,
                offset@,
            ) && r@[i].1 == self.entry_seq()[i].1,
            map_of(r@) == shift_map(self@, offset@),
    {
        let ghost s0 = self.entry_seq();
        proof {
            self.lemma_entries_view();
        }
        let mut out: Vec<(Vec2<i16>, Element)> = Vec::new();
        let n = self.entries.len();
        let mut i: usize = 0;
        while i < n
            invariant
                self.entry_seq() == s0,
                self.wf(),
                shift_fits(map_of(s0), offset@),
                n == s0.len(),
                i <= n,
                out@.len() == i,
                forall|j: int| 0 <= j < i ==> (#[trigger] out@[j]).0@ == shift(s0[j].0@, offset@)
                    && out@[j].1 == s0[j].1,
                forall|t: int| 0 <= t < s0.len() ==> map_of(s0).contains_key(
                    (#[trigger] s0[t]).0@,
                ),
                map_of(out@) == shift_map(map_of(s0.subrange(0, i as int)), offset@),
            decreases n - i,
        {
            let entry = self.entries[i];
            let ghost pre = s0.subrange(0, i as int);
            let ghost pre1 = s0.subrange(0, i + 1);
            let ghost out_pre = out@;
            proof {
                assert(pre1.drop_last() =~= pre);
                assert(pre1.last() == s0[i as int]);
                assert(map_of(s0).contains_key(entry.0@));
                assert(cell_fits(shift(entry.0@, offset@)));
            }
            let target = entry.0.add(offset);
            out.push((target, entry.1));
            proof {
                assert(out@.drop_last() =~= out_pre);
                assert(map_of(out@) =~= shift_map(map_of(pre1), offset@)) by {
                    assert(map_of(pre1) == map_of(pre).insert(entry.0@, entry.1));
                    assert(target@ == shift(entry.0@, offset@));
                }
            }
            i += 1;
        }
        proof {
            assert(s0.subrange(0, n as int) =~= s0);
        }
        out
    }

    /// Whether any stored element's footprint occupies the cell `coord`.
    pub fn occupied(&self, coord: Vec2<i16>) -> (r: bool)
        requires
            self.wf(),
        ensures
            r == cell_occupied(self@, coord@),
    {
        match self.find_occupant(coord) {
            Some(hit) => {
                proof {
                    assert(self@.contains_key(hit.0@) && covers(hit.0@, self@[hit.0@], coord@));
                }
                true
            },
            None => false,
        }
    }
}

} // verus!
