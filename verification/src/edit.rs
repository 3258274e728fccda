//! The edit accumulator: collects non-overlapping text operations over
//! absolute source offsets and finalizes them into one composite edit.

use vstd::prelude::*;

use crate::text::TextRange;

verus! {

/// The mathematical model of one text operation: replace the bytes in
/// `[start, end)` with `insert`.  An insertion has `start == end`; a pure
/// deletion has an empty `insert`.
pub ghost struct SpecAtom {
    pub start: int,
    pub end: int,
    pub insert: Seq<u8>,
}

/// One concrete text operation: replace the bytes of `delete` with `insert`.
#[derive(Clone, Debug)]
pub struct AtomEdit {
    pub delete: TextRange,
    pub insert: Vec<u8>,
}

impl View for AtomEdit {
    type V = SpecAtom;

    open spec fn view(&self) -> SpecAtom {
        SpecAtom { start: self.delete.start as int, end: self.delete.end as int, insert: self.insert@ }
    }
}

/// The models of a list of operations, in order.
pub open spec fn atoms_view(s: Seq<AtomEdit>) -> Seq<SpecAtom> {
    s.map_values(|a: AtomEdit| a@)
}

/// The operation touches only positions of a text of length `n`.
pub open spec fn atom_wf(a: SpecAtom, n: int) -> bool {
    0 <= a.start <= a.end <= n
}

/// Every operation touches only positions of a text of length `n`.
pub open spec fn atoms_bounded(s: Seq<SpecAtom>, n: int) -> bool {
    forall|k: int| 0 <= k < s.len() ==> atom_wf(#[trigger] s[k], n)
}

/// The operations are ordered by their range's start.
pub open spec fn atoms_sorted(s: Seq<SpecAtom>) -> bool {
    forall|i: int, j: int| 0 <= i < j < s.len() ==> s[i].start <= s[j].start
}

/// Each operation's range ends no later than the next one begins.
pub open spec fn atoms_gapped(s: Seq<SpecAtom>) -> bool {
    forall|i: int| 0 <= i && i + 1 < s.len() ==> s[i].end <= s[i + 1].start
}

/// The ranges touched by the operations are pairwise disjoint.
pub open spec fn atoms_disjoint(s: Seq<SpecAtom>) -> bool {
    forall|i: int, j: int|
        0 <= i < s.len() && 0 <= j < s.len() && i != j ==> s[i].end <= s[j].start || s[j].end
            <= s[i].start
}

/// A finalized edit can be applied to a text when its operations are sorted,
/// non-overlapping and within bounds.
pub open spec fn applied_ok(s: Seq<SpecAtom>, n: int) -> bool {
    atoms_sorted(s) && atoms_gapped(s) && atoms_bounded(s, n)
}

/// The text that results from applying the operations `s` to the part of `t`
/// that starts at `from`.
pub open spec fn apply_from(s: Seq<SpecAtom>, t: Seq<u8>, from: int) -> Seq<u8>
    decreases s.len(),
{
    if s.len() == 0 {
        t.subrange(from, t.len() as int)
    } else {
        t.subrange(from, s[0].start) + s[0].insert + apply_from(s.drop_first(), t, s[0].end)
    }
}

/// The text that results from applying the operations `s` to `t`.
pub open spec fn apply_spec(s: Seq<SpecAtom>, t: Seq<u8>) -> Seq<u8> {
    apply_from(s, t, 0)
}

/// An edit with no operations leaves any text unchanged.
pub proof fn lemma_empty_edit_identity(s: Seq<SpecAtom>, t: Seq<u8>)
    requires
        s.len() == 0,
    ensures
        apply_spec(s, t) == t,
{
    assert(apply_spec(s, t) =~= t);
}

/// In an operation list ordered by start where each operation ends no later
/// than the next one begins, the touched ranges are pairwise disjoint.
pub proof fn lemma_sorted_gapped_implies_disjoint(s: Seq<SpecAtom>)
    requires
        atoms_sorted(s),
        atoms_gapped(s),
    ensures
        atoms_disjoint(s),
{
    assert forall|i: int, j: int|
        0 <= i < s.len() && 0 <= j < s.len() && i != j implies s[i].end <= s[j].start || s[j].end
        <= s[i].start by {
        if i < j {
            assert(s[i].end <= s[i + 1].start);
            if i + 1 < j {
                assert(s[i + 1].start <= s[j].start);
            }
        } else {
            assert(s[j].end <= s[j + 1].start);
            if j + 1 < i {
                assert(s[j + 1].start <= s[i].start);
            }
        }
    };
}

/// A composite edit: operations ordered by the start of their range.
#[derive(Clone, Debug)]
pub struct Edit {
    pub atoms: Vec<AtomEdit>,
}

impl View for Edit {
    type V = Seq<SpecAtom>;

    open spec fn view(&self) -> Seq<SpecAtom> {
        atoms_view(self.atoms@)
    }
}

/// The result of one editing operation: a composite edit plus an optional new
/// cursor offset, both in the coordinate space of the original text.
#[derive(Clone, Debug)]
pub struct LocalEdit {
    pub edit: Edit,
    pub cursor_position: Option<usize>,
}

impl Edit {
    /// Applies the edit to `text`.  Meaningful when the operations are sorted,
    /// non-overlapping and within bounds, which `EditBuilder::finish`
    /// establishes for non-overlapping recordings; out-of-shape operation
    /// lists are clipped rather than trusted.
    pub fn apply(&self, text: &Vec<u8>) -> (r: Vec<u8>)
        ensures
            applied_ok(self@, text@.len() as int) ==> r@ == apply_spec(self@, text@),
    {
        let ghost n = text@.len() as int;
        let mut out: Vec<u8> = Vec::new();
        let mut prev: usize = 0;
        let mut k: usize = 0;
        proof {
            assert(self@.skip(0) =~= self@);
            assert(out@ + apply_from(self@, text@, 0) =~= apply_from(self@, text@, 0));
            if applied_ok(self@, n) && self@.len() > 0 {
                assert(atom_wf(self@[0], n));
            }
        }
        while k < self.atoms.len()
            invariant
                prev <= text@.len(),
                k <= self.atoms@.len(),
                n == text@.len() as int,
                applied_ok(self@, n) ==> {
                    &&& (k < self@.len() ==> prev as int <= self@[k as int].start)
                    &&& out@ + apply_from(self@.skip(k as int), text@, prev as int) == apply_spec(
                        self@,
                        text@,
                    )
                },
            decreases self.atoms@.len() - k,
        {
            let ghost out0 = out@;
            let ghost prev0 = prev as int;
            let a_start: usize = self.atoms[k].delete.start;
            let lo: usize = if a_start < prev {
                prev
            } else if a_start > text.len() {
                text.len()
            } else {
                a_start
            };
            crate::text::append_range(&mut out, text, prev, lo);
            let ins_len: usize = self.atoms[k].insert.len();
            crate::text::append_range(&mut out, &self.atoms[k].insert, 0, ins_len);
            let a_end: usize = self.atoms[k].delete.end;
            let hi: usize = if a_end < lo {
                lo
            } else if a_end > text.len() {
                text.len()
            } else {
                a_end
            };
            prev = hi;
            proof {
                if applied_ok(self@, n) {
                    let a = self@[k as int];
                    assert(atom_wf(a, n));
                    assert(lo as int == a.start);
                    assert(hi as int == a.end);
                    assert(self.atoms@[k as int].insert@ =~= self.atoms@[k as int].insert@.subrange(
                        0,
                        ins_len as int,
                    ));
                    let rest = self@.skip(k as int);
                    assert(rest[0] == a);
                    assert(rest.drop_first() =~= self@.skip(k as int + 1));
                    assert(apply_from(rest, text@, prev0) == text@.subrange(prev0, a.start)
                        + a.insert + apply_from(self@.skip(k as int + 1), text@, a.end));
                    assert(out@ + apply_from(self@.skip(k as int + 1), text@, a.end) =~= out0
                        + apply_from(rest, text@, prev0));
                    if k as int + 1 < self@.len() {
                        assert(self@[k as int].end <= self@[k as int + 1].start);
                    }
                }
            }
            k = k + 1;
        }
        crate::text::append_range(&mut out, text, prev, text.len());
        proof {
            if applied_ok(self@, n) {
                assert(self@.skip(self@.len() as int) =~= Seq::<SpecAtom>::empty());
                assert(apply_from(self@.skip(self@.len() as int), text@, prev as int) == text@
                    .subrange(prev as int, n));
            }
        }
        out
    }

    /// How many operations the edit holds.
    pub fn op_count(&self) -> (r: usize)
        ensures
            r == self@.len(),
    {
        self.atoms.len()
    }

    /// True iff the edit holds no operation at all.
    pub fn is_noop(&self) -> (r: bool)
        ensures
            r == (self@.len() == 0),
    {
        self.atoms.len() == 0
    }

    /// True iff the ranges its operations touch are pairwise disjoint.
    pub fn is_disjoint(&self) -> (r: bool)
        ensures
            r == atoms_disjoint(self@),
    {
        let n: usize = self.atoms.len();
        let mut i: usize = 0;
        while i < n
            invariant
                n == self@.len(),
                i <= n,
                forall|x: int, y: int|
                    #![trigger self@[x], self@[y]]
                    0 <= x < i && x < y < n ==> self@[x].end <= self@[y].start || self@[y].end
                        <= self@[x].start,
            decreases n - i,
        {
            let mut j: usize = i + 1;
            while j < n
                invariant
                    n == self@.len(),
                    i < n,
                    i < j <= n,
                    forall|y: int|
                        #![trigger self@[y]]
                        i < y < j ==> self@[i as int].end <= self@[y].start || self@[y].end
                            <= self@[i as int].start,
                decreases n - j,
            {
                let a: TextRange = self.atoms[i].delete;
                let b: TextRange = self.atoms[j].delete;
                if !(a.end <= b.start || b.end <= a.start) {
                    proof {
                        assert(!(self@[i as int].end <= self@[j as int].start || self@[j as int].end
                            <= self@[i as int].start));
                        assert(!atoms_disjoint(self@));
                    }
                    return false;
                }
                j = j + 1;
            }
            i = i + 1;
        }
        proof {
            assert forall|x: int, y: int|
                0 <= x < self@.len() && 0 <= y < self@.len() && x != y implies self@[x].end
                <= self@[y].start || self@[y].end <= self@[x].start by {
                if x < y {
                    assert(self@[x].end <= self@[y].start || self@[y].end <= self@[x].start);
                } else {
                    assert(self@[y].end <= self@[x].start || self@[x].end <= self@[y].start);
                }
            };
        }
        true
    }
}

/// Collects text operations for one user action.  The engine asks it whether
/// an offset was already touched, so that no two rules rewrite the same text.
pub struct EditBuilder {
    atoms: Vec<AtomEdit>,
}

impl View for EditBuilder {
    type V = Seq<SpecAtom>;

    closed spec fn view(&self) -> Seq<SpecAtom> {
        atoms_view(self.atoms@)
    }
}

/// Swapping two neighbouring operations keeps the recorded collection: the
/// multiset of operations, membership, and pairwise disjointness.
proof fn lemma_swap_props(s: Seq<SpecAtom>, j: int)
    requires
        0 <= j,
        j + 1 < s.len(),
    ensures
        s.update(j, s[j + 1]).update(j + 1, s[j]).to_multiset() == s.to_multiset(),
        atoms_disjoint(s) ==> atoms_disjoint(s.update(j, s[j + 1]).update(j + 1, s[j])),
{
    broadcast use vstd::seq_lib::group_to_multiset_ensures;

    let t = s.update(j, s[j + 1]).update(j + 1, s[j]);
    assert(t.to_multiset() =~= s.to_multiset());
    if atoms_disjoint(s) {
        assert forall|x: int, y: int|
            0 <= x < t.len() && 0 <= y < t.len() && x != y implies t[x].end <= t[y].start
            || t[y].end <= t[x].start by {
            let x0: int = if x == j {
                j + 1
            } else if x == j + 1 {
                j
            } else {
                x
            };
            let y0: int = if y == j {
                j + 1
            } else if y == j + 1 {
                j
            } else {
                y
            };
            assert(t[x] == s[x0]);
            assert(t[y] == s[y0]);
            assert(s[x0].end <= s[y0].start || s[y0].end <= s[x0].start);
        };
    }
}

impl EditBuilder {
    /// A builder with nothing recorded yet.
    pub fn new() -> (r: EditBuilder)
        ensures
            r@ == Seq::<SpecAtom>::empty(),
    {
        let b = EditBuilder { atoms: Vec::new() };
        proof {
            assert(b@ =~= Seq::<SpecAtom>::empty());
        }
        b
    }

    /// Records: replace the bytes of `range` with `text`.
    pub fn replace(&mut self, range: TextRange, text: Vec<u8>)
        requires
            range.is_wf(),
        ensures
            final(self)@ == old(self)@.push(
                SpecAtom { start: range.start as int, end: range.end as int, insert: text@ },
            ),
    {
        let ghost t = text@;
        self.atoms.push(AtomEdit { delete: range, insert: text });
        proof {
            assert(self@ =~= old(self)@.push(
                SpecAtom { start: range.start as int, end: range.end as int, insert: t },
            ));
        }
    }

    /// Records: delete the bytes of `range`.
    pub fn delete(&mut self, range: TextRange)
        requires
            range.is_wf(),
        ensures
            final(self)@ == old(self)@.push(
                SpecAtom {
                    start: range.start as int,
                    end: range.end as int,
                    insert: Seq::<u8>::empty(),
                },
            ),
    {
        self.replace(range, Vec::new());
    }

    /// Records: insert `text` at `offset`.
    pub fn insert(&mut self, offset: usize, text: Vec<u8>)
        ensures
            final(self)@ == old(self)@.push(
                SpecAtom { start: offset as int, end: offset as int, insert: text@ },
            ),
    {
        self.replace(TextRange { start: offset, end: offset }, text);
    }

    /// True iff `offset` lies inside (boundaries included) the range of some
    /// already recorded operation.
    pub fn invalidates_offset(&self, offset: usize) -> (r: bool)
        ensures
            r == exists|k: int|
                0 <= k < self@.len() && #[trigger] self@[k].start <= offset <= self@[k].end,
    {
        let mut k: usize = 0;
        while k < self.atoms.len()
            invariant
                k <= self.atoms@.len(),
                forall|m: int|
                    0 <= m < k ==> !(#[trigger] self@[m].start <= offset <= self@[m].end),
            decreases self.atoms@.len() - k,
        {
            if self.atoms[k].delete.contains_offset_nonstrict(offset) {
                assert(self@[k as int].start <= offset <= self@[k as int].end);
                return true;
            }
            k = k + 1;
        }
        false
    }

    /// Finalizes into a composite edit, ordered by range start.  The output
    /// holds exactly the recorded operations; when the recorded ranges are
    /// pairwise disjoint, so are the output's, and a recording that is
    /// already ordered comes out unchanged.
    pub fn finish(self) -> (e: Edit)
        ensures
            e@.len() == self@.len(),
            e@.to_multiset() == self@.to_multiset(),
            atoms_sorted(e@),
            atoms_disjoint(self@) ==> atoms_disjoint(e@),
            atoms_sorted(self@) ==> e@ == self@,
            forall|k: int| 0 <= k < e@.len() ==> self@.contains(#[trigger] e@[k]),
    {
        let ghost orig = atoms_view(self.atoms@);
        let mut v: Vec<AtomEdit> = self.atoms;
        let n: usize = v.len();
        let mut i: usize = 0;
        while i < n
            invariant
                n == v@.len(),
                i <= n,
                atoms_view(v@).to_multiset() == orig.to_multiset(),
                atoms_disjoint(orig) ==> atoms_disjoint(atoms_view(v@)),
                atoms_sorted(orig) ==> atoms_view(v@) == orig,
                forall|k: int| 0 <= k < n ==> orig.contains(#[trigger] atoms_view(v@)[k]),
                forall|p: int, q: int|
                    0 <= p < q < n && q >= n - i ==> atoms_view(v@)[p].start <= atoms_view(
                        v@,
                    )[q].start,
            decreases n - i,
        {
            let mut j: usize = 0;
            while j + 1 < n - i
                invariant
                    n == v@.len(),
                    i < n,
                    j + 1 <= n - i,
                    atoms_view(v@).to_multiset() == orig.to_multiset(),
                    atoms_disjoint(orig) ==> atoms_disjoint(atoms_view(v@)),
                    atoms_sorted(orig) ==> atoms_view(v@) == orig,
                    forall|k: int| 0 <= k < n ==> orig.contains(#[trigger] atoms_view(v@)[k]),
                    forall|p: int, q: int|
                        0 <= p < q < n && q >= n - i ==> atoms_view(v@)[p].start <= atoms_view(
                            v@,
                        )[q].start,
                    forall|p: int|
                        0 <= p <= j ==> atoms_view(v@)[p].start <= atoms_view(v@)[j as int].start,
                decreases n - i - j,
            {
                if v[j].delete.start > v[j + 1].delete.start {
                    proof {
                        let s = atoms_view(v@);
                        if atoms_sorted(orig) {
                            assert(s[j as int].start <= s[j as int + 1].start);
                            assert(false);
                        }
                    }
                    let ghost s1 = atoms_view(v@);
                    let moved: AtomEdit = v.remove(j);
                    v.insert(j + 1, moved);
                    proof {
                        let s2 = atoms_view(v@);
                        assert(s2 =~= s1.update(j as int, s1[j as int + 1]).update(
                            j as int + 1,
                            s1[j as int],
                        ));
                        lemma_swap_props(s1, j as int);
                        assert forall|k: int| 0 <= k < n implies orig.contains(#[trigger] s2[k]) by {
                            if k == j {
                                assert(s2[k] == s1[j as int + 1]);
                                assert(orig.contains(s1[j as int + 1]));
                            } else if k == j + 1 {
                                assert(s2[k] == s1[j as int]);
                                assert(orig.contains(s1[j as int]));
                            } else {
                                assert(s2[k] == s1[k]);
                                assert(orig.contains(s1[k]));
                            }
                        };
                    }
                } else {
                    proof {
                        let s = atoms_view(v@);
                        assert forall|p: int|
                            0 <= p <= j + 1 implies (#[trigger] s[p]).start <= s[j as int
                            + 1].start by {
                            if p <= j {
                                assert(s[p].start <= s[j as int].start);
                            }
                        };
                    }
                }
                j = j + 1;
            }
            proof {
                let s = atoms_view(v@);
                if n - i >= 1 {
                    assert forall|p: int, q: int|
                        0 <= p < q < n && q >= n - (i + 1) implies s[p].start <= s[q].start by {
                        if q == n - i - 1 {
                            assert(s[p].start <= s[(j) as int].start);
                        }
                    };
                }
            }
            i = i + 1;
        }
        proof {
            let s = atoms_view(v@);
            assert(atoms_sorted(s));
            if atoms_disjoint(orig) {
                assert(atoms_disjoint(s));
            }
        }
        Edit { atoms: v }
    }
}

} // verus!
