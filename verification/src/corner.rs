//! Junction glyph selection: 11 fixed rules map a 2x2 neighborhood's
//! edge-change signature to one box-drawing corner character.

use crate::slot::SlotStatus;
use vstd::prelude::*;

verus! {

/// One junction template: the glyph to draw and the clockwise list of
/// edges (top, right, bottom, left) that must change across the corner.
#[derive(Debug, Clone, Copy)]
pub struct Corner {
    /// The unicode character to draw.
    pub c: char,
    pub split: [bool; 4],
}

impl Corner {
    pub fn new(c: char) -> (r: Self)
        ensures
            r.c == c,
            r.spec_split() =~= seq![false, false, false, false],
    {
        Self { c, split: [false, false, false, false] }
    }

    pub fn set_top(self) -> (r: Self)
        ensures
            r.c == self.c,
            r.spec_split() =~= seq![
                true,
                self.spec_split()[1],
                self.spec_split()[2],
                self.spec_split()[3],
            ],
    {
        Self { c: self.c, split: [true, self.split[1], self.split[2], self.split[3]] }
    }

    pub fn set_right(self) -> (r: Self)
        ensures
            r.c == self.c,
            r.spec_split() =~= seq![
                self.spec_split()[0],
                true,
                self.spec_split()[2],
                self.spec_split()[3],
            ],
    {
        Self { c: self.c, split: [self.split[0], true, self.split[2], self.split[3]] }
    }

    pub fn set_bottom(self) -> (r: Self)
        ensures
            r.c == self.c,
            r.spec_split() =~= seq![
                self.spec_split()[0],
                self.spec_split()[1],
                true,
                self.spec_split()[3],
            ],
    {
        Self { c: self.c, split: [self.split[0], self.split[1], true, self.split[3]] }
    }

    pub fn set_left(self) -> (r: Self)
        ensures
            r.c == self.c,
            r.spec_split() =~= seq![
                self.spec_split()[0],
                self.spec_split()[1],
                self.spec_split()[2],
                true,
            ],
    {
        Self { c: self.c, split: [self.split[0], self.split[1], self.split[2], true] }
    }

    /// The edges this template asks for, clockwise from the top.
    pub open spec fn spec_split(self) -> Seq<bool> {
        self.split@
    }

    /// Whether this corner matches the neighborhood's edge-change
    /// signature exactly.
    pub fn is_usable_for(&self, slots: ClockWiseSlots) -> (r: bool)
        ensures
            r == (self.spec_split() == signature(slots)),
    {
        let t0 = slots.inner[0] != slots.inner[1];
        let t1 = slots.inner[1] != slots.inner[2];
        let t2 = slots.inner[2] != slots.inner[3];
        let t3 = slots.inner[3] != slots.inner[0];
        let r = self.split[0] == t0 && self.split[1] == t1 && self.split[2] == t2 && self.split[3]
            == t3;
        proof {
            if r {
                assert(self.spec_split() =~= signature(slots));
            } else {
                if self.spec_split() == signature(slots) {
                    assert(self.spec_split()[0] == signature(slots)[0]);
                    assert(self.spec_split()[1] == signature(slots)[1]);
                    assert(self.spec_split()[2] == signature(slots)[2]);
                    assert(self.spec_split()[3] == signature(slots)[3]);
                }
            }
        }
        r
    }
}

/// A 2x2 neighborhood, clockwise from the top left:
/// top-left, top-right, bottom-right, bottom-left.
#[derive(Debug, Clone, Copy)]
pub struct ClockWiseSlots {
    pub inner: [SlotStatus; 4],
}

/// The neighborhood's 4-bit edge-change signature: whether each clockwise
/// pair of neighbors differs (top, right, bottom, left edge).
pub open spec fn signature(slots: ClockWiseSlots) -> Seq<bool> {
    seq![
        slots.inner@[0] != slots.inner@[1],
        slots.inner@[1] != slots.inner@[2],
        slots.inner@[2] != slots.inner@[3],
        slots.inner@[3] != slots.inner@[0],
    ]
}

/// A neighborhood a well-formed grid can produce: two cells side by side
/// in one row are never the same piece (a piece owns one track), and no
/// cell is the transient `Identity`.
pub open spec fn neighborhood_ok(slots: ClockWiseSlots) -> bool {
    &&& !(slots.inner@[0] is Identity)
    &&& !(slots.inner@[1] is Identity)
    &&& !(slots.inner@[2] is Identity)
    &&& !(slots.inner@[3] is Identity)
    &&& !(slots.inner@[0] is Used && slots.inner@[0] == slots.inner@[1])
    &&& !(slots.inner@[3] is Used && slots.inner@[3] == slots.inner@[2])
}

/// The canonical rule set: blank, vertical bar, four L corners, four T
/// junctions, and the full cross, in the order the renderer scans them.
pub open spec fn spec_corner_set() -> Seq<(char, Seq<bool>)> {
    seq![
        (' ', seq![false, false, false, false]),
        ('│', seq![true, false, true, false]),
        ('┌', seq![false, true, true, false]),
        ('┐', seq![false, false, true, true]),
        ('└', seq![true, true, false, false]),
        ('┘', seq![true, false, false, true]),
        ('├', seq![true, true, true, false]),
        ('┤', seq![true, false, true, true]),
        ('┬', seq![false, true, true, true]),
        ('┴', seq![true, true, false, true]),
        ('┼', seq![true, true, true, true]),
    ]
}

/// Builds the canonical rule set.
pub fn corner_set() -> (r: [Corner; 11])
    ensures
        r@.len() == 11,
        forall|i: int|
            0 <= i < 11 ==> (#[trigger] r@[i]).c == spec_corner_set()[i].0 && r@[i].spec_split()
                == spec_corner_set()[i].1,
{
    let r: [Corner; 11] = [
        Corner::new(' '),
        Corner::new('│').set_top().set_bottom(),
        Corner::new('┌').set_right().set_bottom(),
        Corner::new('┐').set_bottom().set_left(),
        Corner::new('└').set_top().set_right(),
        Corner::new('┘').set_top().set_left(),
        Corner::new('├').set_top().set_right().set_bottom(),
        Corner::new('┤').set_top().set_bottom().set_left(),
        Corner::new('┬').set_right().set_bottom().set_left(),
        Corner::new('┴').set_top().set_right().set_left(),
        Corner::new('┼').set_left().set_top().set_right().set_bottom(),
    ];
    proof {
        assert forall|i: int|
            0 <= i < 11 implies (#[trigger] r@[i]).c == spec_corner_set()[i].0 && r@[i].spec_split()
            == spec_corner_set()[i].1 by {
            if i == 0 {
                assert(r@[0].spec_split() =~= spec_corner_set()[0].1);
            } else if i == 1 {
                assert(r@[1].spec_split() =~= spec_corner_set()[1].1);
            } else if i == 2 {
                assert(r@[2].spec_split() =~= spec_corner_set()[2].1);
            } else if i == 3 {
                assert(r@[3].spec_split() =~= spec_corner_set()[3].1);
            } else if i == 4 {
                assert(r@[4].spec_split() =~= spec_corner_set()[4].1);
            } else if i == 5 {
                assert(r@[5].spec_split() =~= spec_corner_set()[5].1);
            } else if i == 6 {
                assert(r@[6].spec_split() =~= spec_corner_set()[6].1);
            } else if i == 7 {
                assert(r@[7].spec_split() =~= spec_corner_set()[7].1);
            } else if i == 8 {
                assert(r@[8].spec_split() =~= spec_corner_set()[8].1);
            } else if i == 9 {
                assert(r@[9].spec_split() =~= spec_corner_set()[9].1);
            } else {
                assert(r@[10].spec_split() =~= spec_corner_set()[10].1);
            }
        }
    }
    r
}

/// Totality and uniqueness of the corner rules: every signature a valid
/// grid neighborhood can produce matches exactly one of the 11 templates.
/// Single-edge signatures are impossible for any cell values; the
/// left-and-right pair alone is impossible because one piece never
/// occupies two adjacent tracks in the same row. Three-edge signatures do
/// occur (two different pieces meeting) and are covered by the T
/// junctions.
pub proof fn lemma_corner_totality(slots: ClockWiseSlots)
    requires
        neighborhood_ok(slots),
    ensures
        exists|i: int| 0 <= i < 11 && (#[trigger] spec_corner_set()[i]).1 == signature(slots),
        forall|i: int, j: int|
            0 <= i < 11 && 0 <= j < 11 && (#[trigger] spec_corner_set()[i]).1 == signature(slots)
                && (#[trigger] spec_corner_set()[j]).1 == signature(slots) ==> i == j,
{
    let s = signature(slots);
    let a = slots.inner@[0];
    let b = slots.inner@[1];
    let c = slots.inner@[2];
    let d = slots.inner@[3];
    assert(s.len() == 4);
    assert(exists|i: int| 0 <= i < 11 && (#[trigger] spec_corner_set()[i]).1 == signature(slots))
        by {
        if !s[0] && !s[1] && !s[2] && !s[3] {
            assert(spec_corner_set()[0].1 =~= s);
        } else if s[0] && !s[1] && s[2] && !s[3] {
            assert(spec_corner_set()[1].1 =~= s);
        } else if !s[0] && s[1] && s[2] && !s[3] {
            assert(spec_corner_set()[2].1 =~= s);
        } else if !s[0] && !s[1] && s[2] && s[3] {
            assert(spec_corner_set()[3].1 =~= s);
        } else if s[0] && s[1] && !s[2] && !s[3] {
            assert(spec_corner_set()[4].1 =~= s);
        } else if s[0] && !s[1] && !s[2] && s[3] {
            assert(spec_corner_set()[5].1 =~= s);
        } else if s[0] && s[1] && s[2] && !s[3] {
            assert(spec_corner_set()[6].1 =~= s);
        } else if s[0] && !s[1] && s[2] && s[3] {
            assert(spec_corner_set()[7].1 =~= s);
        } else if !s[0] && s[1] && s[2] && s[3] {
            assert(spec_corner_set()[8].1 =~= s);
        } else if s[0] && s[1] && !s[2] && s[3] {
            assert(spec_corner_set()[9].1 =~= s);
        } else if s[0] && s[1] && s[2] && s[3] {
            assert(spec_corner_set()[10].1 =~= s);
        } else {
            // what is left: a single changing edge, which closes an
            // equality chain around the cycle, or left-and-right alone,
            // which would put one piece in both tracks of a row
            if !s[0] && s[1] && !s[2] && s[3] {
                assert(a == b && c == d && b != c && d != a);
                if a is Free && c is Free {
                    assert(a == c);
                }
                assert(false);
            } else {
                assert(false);
            }
        }
    }
    assert forall|i: int, j: int|
        0 <= i < 11 && 0 <= j < 11 && (#[trigger] spec_corner_set()[i]).1 == signature(slots) && (
    #[trigger] spec_corner_set()[j]).1 == signature(slots) implies i == j by {
        if i != j {
            let si = spec_corner_set()[i].1;
            let sj = spec_corner_set()[j].1;
            assert(si[0] == sj[0] && si[1] == sj[1] && si[2] == sj[2] && si[3] == sj[3]);
            assert(false);
        }
    }
}

} // verus!
