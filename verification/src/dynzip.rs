//! Merges several independently advancing column token sequences into
//! row-major display lines.

use vstd::prelude::*;

verus! {

/// Steps through a set of columns in lockstep, yielding one row of
/// tokens per step for as long as every column still has one.
pub struct DynamicZip {
    pub iterators: Vec<Vec<String>>,
    pub pos: usize,
}

impl DynamicZip {
    pub open spec fn spec_pos(self) -> int {
        self.pos as int
    }

    /// Every column still holds a token at the current position.
    pub open spec fn can_yield(self) -> bool {
        forall|i: int|
            0 <= i < self.iterators@.len() ==> self.spec_pos() < (
            #[trigger] self.iterators@[i])@.len()
    }

    pub fn new(iterators: Vec<Vec<String>>) -> (r: Self)
        ensures
            r.iterators == iterators,
            r.spec_pos() == 0,
    {
        DynamicZip { iterators, pos: 0 }
    }

    /// The next row: the token of every column at the current position,
    /// or `None` as soon as any column is exhausted.
    pub fn next(&mut self) -> (r: Option<Vec<String>>)
        ensures
            old(self).can_yield() ==> {
                &&& r is Some
                &&& final(self).iterators == old(self).iterators
                &&& old(self).iterators@.len() > 0 ==> final(self).spec_pos() == old(
                    self,
                ).spec_pos() + 1
                &&& r->0@.len() == old(self).iterators@.len()
                &&& forall|i: int|
                    0 <= i < r->0@.len() ==> (#[trigger] r->0@[i])@ == old(
                        self,
                    ).iterators@[i]@[old(self).spec_pos()]@
            },
            !old(self).can_yield() ==> r is None && *final(self) == *old(self),
    {
        let n = self.iterators.len();
        let mut out: Vec<String> = Vec::new();
        let mut i: usize = 0;
        while i < n
            invariant
                n == self.iterators@.len(),
                0 <= i <= n,
                self == old(self),
                out@.len() == i,
                forall|j: int| 0 <= j < i ==> self.pos < (#[trigger] self.iterators@[j])@.len(),
                forall|j: int|
                    0 <= j < i ==> (#[trigger] out@[j])@ == self.iterators@[j]@[self.pos as int]@,
            decreases n - i,
        {
            if self.pos >= self.iterators[i].len() {
                return None;
            }
            let s = self.iterators[i][self.pos].clone();
            proof {
                assert(s@ == self.iterators@[i as int]@[self.pos as int]@);
            }
            out.push(s);
            i = i + 1;
        }
        if n > 0 {
            let l0 = self.iterators[0].len();
            proof {
                assert(self.pos < l0);
            }
            self.pos = self.pos + 1;
        }
        Some(out)
    }
}

} // verus!
