//! The placement grid: a rows-by-tracks matrix of [`SlotStatus`] cells kept
//! in step with a strictly increasing list of address boundaries.
//!
//! The grid stores one row per boundary for uniform indexing; a piece whose
//! interval spans boundaries `lo..=hi` occupies exactly the cells
//! `lo..=hi` of one track. A newly split row inherits occupancy cell by
//! cell from its two neighbors: kept where both agree, `Free` elsewhere.

use crate::error::Error;
use crate::slot::SlotStatus;
use vstd::prelude::*;

verus! {

/// Mathematical state of a placement grid: the boundary values and the
/// row-major cell matrix.
pub ghost struct GridModel {
    pub offsets: Seq<usize>,
    pub grid: Seq<Seq<SlotStatus>>,
}

impl GridModel {
    pub open spec fn nrows(self) -> int {
        self.grid.len() as int
    }

    /// Number of tracks.
    pub open spec fn ncols(self) -> int {
        if self.grid.len() == 0 {
            0
        } else {
            self.grid[0].len() as int
        }
    }

    /// The flash image's total size: the last boundary.
    pub open spec fn size(self) -> usize {
        self.offsets.last()
    }

    /// Well-formedness: boundaries strictly increasing from 0, one row per
    /// boundary, rectangular cells, no `Identity` at rest, and no piece
    /// present twice within one row.
    pub open spec fn wf(self) -> bool {
        &&& self.offsets.len() >= 2
        &&& self.offsets[0] == 0
        &&& forall|i: int, j: int|
            0 <= i < j < self.offsets.len() ==> self.offsets[i] < self.offsets[j]
        &&& self.grid.len() == self.offsets.len()
        &&& self.ncols() >= 1
        &&& forall|r: int| 0 <= r < self.grid.len() ==> (#[trigger] self.grid[r]).len() == self.ncols()
        &&& forall|r: int, c: int|
            0 <= r < self.grid.len() && 0 <= c < self.ncols() ==> !((#[trigger] self.grid[r][c]) is Identity)
        &&& forall|r: int, c1: int, c2: int|
            0 <= r < self.grid.len() && 0 <= c1 < self.ncols() && 0 <= c2 < self.ncols() && c1 != c2
                && (#[trigger] self.grid[r][c1]) is Used ==> self.grid[r][c1] != #[trigger] self.grid[r][c2]
    }
}

/// Least index whose element is at least `v`; the sequence's length when
/// every element is below `v`.
pub open spec fn find_ge(offs: Seq<usize>, v: usize) -> int
    decreases offs.len(),
{
    if offs.len() == 0 {
        0
    } else if offs[0] >= v {
        0
    } else {
        1 + find_ge(offs.drop_first(), v)
    }
}

/// `p` occupies no cell of `m`: its index is free to be committed.
pub open spec fn fresh_piece(m: GridModel, p: usize) -> bool {
    forall|r: int, c: int|
        0 <= r < m.grid.len() && 0 <= c < m.ncols() ==> (#[trigger] m.grid[r][c]) != SlotStatus::Used(p)
}

/// `q` occupies some cell of `m`.
pub open spec fn appears(m: GridModel, q: usize) -> bool {
    exists|r: int, c: int|
        0 <= r < m.grid.len() && 0 <= c < m.ncols() && (#[trigger] m.grid[r][c]) == SlotStatus::Used(q)
}

/// The grid after splitting: a new row at `i` whose cells merge the two
/// former neighbors.
pub open spec fn split_grid(g: Seq<Seq<SlotStatus>>, i: int) -> Seq<Seq<SlotStatus>> {
    g.insert(i, Seq::new(g[0].len() as nat, |c: int| SlotStatus::spec_merge(g[i - 1][c], g[i][c])))
}

/// The model after inserting boundary value `v`: unchanged when `v` is
/// already a boundary, else the row split lands at the sorted position.
pub open spec fn insert_boundary(m: GridModel, v: usize) -> GridModel {
    let i = find_ge(m.offsets, v);
    if i < m.offsets.len() && m.offsets[i] == v {
        m
    } else {
        GridModel { offsets: m.offsets.insert(i, v), grid: split_grid(m.grid, i) }
    }
}

/// Track `c` holds no piece anywhere in rows `lo..=hi`.
pub open spec fn col_free(g: Seq<Seq<SlotStatus>>, c: int, lo: int, hi: int) -> bool {
    forall|r: int| lo <= r <= hi ==> ((#[trigger] g[r])[c]) is Free
}

/// Leftmost track at or after `c` that is free over rows `lo..=hi`;
/// `ncols` when none qualifies.
pub open spec fn first_free_from(
    g: Seq<Seq<SlotStatus>>,
    lo: int,
    hi: int,
    c: int,
    ncols: int,
) -> int
    decreases ncols - c,
{
    if c >= ncols {
        ncols
    } else if col_free(g, c, lo, hi) {
        c
    } else {
        first_free_from(g, lo, hi, c + 1, ncols)
    }
}

pub open spec fn first_free_col(m: GridModel, lo: int, hi: int) -> int {
    first_free_from(m.grid, lo, hi, 0, m.ncols())
}

/// Every row extended on the right by one `Free` cell.
pub open spec fn push_free_col(g: Seq<Seq<SlotStatus>>) -> Seq<Seq<SlotStatus>> {
    Seq::new(g.len(), |r: int| g[r].push(SlotStatus::Free))
}

/// Cells `lo..=hi` of track `c` marked for piece `p`.
pub open spec fn mark_range(
    g: Seq<Seq<SlotStatus>>,
    c: int,
    lo: int,
    hi: int,
    p: usize,
) -> Seq<Seq<SlotStatus>> {
    Seq::new(g.len(), |r: int| if lo <= r <= hi { g[r].update(c, SlotStatus::Used(p)) } else { g[r] })
}

/// The whole insertion: both boundaries placed (idempotently), then the
/// leftmost track free over the row range reused, or a fresh track
/// appended, and the range marked for `p`.
pub open spec fn model_insert(m: GridModel, p: usize, start: usize, end: usize) -> GridModel {
    let m2 = insert_boundary(insert_boundary(m, start), end);
    let lo = find_ge(m2.offsets, start);
    let hi = find_ge(m2.offsets, end);
    let c = first_free_col(m2, lo, hi);
    let g = if c == m2.ncols() {
        push_free_col(m2.grid)
    } else {
        m2.grid
    };
    GridModel { offsets: m2.offsets, grid: mark_range(g, c, lo, hi, p) }
}

/// The freshly created model: boundaries 0 and `size`, one empty track.
pub open spec fn initial_model(size: usize) -> GridModel {
    GridModel {
        offsets: seq![0usize, size],
        grid: seq![seq![SlotStatus::Free], seq![SlotStatus::Free]],
    }
}

pub proof fn lemma_find_ge(offs: Seq<usize>, v: usize)
    ensures
        0 <= find_ge(offs, v) <= offs.len(),
        forall|j: int| 0 <= j < find_ge(offs, v) ==> offs[j] < v,
        find_ge(offs, v) < offs.len() ==> offs[find_ge(offs, v)] >= v,
    decreases offs.len(),
{
    if offs.len() == 0 {
    } else if offs[0] >= v {
    } else {
        lemma_find_ge(offs.drop_first(), v);
        assert forall|j: int| 0 <= j < find_ge(offs, v) implies offs[j] < v by {
            if j > 0 {
                assert(offs.drop_first()[j - 1] == offs[j]);
            }
        }
        if find_ge(offs, v) < offs.len() {
            assert(offs[find_ge(offs, v)] == offs.drop_first()[find_ge(offs.drop_first(), v)]);
        }
    }
}

/// In a strictly increasing sequence, an index whose element is at least
/// `v` while its predecessor is below `v` is exactly `find_ge`.
pub proof fn lemma_find_ge_at(offs: Seq<usize>, v: usize, i: int)
    requires
        forall|a: int, b: int| 0 <= a < b < offs.len() ==> offs[a] < offs[b],
        0 <= i < offs.len(),
        offs[i] >= v,
        i == 0 || offs[i - 1] < v,
    ensures
        find_ge(offs, v) == i,
{
    lemma_find_ge(offs, v);
    let f = find_ge(offs, v);
    if f < i {
        assert(offs[f] < v);
    } else if f > i {
        assert(offs[i] < v);
    }
}

/// The placement grid with its boundary list, mutated only by `add_piece`.
pub struct PieceArray {
    array: Vec<Vec<SlotStatus>>,
    offset_list: Vec<usize>,
}

impl View for PieceArray {
    type V = GridModel;

    closed spec fn view(&self) -> GridModel {
        GridModel {
            offsets: self.offset_list@,
            grid: Seq::new(self.array@.len(), |r: int| self.array@[r]@),
        }
    }
}

impl PieceArray {
    /// Fresh grid for a flash image of `image_size` bytes: boundaries
    /// `[0, image_size]` and a single free track.
    pub fn new(image_size: u64) -> (s: Self)
        requires
            0 < image_size <= usize::MAX as u64,
        ensures
            s@ == initial_model(image_size as usize),
            s@.wf(),
    {
        let array: Vec<Vec<SlotStatus>> = vec![vec![SlotStatus::Free], vec![SlotStatus::Free]];
        let offset_list: Vec<usize> = vec![0, image_size as usize];
        let s = PieceArray { array, offset_list };
        proof {
            assert(s@.offsets =~= initial_model(image_size as usize).offsets);
            assert(s@.grid[0] =~= initial_model(image_size as usize).grid[0]);
            assert(s@.grid[1] =~= initial_model(image_size as usize).grid[1]);
            assert(s@.grid =~= initial_model(image_size as usize).grid);
        }
        s
    }

    pub fn nrows(&self) -> (n: usize)
        ensures
            n == self@.nrows(),
    {
        self.array.len()
    }

    pub fn ncols(&self) -> (n: usize)
        requires
            self@.nrows() > 0,
        ensures
            n == self@.ncols(),
    {
        self.array[0].len()
    }

    /// The boundary list, in increasing address order.
    pub fn offsets(&self) -> (r: &Vec<usize>)
        ensures
            r@ == self@.offsets,
    {
        &self.offset_list
    }

    pub fn offset_at(&self, i: usize) -> (v: usize)
        requires
            i < self@.offsets.len(),
        ensures
            v == self@.offsets[i as int],
    {
        self.offset_list[i]
    }

    pub fn slot_at(&self, r: usize, c: usize) -> (s: SlotStatus)
        requires
            self@.wf(),
            r < self@.nrows(),
            c < self@.ncols(),
        ensures
            s == self@.grid[r as int][c as int],
    {
        self.array[r][c]
    }

    /// Index of the first boundary at or above `v`.
    fn find_bound_index(&self, v: usize) -> (i: usize)
        requires
            self@.wf(),
            v <= self@.size(),
        ensures
            i == find_ge(self@.offsets, v),
            i < self@.offsets.len(),
            self@.offsets[i as int] >= v,
            i > 0 ==> self@.offsets[i - 1] < v,
    {
        let n = self.offset_list.len();
        let mut i: usize = 0;
        while i < n && self.offset_list[i] < v
            invariant
                self@.wf(),
                n == self@.offsets.len(),
                0 <= i <= n,
                forall|j: int| 0 <= j < i ==> self@.offsets[j] < v,
            decreases n - i,
        {
            i = i + 1;
        }
        proof {
            assert(self@.offsets[n - 1] >= v);
            assert(i < n);
            lemma_find_ge_at(self@.offsets, v, i as int);
        }
        i
    }

    /// Splits the grid at `index`: the new boundary's row merges its two
    /// neighbors cell by cell.
    fn insert_offset_at_index(&mut self, index: usize, offset: usize)
        requires
            old(self)@.wf(),
            1 <= index < old(self)@.offsets.len(),
            old(self)@.offsets[index - 1] < offset,
            offset < old(self)@.offsets[index as int],
        ensures
            final(self)@.offsets == old(self)@.offsets.insert(index as int, offset),
            final(self)@.grid == split_grid(old(self)@.grid, index as int),
            final(self)@.wf(),
            final(self)@.size() == old(self)@.size(),
            final(self)@.ncols() == old(self)@.ncols(),
            forall|p: usize| fresh_piece(old(self)@, p) ==> fresh_piece(final(self)@, p),
            forall|q: usize| appears(final(self)@, q) ==> appears(old(self)@, q),
    {
        let ghost m0 = self@;
        let ncols = self.ncols();
        let mut new_row: Vec<SlotStatus> = Vec::new();
        let mut c: usize = 0;
        while c < ncols
            invariant
                self@ == m0,
                m0.wf(),
                1 <= index < m0.offsets.len(),
                ncols == m0.ncols(),
                0 <= c <= ncols,
                new_row@.len() == c,
                forall|k: int|
                    0 <= k < c ==> new_row@[k] == SlotStatus::spec_merge(
                        m0.grid[index - 1][k],
                        m0.grid[index as int][k],
                    ),
            decreases ncols - c,
        {
            let a = self.array[index - 1][c];
            let b = self.array[index][c];
            new_row.push(a.merge(b));
            c = c + 1;
        }
        let ghost nr = new_row@;
        let ghost arr0 = self.array@;
        self.array.insert(index, new_row);
        self.offset_list.insert(index, offset);
        proof {
            arr0.insert_ensures(index as int, self.array@[index as int]);
            assert(self@.grid =~= m0.grid.insert(index as int, nr));
            lemma_split_model(m0, index as int, offset, nr, self@);
        }
    }

    /// Scans the tracks left to right for the first one free over rows
    /// `start_index..=end_index`.
    fn find_empty_column(&self, start_index: usize, end_index: usize) -> (res: Result<usize, Error>)
        requires
            self@.wf(),
            start_index <= end_index < self@.nrows(),
        ensures
            ({
                let f = first_free_col(self@, start_index as int, end_index as int);
                match res {
                    Ok(c) => c as int == f && f < self@.ncols(),
                    Err(e) => e == Error::FreeColNotFound && f == self@.ncols(),
                }
            }),
    {
        let ncols = self.ncols();
        let mut c: usize = 0;
        while c < ncols
            invariant
                self@.wf(),
                start_index <= end_index < self@.nrows(),
                ncols == self@.ncols(),
                0 <= c <= ncols,
                forall|j: int|
                    0 <= j < c ==> !col_free(self@.grid, j, start_index as int, end_index as int),
            decreases ncols - c,
        {
            let mut r: usize = start_index;
            let mut free: bool = true;
            while r <= end_index
                invariant
                    self@.wf(),
                    start_index <= end_index < self@.nrows(),
                    ncols == self@.ncols(),
                    0 <= c < ncols,
                    start_index <= r <= end_index + 1,
                    free ==> forall|k: int|
                        start_index <= k < r ==> (#[trigger] self@.grid[k][c as int]) is Free,
                    !free ==> !col_free(self@.grid, c as int, start_index as int, end_index as int),
                decreases end_index + 1 - r,
            {
                proof {
                    assert(self@.nrows() == self.array@.len());
                    assert(r < self.array.len());
                    assert(self@.grid[r as int].len() == self@.ncols());
                    assert(self@.grid[r as int] == self.array@[r as int]@);
                }
                if !self.array[r][c].is_free() {
                    free = false;
                }
                r = r + 1;
            }
            if free {
                proof {
                    lemma_first_free_at(
                        self@.grid,
                        start_index as int,
                        end_index as int,
                        ncols as int,
                        c as int,
                        0,
                    );
                }
                return Ok(c);
            }
            c = c + 1;
        }
        proof {
            lemma_first_free_at(
                self@.grid,
                start_index as int,
                end_index as int,
                ncols as int,
                ncols as int,
                0,
            );
        }
        Err(Error::FreeColNotFound)
    }

    /// Places both interval ends as boundaries, idempotently, and hands
    /// back their row indices: a boundary value already present is
    /// reused, a missing one is inserted at its sorted position, the end
    /// after accounting for the shift a start insertion causes.
    #[verifier::rlimit(100)]
    fn find_insert_index(&mut self, start: usize, end: usize) -> (r: (usize, usize))
        requires
            old(self)@.wf(),
            start < end,
            end <= old(self)@.size(),
        ensures
            final(self)@ == insert_boundary(insert_boundary(old(self)@, start), end),
            final(self)@.wf(),
            final(self)@.size() == old(self)@.size(),
            final(self)@.ncols() == old(self)@.ncols(),
            forall|p: usize| fresh_piece(old(self)@, p) ==> fresh_piece(final(self)@, p),
            forall|q: usize| appears(final(self)@, q) ==> appears(old(self)@, q),
            r.0 as int == find_ge(final(self)@.offsets, start),
            r.1 as int == find_ge(final(self)@.offsets, end),
            r.0 < r.1 < final(self)@.grid.len(),
            final(self)@.offsets[r.0 as int] == start,
            final(self)@.offsets[r.1 as int] == end,
    {
        let ghost m0 = self@;
        // place the start boundary
        let start_index = self.find_bound_index(start);
        if self.offset_list[start_index] != start {
            proof {
                if start_index == 0 {
                    assert(m0.offsets[0] == 0);
                }
            }
            self.insert_offset_at_index(start_index, start);
        }
        let ghost m1 = self@;
        proof {
            assert(m1 == insert_boundary(m0, start));
            assert(m1.offsets[start_index as int] == start) by {
                if m0.offsets[find_ge(m0.offsets, start)] != start {
                    m0.offsets.insert_ensures(start_index as int, start);
                }
            }
            assert(start_index == 0 || m1.offsets[start_index - 1] < start) by {
                if m0.offsets[find_ge(m0.offsets, start)] != start {
                    m0.offsets.insert_ensures(start_index as int, start);
                }
            }
        }
        // place the end boundary
        let end_index = self.find_bound_index(end);
        if self.offset_list[end_index] != end {
            proof {
                assert(m1.offsets[0] == 0);
                assert(end_index >= 1) by {
                    lemma_find_ge(m1.offsets, end);
                }
            }
            self.insert_offset_at_index(end_index, end);
        }
        let ghost m2 = self@;
        proof {
            assert(m2 == insert_boundary(m1, end));
            assert(m2.offsets[end_index as int] == end) by {
                if m1.offsets[find_ge(m1.offsets, end)] != end {
                    m1.offsets.insert_ensures(end_index as int, end);
                }
            }
            assert(start_index < end_index) by {
                assert(m1.offsets[start_index as int] == start);
                lemma_find_ge(m1.offsets, end);
            }
            assert(m2.offsets[start_index as int] == start && (start_index == 0
                || m2.offsets[start_index - 1] < start)) by {
                if m1.offsets[find_ge(m1.offsets, end)] != end {
                    m1.offsets.insert_ensures(end_index as int, end);
                }
            }
            lemma_find_ge_at(m2.offsets, start, start_index as int);
            assert(end_index == 0 || m2.offsets[end_index - 1] < end) by {
                if m1.offsets[find_ge(m1.offsets, end)] != end {
                    m1.offsets.insert_ensures(end_index as int, end);
                } else {
                    lemma_find_ge(m1.offsets, end);
                }
            }
            lemma_find_ge_at(m2.offsets, end, end_index as int);
            assert(end_index < m2.grid.len());
        }
        (start_index, end_index)
    }

    /// Commits piece `piece_index` to the address interval `[start, end)`.
    ///
    /// Both interval ends become boundaries (idempotently), the leftmost
    /// track free over the spanned rows is reused or a fresh track is
    /// appended, and every spanned cell of that track is marked. Insertion
    /// always succeeds for a well-formed, non-degenerate range; the row
    /// count provably equals the boundary-list length afterwards.
    #[verifier::rlimit(100)]
    pub fn add_piece(&mut self, piece_index: usize, start: usize, end: usize) -> (res: Result<
        (),
        Error,
    >)
        requires
            old(self)@.wf(),
            start < end,
            end <= old(self)@.size(),
            fresh_piece(old(self)@, piece_index),
        ensures
            res is Ok,
            final(self)@ == model_insert(old(self)@, piece_index, start, end),
            final(self)@.wf(),
            final(self)@.size() == old(self)@.size(),
            forall|q: usize|
                appears(final(self)@, q) ==> appears(old(self)@, q) || q == piece_index,
    {
        let ghost m0 = self@;
        let indices = self.find_insert_index(start, end);
        let start_index = indices.0;
        let end_index = indices.1;
        let ghost m2 = self@;
        // allocate a track: the leftmost free one, else a fresh one
        let col_index = match self.find_empty_column(start_index, end_index) {
            Ok(found) => {
                proof {
                    lemma_first_free_props(
                        m2.grid,
                        start_index as int,
                        end_index as int,
                        m2.ncols(),
                        0,
                    );
                    assert(found as int == first_free_col(
                        m2,
                        start_index as int,
                        end_index as int,
                    ));
                }
                found
            },
            Err(Error::FreeColNotFound) => {
                proof {
                    assert(first_free_col(m2, start_index as int, end_index as int)
                        == m2.ncols()) by {
                        lemma_first_free_props(
                            m2.grid,
                            start_index as int,
                            end_index as int,
                            m2.ncols(),
                            0,
                        );
                    }
                }
                self.push_col();
                proof {
                    assert forall|k: int|
                        start_index <= k <= end_index implies (#[trigger] self@.grid[k][m2.ncols()])
                        is Free by {
                        assert(self@.grid[k] == m2.grid[k].push(SlotStatus::Free));
                        assert(m2.grid[k].len() == m2.ncols());
                    }
                }
                let nc = self.ncols();
                proof {
                    assert(nc == m2.ncols() + 1);
                }
                nc - 1
            },
            Err(e) => return Err(e),
        };
        let ghost mpre = self@;
        let ghost f = first_free_col(m2, start_index as int, end_index as int);
        proof {
            lemma_first_free_props(
                m2.grid,
                start_index as int,
                end_index as int,
                m2.ncols(),
                0,
            );
            assert(col_index as int == f);
            assert(col_index < mpre.ncols());
            assert(mpre.wf());
            assert(col_free(mpre.grid, col_index as int, start_index as int, end_index as int));
            assert(fresh_piece(mpre, piece_index));
        }
        // mark the spanned rows of the chosen track
        let mut r: usize = start_index;
        while r <= end_index
            invariant
                mpre.wf(),
                start_index <= r <= end_index + 1,
                end_index < mpre.grid.len(),
                col_index < mpre.ncols(),
                self@.offsets == mpre.offsets,
                self@.grid.len() == mpre.grid.len(),
                forall|k: int|
                    start_index <= k < r ==> #[trigger] self@.grid[k] == mpre.grid[k].update(
                        col_index as int,
                        SlotStatus::Used(piece_index),
                    ),
                forall|k: int|
                    0 <= k < mpre.grid.len() && !(start_index <= k < r)
                        ==> #[trigger] self@.grid[k] == mpre.grid[k],
            decreases end_index + 1 - r,
        {
            let ghost gprev = self@.grid;
            let ghost arr_prev = self.array@;
            proof {
                assert(self@.grid[r as int] == mpre.grid[r as int]);
                assert(self@.grid[r as int].len() == mpre.ncols());
                assert(self@.nrows() == self.array@.len());
                assert(r < self.array.len());
            }
            self.array[r][col_index] = SlotStatus::Used(piece_index);
            proof {
                assert(self.array@ == arr_prev.update(r as int, self.array@[r as int]));
                assert(self.array@[r as int]@ == arr_prev[r as int]@.update(
                    col_index as int,
                    SlotStatus::Used(piece_index),
                ));
                assert forall|k: int| 0 <= k < mpre.grid.len() && k != r implies #[trigger] self@
                    .grid[k] == gprev[k] by {
                    assert(self.array@[k] == arr_prev[k]);
                }
                assert(self@.grid[r as int] == gprev[r as int].update(
                    col_index as int,
                    SlotStatus::Used(piece_index),
                ));
            }
            r = r + 1;
        }
        proof {
            assert(self@.grid =~= mark_range(
                mpre.grid,
                col_index as int,
                start_index as int,
                end_index as int,
                piece_index,
            ));
            lemma_mark_model(
                mpre,
                col_index as int,
                start_index as int,
                end_index as int,
                piece_index,
                self@,
            );
            assert(self@ == model_insert(m0, piece_index, start, end)) by {
                assert(first_free_col(m2, start_index as int, end_index as int) == f);
                if f == m2.ncols() {
                    assert(mpre.grid == push_free_col(m2.grid));
                } else {
                    assert(mpre == m2);
                }
            }
            assert forall|q: usize|
                appears(self@, q) implies appears(m0, q) || q == piece_index by {
                if q != piece_index {
                    if appears(mpre, q) {
                        if f == m2.ncols() {
                            lemma_push_col_appears(m2, q);
                        }
                    }
                }
            }
        }
        Ok(())
    }

    /// Appends a new, entirely free track at the right edge.
    fn push_col(&mut self)
        requires
            old(self)@.wf(),
        ensures
            final(self)@.offsets == old(self)@.offsets,
            final(self)@.grid == push_free_col(old(self)@.grid),
            final(self)@.wf(),
            final(self)@.ncols() == old(self)@.ncols() + 1,
            final(self)@.size() == old(self)@.size(),
            forall|p: usize| fresh_piece(old(self)@, p) ==> fresh_piece(final(self)@, p),
            forall|q: usize| appears(final(self)@, q) ==> appears(old(self)@, q),
    {
        let ghost m0 = self@;
        let nrows = self.array.len();
        let mut r: usize = 0;
        while r < nrows
            invariant
                m0.wf(),
                nrows == m0.nrows(),
                0 <= r <= nrows,
                self@.offsets == m0.offsets,
                self@.grid.len() == m0.grid.len(),
                forall|k: int| r <= k < nrows ==> self@.grid[k] == m0.grid[k],
                forall|k: int| 0 <= k < r ==> self@.grid[k] == m0.grid[k].push(SlotStatus::Free),
            decreases nrows - r,
        {
            let ghost gprev = self@.grid;
            let ghost arr_prev = self.array@;
            self.array[r].push(SlotStatus::Free);
            proof {
                assert(self.array@ == arr_prev.update(r as int, self.array@[r as int]));
                assert(self.array@[r as int]@ == arr_prev[r as int]@.push(SlotStatus::Free));
                assert forall|k: int| 0 <= k < r + 1 implies self@.grid[k] == m0.grid[k].push(
                    SlotStatus::Free,
                ) by {
                    if k < r {
                        assert(self.array@[k] == arr_prev[k]);
                        assert(self@.grid[k] == arr_prev[k]@);
                        assert(gprev[k] == arr_prev[k]@);
                    } else {
                        assert(self@.grid[k] == self.array@[r as int]@);
                        assert(gprev[r as int] == arr_prev[r as int]@);
                        assert(gprev[r as int] == m0.grid[r as int]);
                    }
                }
                assert forall|k: int| r + 1 <= k < nrows implies self@.grid[k] == m0.grid[k] by {
                    assert(self.array@[k] == arr_prev[k]);
                    assert(self@.grid[k] == arr_prev[k]@);
                    assert(gprev[k] == arr_prev[k]@);
                    assert(gprev[k] == m0.grid[k]);
                }
            }
            r = r + 1;
        }
        proof {
            assert(self@.grid =~= push_free_col(m0.grid));
            let m1 = self@;
            assert forall|rr: int| 0 <= rr < m1.grid.len() implies (#[trigger] m1.grid[rr]).len()
                == m1.ncols() by {
                assert(m1.grid[rr] == m0.grid[rr].push(SlotStatus::Free));
                assert(m1.grid[0] == m0.grid[0].push(SlotStatus::Free));
            }
            assert forall|rr: int, cc: int|
                0 <= rr < m1.grid.len() && 0 <= cc < m1.ncols() implies !((
            #[trigger] m1.grid[rr][cc]) is Identity) by {
                assert(m1.grid[rr] == m0.grid[rr].push(SlotStatus::Free));
            }
            assert forall|rr: int, c1: int, c2: int|
                0 <= rr < m1.grid.len() && 0 <= c1 < m1.ncols() && 0 <= c2 < m1.ncols() && c1 != c2
                && (#[trigger] m1.grid[rr][c1]) is Used implies m1.grid[rr][c1]
                != #[trigger] m1.grid[rr][c2] by {
                assert(m1.grid[rr] == m0.grid[rr].push(SlotStatus::Free));
            }
            assert forall|p: usize| fresh_piece(m0, p) implies fresh_piece(m1, p) by {
                assert forall|rr: int, cc: int|
                    0 <= rr < m1.grid.len() && 0 <= cc < m1.ncols() implies (
                #[trigger] m1.grid[rr][cc]) != SlotStatus::Used(p) by {
                    assert(m1.grid[rr] == m0.grid[rr].push(SlotStatus::Free));
                }
            }
            assert forall|q: usize| appears(m1, q) implies appears(m0, q) by {
                lemma_push_col_appears(m0, q);
            }
        }
    }
}

/// Well-formedness and frame facts of a boundary split, stated of the model
/// a split produces.
pub(crate) proof fn lemma_split_model(
    m0: GridModel,
    index: int,
    offset: usize,
    new_row: Seq<SlotStatus>,
    m1: GridModel,
)
    requires
        m0.wf(),
        1 <= index < m0.offsets.len(),
        m0.offsets[index - 1] < offset,
        offset < m0.offsets[index],
        new_row.len() == m0.ncols(),
        forall|k: int|
            0 <= k < new_row.len() ==> new_row[k] == SlotStatus::spec_merge(
                m0.grid[index - 1][k],
                m0.grid[index][k],
            ),
        m1.offsets == m0.offsets.insert(index, offset),
        m1.grid == m0.grid.insert(index, new_row),
    ensures
        m1.grid == split_grid(m0.grid, index),
        m1.wf(),
        m1.size() == m0.size(),
        m1.ncols() == m0.ncols(),
        forall|p: usize| fresh_piece(m0, p) ==> fresh_piece(m1, p),
        forall|q: usize| appears(m1, q) ==> appears(m0, q),
{
    m0.offsets.insert_ensures(index, offset);
    m0.grid.insert_ensures(index, new_row);
    assert(new_row =~= Seq::new(
        m0.grid[0].len() as nat,
        |c: int| SlotStatus::spec_merge(m0.grid[index - 1][c], m0.grid[index][c]),
    ));
    assert(m1.grid =~= split_grid(m0.grid, index));
    // boundaries stay strictly increasing
    assert forall|a: int, b: int| 0 <= a < b < m1.offsets.len() implies m1.offsets[a]
        < m1.offsets[b] by {
        if a < index && b > index {
            assert(m1.offsets[a] == m0.offsets[a]);
            assert(m1.offsets[b] == m0.offsets[b - 1]);
        }
    }
    assert(m1.offsets[0] == 0);
    assert(m1.size() == m0.size()) by {
        assert(m1.offsets[m1.offsets.len() - 1] == m0.offsets[m0.offsets.len() - 1]);
    }
    // the grid stays rectangular with one row per boundary
    assert(m1.grid.len() == m1.offsets.len());
    assert(m1.ncols() == m0.ncols()) by {
        assert(m1.grid[0] == m0.grid[0]);
    }
    assert forall|r: int| 0 <= r < m1.grid.len() implies (#[trigger] m1.grid[r]).len()
        == m1.ncols() by {
        if r < index {
            assert(m1.grid[r] == m0.grid[r]);
        } else if r == index {
        } else {
            assert(m1.grid[r] == m0.grid[r - 1]);
        }
    }
    // no Identity at rest, and no row holds one piece twice
    assert forall|r: int, c: int|
        0 <= r < m1.grid.len() && 0 <= c < m1.ncols() implies !((#[trigger] m1.grid[r][c])
        is Identity) by {
        lemma_split_row_case(m0, index, m1, r);
    }
    assert forall|r: int, c1: int, c2: int|
        0 <= r < m1.grid.len() && 0 <= c1 < m1.ncols() && 0 <= c2 < m1.ncols() && c1 != c2 && (
        #[trigger] m1.grid[r][c1]) is Used implies m1.grid[r][c1] != #[trigger] m1.grid[r][c2] by {
        lemma_split_row_case(m0, index, m1, r);
        if r == index {
            assert(m1.grid[r][c1] == SlotStatus::spec_merge(
                m0.grid[index - 1][c1],
                m0.grid[index][c1],
            ));
            assert(m0.grid[index - 1][c1] == m1.grid[r][c1]);
        }
    }
    assert forall|p: usize| fresh_piece(m0, p) implies fresh_piece(m1, p) by {
        assert forall|r: int, c: int|
            0 <= r < m1.grid.len() && 0 <= c < m1.ncols() implies (#[trigger] m1.grid[r][c])
            != SlotStatus::Used(p) by {
            lemma_split_row_case(m0, index, m1, r);
            if r == index && m1.grid[r][c] is Used {
                assert(m1.grid[r][c] == SlotStatus::spec_merge(
                    m0.grid[index - 1][c],
                    m0.grid[index][c],
                ));
                assert(m0.grid[index - 1][c] == m1.grid[r][c]);
            }
        }
    }
    assert forall|q: usize| appears(m1, q) implies appears(m0, q) by {
        let (r, c) = choose|r: int, c: int|
            0 <= r < m1.grid.len() && 0 <= c < m1.ncols() && (#[trigger] m1.grid[r][c])
                == SlotStatus::Used(q);
        lemma_split_row_case(m0, index, m1, r);
        if r < index {
            assert(m0.grid[r][c] == SlotStatus::Used(q));
        } else if r > index {
            assert(m0.grid[r - 1][c] == SlotStatus::Used(q));
        } else {
            assert(m1.grid[r][c] == SlotStatus::spec_merge(
                m0.grid[index - 1][c],
                m0.grid[index][c],
            ));
            assert(m0.grid[index - 1][c] == SlotStatus::Used(q));
        }
    }
}

/// Marking a free range of one track preserves well-formedness and adds no
/// occupant besides `p`.
pub(crate) proof fn lemma_mark_model(mpre: GridModel, col: int, lo: int, hi: int, p: usize, m1: GridModel)
    requires
        mpre.wf(),
        0 <= lo <= hi < mpre.grid.len(),
        0 <= col < mpre.ncols(),
        col_free(mpre.grid, col, lo, hi),
        fresh_piece(mpre, p),
        m1.offsets == mpre.offsets,
        m1.grid == mark_range(mpre.grid, col, lo, hi, p),
    ensures
        m1.wf(),
        m1.size() == mpre.size(),
        forall|q: usize| appears(m1, q) ==> appears(mpre, q) || q == p,
{
    assert(m1.ncols() == mpre.ncols()) by {
        if lo <= 0 <= hi {
            assert(m1.grid[0] == mpre.grid[0].update(col, SlotStatus::Used(p)));
        } else {
            assert(m1.grid[0] == mpre.grid[0]);
        }
    }
    assert forall|r: int| 0 <= r < m1.grid.len() implies (#[trigger] m1.grid[r]).len()
        == m1.ncols() by {
        if lo <= r <= hi {
            assert(m1.grid[r] == mpre.grid[r].update(col, SlotStatus::Used(p)));
        } else {
            assert(m1.grid[r] == mpre.grid[r]);
        }
    }
    assert forall|r: int, c: int|
        0 <= r < m1.grid.len() && 0 <= c < m1.ncols() implies !((#[trigger] m1.grid[r][c])
        is Identity) by {
        if lo <= r <= hi {
            assert(m1.grid[r] == mpre.grid[r].update(col, SlotStatus::Used(p)));
        } else {
            assert(m1.grid[r] == mpre.grid[r]);
        }
    }
    assert forall|r: int, c1: int, c2: int|
        0 <= r < m1.grid.len() && 0 <= c1 < m1.ncols() && 0 <= c2 < m1.ncols() && c1 != c2 && (
        #[trigger] m1.grid[r][c1]) is Used implies m1.grid[r][c1] != #[trigger] m1.grid[r][c2] by {
        if lo <= r <= hi {
            assert(m1.grid[r] == mpre.grid[r].update(col, SlotStatus::Used(p)));
            assert(mpre.grid[r][col] is Free);
        } else {
            assert(m1.grid[r] == mpre.grid[r]);
        }
    }
    assert forall|q: usize| appears(m1, q) && q != p implies appears(mpre, q) by {
        let (r, c) = choose|r: int, c: int|
            0 <= r < m1.grid.len() && 0 <= c < m1.ncols() && (#[trigger] m1.grid[r][c])
                == SlotStatus::Used(q);
        if lo <= r <= hi {
            assert(m1.grid[r] == mpre.grid[r].update(col, SlotStatus::Used(p)));
            assert(mpre.grid[r][c] == SlotStatus::Used(q));
        } else {
            assert(m1.grid[r] == mpre.grid[r]);
            assert(mpre.grid[r][c] == SlotStatus::Used(q));
        }
    }
}

/// An appended free track holds no piece: occupancy is unchanged.
pub(crate) proof fn lemma_push_col_appears(m: GridModel, q: usize)
    requires
        m.wf(),
        appears(GridModel { offsets: m.offsets, grid: push_free_col(m.grid) }, q),
    ensures
        appears(m, q),
{
    let m1 = GridModel { offsets: m.offsets, grid: push_free_col(m.grid) };
    let (r, c) = choose|r: int, c: int|
        0 <= r < m1.grid.len() && 0 <= c < m1.ncols() && (#[trigger] m1.grid[r][c])
            == SlotStatus::Used(q);
    assert(m1.grid[r] == m.grid[r].push(SlotStatus::Free));
    assert(m1.grid[0] == m.grid[0].push(SlotStatus::Free));
    assert(m.grid[r].len() == m.ncols());
    if c < m.ncols() {
        assert(m.grid[r][c] == SlotStatus::Used(q));
    } else {
        assert(m1.grid[r][c] == SlotStatus::Free);
    }
}

/// Every track left of `first_free_from` is occupied somewhere in the
/// range, and the found track itself is free over it.
pub(crate) proof fn lemma_first_free_props(g: Seq<Seq<SlotStatus>>, lo: int, hi: int, ncols: int, k: int)
    requires
        0 <= k <= ncols,
    ensures
        k <= first_free_from(g, lo, hi, k, ncols) <= ncols,
        first_free_from(g, lo, hi, k, ncols) < ncols ==> col_free(
            g,
            first_free_from(g, lo, hi, k, ncols),
            lo,
            hi,
        ),
    decreases ncols - k,
{
    if k < ncols && !col_free(g, k, lo, hi) {
        lemma_first_free_props(g, lo, hi, ncols, k + 1);
    }
}

/// A scan that found `c` free with everything to its left occupied pins
/// down `first_free_from`.
pub(crate) proof fn lemma_first_free_at(g: Seq<Seq<SlotStatus>>, lo: int, hi: int, ncols: int, c: int, k: int)
    requires
        0 <= k <= c <= ncols,
        forall|j: int| k <= j < c ==> !col_free(g, j, lo, hi),
        c < ncols ==> col_free(g, c, lo, hi),
    ensures
        first_free_from(g, lo, hi, k, ncols) == c,
    decreases c - k,
{
    if k < c {
        lemma_first_free_at(g, lo, hi, ncols, c, k + 1);
    }
}

/// Relates each row of a split grid to the row of the original it came from.
pub(crate) proof fn lemma_split_row_case(m0: GridModel, index: int, m1: GridModel, r: int)
    requires
        m0.wf(),
        1 <= index < m0.grid.len(),
        m1.grid == split_grid(m0.grid, index),
        0 <= r < m1.grid.len(),
    ensures
        m1.grid.len() == m0.grid.len() + 1,
        r < index ==> m1.grid[r] == m0.grid[r],
        r > index ==> m1.grid[r] == m0.grid[r - 1],
        r == index ==> m1.grid[r] == Seq::new(
            m0.grid[0].len() as nat,
            |c: int| SlotStatus::spec_merge(m0.grid[index - 1][c], m0.grid[index][c]),
        ),
{
    m0.grid.insert_ensures(
        index,
        Seq::new(
            m0.grid[0].len() as nat,
            |c: int| SlotStatus::spec_merge(m0.grid[index - 1][c], m0.grid[index][c]),
        ),
    );
}

} // verus!
