//! Laws of the placement grid, proved of the insertion model that
//! `PieceArray::add_piece` is verified against.

use crate::parray::{
    appears, col_free, find_ge, first_free_col, fresh_piece, initial_model, insert_boundary,
    lemma_find_ge, lemma_find_ge_at, lemma_first_free_props, lemma_mark_model,
    lemma_push_col_appears, lemma_split_model, lemma_split_row_case, mark_range, model_insert,
    push_free_col, split_grid, GridModel,
};
use crate::slot::SlotStatus;
use vstd::prelude::*;

verus! {

/// Every occupied cell lies at a boundary no greater than `bound`.
pub open spec fn cells_bounded(m: GridModel, bound: int) -> bool {
    forall|r: int, c: int|
        0 <= r < m.grid.len() && 0 <= c < m.ncols() && (#[trigger] m.grid[r][c]) is Used
            ==> m.offsets[r] <= bound
}

/// The grid after the whole sequence of insertions, one
/// `(piece id, start, end)` triple per call.
pub open spec fn run_inserts(m: GridModel, ps: Seq<(usize, usize, usize)>) -> GridModel
    decreases ps.len(),
{
    if ps.len() == 0 {
        m
    } else {
        run_inserts(model_insert(m, ps[0].0, ps[0].1, ps[0].2), ps.drop_first())
    }
}

/// Every interval is non-degenerate and lies inside the flash image.
pub open spec fn pieces_valid(ps: Seq<(usize, usize, usize)>, size: usize) -> bool {
    forall|k: int| 0 <= k < ps.len() ==> (#[trigger] ps[k]).1 < ps[k].2 <= size
}

/// No piece id is committed twice.
pub open spec fn ids_distinct(ps: Seq<(usize, usize, usize)>) -> bool {
    forall|j: int, k: int| 0 <= j < k < ps.len() ==> (#[trigger] ps[j]).0 != (#[trigger] ps[k]).0
}

/// Consecutive pieces are separated by a gap: each ends strictly before
/// the next one starts.
pub open spec fn gap_separated(ps: Seq<(usize, usize, usize)>) -> bool {
    forall|k: int| 0 <= k < ps.len() - 1 ==> (#[trigger] ps[k]).2 < ps[k + 1].1
}

/// The pieces tile the flash image: the first starts at 0, each next one
/// starts where its predecessor ends, and the last ends at the image size.
pub open spec fn tiling(ps: Seq<(usize, usize, usize)>, size: usize) -> bool {
    &&& ps.len() > 0
    &&& ps[0].1 == 0
    &&& ps[ps.len() - 1].2 == size
    &&& forall|k: int| 0 <= k < ps.len() - 1 ==> (#[trigger] ps[k]).2 == ps[k + 1].1
}

/// `q` occupies the cell of track `c` at the boundary whose value is `v`.
pub open spec fn occ_at(m: GridModel, q: usize, c: int, v: usize) -> bool {
    exists|r: int|
        0 <= r < m.grid.len() && m.offsets[r] == v && (#[trigger] m.grid[r])[c] == SlotStatus::Used(
            q,
        )
}

/// In a strictly increasing sequence a contained value sits exactly at
/// `find_ge`.
pub proof fn lemma_contains_find_ge(offs: Seq<usize>, v: usize)
    requires
        forall|a: int, b: int| 0 <= a < b < offs.len() ==> offs[a] < offs[b],
        offs.contains(v),
    ensures
        0 <= find_ge(offs, v) < offs.len(),
        offs[find_ge(offs, v)] == v,
{
    let i = choose|i: int| 0 <= i < offs.len() && offs[i] == v;
    lemma_find_ge_at(offs, v, i);
}

/// What one boundary insertion does: the value is now a boundary, nothing
/// else joins the list, no occupancy appears or disappears at committed
/// boundaries, and well-formedness is kept.
pub proof fn lemma_insert_boundary_props(m: GridModel, v: usize)
    requires
        m.wf(),
        v <= m.size(),
    ensures
        ({
            let m1 = insert_boundary(m, v);
            &&& m1.wf()
            &&& m1.size() == m.size()
            &&& m1.ncols() == m.ncols()
            &&& m1.offsets.contains(v)
            &&& forall|x: usize|
                m1.offsets.contains(x) <==> (m.offsets.contains(x) || x == v)
            &&& m1.offsets.len() == m.offsets.len() + (if m.offsets.contains(v) {
                0int
            } else {
                1int
            })
            &&& (m.offsets.contains(v) ==> m1 == m)
            &&& forall|q: usize| appears(m1, q) ==> appears(m, q)
            &&& forall|p: usize| fresh_piece(m, p) ==> fresh_piece(m1, p)
        }),
{
    let i = find_ge(m.offsets, v);
    lemma_find_ge(m.offsets, v);
    if m.offsets.contains(v) {
        lemma_contains_find_ge(m.offsets, v);
    } else {
        // v lands strictly between its neighbors
        assert(i < m.offsets.len()) by {
            assert(m.offsets[m.offsets.len() - 1] >= v);
        }
        assert(m.offsets[i] != v) by {
            if m.offsets[i] == v {
                assert(m.offsets.contains(v));
            }
        }
        assert(i >= 1) by {
            if i == 0 {
                assert(m.offsets[0] == 0);
            }
        }
        let m1 = insert_boundary(m, v);
        let nr = Seq::new(
            m.grid[0].len() as nat,
            |c: int| SlotStatus::spec_merge(m.grid[i - 1][c], m.grid[i][c]),
        );
        assert(m1.grid == m.grid.insert(i, nr)) by {
            assert(split_grid(m.grid, i) == m.grid.insert(i, nr));
        }
        lemma_split_model(m, i, v, nr, m1);
        m.offsets.insert_ensures(i, v);
        assert(m1.offsets.contains(v)) by {
            assert(m1.offsets[i] == v);
        }
        assert forall|x: usize|
            m1.offsets.contains(x) <==> (m.offsets.contains(x) || x == v) by {
            if m1.offsets.contains(x) {
                let j = choose|j: int| 0 <= j < m1.offsets.len() && m1.offsets[j] == x;
                if j < i {
                    assert(m.offsets[j] == x);
                } else if j > i {
                    assert(m.offsets[j - 1] == x);
                }
            }
            if m.offsets.contains(x) {
                let j = choose|j: int| 0 <= j < m.offsets.len() && m.offsets[j] == x;
                if j < i {
                    assert(m1.offsets[j] == x);
                } else {
                    assert(m1.offsets[j + 1] == x);
                }
            }
        }
    }
}

/// Facts about a full insertion that every law builds on: both interval
/// ends become boundaries, the boundary list grows exactly by the missing
/// ones, occupancy only ever gains the new piece, and the track count
/// grows exactly when no free track existed.
pub proof fn lemma_model_insert_props(m: GridModel, p: usize, start: usize, end: usize)
    requires
        m.wf(),
        start < end,
        end <= m.size(),
        fresh_piece(m, p),
    ensures
        ({
            let mb = insert_boundary(insert_boundary(m, start), end);
            let lo = find_ge(mb.offsets, start);
            let hi = find_ge(mb.offsets, end);
            let m1 = model_insert(m, p, start, end);
            &&& mb.wf()
            &&& mb.ncols() == m.ncols()
            &&& 0 <= lo < hi < mb.grid.len()
            &&& mb.offsets[lo] == start
            &&& mb.offsets[hi] == end
            &&& m1.wf()
            &&& m1.size() == m.size()
            &&& m1.offsets == mb.offsets
            &&& m1.offsets.contains(start) && m1.offsets.contains(end)
            &&& forall|x: usize|
                m1.offsets.contains(x) <==> (m.offsets.contains(x) || x == start || x == end)
            &&& m1.offsets.len() == m.offsets.len() + (if m.offsets.contains(start) {
                0int
            } else {
                1int
            }) + (if m.offsets.contains(end) {
                0int
            } else {
                1int
            })
            &&& m1.ncols() == (if first_free_col(mb, lo, hi) == mb.ncols() {
                m.ncols() + 1
            } else {
                m.ncols()
            })
            &&& forall|q: usize| appears(m1, q) ==> appears(m, q) || q == p
            &&& forall|q: usize| q != p && fresh_piece(m, q) ==> fresh_piece(m1, q)
        }),
{
    let ma = insert_boundary(m, start);
    lemma_insert_boundary_props(m, start);
    let mb = insert_boundary(ma, end);
    lemma_insert_boundary_props(ma, end);
    let lo = find_ge(mb.offsets, start);
    let hi = find_ge(mb.offsets, end);
    lemma_contains_find_ge(mb.offsets, start);
    lemma_contains_find_ge(mb.offsets, end);
    assert(mb.wf());
    assert(0 <= lo < mb.offsets.len());
    assert(0 <= hi < mb.offsets.len());
    assert(mb.offsets[lo] == start);
    assert(mb.offsets[hi] == end);
    assert(lo < hi) by {
        if hi < lo {
            assert(mb.offsets[hi] < mb.offsets[lo]);
        }
        if hi == lo {
            assert(start == end);
        }
    }
    assert(hi < mb.grid.len());
    assert(m.offsets.contains(end) ==> ma.offsets.contains(end));
    // the missing-boundary count adds up over the two insertions
    assert(mb.offsets.len() == m.offsets.len() + (if m.offsets.contains(start) {
        0int
    } else {
        1int
    }) + (if m.offsets.contains(end) {
        0int
    } else {
        1int
    })) by {
        assert(ma.offsets.contains(end) <==> (m.offsets.contains(end) || end == start));
    }
    let f = first_free_col(mb, lo, hi);
    lemma_first_free_props(mb.grid, lo, hi, mb.ncols(), 0);
    let g = if f == mb.ncols() {
        push_free_col(mb.grid)
    } else {
        mb.grid
    };
    let m1 = model_insert(m, p, start, end);
    let mpre = GridModel { offsets: mb.offsets, grid: g };
    if f == mb.ncols() {
        assert(mpre.wf()) by {
            lemma_push_free_col_wf(mb);
        }
        assert(mpre.ncols() == mb.ncols() + 1) by {
            assert(mpre.grid[0] == mb.grid[0].push(SlotStatus::Free));
        }
        assert(col_free(mpre.grid, f, lo, hi)) by {
            assert forall|r: int| lo <= r <= hi implies ((#[trigger] mpre.grid[r])[f])
                is Free by {
                assert(mpre.grid[r] == mb.grid[r].push(SlotStatus::Free));
                assert(mb.grid[r].len() == mb.ncols());
            }
        }
        assert(fresh_piece(mpre, p)) by {
            assert forall|r: int, c: int|
                0 <= r < mpre.grid.len() && 0 <= c < mpre.ncols() implies (
            #[trigger] mpre.grid[r][c]) != SlotStatus::Used(p) by {
                assert(mpre.grid[r] == mb.grid[r].push(SlotStatus::Free));
                assert(mb.grid[r].len() == mb.ncols());
            }
        }
    } else {
        assert(mpre == mb);
    }
    assert(m1.offsets == mpre.offsets);
    assert(m1.grid == mark_range(mpre.grid, f, lo, hi, p));
    lemma_mark_model(mpre, f, lo, hi, p, m1);
    assert(m1.ncols() == mpre.ncols()) by {
        assert(m1.wf());
        assert(mpre.wf());
        assert(m1.grid.len() == mpre.grid.len());
    }
    // occupancy flows backwards through the construction
    assert forall|q: usize| appears(m1, q) implies appears(m, q) || q == p by {
        if q != p {
            if appears(mpre, q) {
                if f == mb.ncols() {
                    lemma_push_col_appears(mb, q);
                }
            }
        }
    }
    assert forall|q: usize| q != p && fresh_piece(m, q) implies fresh_piece(m1, q) by {
        if q != p && fresh_piece(m, q) {
            assert(fresh_piece(mb, q));
            assert forall|r: int, c: int|
                0 <= r < m1.grid.len() && 0 <= c < m1.ncols() implies (#[trigger] m1.grid[r][c])
                != SlotStatus::Used(q) by {
                assert(m1.grid[r] == (if lo <= r <= hi {
                    g[r].update(f, SlotStatus::Used(p))
                } else {
                    g[r]
                }));
                if f == mb.ncols() {
                    assert(g[r] == mb.grid[r].push(SlotStatus::Free));
                    assert(mb.grid[r].len() == mb.ncols());
                }
            }
        }
    }
}

/// A pushed free track keeps the grid well-formed.
proof fn lemma_push_free_col_wf(m: GridModel)
    requires
        m.wf(),
    ensures
        (GridModel { offsets: m.offsets, grid: push_free_col(m.grid) }).wf(),
{
    let m1 = GridModel { offsets: m.offsets, grid: push_free_col(m.grid) };
    assert(m1.ncols() == m.ncols() + 1) by {
        assert(m1.grid[0] == m.grid[0].push(SlotStatus::Free));
    }
    assert forall|r: int| 0 <= r < m1.grid.len() implies (#[trigger] m1.grid[r]).len()
        == m1.ncols() by {
        assert(m1.grid[r] == m.grid[r].push(SlotStatus::Free));
    }
    assert forall|r: int, c: int|
        0 <= r < m1.grid.len() && 0 <= c < m1.ncols() implies !((#[trigger] m1.grid[r][c])
        is Identity) by {
        assert(m1.grid[r] == m.grid[r].push(SlotStatus::Free));
    }
    assert forall|r: int, c1: int, c2: int|
        0 <= r < m1.grid.len() && 0 <= c1 < m1.ncols() && 0 <= c2 < m1.ncols() && c1 != c2 && (
    #[trigger] m1.grid[r][c1]) is Used implies m1.grid[r][c1] != #[trigger] m1.grid[r][c2] by {
        assert(m1.grid[r] == m.grid[r].push(SlotStatus::Free));
    }
}

/// For all sequences of insertions the boundary list remains strictly
/// increasing, starts at 0, and ends at the flash size: one step keeps
/// every part of that shape.
pub proof fn lemma_boundaries_stay_sorted(m: GridModel, p: usize, start: usize, end: usize)
    requires
        m.wf(),
        start < end,
        end <= m.size(),
        fresh_piece(m, p),
    ensures
        ({
            let m1 = model_insert(m, p, start, end);
            &&& m1.wf()
            &&& m1.offsets[0] == 0
            &&& m1.size() == m.size()
            &&& forall|i: int, j: int|
                0 <= i < j < m1.offsets.len() ==> m1.offsets[i] < m1.offsets[j]
        }),
{
    lemma_model_insert_props(m, p, start, end);
}

/// Inserting a piece whose start or end already is a boundary never
/// lengthens the boundary list at that point; with both present the list
/// is unchanged.
pub proof fn lemma_idempotent_boundaries(m: GridModel, p: usize, start: usize, end: usize)
    requires
        m.wf(),
        start < end,
        end <= m.size(),
        fresh_piece(m, p),
    ensures
        ({
            let m1 = model_insert(m, p, start, end);
            &&& m1.offsets.len() == m.offsets.len() + (if m.offsets.contains(start) {
                0int
            } else {
                1int
            }) + (if m.offsets.contains(end) {
                0int
            } else {
                1int
            })
            &&& (m.offsets.contains(start) && m.offsets.contains(end) ==> m1.offsets
                == m.offsets)
        }),
{
    lemma_model_insert_props(m, p, start, end);
    if m.offsets.contains(start) && m.offsets.contains(end) {
        lemma_insert_boundary_props(m, start);
        lemma_insert_boundary_props(insert_boundary(m, start), end);
    }
}

/// No two distinct pieces' track assignments overlap: an insertion writes
/// only into previously free cells, so at every committed boundary the
/// occupancy of every other piece is exactly what it was.
#[verifier::rlimit(100)]
pub proof fn lemma_no_overlap(m: GridModel, p: usize, start: usize, end: usize, q: usize, c: int, v: usize)
    requires
        m.wf(),
        start < end,
        end <= m.size(),
        fresh_piece(m, p),
        q != p,
        0 <= c < m.ncols(),
        m.offsets.contains(v),
    ensures
        occ_at(model_insert(m, p, start, end), q, c, v) == occ_at(m, q, c, v),
{
    let ma = insert_boundary(m, start);
    lemma_insert_boundary_props(m, start);
    lemma_occ_at_insert_boundary(m, start, q, c, v);
    let mb = insert_boundary(ma, end);
    lemma_insert_boundary_props(ma, end);
    lemma_occ_at_insert_boundary(ma, end, q, c, v);
    lemma_model_insert_props(m, p, start, end);
    let lo = find_ge(mb.offsets, start);
    let hi = find_ge(mb.offsets, end);
    let f = first_free_col(mb, lo, hi);
    lemma_first_free_props(mb.grid, lo, hi, mb.ncols(), 0);
    let g = if f == mb.ncols() {
        push_free_col(mb.grid)
    } else {
        mb.grid
    };
    let m1 = model_insert(m, p, start, end);
    // occupancy at old tracks is untouched by a pushed track
    assert(c < mb.ncols());
    assert(occ_at(GridModel { offsets: mb.offsets, grid: g }, q, c, v) == occ_at(mb, q, c, v)) by {
        if f == mb.ncols() {
            assert forall|r: int| 0 <= r < g.len() implies (#[trigger] g[r])[c]
                == mb.grid[r][c] by {
                assert(g[r] == mb.grid[r].push(SlotStatus::Free));
                assert(mb.grid[r].len() == mb.ncols());
            }
            let gm = GridModel { offsets: mb.offsets, grid: g };
            if occ_at(gm, q, c, v) {
                let r = choose|r: int|
                    0 <= r < gm.grid.len() && gm.offsets[r] == v && (#[trigger] gm.grid[r])[c]
                        == SlotStatus::Used(q);
                assert(mb.grid[r][c] == SlotStatus::Used(q));
                assert(occ_at(mb, q, c, v));
            }
            if occ_at(mb, q, c, v) {
                let r = choose|r: int|
                    0 <= r < mb.grid.len() && mb.offsets[r] == v && (#[trigger] mb.grid[r])[c]
                        == SlotStatus::Used(q);
                assert(gm.grid[r][c] == SlotStatus::Used(q));
                assert(occ_at(gm, q, c, v));
            }
        }
    }
    // marking track f for p neither adds nor removes q anywhere
    assert forall|r: int| 0 <= r < m1.grid.len() implies ((#[trigger] m1.grid[r])[c]
        == SlotStatus::Used(q) <==> g[r][c] == SlotStatus::Used(q)) by {
        if lo <= r <= hi {
            assert(m1.grid[r] == g[r].update(f, SlotStatus::Used(p)));
            if c == f {
                assert(col_free(GridModel { offsets: mb.offsets, grid: g }.grid, f, lo, hi)
                    || f == mb.ncols());
                if f < mb.ncols() {
                    assert(g[r][c] is Free);
                } else {
                    assert(g[r] == mb.grid[r].push(SlotStatus::Free));
                    assert(mb.grid[r].len() == mb.ncols());
                }
            }
        } else {
            assert(m1.grid[r] == g[r]);
        }
    }
    assert(occ_at(m1, q, c, v) == occ_at(GridModel { offsets: mb.offsets, grid: g }, q, c, v)) by {
        if occ_at(m1, q, c, v) {
            let r = choose|r: int|
                0 <= r < m1.grid.len() && m1.offsets[r] == v && (#[trigger] m1.grid[r])[c]
                    == SlotStatus::Used(q);
            assert(g[r][c] == SlotStatus::Used(q));
        }
        if occ_at(GridModel { offsets: mb.offsets, grid: g }, q, c, v) {
            let r = choose|r: int|
                0 <= r < g.len() && mb.offsets[r] == v && (#[trigger] g[r])[c]
                    == SlotStatus::Used(q);
            assert(m1.grid[r][c] == SlotStatus::Used(q));
        }
    }
}

/// One boundary insertion keeps every other piece's occupancy at every
/// already committed boundary, in every track of the old grid.
#[verifier::rlimit(100)]
proof fn lemma_occ_at_insert_boundary(m: GridModel, w: usize, q: usize, c: int, v: usize)
    requires
        m.wf(),
        w <= m.size(),
        0 <= c < m.ncols(),
        m.offsets.contains(v),
    ensures
        occ_at(insert_boundary(m, w), q, c, v) == occ_at(m, q, c, v),
{
    lemma_insert_boundary_props(m, w);
    let m1 = insert_boundary(m, w);
    if m.offsets.contains(w) {
    } else {
        let i = find_ge(m.offsets, w);
        lemma_find_ge(m.offsets, w);
        m.offsets.insert_ensures(i, w);
        assert(m1.offsets[i] == w);
        if occ_at(m, q, c, v) {
            let r = choose|r: int|
                0 <= r < m.grid.len() && m.offsets[r] == v && (#[trigger] m.grid[r])[c]
                    == SlotStatus::Used(q);
            lemma_split_row_case(m, i, m1, if r < i {
                r
            } else {
                r + 1
            });
            if r < i {
                assert(m1.offsets[r] == v);
                assert(m1.grid[r][c] == SlotStatus::Used(q));
            } else {
                assert(m1.offsets[r + 1] == v);
                assert(m1.grid[r + 1][c] == SlotStatus::Used(q));
            }
            assert(occ_at(m1, q, c, v));
        }
        if occ_at(m1, q, c, v) {
            let r = choose|r: int|
                0 <= r < m1.grid.len() && m1.offsets[r] == v && (#[trigger] m1.grid[r])[c]
                    == SlotStatus::Used(q);
            lemma_split_row_case(m, i, m1, r);
            if r < i {
                assert(m.offsets[r] == v);
                assert(m.grid[r][c] == SlotStatus::Used(q));
            } else if r > i {
                assert(m.offsets[r - 1] == v);
                assert(m.grid[r - 1][c] == SlotStatus::Used(q));
            } else {
                // the split row sits at the fresh boundary w, and v != w
                assert(m1.offsets[i] == w);
                assert(!m.offsets.contains(w));
                assert(false);
            }
            assert(occ_at(m, q, c, v));
        }
    }
}

/// A boundary insertion keeps every occupied cell at or below `bound`.
proof fn lemma_cells_bounded_insert_boundary(m: GridModel, v: usize, bound: int)
    requires
        m.wf(),
        v <= m.size(),
        cells_bounded(m, bound),
    ensures
        cells_bounded(insert_boundary(m, v), bound),
{
    lemma_insert_boundary_props(m, v);
    let m1 = insert_boundary(m, v);
    if m.offsets.contains(v) {
    } else {
        let i = find_ge(m.offsets, v);
        lemma_find_ge(m.offsets, v);
        m.offsets.insert_ensures(i, v);
        assert forall|r: int, c: int|
            0 <= r < m1.grid.len() && 0 <= c < m1.ncols() && (#[trigger] m1.grid[r][c])
                is Used implies m1.offsets[r] <= bound by {
            lemma_split_row_case(m, i, m1, r);
            if r < i {
                assert(m.grid[r][c] is Used);
                assert(m1.offsets[r] == m.offsets[r]);
            } else if r > i {
                assert(m.grid[r - 1][c] is Used);
                assert(m1.offsets[r] == m.offsets[r - 1]);
            } else {
                // a merged cell is occupied only if the row below it is,
                // whose boundary lies above the inserted value
                assert(m1.grid[r][c] == SlotStatus::spec_merge(m.grid[i - 1][c], m.grid[i][c]));
                assert(m.grid[i][c] is Used);
                assert(m.offsets[i] <= bound);
                assert(m1.offsets[i] == v);
                assert(v < m.offsets[i]);
            }
        }
    }
}

/// Disjoint pieces separated by gaps, inserted in increasing offset
/// order, all land in the single original track: the grid never grows a
/// second one. Adjacent pieces sharing a boundary do not qualify: they
/// share that boundary's row.
pub proof fn lemma_gap_separated_single_track(size: usize, ps: Seq<(usize, usize, usize)>)
    requires
        size > 0,
        pieces_valid(ps, size),
        ids_distinct(ps),
        gap_separated(ps),
    ensures
        run_inserts(initial_model(size), ps).wf(),
        run_inserts(initial_model(size), ps).ncols() == 1,
        run_inserts(initial_model(size), ps).size() == size,
    decreases ps.len(),
{
    let m0 = initial_model(size);
    assert(m0.wf()) by {
        assert(m0.offsets[0] == 0);
        assert(m0.offsets[1] == size);
        assert(m0.grid[0].len() == 1);
        assert(m0.grid[1].len() == 1);
    }
    assert(cells_bounded(m0, -1)) by {
        assert(m0.grid[0][0] is Free);
        assert(m0.grid[1][0] is Free);
    }
    assert forall|k: int| 0 <= k < ps.len() implies fresh_piece(m0, (#[trigger] ps[k]).0) by {
        assert(m0.grid[0][0] is Free);
        assert(m0.grid[1][0] is Free);
    }
    lemma_gaps_aux(m0, ps, size, -1);
}

#[verifier::rlimit(100)]
proof fn lemma_gaps_aux(m: GridModel, ps: Seq<(usize, usize, usize)>, size: usize, bound: int)
    requires
        m.wf(),
        m.size() == size,
        m.ncols() == 1,
        cells_bounded(m, bound),
        pieces_valid(ps, size),
        ids_distinct(ps),
        gap_separated(ps),
        ps.len() > 0 ==> bound < ps[0].1,
        forall|k: int| 0 <= k < ps.len() ==> fresh_piece(m, (#[trigger] ps[k]).0),
    ensures
        run_inserts(m, ps).wf(),
        run_inserts(m, ps).ncols() == 1,
        run_inserts(m, ps).size() == size,
    decreases ps.len(),
{
    if ps.len() > 0 {
        let p = ps[0].0;
        let s = ps[0].1;
        let e = ps[0].2;
        let m1 = model_insert(m, p, s, e);
        lemma_model_insert_props(m, p, s, e);
        lemma_cells_bounded_insert_boundary(m, s, bound);
        let ma = insert_boundary(m, s);
        lemma_insert_boundary_props(m, s);
        lemma_cells_bounded_insert_boundary(ma, e, bound);
        let mb = insert_boundary(ma, e);
        let lo = find_ge(mb.offsets, s);
        let hi = find_ge(mb.offsets, e);
        // the spanned rows all lie above `bound`, so the single track is free there
        assert(col_free(mb.grid, 0, lo, hi)) by {
            assert forall|r: int| lo <= r <= hi implies ((#[trigger] mb.grid[r])[0]) is Free by {
                assert(mb.offsets[lo] == s);
                if r > lo {
                    assert(mb.offsets[lo] < mb.offsets[r]);
                }
                assert(mb.offsets[r] >= s > bound);
                assert(!(mb.grid[r][0] is Used));
                assert(!(mb.grid[r][0] is Identity));
            }
        }
        assert(first_free_col(mb, lo, hi) == 0);
        assert(m1.ncols() == 1);
        assert(m1.offsets == mb.offsets);
        assert(m1.grid == mark_range(mb.grid, 0, lo, hi, p));
        // every occupied cell now lies at or below the new piece's end
        assert(cells_bounded(m1, e as int)) by {
            assert forall|r: int, c: int|
                0 <= r < m1.grid.len() && 0 <= c < m1.ncols() && (#[trigger] m1.grid[r][c])
                    is Used implies m1.offsets[r] <= e as int by {
                if lo <= r <= hi {
                    assert(m1.grid[r] == mb.grid[r].update(0, SlotStatus::Used(p)));
                    assert(mb.offsets[hi] == e);
                    if r < hi {
                        assert(mb.offsets[r] < mb.offsets[hi]);
                    }
                } else {
                    assert(m1.grid[r] == mb.grid[r]);
                    assert(mb.grid[r][c] is Used);
                    assert(mb.offsets[r] <= bound);
                    assert(bound < s < e);
                }
            }
        }
        assert forall|k: int|
            0 <= k < ps.drop_first().len() implies fresh_piece(
            m1,
            (#[trigger] ps.drop_first()[k]).0,
        ) by {
            assert(ps.drop_first()[k] == ps[k + 1]);
            assert(ps[k + 1].0 != p);
            assert(fresh_piece(m, ps[k + 1].0));
        }
        assert forall|k: int|
            0 <= k < ps.drop_first().len() implies ((#[trigger] ps.drop_first()[k]).1
                < ps.drop_first()[k].2 <= size) by {
            assert(ps.drop_first()[k] == ps[k + 1]);
        }
        assert(ps.drop_first().len() > 0 ==> e < ps.drop_first()[0].1) by {
            if ps.len() > 1 {
                assert(ps.drop_first()[0] == ps[1]);
            }
        }
        assert forall|j: int, k: int|
            0 <= j < k < ps.drop_first().len() implies (#[trigger] ps.drop_first()[j]).0 != (
        #[trigger] ps.drop_first()[k]).0 by {
            assert(ps.drop_first()[j] == ps[j + 1]);
            assert(ps.drop_first()[k] == ps[k + 1]);
        }
        assert forall|k: int|
            0 <= k < ps.drop_first().len() - 1 implies (#[trigger] ps.drop_first()[k]).2
                < ps.drop_first()[k + 1].1 by {
            assert(ps.drop_first()[k] == ps[k + 1]);
            assert(ps.drop_first()[k + 1] == ps[k + 2]);
        }
        lemma_gaps_aux(m1, ps.drop_first(), size, e as int);
    }
}

/// Pieces tiling the whole image end with exactly one boundary more than
/// there are pieces: every shared endpoint is inserted once and reused
/// once.
pub proof fn lemma_tiling_boundary_count(size: usize, ps: Seq<(usize, usize, usize)>)
    requires
        size > 0,
        pieces_valid(ps, size),
        ids_distinct(ps),
        tiling(ps, size),
    ensures
        run_inserts(initial_model(size), ps).wf(),
        run_inserts(initial_model(size), ps).offsets.len() == ps.len() + 1,
        run_inserts(initial_model(size), ps).size() == size,
{
    let m0 = initial_model(size);
    assert(m0.wf()) by {
        assert(m0.offsets[0] == 0);
        assert(m0.offsets[1] == size);
        assert(m0.grid[0].len() == 1);
        assert(m0.grid[1].len() == 1);
    }
    assert forall|k: int| 0 <= k < ps.len() implies fresh_piece(m0, (#[trigger] ps[k]).0) by {
        assert(m0.grid[0][0] is Free);
        assert(m0.grid[1][0] is Free);
    }
    // the interval ends grow strictly along the chain
    assert forall|j: int, k: int| 0 <= j < k < ps.len() implies (#[trigger] ps[j]).2 < (
    #[trigger] ps[k]).2 by {
        lemma_tiling_ends_increase(ps, size, j, k);
    }
    assert(m0.offsets.contains(ps[0].1)) by {
        assert(m0.offsets[0] == 0);
    }
    assert forall|k: int|
        0 <= k < ps.len() - 1 implies !m0.offsets.contains((#[trigger] ps[k]).2) by {
        assert(ps[k].2 < ps[ps.len() - 1].2);
        assert(ps[k].2 > ps[k].1 >= 0);
        if m0.offsets.contains(ps[k].2) {
            let j = choose|j: int| 0 <= j < m0.offsets.len() && m0.offsets[j] == ps[k].2;
            assert(m0.offsets[j] == 0 || m0.offsets[j] == size);
        }
    }
    lemma_tiling_aux(m0, ps, size);
}

/// In a tiling, later pieces end strictly later.
proof fn lemma_tiling_ends_increase(ps: Seq<(usize, usize, usize)>, size: usize, j: int, k: int)
    requires
        pieces_valid(ps, size),
        forall|i: int| 0 <= i < ps.len() - 1 ==> (#[trigger] ps[i]).2 == ps[i + 1].1,
        0 <= j < k < ps.len(),
    ensures
        ps[j].2 < ps[k].2,
    decreases k - j,
{
    if k == j + 1 {
        assert(ps[j].2 == ps[k].1 < ps[k].2);
    } else {
        lemma_tiling_ends_increase(ps, size, j, k - 1);
        assert(ps[k - 1].2 == ps[k].1 < ps[k].2);
    }
}

#[verifier::rlimit(100)]
proof fn lemma_tiling_aux(m: GridModel, ps: Seq<(usize, usize, usize)>, size: usize)
    requires
        m.wf(),
        m.size() == size,
        ps.len() > 0,
        pieces_valid(ps, size),
        ids_distinct(ps),
        ps[ps.len() - 1].2 == size,
        forall|k: int| 0 <= k < ps.len() - 1 ==> (#[trigger] ps[k]).2 == ps[k + 1].1,
        forall|j: int, k: int| 0 <= j < k < ps.len() ==> (#[trigger] ps[j]).2 < (#[trigger] ps[k]).2,
        m.offsets.contains(ps[0].1),
        forall|k: int| 0 <= k < ps.len() - 1 ==> !m.offsets.contains((#[trigger] ps[k]).2),
        forall|k: int| 0 <= k < ps.len() ==> fresh_piece(m, (#[trigger] ps[k]).0),
    ensures
        run_inserts(m, ps).wf(),
        run_inserts(m, ps).offsets.len() == m.offsets.len() + ps.len() - 1,
        run_inserts(m, ps).size() == size,
    decreases ps.len(),
{
    let p = ps[0].0;
    let s = ps[0].1;
    let e = ps[0].2;
    let m1 = model_insert(m, p, s, e);
    lemma_model_insert_props(m, p, s, e);
    let rest = ps.drop_first();
    assert(run_inserts(m, ps) == run_inserts(m1, rest));
    if ps.len() == 1 {
        // the only piece ends at the image size, which is already a boundary
        assert(run_inserts(m1, rest) == m1);
        assert(e == size);
        assert(m.offsets.contains(e)) by {
            assert(m.offsets[m.offsets.len() - 1] == size);
        }
        assert(m1.offsets.len() == m.offsets.len());
    } else {
        assert(e != size) by {
            assert(e < ps[ps.len() - 1].2);
        }
        assert(!m.offsets.contains(e));
        assert(m1.offsets.len() == m.offsets.len() + 1);
        assert(m1.offsets.contains(rest[0].1)) by {
            assert(rest[0] == ps[1]);
            assert(ps[0].2 == ps[1].1);
        }
        assert forall|k: int|
            0 <= k < rest.len() - 1 implies !m1.offsets.contains((#[trigger] rest[k]).2) by {
            assert(rest[k] == ps[k + 1]);
            assert(!m.offsets.contains(ps[k + 1].2));
            assert(ps[0].2 < ps[k + 1].2);
            assert(ps[0].1 < ps[0].2);
        }
        assert forall|k: int|
            0 <= k < rest.len() implies fresh_piece(m1, (#[trigger] rest[k]).0) by {
            assert(rest[k] == ps[k + 1]);
            assert(ps[k + 1].0 != p);
            assert(fresh_piece(m, ps[k + 1].0));
        }
        assert forall|k: int|
            0 <= k < rest.len() implies ((#[trigger] rest[k]).1 < rest[k].2 <= size) by {
            assert(rest[k] == ps[k + 1]);
        }
        assert forall|j: int, k: int|
            0 <= j < k < rest.len() implies (#[trigger] rest[j]).0 != (#[trigger] rest[k]).0 by {
            assert(rest[j] == ps[j + 1]);
            assert(rest[k] == ps[k + 1]);
        }
        assert forall|k: int|
            0 <= k < rest.len() - 1 implies (#[trigger] rest[k]).2 == rest[k + 1].1 by {
            assert(rest[k] == ps[k + 1]);
            assert(rest[k + 1] == ps[k + 2]);
        }
        assert forall|j: int, k: int|
            0 <= j < k < rest.len() implies (#[trigger] rest[j]).2 < (#[trigger] rest[k]).2 by {
            assert(rest[j] == ps[j + 1]);
            assert(rest[k] == ps[k + 1]);
        }
        assert(rest[rest.len() - 1].2 == size) by {
            assert(rest[rest.len() - 1] == ps[ps.len() - 1]);
        }
        lemma_tiling_aux(m1, rest, size);
    }
}

/// Track `j` of the grid is piece `id`'s alone: occupied by it over
/// exactly the rows `lo..=hi`, free everywhere else.
pub open spec fn track_exact(m: GridModel, j: int, id: usize, lo: int, hi: int) -> bool {
    forall|r: int|
        0 <= r < m.grid.len() ==> (#[trigger] m.grid[r][j]) == (if lo <= r <= hi {
            SlotStatus::Used(id)
        } else {
            SlotStatus::Free
        })
}

/// N pieces sharing one identical `[start, end)` interval end with
/// exactly N tracks, the k-th piece alone in track k over the spanned
/// rows; the boundary list settles after the first insertion, and is
/// exactly `[start, end]` when the interval covers the whole image.
pub proof fn lemma_identical_ranges(
    size: usize,
    s: usize,
    e: usize,
    ps: Seq<(usize, usize, usize)>,
)
    requires
        size > 0,
        s < e,
        e <= size,
        ps.len() > 0,
        forall|k: int| 0 <= k < ps.len() ==> (#[trigger] ps[k]).1 == s && ps[k].2 == e,
        ids_distinct(ps),
    ensures
        ({
            let r = run_inserts(initial_model(size), ps);
            &&& r.wf()
            &&& r.ncols() == ps.len()
            &&& r.offsets == insert_boundary(insert_boundary(initial_model(size), s), e).offsets
            &&& (s == 0 && e == size ==> r.offsets =~= seq![0usize, size])
            &&& forall|k: int|
                0 <= k < ps.len() ==> track_exact(
                    r,
                    k,
                    (#[trigger] ps[k]).0,
                    find_ge(r.offsets, s),
                    find_ge(r.offsets, e),
                )
        }),
{
    let m0 = initial_model(size);
    assert(m0.wf()) by {
        assert(m0.offsets[0] == 0);
        assert(m0.offsets[1] == size);
        assert(m0.grid[0].len() == 1);
        assert(m0.grid[1].len() == 1);
    }
    assert forall|k: int| 0 <= k < ps.len() implies fresh_piece(m0, (#[trigger] ps[k]).0) by {
        assert(m0.grid[0][0] is Free);
        assert(m0.grid[1][0] is Free);
    }
    let p = ps[0].0;
    let m1 = model_insert(m0, p, s, e);
    lemma_model_insert_props(m0, p, s, e);
    let ma = insert_boundary(m0, s);
    lemma_insert_boundary_props(m0, s);
    let mb = insert_boundary(ma, e);
    lemma_insert_boundary_props(ma, e);
    let lo = find_ge(mb.offsets, s);
    let hi = find_ge(mb.offsets, e);
    // the original track is free everywhere: boundary splits of a free
    // grid merge only free cells
    assert(col_free(mb.grid, 0, lo, hi)) by {
        lemma_all_free_insert_boundary(m0, s);
        lemma_all_free_insert_boundary(ma, e);
    }
    assert(first_free_col(mb, lo, hi) == 0);
    assert(m1.ncols() == 1);
    assert(m1.offsets == mb.offsets);
    // the first piece now owns track 0 over exactly the spanned rows
    assert(track_exact(m1, 0, p, lo, hi)) by {
        lemma_all_free_insert_boundary(m0, s);
        lemma_all_free_insert_boundary(ma, e);
        assert forall|r: int|
            0 <= r < m1.grid.len() implies (#[trigger] m1.grid[r][0]) == (if lo <= r <= hi {
            SlotStatus::Used(p)
        } else {
            SlotStatus::Free
        }) by {
            if lo <= r <= hi {
                assert(m1.grid[r] == mb.grid[r].update(0, SlotStatus::Used(p)));
            } else {
                assert(m1.grid[r] == mb.grid[r]);
                assert(mb.grid[r][0] is Free);
            }
        }
    }
    assert forall|k: int|
        0 <= k < ps.drop_first().len() implies fresh_piece(m1, (#[trigger] ps.drop_first()[k]).0)
        && (ps.drop_first()[k]).1 == s && (ps.drop_first()[k]).2 == e by {
        assert(ps.drop_first()[k] == ps[k + 1]);
        assert(ps[k + 1].0 != p);
        assert(fresh_piece(m0, ps[k + 1].0));
    }
    assert forall|j: int, k: int|
        0 <= j < k < ps.drop_first().len() implies (#[trigger] ps.drop_first()[j]).0 != (
    #[trigger] ps.drop_first()[k]).0 by {
        assert(ps.drop_first()[j] == ps[j + 1]);
        assert(ps.drop_first()[k] == ps[k + 1]);
    }
    lemma_identical_aux(m1, s, e, size, seq![p], ps.drop_first());
    let run = run_inserts(m1, ps.drop_first());
    assert(run_inserts(m0, ps) == run);
    assert forall|k: int|
        0 <= k < ps.len() implies track_exact(
        run,
        k,
        (#[trigger] ps[k]).0,
        find_ge(run.offsets, s),
        find_ge(run.offsets, e),
    ) by {
        assert(run.offsets == m1.offsets);
        if k == 0 {
            assert(track_exact(run, 0, seq![p][0], lo, hi));
        } else {
            assert(ps.drop_first()[k - 1] == ps[k]);
            assert(track_exact(run, 1 + (k - 1), ps.drop_first()[k - 1].0, lo, hi));
        }
    }
    if s == 0 && e == size {
        assert(m0.offsets.contains(s)) by {
            assert(m0.offsets[0] == 0);
        }
        assert(ma.offsets.contains(e)) by {
            assert(ma == m0);
            assert(m0.offsets[1] == size);
        }
        assert(mb.offsets =~= seq![0usize, size]);
    }
}

/// All cells stay free across a boundary insertion into a fully free grid.
proof fn lemma_all_free_insert_boundary(m: GridModel, v: usize)
    requires
        m.wf(),
        v <= m.size(),
        forall|r: int, c: int|
            0 <= r < m.grid.len() && 0 <= c < m.ncols() ==> (#[trigger] m.grid[r][c]) is Free,
    ensures
        ({
            let m1 = insert_boundary(m, v);
            forall|r: int, c: int|
                0 <= r < m1.grid.len() && 0 <= c < m1.ncols() ==> (#[trigger] m1.grid[r][c]) is Free
        }),
{
    lemma_insert_boundary_props(m, v);
    let m1 = insert_boundary(m, v);
    if m.offsets.contains(v) {
    } else {
        let i = find_ge(m.offsets, v);
        lemma_find_ge(m.offsets, v);
        assert forall|r: int, c: int|
            0 <= r < m1.grid.len() && 0 <= c < m1.ncols() implies (#[trigger] m1.grid[r][c])
            is Free by {
            lemma_split_row_case(m, i, m1, r);
            if r == i {
                assert(m1.grid[r][c] == SlotStatus::spec_merge(m.grid[i - 1][c], m.grid[i][c]));
            }
        }
    }
}

#[verifier::rlimit(100)]
proof fn lemma_identical_aux(
    m: GridModel,
    s: usize,
    e: usize,
    size: usize,
    placed: Seq<usize>,
    ps: Seq<(usize, usize, usize)>,
)
    requires
        m.wf(),
        m.size() == size,
        s < e,
        e <= size,
        m.offsets.contains(s),
        m.offsets.contains(e),
        m.ncols() == placed.len(),
        forall|j: int|
            0 <= j < placed.len() ==> track_exact(
                m,
                j,
                #[trigger] placed[j],
                find_ge(m.offsets, s),
                find_ge(m.offsets, e),
            ),
        forall|k: int|
            0 <= k < ps.len() ==> (#[trigger] ps[k]).1 == s && ps[k].2 == e && fresh_piece(
                m,
                ps[k].0,
            ),
        ids_distinct(ps),
    ensures
        run_inserts(m, ps).wf(),
        run_inserts(m, ps).ncols() == m.ncols() + ps.len(),
        run_inserts(m, ps).offsets == m.offsets,
        run_inserts(m, ps).size() == size,
        forall|j: int|
            0 <= j < placed.len() ==> track_exact(
                run_inserts(m, ps),
                j,
                #[trigger] placed[j],
                find_ge(m.offsets, s),
                find_ge(m.offsets, e),
            ),
        forall|k: int|
            0 <= k < ps.len() ==> track_exact(
                run_inserts(m, ps),
                placed.len() + k,
                (#[trigger] ps[k]).0,
                find_ge(m.offsets, s),
                find_ge(m.offsets, e),
            ),
    decreases ps.len(),
{
    if ps.len() > 0 {
        let p = ps[0].0;
        let m1 = model_insert(m, p, s, e);
        lemma_model_insert_props(m, p, s, e);
        lemma_insert_boundary_props(m, s);
        assert(insert_boundary(m, s) == m);
        lemma_insert_boundary_props(m, e);
        assert(insert_boundary(m, e) == m);
        let lo = find_ge(m.offsets, s);
        let hi = find_ge(m.offsets, e);
        lemma_contains_find_ge(m.offsets, s);
        lemma_contains_find_ge(m.offsets, e);
        assert(lo < hi) by {
            if hi < lo {
                assert(m.offsets[hi] < m.offsets[lo]);
            }
            if hi == lo {
                assert(s == e);
            }
        }
        // every existing track is occupied over the whole range
        let nc = m.ncols();
        assert(first_free_col(m, lo, hi) == nc) by {
            lemma_first_free_props(m.grid, lo, hi, nc, 0);
            let f = first_free_col(m, lo, hi);
            if f < nc {
                assert(track_exact(m, f, placed[f], lo, hi));
                assert(m.grid[lo][f] == SlotStatus::Used(placed[f]));
                assert(col_free(m.grid, f, lo, hi));
                assert(m.grid[lo][f] is Free);
            }
        }
        let g = push_free_col(m.grid);
        assert(m1.offsets == m.offsets);
        assert(m1.grid == mark_range(g, nc, lo, hi, p));
        assert(m1.ncols() == nc + 1);
        // the old tracks are untouched, the new one is the new piece's alone
        assert forall|j: int|
            0 <= j < placed.push(p).len() implies track_exact(
            m1,
            j,
            #[trigger] placed.push(p)[j],
            lo,
            hi,
        ) by {
            assert forall|r: int|
                0 <= r < m1.grid.len() implies (#[trigger] m1.grid[r][j]) == (if lo <= r <= hi {
                SlotStatus::Used(placed.push(p)[j])
            } else {
                SlotStatus::Free
            }) by {
                assert(g[r] == m.grid[r].push(SlotStatus::Free));
                assert(m.grid[r].len() == nc);
                if lo <= r <= hi {
                    assert(m1.grid[r] == g[r].update(nc, SlotStatus::Used(p)));
                } else {
                    assert(m1.grid[r] == g[r]);
                }
                if j < nc {
                    assert(m1.grid[r][j] == m.grid[r][j]);
                    assert(track_exact(m, j, placed[j], lo, hi));
                }
            }
        }
        assert forall|k: int|
            0 <= k < ps.drop_first().len() implies ((#[trigger] ps.drop_first()[k]).1 == s
                && ps.drop_first()[k].2 == e && fresh_piece(m1, ps.drop_first()[k].0)) by {
            assert(ps.drop_first()[k] == ps[k + 1]);
            assert(ps[k + 1].0 != p);
            assert(fresh_piece(m, ps[k + 1].0));
        }
        assert forall|j: int, k: int|
            0 <= j < k < ps.drop_first().len() implies (#[trigger] ps.drop_first()[j]).0 != (
        #[trigger] ps.drop_first()[k]).0 by {
            assert(ps.drop_first()[j] == ps[j + 1]);
            assert(ps.drop_first()[k] == ps[k + 1]);
        }
        lemma_identical_aux(m1, s, e, size, placed.push(p), ps.drop_first());
        let run = run_inserts(m1, ps.drop_first());
        assert(run_inserts(m, ps) == run);
        assert forall|j: int|
            0 <= j < placed.len() implies track_exact(run, j, #[trigger] placed[j], lo, hi) by {
            assert(placed.push(p)[j] == placed[j]);
            assert(track_exact(run, j, placed.push(p)[j], lo, hi));
        }
        assert forall|k: int|
            0 <= k < ps.len() implies track_exact(
            run,
            placed.len() + k,
            (#[trigger] ps[k]).0,
            lo,
            hi,
        ) by {
            if k == 0 {
                assert(placed.push(p)[placed.len() as int] == p);
                assert(track_exact(run, placed.len() as int, placed.push(p)[placed.len() as int], lo, hi));
            } else {
                assert(ps.drop_first()[k - 1] == ps[k]);
                assert(track_exact(
                    run,
                    placed.push(p).len() + (k - 1),
                    ps.drop_first()[k - 1].0,
                    lo,
                    hi,
                ));
            }
        }
    }
}

} // verus!
