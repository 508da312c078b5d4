//! Lemmas on the backtracking search: what it records, and that it
//! records every assembly exactly once.

use crate::grid::{edge, fits_at, grid_view, id_occurs, id_of, is_full};
use crate::jigsaw::JigsawView;
use crate::pieces::{quarter_turns, rotated, PieceState, BOTTOM, LEFT, RIGHT, TOP};
use vstd::prelude::*;

verus! {

/// `g` is one of the grids recorded in `sols` at index `from` or later.
pub open spec fn found_in(
    g: Seq<Seq<Option<PieceState>>>,
    sols: Seq<Vec<Vec<Option<PieceState>>>>,
    from: int,
) -> bool {
    exists|i: int| from <= i < sols.len() && #[trigger] grid_view(sols[i]) == g
}

/// A grid once recorded stays recorded when the list only grows at its end.
pub(crate) proof fn lemma_found_kept(
    g: Seq<Seq<Option<PieceState>>>,
    a: Seq<Vec<Vec<Option<PieceState>>>>,
    b: Seq<Vec<Vec<Option<PieceState>>>>,
    from_a: int,
    from_b: int,
)
    requires
        found_in(g, a, from_a),
        0 <= from_b <= from_a,
        a.len() <= b.len(),
        b.subrange(0, a.len() as int) == a,
    ensures
        found_in(g, b, from_b),
{
    let i = choose|i: int| from_a <= i < a.len() && #[trigger] grid_view(a[i]) == g;
    assert(b[i] == b.subrange(0, a.len() as int)[i]);
}

/// In an assembly that extends the grid, the piece at the first empty cell
/// is still in the pool and fits that cell.
pub(crate) proof fn lemma_assembly_cell_fits(v: JigsawView, g: Seq<Seq<Option<PieceState>>>, y: int, x: int)
    requires
        v.wf(),
        v.first_free(y, x),
        v.is_assembly(g),
        v.extends(g),
    ensures
        g[y][x] is Some,
        0 <= id_of(g[y][x]) < v.pieces.len(),
        !v.placed[id_of(g[y][x])],
        fits_at(v.cells, v.size(), y, x, g[y][x].unwrap()),
{
    let n = v.size();
    let c = v.cells;
    assert(g[y][x] is Some);
    let k = id_of(g[y][x]);
    if x > 0 && c[y][x - 1] is Some {
        assert(g[y][x - 1] == c[y][x - 1]);
        assert(edge(g[y][x - 1], RIGHT as int) + edge(g[y][x - 1 + 1], LEFT as int) == 0);
    }
    if y > 0 && c[y - 1][x] is Some {
        assert(g[y - 1][x] == c[y - 1][x]);
        assert(edge(g[y - 1][x], BOTTOM as int) + edge(g[y - 1 + 1][x], TOP as int) == 0);
    }
    assert(edge(g[y][x], TOP as int) == edge(Some(g[y][x].unwrap()), TOP as int));
    if v.placed[k] {
        reveal(JigsawView::placed_in_grid);
        assert(id_occurs(c, n, k));
        let (y1, x1) = choose|y1: int, x1: int|
            0 <= y1 < n && 0 <= x1 < n && #[trigger] id_of(c[y1][x1]) == k;
        assert(c[y1][x1] is Some);
        assert(g[y1][x1] == c[y1][x1]);
        assert(id_of(g[y1][x1]) != id_of(g[y][x]));
    }
}

/// A grid that an assembly extends, once full, is that assembly.
pub(crate) proof fn lemma_full_extends(w: JigsawView, h: Seq<Seq<Option<PieceState>>>)
    requires
        w.wf(),
        is_full(w.cells, w.size()),
        w.is_assembly(h),
        w.extends(h),
    ensures
        w.cells == h,
{
    assert forall|yy: int| 0 <= yy < w.size() implies #[trigger] w.cells[yy] =~= h[yy] by {
        assert forall|xx: int| 0 <= xx < w.size() implies w.cells[yy][xx] == h[yy][xx] by {
            assert(w.cells[yy][xx] is Some);
        }
    }
    assert(w.cells =~= h);
}

/// After the piece that an assembly puts at (x, y) is placed there, the
/// assembly still extends the grid.
pub(crate) proof fn lemma_extends_after_place(
    v: JigsawView,
    w: JigsawView,
    y: int,
    x: int,
    g: Seq<Seq<Option<PieceState>>>,
)
    requires
        v.wf(),
        v.first_free(y, x),
        v.is_assembly(g),
        v.extends(g),
        w.pieces == v.pieces,
        w.cells == v.cells.update(y, v.cells[y].update(x, g[y][x])),
    ensures
        w.is_assembly(g),
        w.extends(g),
{
    assert forall|yy: int, xx: int|
        0 <= yy < w.size() && 0 <= xx < w.size() && (#[trigger] w.cells[yy][xx]) is Some implies g[yy][xx]
        == w.cells[yy][xx] by {
        if yy != y || xx != x {
            assert(w.cells[yy][xx] == v.cells[yy][xx]);
        }
    }
}

/// Every assembly extending `v` whose piece at the first empty cell (x, y)
/// comes before piece `k` in rotation `r` (by id, then by quarter turns)
/// is recorded in `sols` from index `start` on.
#[verifier::opaque]
pub open spec fn covers(
    v: JigsawView,
    sols: Seq<Vec<Vec<Option<PieceState>>>>,
    start: int,
    y: int,
    x: int,
    k: int,
    r: int,
) -> bool {
    forall|g: Seq<Seq<Option<PieceState>>>|
        v.is_assembly(g) && #[trigger] v.extends(g) && (id_of(g[y][x]) < k || (id_of(g[y][x]) == k
            && quarter_turns(g[y][x].unwrap().rotation) < r)) ==> found_in(g, sols, start)
}

/// Each grid recorded in `sols` from index `start` on is an assembly of `v`.
pub open spec fn all_assemblies(v: JigsawView, sols: Seq<Vec<Vec<Option<PieceState>>>>, start: int) -> bool {
    forall|i: int| start <= i < sols.len() ==> v.is_assembly(grid_view(#[trigger] sols[i]))
}

/// Every assembly that extends `v` and puts piece `p` at (x, y) equals it
/// there, since `p` is piece `k` turned by `r` quarter turns.
pub(crate) proof fn lemma_candidate(v: JigsawView, y: int, x: int, k: int, p: PieceState)
    requires
        v.wf(),
        v.first_free(y, x),
        0 <= k < v.pieces.len(),
        p.piece.id == k,
        p.piece.sides@ == rotated(v.pieces[k].piece.sides@, p.rotation),
    ensures
        forall|g: Seq<Seq<Option<PieceState>>>|
            v.is_assembly(g) && #[trigger] v.extends(g) && id_of(g[y][x]) == k && quarter_turns(
                g[y][x].unwrap().rotation,
            ) == quarter_turns(p.rotation) ==> g[y][x] == Some(p),
{
    assert forall|g: Seq<Seq<Option<PieceState>>>|
        v.is_assembly(g) && #[trigger] v.extends(g) && id_of(g[y][x]) == k && quarter_turns(
            g[y][x].unwrap().rotation,
        ) == quarter_turns(p.rotation) implies g[y][x] == Some(p) by {
        lemma_assembly_cell_fits(v, g, y, x);
        let c = g[y][x].unwrap();
        assert(c.rotation == p.rotation);
        assert(c.piece.sides@ == p.piece.sides@);
        assert(c.piece.sides =~= p.piece.sides);
    }
}

/// After trying piece state `p` (piece `k` turned `r` times) at (x, y) by
/// placing it, searching on, and recording what was found, the recorded
/// grids are still assemblies and the next rotation is covered.
pub(crate) proof fn lemma_after_candidate(
    v: JigsawView,
    w: JigsawView,
    sols_before: Seq<Vec<Vec<Option<PieceState>>>>,
    sols: Seq<Vec<Vec<Option<PieceState>>>>,
    start: int,
    y: int,
    x: int,
    k: int,
    r: int,
    p: PieceState,
)
    requires
        v.wf(),
        v.first_free(y, x),
        quarter_turns(p.rotation) == r,
        forall|g: Seq<Seq<Option<PieceState>>>|
            v.is_assembly(g) && #[trigger] v.extends(g) && id_of(g[y][x]) == k && quarter_turns(
                g[y][x].unwrap().rotation,
            ) == r ==> g[y][x] == Some(p),
        w.pieces == v.pieces,
        w.cells == v.cells.update(y, v.cells[y].update(x, Some(p))),
        0 <= start <= sols_before.len(),
        sols.len() >= sols_before.len(),
        sols.subrange(0, sols_before.len() as int) == sols_before,
        all_assemblies(w, sols, sols_before.len() as int),
        forall|h: Seq<Seq<Option<PieceState>>>|
            w.is_assembly(h) && #[trigger] w.extends(h) ==> found_in(h, sols, sols_before.len() as int),
        all_assemblies(v, sols_before, start),
        covers(v, sols_before, start, y, x, k, r),
    ensures
        all_assemblies(v, sols, start),
        covers(v, sols, start, y, x, k, r + 1),
        sols.subrange(0, start) == sols_before.subrange(0, start),
{
    let before_len = sols_before.len() as int;
    reveal(covers);
    assert forall|i: int| start <= i < sols.len() implies v.is_assembly(grid_view(#[trigger] sols[i])) by {
        if i < before_len {
            assert(sols[i] == sols.subrange(0, before_len)[i]);
        }
    }
    assert(sols.subrange(0, start) =~= sols_before.subrange(0, start)) by {
        assert forall|i: int| 0 <= i < start implies sols.subrange(0, start)[i] == sols_before.subrange(0, start)[i] by {
            assert(sols[i] == sols.subrange(0, before_len)[i]);
        }
    }
    assert(sols.subrange(0, sols.len() as int) =~= sols);
    assert forall|g: Seq<Seq<Option<PieceState>>>|
        v.is_assembly(g) && #[trigger] v.extends(g) && (id_of(g[y][x]) < k || (id_of(g[y][x]) == k
            && quarter_turns(g[y][x].unwrap().rotation) < r + 1)) implies found_in(g, sols, start) by {
        if id_of(g[y][x]) == k && quarter_turns(g[y][x].unwrap().rotation) == r {
            lemma_extends_after_place(v, w, y, x, g);
            lemma_found_kept(g, sols, sols, before_len, start);
        } else {
            lemma_found_kept(g, sols_before, sols, start, start);
        }
    }
}

/// A piece state that does not fit at (x, y) is used there by no assembly,
/// so the next rotation is covered without recording anything.
pub(crate) proof fn lemma_candidate_rejected(
    v: JigsawView,
    sols: Seq<Vec<Vec<Option<PieceState>>>>,
    start: int,
    y: int,
    x: int,
    k: int,
    r: int,
    p: PieceState,
)
    requires
        v.wf(),
        v.first_free(y, x),
        !fits_at(v.cells, v.size(), y, x, p),
        forall|g: Seq<Seq<Option<PieceState>>>|
            v.is_assembly(g) && #[trigger] v.extends(g) && id_of(g[y][x]) == k && quarter_turns(
                g[y][x].unwrap().rotation,
            ) == r ==> g[y][x] == Some(p),
        covers(v, sols, start, y, x, k, r),
        recorded_before(v, sols, start, y, x, k, r),
    ensures
        covers(v, sols, start, y, x, k, r + 1),
        recorded_before(v, sols, start, y, x, k, r + 1),
{
    reveal(covers);
    reveal(recorded_before);
    assert forall|g: Seq<Seq<Option<PieceState>>>|
        v.is_assembly(g) && #[trigger] v.extends(g) && (id_of(g[y][x]) < k || (id_of(g[y][x]) == k
            && quarter_turns(g[y][x].unwrap().rotation) < r + 1)) implies found_in(g, sols, start) by {
        if id_of(g[y][x]) == k && quarter_turns(g[y][x].unwrap().rotation) == r {
            lemma_assembly_cell_fits(v, g, y, x);
        }
    }
}

/// Once every rotation of piece `k` has been tried at (x, y), every
/// assembly that puts a piece with id up to `k` there has been recorded.
pub(crate) proof fn lemma_all_rotations_tried(
    v: JigsawView,
    sols: Seq<Vec<Vec<Option<PieceState>>>>,
    start: int,
    y: int,
    x: int,
    k: int,
)
    requires
        v.wf(),
        v.first_free(y, x),
        covers(v, sols, start, y, x, k, 4),
        recorded_before(v, sols, start, y, x, k, 4),
    ensures
        covers(v, sols, start, y, x, k + 1, 0),
        recorded_before(v, sols, start, y, x, k + 1, 0),
{
    reveal(covers);
    reveal(recorded_before);
    assert forall|i: int| start <= i < sols.len() implies v.extends(grid_view(#[trigger] sols[i]))
        && key_before(grid_view(sols[i])[y][x], k + 1, 0) by {
        assert(quarter_turns(grid_view(sols[i])[y][x].unwrap().rotation) < 4);
    }
    assert forall|g: Seq<Seq<Option<PieceState>>>|
        v.is_assembly(g) && #[trigger] v.extends(g) && (id_of(g[y][x]) < k + 1 || (id_of(g[y][x])
            == k + 1 && quarter_turns(g[y][x].unwrap().rotation) < 0)) implies found_in(g, sols, start) by {
        assert(quarter_turns(g[y][x].unwrap().rotation) < 4);
    }
}

/// A piece that already lies in the grid is used by no assembly at the
/// first empty cell.
pub(crate) proof fn lemma_placed_piece_skipped(
    v: JigsawView,
    sols: Seq<Vec<Vec<Option<PieceState>>>>,
    start: int,
    y: int,
    x: int,
    k: int,
)
    requires
        v.wf(),
        v.first_free(y, x),
        0 <= k < v.placed.len(),
        v.placed[k],
        covers(v, sols, start, y, x, k, 0),
        recorded_before(v, sols, start, y, x, k, 0),
    ensures
        covers(v, sols, start, y, x, k + 1, 0),
        recorded_before(v, sols, start, y, x, k + 1, 0),
{
    reveal(covers);
    reveal(recorded_before);
    assert forall|g: Seq<Seq<Option<PieceState>>>|
        v.is_assembly(g) && #[trigger] v.extends(g) && (id_of(g[y][x]) < k + 1 || (id_of(g[y][x])
            == k + 1 && quarter_turns(g[y][x].unwrap().rotation) < 0)) implies found_in(g, sols, start) by {
        lemma_assembly_cell_fits(v, g, y, x);
    }
}

/// Once every piece has been tried at (x, y), every assembly that extends
/// the grid has been recorded.
pub(crate) proof fn lemma_all_pieces_tried(
    v: JigsawView,
    sols: Seq<Vec<Vec<Option<PieceState>>>>,
    start: int,
    y: int,
    x: int,
)
    requires
        v.wf(),
        v.first_free(y, x),
        covers(v, sols, start, y, x, v.pieces.len() as int, 0),
        recorded_before(v, sols, start, y, x, v.pieces.len() as int, 0),
    ensures
        forall|g: Seq<Seq<Option<PieceState>>>|
            v.is_assembly(g) && #[trigger] v.extends(g) ==> found_in(g, sols, start),
        all_extend(v, sols, start),
{
    reveal(covers);
    reveal(recorded_before);
    assert forall|g: Seq<Seq<Option<PieceState>>>|
        v.is_assembly(g) && #[trigger] v.extends(g) implies found_in(g, sols, start) by {
        lemma_assembly_cell_fits(v, g, y, x);
    }
}

/// The piece state `c` comes before piece `k` turned `r` times, by id
/// and then by quarter turns.
pub open spec fn key_before(c: Option<PieceState>, k: int, r: int) -> bool {
    id_of(c) < k || (id_of(c) == k && quarter_turns(c.unwrap().rotation) < r)
}

/// Each grid recorded from `start` on extends `v`.
pub open spec fn all_extend(v: JigsawView, sols: Seq<Vec<Vec<Option<PieceState>>>>, start: int) -> bool {
    forall|i: int| start <= i < sols.len() ==> v.extends(grid_view(#[trigger] sols[i]))
}

/// The grids recorded from `start` on are pairwise different.
pub open spec fn distinct_from(sols: Seq<Vec<Vec<Option<PieceState>>>>, start: int) -> bool {
    forall|i1: int, i2: int|
        start <= i1 < sols.len() && start <= i2 < sols.len() && i1 != i2 ==> grid_view(
            #[trigger] sols[i1],
        ) != grid_view(#[trigger] sols[i2])
}

/// Each grid recorded from `start` on extends `v` and puts at (x, y) a
/// piece state before piece `k` turned `r` times.
#[verifier::opaque]
pub open spec fn recorded_before(
    v: JigsawView,
    sols: Seq<Vec<Vec<Option<PieceState>>>>,
    start: int,
    y: int,
    x: int,
    k: int,
    r: int,
) -> bool {
    forall|i: int|
        start <= i < sols.len() ==> v.extends(grid_view(#[trigger] sols[i])) && key_before(
            grid_view(sols[i])[y][x],
            k,
            r,
        )
}

/// The grids recorded while trying piece `k` turned `r` times at (x, y)
/// all put that piece state there, so they differ from those recorded
/// before, which put an earlier one there.
pub(crate) proof fn lemma_recorded_after_candidate(
    v: JigsawView,
    w: JigsawView,
    sols_before: Seq<Vec<Vec<Option<PieceState>>>>,
    sols: Seq<Vec<Vec<Option<PieceState>>>>,
    start: int,
    y: int,
    x: int,
    k: int,
    r: int,
    p: PieceState,
)
    requires
        v.wf(),
        v.first_free(y, x),
        p.piece.id == k,
        quarter_turns(p.rotation) == r,
        w.size() == v.size(),
        w.cells == v.cells.update(y, v.cells[y].update(x, Some(p))),
        0 <= start <= sols_before.len(),
        sols.len() >= sols_before.len(),
        sols.subrange(0, sols_before.len() as int) == sols_before,
        all_extend(w, sols, sols_before.len() as int),
        distinct_from(sols, sols_before.len() as int),
        recorded_before(v, sols_before, start, y, x, k, r),
        distinct_from(sols_before, start),
    ensures
        recorded_before(v, sols, start, y, x, k, r + 1),
        distinct_from(sols, start),
{
    let before_len = sols_before.len() as int;
    reveal(recorded_before);
    assert(w.cells[y][x] == Some(p));
    assert forall|i: int| start <= i < sols.len() implies v.extends(grid_view(#[trigger] sols[i])) && key_before(
        grid_view(sols[i])[y][x],
        k,
        r + 1,
    ) by {
        if i < before_len {
            assert(sols[i] == sols.subrange(0, before_len)[i]);
        } else {
            let h = grid_view(sols[i]);
            assert(w.extends(h));
            assert(h[y][x] == Some(p));
            assert forall|yy: int, xx: int|
                0 <= yy < v.size() && 0 <= xx < v.size() && (#[trigger] v.cells[yy][xx]) is Some implies h[yy][xx]
                == v.cells[yy][xx] by {
                assert(w.cells[yy][xx] == v.cells[yy][xx]);
            }
        }
    }
    assert forall|i1: int, i2: int|
        start <= i1 < sols.len() && start <= i2 < sols.len() && i1 != i2 implies grid_view(
        #[trigger] sols[i1],
    ) != grid_view(#[trigger] sols[i2]) by {
        if i1 < before_len {
            assert(sols[i1] == sols.subrange(0, before_len)[i1]);
        }
        if i2 < before_len {
            assert(sols[i2] == sols.subrange(0, before_len)[i2]);
        }
        if i1 < before_len && i2 >= before_len {
            assert(w.extends(grid_view(sols[i2])));
        }
        if i2 < before_len && i1 >= before_len {
            assert(w.extends(grid_view(sols[i1])));
        }
    }
}

impl JigsawView {
    /// Every assembly of this puzzle that keeps the pieces already in the
    /// grid where they are.
    pub open spec fn assemblies(self) -> Set<Seq<Seq<Option<PieceState>>>> {
        Set::new(|g: Seq<Seq<Option<PieceState>>>| self.is_assembly(g) && self.extends(g))
    }
}

/// Grids recorded once each, all of them assemblies extending `v` and every
/// such assembly among them, are as many as those assemblies.
pub(crate) proof fn lemma_count_assemblies(v: JigsawView, sols: Seq<Vec<Vec<Option<PieceState>>>>, start: int)
    requires
        0 <= start <= sols.len(),
        all_assemblies(v, sols, start),
        all_extend(v, sols, start),
        distinct_from(sols, start),
        forall|g: Seq<Seq<Option<PieceState>>>|
            v.is_assembly(g) && #[trigger] v.extends(g) ==> found_in(g, sols, start),
    ensures
        v.assemblies().finite(),
        v.assemblies().len() == sols.len() - start,
{
    let f = sols.subrange(start, sols.len() as int).map_values(
        |s: Vec<Vec<Option<PieceState>>>| grid_view(s),
    );
    assert forall|a: int, b: int| 0 <= a < f.len() && 0 <= b < f.len() && a != b implies f[a] != f[b] by {
        assert(f[a] == grid_view(sols[start + a]));
        assert(f[b] == grid_view(sols[start + b]));
    }
    assert(f.no_duplicates());
    f.unique_seq_to_set();
    assert(f.to_set() =~= v.assemblies()) by {
        assert forall|g: Seq<Seq<Option<PieceState>>>| f.to_set().contains(g) implies v.assemblies().contains(g) by {
            let a = choose|a: int| 0 <= a < f.len() && f[a] == g;
            assert(f[a] == grid_view(sols[start + a]));
        }
        assert forall|g: Seq<Seq<Option<PieceState>>>| v.assemblies().contains(g) implies f.to_set().contains(g) by {
            assert(v.extends(g));
            let i = choose|i: int| start <= i < sols.len() && #[trigger] grid_view(sols[i]) == g;
            assert(f[i - start] == g);
        }
    }
}

} // verus!
