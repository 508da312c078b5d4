//! The puzzle under assembly: its invariant, its generation, and the
//! backtracking search over it.

use crate::grid::{
    before, edge, fits_at, grid_view, id_of, id_occurs, interlocked, border_flat, ids_distinct,
    is_full, is_solution, is_square, lemma_ids_cover,
};
use crate::pieces::{
    quarter_turns, rotate_sides, rotated, Piece, PieceState, Rotation, Side, BOTTOM, LEFT, RIGHT,
    TOP,
};
use crate::random::{is_side_pick, pick_side};
use crate::search::{
    all_assemblies, all_extend, covers, distinct_from, found_in, lemma_after_candidate,
    lemma_all_pieces_tried, lemma_all_rotations_tried, lemma_assembly_cell_fits,
    lemma_candidate, lemma_candidate_rejected, lemma_count_assemblies, lemma_full_extends,
    lemma_placed_piece_skipped, lemma_recorded_after_candidate, recorded_before,
};
use crate::settings::Settings;
use vstd::arithmetic::div_mod::lemma_fundamental_div_mod_converse;
use vstd::prelude::*;

verus! {

/// What a puzzle under assembly is: its cells, every piece indexed by its
/// id, and which of those pieces lie in the grid (the others form the pool).
pub struct JigsawView {
    pub cells: Seq<Seq<Option<PieceState>>>,
    pub pieces: Seq<PieceState>,
    pub placed: Seq<bool>,
}

impl JigsawView {
    /// The number of rows (and of columns).
    pub open spec fn size(self) -> nat {
        self.cells.len()
    }

    /// The cell holds a placed piece of the puzzle, turned by its rotation.
    pub open spec fn holds_own_piece(self, c: Option<PieceState>) -> bool {
        match c {
            Some(p) => {
                &&& p.piece.id < self.pieces.len()
                &&& self.placed[p.piece.id as int]
                &&& p.piece.sides@ == rotated(self.pieces[p.piece.id as int].piece.sides@, p.rotation)
            },
            None => true,
        }
    }

    /// Occupied cells form a prefix of the grid in row-major order.
    #[verifier::opaque]
    pub open spec fn prefix_filled(self) -> bool {
        let g = self.cells;
        let n = self.size();
        forall|y1: int, x1: int, y2: int, x2: int|
            0 <= y1 < n && 0 <= x1 < n && 0 <= y2 < n && 0 <= x2 < n && (#[trigger] g[y2][x2]) is Some
                && before(y1, x1, y2, x2) ==> (#[trigger] g[y1][x1]) is Some
    }

    /// Each occupied cell holds a placed piece of the puzzle, and that piece
    /// fitted the cell when it was put there.
    #[verifier::opaque]
    pub open spec fn cells_fit(self) -> bool {
        let g = self.cells;
        let n = self.size();
        forall|y: int, x: int|
            0 <= y < n && 0 <= x < n && (#[trigger] g[y][x]) is Some ==> {
                &&& self.holds_own_piece(g[y][x])
                &&& fits_at(g, n, y, x, g[y][x].unwrap())
            }
    }

    /// No piece occupies two cells.
    #[verifier::opaque]
    pub open spec fn ids_unique(self) -> bool {
        let g = self.cells;
        let n = self.size();
        forall|y1: int, x1: int, y2: int, x2: int|
            0 <= y1 < n && 0 <= x1 < n && 0 <= y2 < n && 0 <= x2 < n && (y1 != y2 || x1 != x2)
                && (#[trigger] g[y1][x1]) is Some && (#[trigger] g[y2][x2]) is Some
                ==> id_of(g[y1][x1]) != id_of(g[y2][x2])
    }

    /// Each piece marked as placed lies in some cell.
    #[verifier::opaque]
    pub open spec fn placed_in_grid(self) -> bool {
        forall|k: int|
            0 <= k < self.placed.len() && #[trigger] self.placed[k] ==> id_occurs(
                self.cells,
                self.size(),
                k,
            )
    }

    /// Every cell on which this grid is occupied holds the same in `g`.
    pub open spec fn extends(self, g: Seq<Seq<Option<PieceState>>>) -> bool {
        forall|y: int, x: int|
            0 <= y < self.size() && 0 <= x < self.size() && (#[trigger] self.cells[y][x]) is Some
                ==> g[y][x] == self.cells[y][x]
    }

    /// The invariant of a puzzle under assembly.
    pub open spec fn wf(self) -> bool {
        let n = self.size();
        &&& n >= 1
        &&& is_square(self.cells, n)
        &&& n * n <= usize::MAX
        &&& self.pieces.len() == n * n
        &&& self.placed.len() == n * n
        &&& forall|k: int|
            0 <= k < n * n ==> (#[trigger] self.pieces[k]).piece.id == k
                && self.pieces[k].rotation == Rotation::Degrees0
        &&& self.prefix_filled()
        &&& self.cells_fit()
        &&& self.ids_unique()
        &&& self.placed_in_grid()
    }

    /// Each cell of `g` holds one of this puzzle's pieces, turned by the
    /// rotation it records.
    pub open spec fn uses_own_pieces(self, g: Seq<Seq<Option<PieceState>>>) -> bool {
        forall|y: int, x: int|
            0 <= y < self.size() && 0 <= x < self.size() ==> {
                let c = #[trigger] g[y][x];
                &&& c is Some
                &&& c.unwrap().piece.id < self.pieces.len()
                &&& c.unwrap().piece.sides@ == rotated(
                    self.pieces[c.unwrap().piece.id as int].piece.sides@,
                    c.unwrap().rotation,
                )
            }
    }

    /// `g` is a complete, valid assembly of this puzzle's pieces.
    pub open spec fn is_assembly(self, g: Seq<Seq<Option<PieceState>>>) -> bool {
        &&& is_solution(g, self.size())
        &&& self.uses_own_pieces(g)
    }

    /// (x, y) is the first empty cell in row-major order.
    pub open spec fn first_free(self, y: int, x: int) -> bool {
        &&& 0 <= y < self.size() && 0 <= x < self.size()
        &&& self.cells[y][x] is None
        &&& forall|y1: int, x1: int|
            0 <= y1 < self.size() && 0 <= x1 < self.size() && before(y1, x1, y, x)
                ==> (#[trigger] self.cells[y1][x1]) is Some
    }
}


/// Putting a piece that fits into the first empty cell keeps the puzzle
/// well formed, and the next empty cell (if any) lies after it.
proof fn lemma_place(v: JigsawView, w: JigsawView, y: int, x: int, p: PieceState)
    requires
        v.wf(),
        v.first_free(y, x),
        fits_at(v.cells, v.size(), y, x, p),
        p.piece.id < v.pieces.len(),
        !v.placed[p.piece.id as int],
        p.piece.sides@ == rotated(v.pieces[p.piece.id as int].piece.sides@, p.rotation),
        w.pieces == v.pieces,
        w.placed == v.placed.update(p.piece.id as int, true),
        w.cells == v.cells.update(y, v.cells[y].update(x, Some(p))),
    ensures
        w.wf(),
        w.size() == v.size(),
        forall|y2: int, x2: int| #[trigger] w.first_free(y2, x2) ==> before(y, x, y2, x2),
{
    let n = v.size();
    let g = v.cells;
    let h = w.cells;
    reveal(JigsawView::prefix_filled);
    reveal(JigsawView::cells_fit);
    reveal(JigsawView::ids_unique);
    assert(is_square(h, n)) by {
        assert forall|yy: int| 0 <= yy < n implies #[trigger] h[yy].len() == n by {
            assert(g[yy].len() == n);
        }
    }
    // every cell after (y, x) is empty
    assert forall|y2: int, x2: int|
        0 <= y2 < n && 0 <= x2 < n && before(y, x, y2, x2) implies (#[trigger] g[y2][x2]) is None by {
        if g[y2][x2] is Some {
            assert(g[y][x] is Some);
        }
    }
    assert forall|yy: int, xx: int| 0 <= yy < n && 0 <= xx < n implies #[trigger] h[yy][xx] == (
    if yy == y && xx == x {
        Some(p)
    } else {
        g[yy][xx]
    }) by {}
    assert(w.prefix_filled()) by {
        assert forall|y1: int, x1: int, y2: int, x2: int|
            0 <= y1 < n && 0 <= x1 < n && 0 <= y2 < n && 0 <= x2 < n && (#[trigger] h[y2][x2]) is Some
                && before(y1, x1, y2, x2) implies (#[trigger] h[y1][x1]) is Some by {
            if y2 == y && x2 == x {
            } else {
                assert(g[y2][x2] is Some);
                if y1 == y && x1 == x {
                } else {
                    assert(g[y1][x1] is Some);
                }
            }
        }
    }
    assert(w.cells_fit()) by {
        assert forall|yy: int, xx: int|
            0 <= yy < n && 0 <= xx < n && (#[trigger] h[yy][xx]) is Some implies {
            &&& w.holds_own_piece(h[yy][xx])
            &&& fits_at(h, n, yy, xx, h[yy][xx].unwrap())
        } by {
            if yy == y && xx == x {
                if x > 0 {
                    assert(h[y][x - 1] == g[y][x - 1]);
                }
                if y > 0 {
                    assert(h[y - 1][x] == g[y - 1][x]);
                }
            } else {
                assert(g[yy][xx] is Some);
                assert(v.holds_own_piece(g[yy][xx]));
                if xx > 0 {
                    assert(h[yy][xx - 1] == g[yy][xx - 1]);
                }
                if yy > 0 {
                    assert(h[yy - 1][xx] == g[yy - 1][xx]);
                }
                assert(fits_at(g, n, yy, xx, g[yy][xx].unwrap()));
            }
        }
    }
    assert(w.ids_unique()) by {
        assert forall|y1: int, x1: int, y2: int, x2: int|
            0 <= y1 < n && 0 <= x1 < n && 0 <= y2 < n && 0 <= x2 < n && (y1 != y2 || x1 != x2)
                && (#[trigger] h[y1][x1]) is Some && (#[trigger] h[y2][x2]) is Some implies id_of(
            h[y1][x1],
        ) != id_of(h[y2][x2]) by {
            if y1 == y && x1 == x {
                assert(g[y2][x2] is Some);
                assert(v.holds_own_piece(g[y2][x2]));
            } else if y2 == y && x2 == x {
                assert(g[y1][x1] is Some);
                assert(v.holds_own_piece(g[y1][x1]));
            } else {
                assert(g[y1][x1] is Some);
                assert(g[y2][x2] is Some);
            }
        }
    }
    assert(w.placed_in_grid()) by {
        reveal(JigsawView::placed_in_grid);
        assert forall|k: int| 0 <= k < w.placed.len() && #[trigger] w.placed[k] implies id_occurs(
            h,
            n,
            k,
        ) by {
            if k == p.piece.id {
                assert(id_of(h[y][x]) == k);
            } else {
                assert(v.placed[k]);
                let (y1, x1) = choose|y1: int, x1: int|
                    0 <= y1 < n && 0 <= x1 < n && #[trigger] id_of(g[y1][x1]) == k;
                assert(g[y1][x1] is Some);
                assert(h[y1][x1] == g[y1][x1]);
                assert(id_of(h[y1][x1]) == k);
            }
        }
    }
    assert forall|y2: int, x2: int| #[trigger] w.first_free(y2, x2) implies before(y, x, y2, x2) by {
        if !before(y, x, y2, x2) {
            if y2 == y && x2 == x {
            } else {
                assert(before(y2, x2, y, x));
                assert(g[y2][x2] is Some);
            }
        }
    }
}

/// A well-formed puzzle whose grid is full holds a valid assembly.
proof fn lemma_full_is_assembly(v: JigsawView)
    requires
        v.wf(),
        is_full(v.cells, v.size()),
    ensures
        v.is_assembly(v.cells),
{
    let n = v.size();
    let g = v.cells;
    reveal(JigsawView::cells_fit);
    reveal(JigsawView::ids_unique);
    assert(border_flat(g, n)) by {
        assert forall|y: int, x: int| 0 <= y < n && 0 <= x < n implies {
            &&& (y == 0 ==> edge(#[trigger] g[y][x], TOP as int) == 0)
            &&& (x == n - 1 ==> edge(g[y][x], RIGHT as int) == 0)
            &&& (y == n - 1 ==> edge(g[y][x], BOTTOM as int) == 0)
            &&& (x == 0 ==> edge(g[y][x], LEFT as int) == 0)
        } by {
            assert(fits_at(g, n, y, x, g[y][x].unwrap()));
        }
    }
    assert(interlocked(g, n)) by {
        assert forall|y: int, x: int| 0 <= y < n && 0 <= x && x + 1 < n implies edge(
            #[trigger] g[y][x],
            RIGHT as int,
        ) + edge(g[y][x + 1], LEFT as int) == 0 by {
            assert(g[y][x + 1] is Some);
            assert(fits_at(g, n, y, x + 1, g[y][x + 1].unwrap()));
        }
        assert forall|y: int, x: int| 0 <= y && y + 1 < n && 0 <= x < n implies edge(
            #[trigger] g[y][x],
            BOTTOM as int,
        ) + edge(g[y + 1][x], TOP as int) == 0 by {
            assert(g[y + 1][x] is Some);
            assert(fits_at(g, n, y + 1, x, g[y + 1][x].unwrap()));
        }
    }
    assert(ids_distinct(g, n)) by {
        assert forall|y: int, x: int| 0 <= y < n && 0 <= x < n implies 0 <= id_of(
            #[trigger] g[y][x],
        ) < n * n by {
            assert(v.holds_own_piece(g[y][x]));
        }
    }
    lemma_ids_cover(g, n);
    assert(v.uses_own_pieces(g)) by {
        assert forall|y: int, x: int| 0 <= y < n && 0 <= x < n implies {
            let c = #[trigger] g[y][x];
            &&& c is Some
            &&& c.unwrap().piece.id < v.pieces.len()
            &&& c.unwrap().piece.sides@ == rotated(
                v.pieces[c.unwrap().piece.id as int].piece.sides@,
                c.unwrap().rotation,
            )
        } by {
            assert(v.holds_own_piece(g[y][x]));
        }
    }
}

/// Edge `i` (top, right, bottom, left) of the piece generated at row-major
/// index `k` of an `n` by `n` puzzle, from the values drawn for the right
/// and bottom edge of each cell: flat on the border, drawn where the cell
/// owns the edge, and the negation of the neighbour's edge otherwise.
pub open spec fn generated_edge(n: nat, rights: Seq<i8>, bottoms: Seq<i8>, k: int, i: int) -> int {
    let x = k % (n as int);
    let y = k / (n as int);
    if i == TOP {
        if y == 0 { 0 } else { -(bottoms[k - n] as int) }
    } else if i == RIGHT {
        if x == n - 1 { 0 } else { rights[k] as int }
    } else if i == BOTTOM {
        if y == n - 1 { 0 } else { bottoms[k] as int }
    } else {
        if x == 0 { 0 } else { -(rights[k - 1] as int) }
    }
}

/// The values drawn for an `n` by `n` puzzle with `side_types` shapes.
pub open spec fn valid_picks(n: nat, side_types: u8, rights: Seq<i8>, bottoms: Seq<i8>) -> bool {
    &&& rights.len() == n * n
    &&& bottoms.len() == n * n
    &&& forall|k: int| 0 <= k < n * n ==> is_side_pick(#[trigger] rights[k], side_types)
    &&& forall|k: int| 0 <= k < n * n ==> is_side_pick(#[trigger] bottoms[k], side_types)
}

/// The piece at index `k` is the unturned piece with id `k` generated from
/// the drawn values.
pub open spec fn is_generated_piece(p: PieceState, n: nat, rights: Seq<i8>, bottoms: Seq<i8>, k: int) -> bool {
    &&& p.piece.id == k
    &&& p.rotation == Rotation::Degrees0
    &&& forall|i: int| 0 <= i < 4 ==> #[trigger] p.piece.sides@[i].0 == generated_edge(n, rights, bottoms, k, i)
}

/// `pieces` are the pieces generated from the drawn values, in id order.
pub open spec fn is_generated(pieces: Seq<PieceState>, n: nat, rights: Seq<i8>, bottoms: Seq<i8>) -> bool {
    &&& pieces.len() == n * n
    &&& forall|k: int| 0 <= k < n * n ==> is_generated_piece(#[trigger] pieces[k], n, rights, bottoms, k)
}

impl JigsawView {
    /// A freshly generated puzzle: the generated pieces, of which the one at
    /// the origin lies there unturned and every other one is in the pool.
    pub open spec fn is_fresh(self, n: nat, rights: Seq<i8>, bottoms: Seq<i8>) -> bool {
        &&& self.size() == n
        &&& is_square(self.cells, n)
        &&& is_generated(self.pieces, n, rights, bottoms)
        &&& self.placed.len() == n * n
        &&& forall|k: int| 0 <= k < n * n ==> #[trigger] self.placed[k] == (k == 0)
        &&& forall|y: int, x: int|
            0 <= y < n && 0 <= x < n ==> #[trigger] self.cells[y][x] == if y == 0 && x == 0 {
                Some(self.pieces[0])
            } else {
                None
            }
    }
}

/// A freshly generated puzzle is well formed.
proof fn lemma_fresh_wf(v: JigsawView, n: nat, rights: Seq<i8>, bottoms: Seq<i8>)
    requires
        n >= 1,
        n * n <= usize::MAX,
        v.is_fresh(n, rights, bottoms),
    ensures
        v.wf(),
{
    let g = v.cells;
    reveal(JigsawView::prefix_filled);
    reveal(JigsawView::cells_fit);
    reveal(JigsawView::ids_unique);
    assert(n * n >= 1) by (nonlinear_arith)
        requires n >= 1;
    lemma_fundamental_div_mod_converse(0, n as int, 0, 0);
    assert(is_generated_piece(v.pieces[0], n, rights, bottoms, 0));
    let p = v.pieces[0];
    assert(p.piece.sides@[TOP as int].0 == generated_edge(n, rights, bottoms, 0, TOP as int));
    assert(p.piece.sides@[RIGHT as int].0 == generated_edge(n, rights, bottoms, 0, RIGHT as int));
    assert(p.piece.sides@[BOTTOM as int].0 == generated_edge(n, rights, bottoms, 0, BOTTOM as int));
    assert(p.piece.sides@[LEFT as int].0 == generated_edge(n, rights, bottoms, 0, LEFT as int));
    assert(g[0][0] == Some(p));
    assert(fits_at(g, n, 0, 0, p));
    assert(rotated(p.piece.sides@, p.rotation) == p.piece.sides@);
    assert(v.placed_in_grid()) by {
        reveal(JigsawView::placed_in_grid);
        assert forall|k: int| 0 <= k < v.placed.len() && #[trigger] v.placed[k] implies id_occurs(
            g,
            n,
            k,
        ) by {
            assert(k == 0);
            assert(id_of(g[0][0]) == 0);
        }
    }
    assert forall|k: int| 0 <= k < n * n implies (#[trigger] v.pieces[k]).piece.id == k
        && v.pieces[k].rotation == Rotation::Degrees0 by {
        assert(is_generated_piece(v.pieces[k], n, rights, bottoms, k));
    }
}

/// The pieces whose flag in `placed` is off, in order.
pub open spec fn pool_of(pieces: Seq<PieceState>, placed: Seq<bool>) -> Seq<PieceState>
    decreases pieces.len(),
{
    if pieces.len() == 0 || placed.len() != pieces.len() {
        Seq::empty()
    } else if placed.last() {
        pool_of(pieces.drop_last(), placed.drop_last())
    } else {
        pool_of(pieces.drop_last(), placed.drop_last()).push(pieces.last())
    }
}

/// A puzzle under assembly.
#[derive(Debug, Clone)]
pub struct Jigsaw {
    grid: Vec<Vec<Option<PieceState>>>,
    pieces: Vec<PieceState>,
    placed: Vec<bool>,
}

impl View for Jigsaw {
    type V = JigsawView;

    closed spec fn view(&self) -> JigsawView {
        JigsawView { cells: grid_view(self.grid), pieces: self.pieces@, placed: self.placed@ }
    }
}

/// Search results: each a grid of rows of cells.
pub type Solutions = Vec<Vec<Vec<Option<PieceState>>>>;

impl Jigsaw {
    proof fn lemma_cells(&self)
        ensures
            self@.cells.len() == self.grid@.len(),
            forall|y: int|
                #![trigger self.grid@[y]]
                #![trigger self@.cells[y]]
                0 <= y < self.grid@.len() ==> self@.cells[y] == self.grid@[y]@,
            self@.wf() ==> forall|y: int|
                0 <= y < self.grid@.len() ==> (#[trigger] self.grid@[y])@.len() == self.grid@.len(),
            self@.pieces == self.pieces@,
            self@.placed == self.placed@,
    {
        if self@.wf() {
            assert forall|y: int| 0 <= y < self.grid@.len() implies (
            #[trigger] self.grid@[y])@.len() == self.grid@.len() by {
                assert(self@.cells[y] == self.grid@[y]@);
            }
        }
    }

    /// The invariant of a puzzle under assembly.
    pub open spec fn wf(&self) -> bool {
        self@.wf()
    }

    /// The number of rows (and of columns).
    pub open spec fn size(&self) -> nat {
        self@.size()
    }

    /// Whether `piece` may go to cell (x, y) now.
    fn can_place_piece_at(&self, x: usize, y: usize, piece: &PieceState) -> (r: bool)
        requires
            self.wf(),
            x < self.size(),
            y < self.size(),
        ensures
            r == fits_at(self@.cells, self.size(), y as int, x as int, *piece),
    {
        proof {
            self.lemma_cells();
        }
        let n = self.grid[0].len();
        // Check left side
        if x == 0 {
            if !piece.piece.sides[LEFT].matches(&Side(0)) {
                return false;
            }
        } else if let Some(left_piece) = &self.grid[y][x - 1] {
            if !piece.piece.sides[LEFT].matches(&left_piece.piece.sides[RIGHT]) {
                return false;
            }
        }
        // Check right side
        if x == n - 1 {
            if !piece.piece.sides[RIGHT].matches(&Side(0)) {
                return false;
            }
        }
        // Check top side
        if y == 0 {
            if !piece.piece.sides[TOP].matches(&Side(0)) {
                return false;
            }
        } else if let Some(top_piece) = &self.grid[y - 1][x] {
            if !piece.piece.sides[TOP].matches(&top_piece.piece.sides[BOTTOM]) {
                return false;
            }
        }
        // Check bottom side
        if y == self.grid.len() - 1 {
            if !piece.piece.sides[BOTTOM].matches(&Side(0)) {
                return false;
            }
        }
        true
    }

    /// The first empty cell in row-major order, as (x, y).
    fn find_next_free_space(&self) -> (r: Option<(usize, usize)>)
        requires
            self.wf(),
        ensures
            r matches Some((x, y)) ==> self@.first_free(y as int, x as int),
            r is None ==> is_full(self@.cells, self.size()),
    {
        proof {
            self.lemma_cells();
        }
        let n = self.grid.len();
        let mut y: usize = 0;
        while y < n
            invariant
                self.wf(),
                n == self.size(),
                y <= n,
                forall|y1: int, x1: int|
                    0 <= y1 < y && 0 <= x1 < n ==> (#[trigger] self@.cells[y1][x1]) is Some,
            decreases n - y,
        {
            proof {
                self.lemma_cells();
            }
            let mut x: usize = 0;
            while x < self.grid[0].len()
                invariant
                    self.wf(),
                    n == self.size(),
                    y < n,
                    x <= n,
                    self.grid@[0]@.len() == n,
                    forall|y1: int, x1: int|
                        0 <= y1 < n && 0 <= x1 < n && before(y1, x1, y as int, x as int)
                            ==> (#[trigger] self@.cells[y1][x1]) is Some,
                decreases n - x,
            {
                proof {
                    self.lemma_cells();
                }
                if self.grid[y][x].is_none() {
                    return Some((x, y));
                }
                x = x + 1;
            }
            y = y + 1;
        }
        None
    }

    /// Builds a `size` by `size` puzzle with freshly drawn edges.
    pub fn generate(size: usize, settings: &Settings) -> (r: Jigsaw)
        requires
            size >= 1,
            size * size <= usize::MAX,
            1 <= settings.side_types <= 127,
        ensures
            r.wf(),
            exists|rights: Seq<i8>, bottoms: Seq<i8>|
                valid_picks(size as nat, settings.side_types, rights, bottoms) && r@.is_fresh(
                    size as nat,
                    rights,
                    bottoms,
                ),
    {
        let total = size * size;
        let mut rights: Vec<i8> = Vec::new();
        let mut bottoms: Vec<i8> = Vec::new();
        let mut k: usize = 0;
        while k < total
            invariant
                total == size * size,
                1 <= settings.side_types <= 127,
                k <= total,
                rights@.len() == k,
                bottoms@.len() == k,
                forall|j: int| 0 <= j < k ==> is_side_pick(#[trigger] rights@[j], settings.side_types),
                forall|j: int| 0 <= j < k ==> is_side_pick(#[trigger] bottoms@[j], settings.side_types),
            decreases total - k,
        {
            rights.push(pick_side(settings.side_types));
            bottoms.push(pick_side(settings.side_types));
            k = k + 1;
        }
        Self::generate_with(size, settings, &rights, &bottoms)
    }

    /// The pieces not in the grid, in id order.
    pub fn pool(&self) -> (r: Vec<PieceState>)
        requires
            self.wf(),
        ensures
            r@ == pool_of(self@.pieces, self@.placed),
    {
        proof {
            self.lemma_cells();
        }
        let mut r: Vec<PieceState> = Vec::new();
        let mut k: usize = 0;
        while k < self.pieces.len()
            invariant
                self.wf(),
                k <= self.pieces@.len(),
                self@.pieces == self.pieces@,
                self@.placed == self.placed@,
                r@ == pool_of(self@.pieces.subrange(0, k as int), self@.placed.subrange(0, k as int)),
            decreases self.pieces@.len() - k,
        {
            proof {
                let ps = self@.pieces.subrange(0, k + 1);
                let fs = self@.placed.subrange(0, k + 1);
                assert(ps.drop_last() =~= self@.pieces.subrange(0, k as int));
                assert(fs.drop_last() =~= self@.placed.subrange(0, k as int));
            }
            if !self.placed[k] {
                r.push(self.pieces[k]);
            }
            k = k + 1;
        }
        proof {
            assert(self@.pieces.subrange(0, k as int) =~= self@.pieces);
            assert(self@.placed.subrange(0, k as int) =~= self@.placed);
        }
        r
    }

    /// Every cell is occupied.
    pub fn is_solved(&self) -> (r: bool)

        requires
            self.wf(),
        ensures
            r == is_full(self@.cells, self.size()),
    {
        let r = self.find_next_free_space();
        proof {
            if let Some((x, y)) = r {
                assert(self@.cells[y as int][x as int] is None);
            }
        }
        r.is_none()
    }

    /// Builds an `size` by `size` puzzle from the values drawn for the right
    /// and bottom edge of each cell (row-major; the values of cells whose
    /// edge lies on the border are not used), keeping the origin piece in
    /// place and every other piece in the pool.
    pub fn generate_with(size: usize, settings: &Settings, rights: &Vec<i8>, bottoms: &Vec<i8>) -> (r: Jigsaw)
        requires
            size >= 1,
            size * size <= usize::MAX,
            1 <= settings.side_types <= 127,
            valid_picks(size as nat, settings.side_types, rights@, bottoms@),
        ensures
            r.wf(),
            r@.is_fresh(size as nat, rights@, bottoms@),
    {
        let n = size;
        let total = size * size;
        let mut pieces: Vec<PieceState> = Vec::new();
        let mut k: usize = 0;
        let mut x: usize = 0;
        let mut y: usize = 0;
        while k < total
            invariant
                n >= 1,
                total == n * n,
                total <= usize::MAX,
                1 <= settings.side_types <= 127,
                valid_picks(n as nat, settings.side_types, rights@, bottoms@),
                k <= total,
                k == y * n + x,
                x < n,
                k < total ==> y < n,
                pieces@.len() == k,
                forall|j: int| 0 <= j < k ==> is_generated_piece(#[trigger] pieces@[j], n as nat, rights@, bottoms@, j),
            decreases total - k,
        {
            proof {
                lemma_fundamental_div_mod_converse(k as int, n as int, y as int, x as int);
                assert(y * n + x < n * n) by (nonlinear_arith)
                    requires y < n, x < n;
            }
            let top: i8 = if y == 0 {
                0
            } else {
                proof {
                    assert(k >= n) by (nonlinear_arith)
                        requires k == y * n + x, y >= 1;
                    assert(k - n == (y - 1) * n + x) by (nonlinear_arith)
                        requires k == y * n + x;
                    lemma_fundamental_div_mod_converse(k - n, n as int, y - 1, x as int);
                    assert(pieces@[k - n].piece.sides@[BOTTOM as int].0 == generated_edge(n as nat, rights@, bottoms@, k - n, BOTTOM as int));
                }
                -pieces[k - n].piece.sides[BOTTOM].0
            };
            let right: i8 = if x == n - 1 {
                0
            } else {
                rights[k]
            };
            let bottom: i8 = if y == n - 1 {
                0
            } else {
                bottoms[k]
            };
            let left: i8 = if x == 0 {
                0
            } else {
                proof {
                    lemma_fundamental_div_mod_converse(k - 1, n as int, y as int, x - 1);
                    assert(pieces@[k - 1].piece.sides@[RIGHT as int].0 == generated_edge(n as nat, rights@, bottoms@, k - 1, RIGHT as int));
                }
                -pieces[k - 1].piece.sides[RIGHT].0
            };
            let p = PieceState {
                piece: Piece { id: k, sides: [Side(top), Side(right), Side(bottom), Side(left)] },
                rotation: Rotation::Degrees0,
            };
            proof {
                assert forall|i: int| 0 <= i < 4 implies #[trigger] p.piece.sides@[i].0 == generated_edge(n as nat, rights@, bottoms@, k as int, i) by {
                }
            }
            pieces.push(p);
            k = k + 1;
            if x == n - 1 {
                x = 0;
                y = y + 1;
                proof {
                    assert(k == y * n + x) by (nonlinear_arith)
                        requires k == (y - 1) * n + n, x == 0;
                    if k < total {
                        assert(y < n) by (nonlinear_arith)
                            requires k == y * n, k < n * n, n >= 1;
                    }
                }
            } else {
                x = x + 1;
            }
        }
        let mut grid: Vec<Vec<Option<PieceState>>> = Vec::new();
        let mut placed: Vec<bool> = Vec::new();
        let mut j: usize = 0;
        while j < total
            invariant
                total == n * n,
                j <= total,
                placed@.len() == j,
                forall|i: int| 0 <= i < j ==> #[trigger] placed@[i] == (i == 0),
            decreases total - j,
        {
            placed.push(j == 0);
            j = j + 1;
        }
        proof {
            assert(n * n >= 1) by (nonlinear_arith)
                requires n >= 1;
        }
        let mut row_index: usize = 0;
        while row_index < n
            invariant
                n >= 1,
                pieces@.len() == n * n,
                pieces@.len() >= 1,
                row_index <= n,
                grid@.len() == row_index,
                forall|yy: int| 0 <= yy < row_index ==> (#[trigger] grid@[yy])@.len() == n,
                forall|yy: int, xx: int| 0 <= yy < row_index && 0 <= xx < n ==> #[trigger] grid@[yy]@[xx] == if yy == 0 && xx == 0 {
                    Some(pieces@[0])
                } else {
                    None
                },
            decreases n - row_index,
        {
            let mut row: Vec<Option<PieceState>> = Vec::new();
            let mut col: usize = 0;
            while col < n
                invariant
                    n >= 1,
                    pieces@.len() == n * n,
                    pieces@.len() >= 1,
                    col <= n,
                    row@.len() == col,
                    forall|xx: int| 0 <= xx < col ==> #[trigger] row@[xx] == if row_index == 0 && xx == 0 {
                        Some(pieces@[0])
                    } else {
                        None
                    },
                decreases n - col,
            {
                if row_index == 0 && col == 0 {
                    row.push(Some(pieces[0]));
                } else {
                    row.push(None);
                }
                col = col + 1;
            }
            grid.push(row);
            row_index = row_index + 1;
        }
        let r = Jigsaw { grid, pieces, placed };
        proof {
            r.lemma_cells();
            assert forall|yy: int, xx: int| 0 <= yy < n && 0 <= xx < n implies #[trigger] r@.cells[yy][xx] == if yy == 0 && xx == 0 {
                Some(r@.pieces[0])
            } else {
                None
            } by {
                assert(r@.cells[yy] == r.grid@[yy]@);
            }
            assert(is_square(r@.cells, n as nat)) by {
                assert forall|yy: int| 0 <= yy < n implies #[trigger] r@.cells[yy].len() == n by {
                    assert(r@.cells[yy] == r.grid@[yy]@);
                }
            }
            lemma_fresh_wf(r@, n as nat, rights@, bottoms@);
        }
        r
    }

    /// Puts `v` into cell (x, y).
    fn set_cell(&mut self, x: usize, y: usize, v: Option<PieceState>)
        requires
            old(self).wf(),
            x < old(self).size(),
            y < old(self).size(),
        ensures
            final(self)@ == (JigsawView {
                cells: old(self)@.cells.update(
                    y as int,
                    old(self)@.cells[y as int].update(x as int, v),
                ),
                ..old(self)@
            }),
    {
        proof {
            self.lemma_cells();
        }
        let mut row = self.grid.remove(y);
        row.set(x, v);
        self.grid.insert(y, row);
        proof {
            self.lemma_cells();
            assert(self@.cells =~= old(self)@.cells.update(
                y as int,
                old(self)@.cells[y as int].update(x as int, v),
            )) by {
                assert forall|i: int| 0 <= i < self@.cells.len() implies #[trigger] self@.cells[i]
                    == old(self)@.cells.update(
                    y as int,
                    old(self)@.cells[y as int].update(x as int, v),
                )[i] by {
                    old(self).lemma_cells();
                }
            }
        }
    }

    /// A copy of the grid, row by row.
    pub fn grid(&self) -> (r: Vec<Vec<Option<PieceState>>>)
        requires
            self.wf(),
        ensures
            grid_view(r) == self@.cells,
    {
        proof {
            self.lemma_cells();
        }
        let n = self.grid.len();
        let mut out: Vec<Vec<Option<PieceState>>> = Vec::new();
        let mut y: usize = 0;
        while y < n
            invariant
                self.wf(),
                n == self.size(),
                y <= n,
                out@.len() == y,
                forall|i: int| 0 <= i < y ==> (#[trigger] out@[i])@ == self@.cells[i],
            decreases n - y,
        {
            proof {
                self.lemma_cells();
            }
            let mut row: Vec<Option<PieceState>> = Vec::new();
            let mut x: usize = 0;
            while x < n
                invariant
                    self.wf(),
                    n == self.size(),
                    y < n,
                    x <= n,
                    self.grid@[y as int]@.len() == n,
                    row@ == self.grid@[y as int]@.subrange(0, x as int),
                decreases n - x,
            {
                row.push(self.grid[y][x]);
                x = x + 1;
                assert(row@ =~= self.grid@[y as int]@.subrange(0, x as int));
            }
            proof {
                self.lemma_cells();
                assert(row@ =~= self@.cells[y as int]);
            }
            out.push(row);
            y = y + 1;
        }
        assert(grid_view(out) =~= self@.cells);
        out
    }

    /// Tries every pool piece in every rotation at the first empty cell
    /// (x, y), going on to the next empty cell after each placement that
    /// fits, and records each full grid reached.
    fn solve_at(&mut self, x: usize, y: usize, solutions: &mut Solutions)
        requires
            old(self).wf(),
            old(self)@.first_free(y as int, x as int),
        ensures
            final(self)@ == old(self)@,
            final(solutions)@.len() >= old(solutions)@.len(),
            final(solutions)@.subrange(0, old(solutions)@.len() as int) == old(solutions)@,
            all_assemblies(old(self)@, final(solutions)@, old(solutions)@.len() as int),
            all_extend(old(self)@, final(solutions)@, old(solutions)@.len() as int),
            distinct_from(final(solutions)@, old(solutions)@.len() as int),
            forall|g: Seq<Seq<Option<PieceState>>>|
                old(self)@.is_assembly(g) && #[trigger] old(self)@.extends(g) ==> found_in(
                    g,
                    final(solutions)@,
                    old(solutions)@.len() as int,
                ),
        decreases old(self).size() - y, old(self).size() - x,
    {
        proof {
            self.lemma_cells();
        }
        let ghost start = old(solutions)@.len() as int;
        let ghost v = self@;
        let count = self.pieces.len();
        let rotations = [
            Rotation::Degrees0,
            Rotation::Degrees90,
            Rotation::Degrees180,
            Rotation::Degrees270,
        ];
        proof {
            reveal(covers);
            reveal(recorded_before);
            assert(solutions@.subrange(0, start) =~= old(solutions)@);
        }
        let mut k: usize = 0;
        while k < count
            invariant
                self@ == v,
                v == old(self)@,
                v.wf(),
                v.first_free(y as int, x as int),
                count == v.pieces.len(),
                start == old(solutions)@.len(),
                rotations@ == seq![
                    Rotation::Degrees0,
                    Rotation::Degrees90,
                    Rotation::Degrees180,
                    Rotation::Degrees270,
                ],
                solutions@.len() >= start,
                solutions@.subrange(0, start) == old(solutions)@,
                all_assemblies(v, solutions@, start),
                covers(v, solutions@, start, y as int, x as int, k as int, 0),
                recorded_before(v, solutions@, start, y as int, x as int, k as int, 0),
                distinct_from(solutions@, start),
            decreases count - k,
        {
            proof {
                self.lemma_cells();
            }
            if !self.placed[k] {
                let piece = self.pieces[k];
                let mut r: usize = 0;
                while r < 4
                    invariant
                        self@ == v,
                        v == old(self)@,
                        v.wf(),
                        v.first_free(y as int, x as int),
                        count == v.pieces.len(),
                        start == old(solutions)@.len(),
                        rotations@ == seq![
                            Rotation::Degrees0,
                            Rotation::Degrees90,
                            Rotation::Degrees180,
                            Rotation::Degrees270,
                        ],
                        k < count,
                        r <= 4,
                        !v.placed[k as int],
                        piece == v.pieces[k as int],
                        solutions@.len() >= start,
                        solutions@.subrange(0, start) == old(solutions)@,
                        all_assemblies(v, solutions@, start),
                        covers(v, solutions@, start, y as int, x as int, k as int, r as int),
                        recorded_before(v, solutions@, start, y as int, x as int, k as int, r as int),
                        distinct_from(solutions@, start),
                    decreases 4 - r,
                {
                    let rotation = rotations[r];
                    let rotated_sides = rotate_sides(&piece.piece.sides, rotation);
                    let rotated_piece = PieceState {
                        piece: Piece { id: piece.piece.id, sides: rotated_sides },
                        rotation,
                    };
                    let ghost sols_before = solutions@;
                    proof {
                        assert(quarter_turns(rotation) == r);
                        lemma_candidate(v, y as int, x as int, k as int, rotated_piece);
                    }
                    if self.can_place_piece_at(x, y, &rotated_piece) {
                        self.set_cell(x, y, Some(rotated_piece));
                        self.placed.set(k, true);
                        proof {
                            self.lemma_cells();
                            lemma_place(v, self@, y as int, x as int, rotated_piece);
                        }
                        let ghost w = self@;
                        let ghost before_len = solutions@.len();
                        match self.find_next_free_space() {
                            None => {
                                let g = self.grid();
                                proof {
                                    lemma_full_is_assembly(self@);
                                }
                                solutions.push(g);
                                proof {
                                    assert(solutions@.subrange(0, before_len as int) =~= sols_before);
                                    assert(w.extends(grid_view(solutions@[before_len as int])));
                                    assert forall|h: Seq<Seq<Option<PieceState>>>|
                                        w.is_assembly(h) && #[trigger] w.extends(h) implies found_in(
                                        h,
                                        solutions@,
                                        before_len as int,
                                    ) by {
                                        lemma_full_extends(w, h);
                                        assert(grid_view(solutions@[before_len as int]) == h);
                                    }
                                }
                            },
                            Some((x2, y2)) => {
                                self.solve_at(x2, y2, solutions);
                            },
                        }
                        proof {
                            lemma_after_candidate(
                                v,
                                w,
                                sols_before,
                                solutions@,
                                start,
                                y as int,
                                x as int,
                                k as int,
                                r as int,
                                rotated_piece,
                            );
                            lemma_recorded_after_candidate(
                                v,
                                w,
                                sols_before,
                                solutions@,
                                start,
                                y as int,
                                x as int,
                                k as int,
                                r as int,
                                rotated_piece,
                            );
                        }
                        self.set_cell(x, y, None);
                        self.placed.set(k, false);
                        proof {
                            self.lemma_cells();
                            assert(self@.cells =~~= v.cells);
                            assert(self@.placed =~= v.placed);
                        }
                    } else {
                        proof {
                            lemma_candidate_rejected(
                                v,
                                solutions@,
                                start,
                                y as int,
                                x as int,
                                k as int,
                                r as int,
                                rotated_piece,
                            );
                        }
                    }
                    r = r + 1;
                }
                proof {
                    lemma_all_rotations_tried(v, solutions@, start, y as int, x as int, k as int);
                }
            } else {
                proof {
                    lemma_placed_piece_skipped(v, solutions@, start, y as int, x as int, k as int);
                }
            }
            k = k + 1;
        }
        proof {
            lemma_all_pieces_tried(v, solutions@, start, y as int, x as int);
        }
    }

    /// Collects into `solutions` every assembly of the puzzle that keeps
    /// the pieces already in the grid where they are (a grid that is already
    /// full is itself the one such assembly), each once, and leaves the grid
    /// and the pool as they were.
    pub fn try_solve(&mut self, solutions: &mut Solutions)
        requires
            old(self).wf(),
        ensures
            final(self)@ == old(self)@,
            final(solutions)@.len() >= old(solutions)@.len(),
            final(solutions)@.subrange(0, old(solutions)@.len() as int) == old(solutions)@,
            forall|i: int|
                old(solutions)@.len() <= i < final(solutions)@.len() ==> old(self)@.is_assembly(
                    grid_view(#[trigger] final(solutions)@[i]),
                ),
            all_extend(old(self)@, final(solutions)@, old(solutions)@.len() as int),
            distinct_from(final(solutions)@, old(solutions)@.len() as int),
            forall|g: Seq<Seq<Option<PieceState>>>|
                old(self)@.is_assembly(g) && #[trigger] old(self)@.extends(g) ==> found_in(
                    g,
                    final(solutions)@,
                    old(solutions)@.len() as int,
                ),
            old(self)@.assemblies().finite(),
            final(solutions)@.len() - old(solutions)@.len() == old(self)@.assemblies().len(),
    {
        if let Some((x, y)) = self.find_next_free_space() {
            self.solve_at(x, y, solutions);
        } else {
            // no empty cell: the grid itself is complete
            let g = self.grid();
            proof {
                lemma_full_is_assembly(self@);
            }
            solutions.push(g);
            proof {
                let start = old(solutions)@.len() as int;
                assert(solutions@.subrange(0, start) =~= old(solutions)@);
                assert(grid_view(solutions@[start]) == self@.cells);
                assert(self@.extends(self@.cells));
                assert forall|h: Seq<Seq<Option<PieceState>>>|
                    self@.is_assembly(h) && #[trigger] self@.extends(h) implies found_in(
                    h,
                    solutions@,
                    start,
                ) by {
                    lemma_full_extends(self@, h);
                }
            }
        }
        proof {
            lemma_count_assemblies(old(self)@, solutions@, old(solutions)@.len() as int);
        }
    }
}

} // verus!
