//! Grids of placed pieces and what makes a grid a finished assembly.

use crate::pieces::{PieceState, BOTTOM, LEFT, RIGHT, TOP};
use vstd::arithmetic::div_mod::lemma_fundamental_div_mod;
use vstd::prelude::*;
use vstd::set_lib::{lemma_int_range, lemma_subset_equality, set_int_range};

verus! {

/// The value of edge `i` of an occupied cell (0 for an empty one).
pub open spec fn edge(c: Option<PieceState>, i: int) -> int {
    match c {
        Some(p) => p.piece.sides@[i].0 as int,
        None => 0,
    }
}

/// The piece id of an occupied cell.
pub open spec fn id_of(c: Option<PieceState>) -> int {
    match c {
        Some(p) => p.piece.id as int,
        None => -1,
    }
}

/// The rows of a grid, each as a sequence of cells.
pub open spec fn grid_view(g: Vec<Vec<Option<PieceState>>>) -> Seq<Seq<Option<PieceState>>> {
    g@.map_values(|row: Vec<Option<PieceState>>| row@)
}

/// `n` rows of `n` cells each.
pub open spec fn is_square(g: Seq<Seq<Option<PieceState>>>, n: nat) -> bool {
    &&& g.len() == n
    &&& forall|y: int| 0 <= y < n ==> #[trigger] g[y].len() == n
}

/// Every cell of the square grid holds a piece.
pub open spec fn is_full(g: Seq<Seq<Option<PieceState>>>, n: nat) -> bool {
    &&& is_square(g, n)
    &&& forall|y: int, x: int| 0 <= y < n && 0 <= x < n ==> (#[trigger] g[y][x]) is Some
}

/// Each edge that faces the outside of the grid is flat.
pub open spec fn border_flat(g: Seq<Seq<Option<PieceState>>>, n: nat) -> bool {
    forall|y: int, x: int|
        0 <= y < n && 0 <= x < n ==> {
            &&& (y == 0 ==> edge(#[trigger] g[y][x], TOP as int) == 0)
            &&& (x == n - 1 ==> edge(g[y][x], RIGHT as int) == 0)
            &&& (y == n - 1 ==> edge(g[y][x], BOTTOM as int) == 0)
            &&& (x == 0 ==> edge(g[y][x], LEFT as int) == 0)
        }
}

/// Each pair of neighbouring cells meets with edges that cancel out.
pub open spec fn interlocked(g: Seq<Seq<Option<PieceState>>>, n: nat) -> bool {
    &&& forall|y: int, x: int|
        0 <= y < n && 0 <= x && x + 1 < n ==> edge(#[trigger] g[y][x], RIGHT as int) + edge(
            g[y][x + 1],
            LEFT as int,
        ) == 0
    &&& forall|y: int, x: int|
        0 <= y && y + 1 < n && 0 <= x < n ==> edge(#[trigger] g[y][x], BOTTOM as int) + edge(
            g[y + 1][x],
            TOP as int,
        ) == 0
}

/// No piece id occurs twice among the cells, and each lies in `0..n*n`.
pub open spec fn ids_distinct(g: Seq<Seq<Option<PieceState>>>, n: nat) -> bool {
    &&& forall|y: int, x: int|
        0 <= y < n && 0 <= x < n ==> 0 <= id_of(#[trigger] g[y][x]) < n * n
    &&& forall|y1: int, x1: int, y2: int, x2: int|
        0 <= y1 < n && 0 <= x1 < n && 0 <= y2 < n && 0 <= x2 < n && (y1 != y2 || x1 != x2)
            ==> id_of(#[trigger] g[y1][x1]) != id_of(#[trigger] g[y2][x2])
}

/// Some cell of the `n` by `n` grid holds the piece with id `id`.
pub open spec fn id_occurs(g: Seq<Seq<Option<PieceState>>>, n: nat, id: int) -> bool {
    exists|y: int, x: int| 0 <= y < n && 0 <= x < n && #[trigger] id_of(g[y][x]) == id
}

/// Every id in `0..n*n` occurs in some cell.
pub open spec fn ids_cover(g: Seq<Seq<Option<PieceState>>>, n: nat) -> bool {
    forall|id: int| 0 <= id < n * n ==> #[trigger] id_occurs(g, n, id)
}

/// `n * n` distinct ids taken from `0..n*n` take each of them.
pub(crate) proof fn lemma_ids_cover(g: Seq<Seq<Option<PieceState>>>, n: nat)
    requires
        n >= 1,
        is_full(g, n),
        ids_distinct(g, n),
    ensures
        ids_cover(g, n),
{
    let ni = n as int;
    let f = Seq::new(n * n, |k: int| id_of(g[k / ni][k % ni]));
    assert forall|k: int| 0 <= k < n * n implies 0 <= #[trigger] (k / ni) < ni && 0 <= k % ni < ni by {
        lemma_fundamental_div_mod(k, ni);
        assert(k / ni < ni) by (nonlinear_arith)
            requires k == ni * (k / ni) + k % ni, 0 <= k % ni, k < ni * ni, ni >= 1;
        assert(k / ni >= 0) by (nonlinear_arith)
            requires k == ni * (k / ni) + k % ni, k % ni < ni, k >= 0, ni >= 1;
    }
    assert(f.no_duplicates()) by {
        assert forall|a: int, b: int| 0 <= a < f.len() && 0 <= b < f.len() && a != b implies f[a] != f[b] by {
            assert(0 <= a / ni < ni && 0 <= a % ni < ni);
            assert(0 <= b / ni < ni && 0 <= b % ni < ni);
            lemma_fundamental_div_mod(a, ni);
            lemma_fundamental_div_mod(b, ni);
            assert(id_of(g[a / ni][a % ni]) != id_of(g[b / ni][b % ni]));
        }
    }
    f.unique_seq_to_set();
    lemma_int_range(0, ni * ni);
    let range = set_int_range(0, ni * ni);
    assert(f.to_set().subset_of(range)) by {
        assert forall|v: int| f.to_set().contains(v) implies range.contains(v) by {
            let k = choose|k: int| 0 <= k < f.len() && f[k] == v;
            assert(0 <= k / ni < ni && 0 <= k % ni < ni);
            assert(0 <= id_of(g[k / ni][k % ni]) < n * n);
        }
    }
    lemma_subset_equality(f.to_set(), range);
    assert forall|id: int| 0 <= id < n * n implies #[trigger] id_occurs(g, n, id) by {
        assert(range.contains(id));
        assert(f.to_set().contains(id));
        let k = choose|k: int| 0 <= k < f.len() && f[k] == id;
        assert(0 <= k / ni < ni && 0 <= k % ni < ni);
        assert(id_of(g[k / ni][k % ni]) == id);
    }
}

/// A finished assembly of an `n` by `n` puzzle.
pub open spec fn is_solution(g: Seq<Seq<Option<PieceState>>>, n: nat) -> bool {
    &&& is_full(g, n)
    &&& border_flat(g, n)
    &&& interlocked(g, n)
    &&& ids_distinct(g, n)
    &&& ids_cover(g, n)
}

/// Whether `p` may go to cell (x, y) of the `n` by `n` grid `g`: flat
/// towards each border, and interlocking with the left and top neighbours
/// where those are occupied.
pub open spec fn fits_at(
    g: Seq<Seq<Option<PieceState>>>,
    n: nat,
    y: int,
    x: int,
    p: PieceState,
) -> bool {
    let c = Some(p);
    &&& (x == 0 ==> edge(c, LEFT as int) == 0)
    &&& (x > 0 && g[y][x - 1] is Some ==> edge(c, LEFT as int) + edge(g[y][x - 1], RIGHT as int)
        == 0)
    &&& (x == n - 1 ==> edge(c, RIGHT as int) == 0)
    &&& (y == 0 ==> edge(c, TOP as int) == 0)
    &&& (y > 0 && g[y - 1][x] is Some ==> edge(c, TOP as int) + edge(g[y - 1][x], BOTTOM as int)
        == 0)
    &&& (y == n - 1 ==> edge(c, BOTTOM as int) == 0)
}

/// Cell (y1, x1) comes before cell (y2, x2) in row-major order.
pub open spec fn before(y1: int, x1: int, y2: int, x2: int) -> bool {
    y1 < y2 || (y1 == y2 && x1 < x2)
}

} // verus!
