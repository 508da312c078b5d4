//! Properties of generation that hold whatever values are drawn.

use crate::jigsaw::{generated_edge, valid_picks};
use crate::pieces::{BOTTOM, LEFT, RIGHT, TOP};
use vstd::arithmetic::div_mod::{lemma_fundamental_div_mod, lemma_fundamental_div_mod_converse};
use vstd::prelude::*;

verus! {

/// Whatever values are drawn, the generated pieces laid out unturned in id
/// order fit together: every edge on the border is flat, every edge shared
/// by two neighbours cancels out, and every edge value lies in
/// `-side_types..=side_types`.
pub proof fn lemma_generated_pieces_interlock(
    n: nat,
    side_types: u8,
    rights: Seq<i8>,
    bottoms: Seq<i8>,
)
    requires
        n >= 1,
        valid_picks(n, side_types, rights, bottoms),
    ensures
        forall|k: int, i: int|
            0 <= k < n * n && 0 <= i < 4 ==> -(side_types as int) <= #[trigger] generated_edge(
                n,
                rights,
                bottoms,
                k,
                i,
            ) <= side_types,
        forall|k: int|
            0 <= k < n * n ==> {
                &&& (k / (n as int) == 0 ==> #[trigger] generated_edge(n, rights, bottoms, k, TOP as int) == 0)
                &&& (k % (n as int) == n - 1 ==> generated_edge(n, rights, bottoms, k, RIGHT as int) == 0)
                &&& (k / (n as int) == n - 1 ==> generated_edge(n, rights, bottoms, k, BOTTOM as int) == 0)
                &&& (k % (n as int) == 0 ==> generated_edge(n, rights, bottoms, k, LEFT as int) == 0)
            },
        forall|k: int|
            0 <= k < n * n && k % (n as int) != n - 1 ==> #[trigger] generated_edge(
                n,
                rights,
                bottoms,
                k,
                RIGHT as int,
            ) + generated_edge(n, rights, bottoms, k + 1, LEFT as int) == 0,
        forall|k: int|
            0 <= k && k + n < n * n ==> #[trigger] generated_edge(
                n,
                rights,
                bottoms,
                k,
                BOTTOM as int,
            ) + generated_edge(n, rights, bottoms, k + n, TOP as int) == 0,
{
    let ni = n as int;
    assert forall|k: int, i: int| 0 <= k < n * n && 0 <= i < 4 implies -(side_types as int)
        <= #[trigger] generated_edge(n, rights, bottoms, k, i) <= side_types by {
        lemma_fundamental_div_mod(k, ni);
        let x = k % ni;
        let y = k / ni;
        assert(0 <= x < ni);
        if y >= 1 {
            assert(k - ni >= 0) by (nonlinear_arith)
                requires k == ni * y + x, 0 <= x, y >= 1, ni >= 1;
        }
        assert(x >= 1 ==> k - 1 >= 0);
    }
    assert forall|k: int| 0 <= k < n * n && k % ni != n - 1 implies #[trigger] generated_edge(
        n,
        rights,
        bottoms,
        k,
        RIGHT as int,
    ) + generated_edge(n, rights, bottoms, k + 1, LEFT as int) == 0 by {
        lemma_fundamental_div_mod(k, ni);
        let x = k % ni;
        let y = k / ni;
        assert(k + 1 == y * ni + (x + 1)) by (nonlinear_arith)
            requires k == ni * y + x;
        lemma_fundamental_div_mod_converse(k + 1, ni, y, x + 1);
    }
    assert forall|k: int| 0 <= k && k + n < n * n implies #[trigger] generated_edge(
        n,
        rights,
        bottoms,
        k,
        BOTTOM as int,
    ) + generated_edge(n, rights, bottoms, k + n, TOP as int) == 0 by {
        lemma_fundamental_div_mod(k, ni);
        let x = k % ni;
        let y = k / ni;
        assert(k + ni == (y + 1) * ni + x) by (nonlinear_arith)
            requires k == ni * y + x;
        lemma_fundamental_div_mod_converse(k + ni, ni, y + 1, x);
        assert(y + 1 < ni) by (nonlinear_arith)
            requires k + ni == (y + 1) * ni + x, k + ni < ni * ni, 0 <= x, ni >= 1;
    }
}

} // verus!
