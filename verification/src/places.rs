//! Where in a function an instruction stands.

use crate::ir::{BodyView, DataInst, NodeKindView};
use vstd::prelude::*;

verus! {

/// Instruction `d` is the `j`-th of the block that is the `n`-th node on the walk through
/// the function.
pub open spec fn stands_at(body: BodyView, n: int, j: int, d: DataInst) -> bool {
    &&& 0 <= n < body.node_order.len()
    &&& body.nodes[body.node_order[n].0 as int].kind matches NodeKindView::Block { insts }
    &&& 0 <= j < insts.len()
    &&& insts[j] == d
}

/// A walk reaches an instruction where it stands, and nowhere else. It has come past what
/// stands in an earlier node, or earlier in the same block.
pub proof fn law_walk(body: BodyView)
    ensures
        forall|n: int, j: int, d: DataInst| #[trigger]
            body.visits_at(n, j, d) <==> stands_at(body, n, j, d),
        forall|n: int, j: int, d: DataInst| #[trigger] stands_at(body, n, j, d) ==> body.visits(d),
        forall|d: DataInst| #[trigger]
            body.visits(d) ==> exists|n: int, j: int| stands_at(body, n, j, d),
        forall|n: int, j: int, n2: int, j2: int, d: DataInst|
            #![trigger stands_at(body, n2, j2, d), body.visits_before(n, j, d)]
            stands_at(body, n2, j2, d) && (n2 < n || n2 == n && j2 < j) ==> body.visits_before(
                n,
                j,
                d,
            ),
        forall|n: int, j: int, d: DataInst| #[trigger]
            body.visits_before(n, j, d) ==> exists|n2: int, j2: int|
                stands_at(body, n2, j2, d) && (n2 < n || n2 == n && j2 < j),
{
    assert forall|n: int, j: int, d: DataInst| #[trigger]
        stands_at(body, n, j, d) implies body.visits(d) by {
        assert(body.visits_at(n, j, d));
    }
    assert forall|d: DataInst| #[trigger] body.visits(d) implies exists|n: int, j: int|
        stands_at(body, n, j, d) by {
        let (n, j) = choose|n: int, j: int| body.visits_at(n, j, d);
        assert(stands_at(body, n, j, d));
    }
    assert forall|n: int, j: int, n2: int, j2: int, d: DataInst|
        #![trigger stands_at(body, n2, j2, d), body.visits_before(n, j, d)]
        stands_at(body, n2, j2, d) && (n2 < n || n2 == n && j2 < j) implies body.visits_before(
        n,
        j,
        d,
    ) by {
        assert(body.visits_at(n2, j2, d));
    }
    assert forall|n: int, j: int, d: DataInst| #[trigger] body.visits_before(n, j, d) implies exists|
        n2: int,
        j2: int,
    |
        stands_at(body, n2, j2, d) && (n2 < n || n2 == n && j2 < j) by {
        let (n2, j2) = choose|n2: int, j2: int| #[trigger]
            body.visits_at(n2, j2, d) && (n2 < n || (n2 == n && j2 < j));
        assert(stands_at(body, n2, j2, d));
    }
}

} // verus!
