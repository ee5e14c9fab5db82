//! What becomes of physical null pointers that no instruction takes: those that regions
//! hand on, and those that control nodes other than blocks take.
//!
//! Each of them is converted from a `u64` zero in a new block, which comes before every
//! use of them: right behind the entry of the function where that is a block, and else in
//! front of everything. (The variables of a function have to stay first in its entry.)

use crate::ir::{
    lemma_values_wf_add, values_wf, BodyView, ControlNode, DataInst, DataInstView, NodeKindView,
    NodeView, RegionView, Type, Value,
};
use crate::lowering::{new_insts, Env};
use crate::types::type_of;
use vstd::prelude::*;

verus! {

impl BodyView {
    /// The values that the first `r` regions hand on, in order.
    pub open spec fn uses_before_region(self, r: nat) -> Seq<Value>
        decreases r,
    {
        if r == 0 {
            Seq::empty()
        } else {
            self.uses_before_region((r - 1) as nat) + self.regions[r - 1].values()
        }
    }

    /// The values that the regions hand on, and then those that the first `c` nodes
    /// take, in order.
    pub open spec fn uses_before_node(self, c: nat) -> Seq<Value>
        decreases c,
    {
        if c == 0 {
            self.uses_before_region(self.regions.len())
        } else {
            self.uses_before_node((c - 1) as nat) + self.nodes[c - 1].values()
        }
    }

    /// The values that the regions hand on and the nodes take, in order.
    pub open spec fn uses(self) -> Seq<Value> {
        self.uses_before_node(self.nodes.len())
    }
}

impl Env {
    /// The output of instruction `first` in place of a physical null pointer.
    pub open spec fn lowered_value(self, v: Value, first: int) -> Value {
        if self.null_type(v) is Some {
            Value::DataInstOutput(DataInst(first as usize))
        } else {
            v
        }
    }

    /// A region that hands on the outputs of instructions `first`, `first + 1` and so on
    /// in place of physical null pointers.
    pub open spec fn region_without_nulls(self, region: RegionView, first: int) -> RegionView {
        RegionView {
            inputs: region.inputs,
            outputs: self.without_nulls(region.outputs, first),
            exit_inputs: self.without_nulls(
                region.exit_inputs,
                first + self.null_types(region.outputs).len(),
            ),
        }
    }

    /// A node that takes the outputs of instructions `first`, `first + 1` and so on in
    /// place of physical null pointers.
    pub open spec fn node_without_nulls(self, node: NodeView, first: int) -> NodeView {
        let kind = match node.kind {
            NodeKindView::Block { insts } => NodeKindView::Block { insts },
            NodeKindView::Select { scrutinee } => NodeKindView::Select {
                scrutinee: self.lowered_value(scrutinee, first),
            },
            NodeKindView::Loop { initial_inputs, repeat_condition } => NodeKindView::Loop {
                initial_inputs: self.without_nulls(initial_inputs, first),
                repeat_condition: self.lowered_value(
                    repeat_condition,
                    first + self.null_types(initial_inputs).len(),
                ),
            },
            NodeKindView::ExitInvocation { inputs } => NodeKindView::ExitInvocation {
                inputs: self.without_nulls(inputs, first),
            },
        };
        NodeView { kind, outputs: node.outputs }
    }

    /// The regions of a body without physical null pointers.
    pub open spec fn regions_without_nulls(self, body: BodyView) -> Seq<RegionView> {
        Seq::new(
            body.regions.len(),
            |r: int|
                self.region_without_nulls(
                    body.regions[r],
                    (body.insts.len() + self.null_types(
                        body.uses_before_region(r as nat),
                    ).len()) as int,
                ),
        )
    }

    /// The nodes of a body without physical null pointers.
    pub open spec fn nodes_without_nulls(self, body: BodyView) -> Seq<NodeView> {
        Seq::new(
            body.nodes.len(),
            |c: int|
                self.node_without_nulls(
                    body.nodes[c],
                    (body.insts.len() + self.null_types(
                        body.uses_before_node(c as nat),
                    ).len()) as int,
                ),
        )
    }

    /// A body whose regions hand on, and whose nodes take, converted zeros in place of
    /// physical null pointers. Where there are any, they are converted in a new block, which
    /// is the entry or comes right behind it.
    pub open spec fn without_null_uses(self, body: BodyView) -> BodyView {
        let insts = body.insts + self.null_insts(body.uses());
        let regions = self.regions_without_nulls(body);
        let nodes = self.nodes_without_nulls(body);
        if self.null_types(body.uses()).len() > 0 {
            BodyView {
                regions,
                nodes: nodes.push(start_block(body.insts.len() as int, insts.len() as int)),
                insts,
                node_order: body.node_order.insert(
                    body.start_place(),
                    ControlNode(body.nodes.len() as usize),
                ),
                entry: if body.start_place() == 0 {
                    Some(ControlNode(body.nodes.len() as usize))
                } else {
                    body.entry
                },
            }
        } else {
            BodyView { regions, nodes, insts, node_order: body.node_order, entry: body.entry }
        }
    }
}

impl BodyView {
    /// Where in the walk a block stands that comes before all other nodes but an entry that
    /// is a block.
    pub open spec fn start_place(self) -> int {
        match self.entry {
            Some(c) => if self.nodes[c.0 as int].kind is Block {
                1
            } else {
                0
            },
            None => 0,
        }
    }
}

/// A block of the instructions from `from` to before `to`.
pub open spec fn start_block(from: int, to: int) -> NodeView {
    NodeView {
        kind: NodeKindView::Block { insts: new_insts(from, to) },
        outputs: Seq::empty(),
    }
}

impl Env {
    /// The null pointers among values that stand one after the other.
    pub proof fn lemma_null_types_add(self, a: Seq<Value>, b: Seq<Value>)
        ensures
            self.null_types(a + b) == self.null_types(a) + self.null_types(b),
            self.null_insts(a + b) == self.null_insts(a) + self.null_insts(b),
        decreases b.len(),
    {
        if b.len() == 0 {
            assert(a + b =~= a);
            assert(self.null_types(a) + self.null_types(b) =~= self.null_types(a));
        } else {
            assert((a + b).drop_last() =~= a + b.drop_last());
            self.lemma_null_types_add(a, b.drop_last());
            assert(self.null_types(a + b) =~= self.null_types(a) + self.null_types(b));
        }
        assert(self.null_insts(a + b) =~= self.null_insts(a) + self.null_insts(b));
    }

    /// The null pointers of one value.
    pub proof fn lemma_null_types_one(self, v: Value)
        ensures
            self.null_types(seq![v]) == (match self.null_type(v) {
                Some(ty) => seq![ty],
                None => Seq::<Type>::empty(),
            }),
    {
        reveal_with_fuel(Env::null_types, 2);
        assert(seq![v].drop_last() =~= Seq::<Value>::empty());
        assert(self.null_types(seq![v]) =~= (match self.null_type(v) {
            Some(ty) => seq![ty],
            None => Seq::<Type>::empty(),
        }));
    }
}

impl Env {
    /// Where in the walk the `n`-th node of a body stands without null uses.
    pub open spec fn place_without_null_uses(self, body: BodyView, n: int) -> int {
        if self.null_types(body.uses()).len() > 0 && n >= body.start_place() {
            n + 1
        } else {
            n
        }
    }

    /// What is kept of a body.
    pub proof fn lemma_without_null_uses(self, body: BodyView)
        requires
            body.walk_wf(),
            self.without_null_uses(body).nodes.len() <= usize::MAX,
        ensures
            ({
                let after = self.without_null_uses(body);
                let s: int = if self.null_types(body.uses()).len() > 0 {
                    1
                } else {
                    0
                };
                &&& after.insts.len() == body.insts.len() + self.null_types(body.uses()).len()
                &&& forall|x: int|
                    0 <= x < body.insts.len() ==> #[trigger] after.insts[x] == body.insts[x]
                &&& after.regions.len() == body.regions.len()
                &&& forall|r: int|
                    0 <= r < body.regions.len() ==> (#[trigger] after.regions[r]).inputs
                        == body.regions[r].inputs
                &&& after.nodes.len() == body.nodes.len() + s
                &&& forall|c: int|
                    0 <= c < body.nodes.len() ==> (#[trigger] after.nodes[c]).outputs
                        == body.nodes[c].outputs && after.nodes[c].insts()
                        == body.nodes[c].insts()
                &&& after.node_order.len() == body.node_order.len() + s
                &&& forall|n: int|
                    0 <= n < body.node_order.len()
                        ==> after.node_order[self.place_without_null_uses(body, n)]
                        == #[trigger] body.node_order[n]
                &&& s == 1 ==> after.node_order[body.start_place()].0 == body.nodes.len()
                    && after.nodes[body.nodes.len() as int] == start_block(
                    body.insts.len() as int,
                    after.insts.len() as int,
                )
            }),
    {
        let after = self.without_null_uses(body);
        assert forall|c: int| 0 <= c < body.nodes.len() implies (
        #[trigger] after.nodes[c]).outputs == body.nodes[c].outputs && after.nodes[c].insts()
            == body.nodes[c].insts() by {
            assert(after.nodes[c] == self.nodes_without_nulls(body)[c]);
        }
    }

    /// A walk comes to what it came to before.
    pub proof fn lemma_visits_kept(self, body: BodyView, n: int, p: int, d: DataInst)
        requires
            body.walk_wf(),
            self.without_null_uses(body).nodes.len() <= usize::MAX,
            n >= 0,
        ensures
            self.without_null_uses(body).visits_at(self.place_without_null_uses(body, n), p, d)
                <==> body.visits_at(n, p, d),
    {
        let after = self.without_null_uses(body);
        self.lemma_without_null_uses(body);
        if n < body.node_order.len() {
            let k = self.place_without_null_uses(body, n);
            assert(after.node_order[k] == body.node_order[n]);
            assert(after.block(k) == body.block(n));
        }
    }

    /// A walk comes to the new instructions.
    pub proof fn lemma_visits_new(self, body: BodyView, p: int)
        requires
            body.walk_wf(),
            self.without_null_uses(body).nodes.len() <= usize::MAX,
            0 <= p < self.null_types(body.uses()).len(),
        ensures
            self.without_null_uses(body).visits_at(
                body.start_place(),
                p,
                DataInst((body.insts.len() + p) as usize),
            ),
    {
        let after = self.without_null_uses(body);
        self.lemma_without_null_uses(body);
        assert(after.block(body.start_place()) == new_insts(
            body.insts.len() as int,
            after.insts.len() as int,
        ));
    }

    /// A walk comes to nothing else. The place of a node before it was moved.
    pub proof fn lemma_visits_old_or_new(self, body: BodyView, k: int, p: int, d: DataInst) -> (n:
        int)
        requires
            body.walk_wf(),
            self.without_null_uses(body).nodes.len() <= usize::MAX,
            self.without_null_uses(body).visits_at(k, p, d),
        ensures
            if self.null_types(body.uses()).len() > 0 && k == body.start_place() {
                &&& d == DataInst((body.insts.len() + p) as usize)
                &&& 0 <= p < self.null_types(body.uses()).len()
            } else {
                &&& n >= 0
                &&& k == self.place_without_null_uses(body, n)
                &&& body.visits_at(n, p, d)
            },
    {
        let after = self.without_null_uses(body);
        let place = body.start_place();
        self.lemma_without_null_uses(body);
        if self.null_types(body.uses()).len() > 0 && k == place {
            assert(after.block(place) == new_insts(
                body.insts.len() as int,
                after.insts.len() as int,
            ));
            k
        } else {
            let n = if self.null_types(body.uses()).len() > 0 && k > place {
                k - 1
            } else {
                k
            };
            self.lemma_visits_kept(body, n, p, d);
            n
        }
    }

    /// A walk comes to what it came to before, and to the new instructions.
    pub proof fn lemma_visited_without_null_uses(self, body: BodyView, d: DataInst)
        requires
            body.walk_wf(),
            self.without_null_uses(body).nodes.len() <= usize::MAX,
            self.without_null_uses(body).insts.len() <= usize::MAX,
        ensures
            self.without_null_uses(body).visits(d) <==> body.visits(d) || body.insts.len() <= d.0
                < self.without_null_uses(body).insts.len(),
            body.visits(d) ==> d.0 < body.insts.len(),
    {
        let after = self.without_null_uses(body);
        self.lemma_without_null_uses(body);
        if after.visits(d) {
            let (k, p) = choose|k: int, p: int| after.visits_at(k, p, d);
            let n = self.lemma_visits_old_or_new(body, k, p, d);
            assert(body.visits_at(n, p, d) ==> body.visits(d));
        }
        if body.visits(d) {
            body.lemma_visited_in_range(d);
            let (n, p) = choose|n: int, p: int| body.visits_at(n, p, d);
            assert(body.visits_at(n, p, d));
            self.lemma_visits_kept(body, n, p, d);
            assert(after.visits_at(self.place_without_null_uses(body, n), p, d));
        }
        if body.insts.len() <= d.0 < after.insts.len() {
            self.lemma_visits_new(body, d.0 - body.insts.len());
            assert(after.visits_at(body.start_place(), d.0 - body.insts.len(), d));
        }
    }

    /// A value keeps its type.
    pub proof fn lemma_type_without_null_uses(self, body: BodyView, v: Value)
        requires
            body.walk_wf(),
            self.without_null_uses(body).nodes.len() <= usize::MAX,
            type_of(self.consts, body, v) is Some,
        ensures
            type_of(self.consts, self.without_null_uses(body), v) == type_of(
                self.consts,
                body,
                v,
            ),
    {
        self.lemma_without_null_uses(body);
        let after = self.without_null_uses(body);
        match v {
            Value::ControlRegionInput { region, .. } => {
                assert(after.regions[region.0 as int].inputs
                    == body.regions[region.0 as int].inputs);
            },
            Value::ControlNodeOutput { control_node, .. } => {
                assert(after.nodes[control_node.0 as int].outputs
                    == body.nodes[control_node.0 as int].outputs);
            },
            Value::DataInstOutput(d) => {
                assert(after.insts[d.0 as int] == body.insts[d.0 as int]);
            },
            _ => {},
        }
    }

    /// Values without null pointers are in order, and have none.
    pub proof fn lemma_without_nulls(self, values: Seq<Value>, first: int)
        ensures
            forall|i: int|
                0 <= i < values.len() ==> self.null_type(
                    #[trigger] self.without_nulls(values, first)[i],
                ) is None,
            forall|n: int| #[trigger]
                values_wf(values, n) ==> values_wf(self.without_nulls(values, first), n),
    {
        assert forall|n: int| #[trigger] values_wf(values, n) implies values_wf(
            self.without_nulls(values, first),
            n,
        ) by {
            assert forall|i: int| 0 <= i < values.len() implies (#[trigger] self.without_nulls(
                values,
                first,
            )[i] matches Value::Const(c) ==> c.0 < n) by {
                assert(values[i] matches Value::Const(c) ==> c.0 < n);
            }
        }
    }

    /// A region without null pointers.
    pub proof fn lemma_region_without_nulls(self, region: RegionView, first: int)
        ensures
            forall|i: int|
                0 <= i < region.values().len() ==> self.null_type(
                    #[trigger] self.region_without_nulls(region, first).values()[i],
                ) is None,
            self.region_without_nulls(region, first).values().len() == region.values().len(),
            forall|n: int| #[trigger]
                values_wf(region.values(), n) ==> values_wf(
                    self.region_without_nulls(region, first).values(),
                    n,
                ),
    {
        self.lemma_region_values(region, first);
        self.lemma_without_nulls(region.values(), first);
    }

    /// A node without null pointers.
    pub proof fn lemma_node_without_nulls(self, node: NodeView, first: int)
        ensures
            forall|i: int|
                0 <= i < node.values().len() ==> self.null_type(
                    #[trigger] self.node_without_nulls(node, first).values()[i],
                ) is None,
            self.node_without_nulls(node, first).values().len() == node.values().len(),
            forall|n: int| #[trigger]
                values_wf(node.values(), n) ==> values_wf(
                    self.node_without_nulls(node, first).values(),
                    n,
                ),
    {
        self.lemma_node_values(node, first);
        self.lemma_without_nulls(node.values(), first);
    }

    /// A body without null pointers is in order.
    pub proof fn lemma_without_null_uses_wf(self, body: BodyView, n_funcs: int)
        requires
            self.wf(),
            body.wf(self.types.len() as int, self.consts.len() as int, n_funcs),
            self.without_null_uses(body).nodes.len() <= usize::MAX,
            self.without_null_uses(body).insts.len() <= usize::MAX,
        ensures
            self.without_null_uses(body).wf(
                self.types.len() as int,
                self.consts.len() as int,
                n_funcs,
            ),
            forall|x: int|
                body.insts.len() <= x < self.without_null_uses(body).insts.len()
                    ==> self.is_null_inst(#[trigger] self.without_null_uses(body).insts[x]),
    {
        let after = self.without_null_uses(body);
        let n_types = self.types.len() as int;
        let n_consts = self.consts.len() as int;
        let place = body.start_place();
        let added = self.null_types(body.uses()).len() > 0;
        self.lemma_without_null_uses(body);
        self.lemma_uses_wf(body, n_types, n_funcs);
        self.lemma_null_types_physical(body.uses());
        assert forall|x: int| body.insts.len() <= x < after.insts.len() implies self.is_null_inst(
            #[trigger] after.insts[x],
        ) by {
            let ty = self.null_types(body.uses())[x - body.insts.len()];
            assert(after.insts[x] == self.null_inst(ty));
        }
        assert forall|d: int| 0 <= d < after.insts.len() implies (#[trigger] after.insts[d]).wf(
            n_types,
            n_consts,
            n_funcs,
        ) by {
            if d < body.insts.len() {
                assert(after.insts[d] == body.insts[d]);
            } else {
                assert(self.is_null_inst(after.insts[d]));
            }
        }
        assert forall|r: int, i: int|
            0 <= r < after.regions.len() && 0 <= i
                < after.regions[r].inputs.len() implies #[trigger] after.regions[r].inputs[i].0
            < n_types by {
            assert(body.regions[r].inputs[i].0 < n_types);
        }
        assert forall|r: int| 0 <= r < after.regions.len() implies values_wf(
            (#[trigger] after.regions[r]).values(),
            n_consts,
        ) by {
            let first = body.insts.len() + self.null_types(
                body.uses_before_region(r as nat),
            ).len();
            self.lemma_region_without_nulls(body.regions[r], first as int);
            assert(values_wf(body.regions[r].values(), n_consts));
        }
        assert forall|n: int, i: int|
            0 <= n < after.nodes.len() && 0 <= i
                < after.nodes[n].outputs.len() implies #[trigger] after.nodes[n].outputs[i].0
            < n_types by {
            if n < body.nodes.len() {
                assert(body.nodes[n].outputs[i].0 < n_types);
            }
        }
        assert forall|n: int| 0 <= n < after.nodes.len() implies values_wf(
            (#[trigger] after.nodes[n]).values(),
            n_consts,
        ) by {
            if n < body.nodes.len() {
                let first = body.insts.len() + self.null_types(
                    body.uses_before_node(n as nat),
                ).len();
                self.lemma_node_without_nulls(body.nodes[n], first as int);
                assert(values_wf(body.nodes[n].values(), n_consts));
            }
        }
        assert forall|k: int| 0 <= k < after.node_order.len() implies #[trigger]
            after.node_order[k].0 < after.nodes.len() && (!(added && k == place) ==> ({
            let n = if added && k > place {
                k - 1
            } else {
                k
            };
            after.node_order[k] == body.node_order[n] && body.node_order[n].0 < body.nodes.len()
        })) by {
            if !(added && k == place) {
                let n = if added && k > place {
                    k - 1
                } else {
                    k
                };
                assert(self.place_without_null_uses(body, n) == k);
                assert(after.node_order[k] == body.node_order[n]);
            }
        }
        assert forall|i: int, j: int|
            0 <= i < after.node_order.len() && 0 <= j < after.node_order.len() && i
                != j implies after.node_order[i] != after.node_order[j] by {
            assert(after.node_order[i].0 < after.nodes.len());
            assert(after.node_order[j].0 < after.nodes.len());
        }
        assert forall|k: int, p: int, d: DataInst| #[trigger] after.visits_at(k, p, d) implies d.0
            < after.insts.len() by {
            let n = self.lemma_visits_old_or_new(body, k, p, d);
            assert(body.visits_at(n, p, d) ==> d.0 < body.insts.len());
        }
        assert forall|k: int, p: int, k2: int, p2: int, d: DataInst|
            #![trigger after.visits_at(k, p, d), after.visits_at(k2, p2, d)]
            after.visits_at(k, p, d) && after.visits_at(k2, p2, d) implies k == k2 && p == p2 by {
            let n = self.lemma_visits_old_or_new(body, k, p, d);
            let n2 = self.lemma_visits_old_or_new(body, k2, p2, d);
            assert(body.visits_at(n, p, d) ==> d.0 < body.insts.len());
            assert(body.visits_at(n2, p2, d) ==> d.0 < body.insts.len());
        }
    }

    /// The values that regions hand on and nodes take are in order.
    proof fn lemma_uses_wf(self, body: BodyView, n_types: int, n_funcs: int)
        requires
            body.handles_wf(n_types, self.consts.len() as int, n_funcs),
        ensures
            values_wf(body.uses(), self.consts.len() as int),
    {
        lemma_node_uses_wf(body, body.nodes.len(), n_types, self.consts.len() as int, n_funcs);
    }
}

proof fn lemma_region_uses_wf(
    body: BodyView,
    r: nat,
    n_types: int,
    n_consts: int,
    n_funcs: int,
)
    requires
        body.handles_wf(n_types, n_consts, n_funcs),
        r <= body.regions.len(),
    ensures
        values_wf(body.uses_before_region(r), n_consts),
    decreases r,
{
    if r > 0 {
        lemma_region_uses_wf(body, (r - 1) as nat, n_types, n_consts, n_funcs);
        assert(values_wf(body.regions[r - 1].values(), n_consts));
        lemma_values_wf_add(
            body.uses_before_region((r - 1) as nat),
            body.regions[r - 1].values(),
            n_consts,
        );
    }
}

proof fn lemma_node_uses_wf(body: BodyView, c: nat, n_types: int, n_consts: int, n_funcs: int)
    requires
        body.handles_wf(n_types, n_consts, n_funcs),
        c <= body.nodes.len(),
    ensures
        values_wf(body.uses_before_node(c), n_consts),
    decreases c,
{
    if c > 0 {
        lemma_node_uses_wf(body, (c - 1) as nat, n_types, n_consts, n_funcs);
        assert(values_wf(body.nodes[c - 1].values(), n_consts));
        lemma_values_wf_add(
            body.uses_before_node((c - 1) as nat),
            body.nodes[c - 1].values(),
            n_consts,
        );
    } else {
        lemma_region_uses_wf(body, body.regions.len(), n_types, n_consts, n_funcs);
    }
}

impl Env {
    /// Values that stand one after the other without null pointers.
    pub proof fn lemma_without_nulls_add(self, a: Seq<Value>, b: Seq<Value>, first: int)
        ensures
            self.without_nulls(a + b, first) == self.without_nulls(a, first) + self.without_nulls(
                b,
                first + self.null_types(a).len(),
            ),
    {
        let whole = self.without_nulls(a + b, first);
        let second = first + self.null_types(a).len();
        let parts = self.without_nulls(a, first) + self.without_nulls(b, second);
        assert forall|i: int| 0 <= i < whole.len() implies whole[i] == parts[i] by {
            if i < a.len() {
                assert((a + b)[i] == a[i]);
                assert((a + b).take(i) =~= a.take(i));
            } else {
                let k = i - a.len();
                assert((a + b)[i] == b[k]);
                assert((a + b).take(i) =~= a + b.take(k));
                self.lemma_null_types_add(a, b.take(k));
            }
        }
        assert(whole =~= parts);
    }

    /// What a region hands on without null pointers.
    pub proof fn lemma_region_values(self, region: RegionView, first: int)
        ensures
            self.region_without_nulls(region, first).values() == self.without_nulls(
                region.values(),
                first,
            ),
    {
        self.lemma_without_nulls_add(region.outputs, region.exit_inputs, first);
    }

    /// What a node takes without null pointers.
    pub proof fn lemma_node_values(self, node: NodeView, first: int)
        ensures
            self.node_without_nulls(node, first).values() == self.without_nulls(
                node.values(),
                first,
            ),
    {
        let after = self.node_without_nulls(node, first);
        match node.kind {
            NodeKindView::Block { .. } => {
                assert(after.values() =~= self.without_nulls(node.values(), first));
            },
            NodeKindView::Select { scrutinee } => {
                assert(node.values().take(0) =~= Seq::<Value>::empty());
                assert(after.values() =~= self.without_nulls(node.values(), first));
            },
            NodeKindView::Loop { initial_inputs, repeat_condition } => {
                let second = first + self.null_types(initial_inputs).len();
                assert(node.values() =~= initial_inputs + seq![repeat_condition]);
                self.lemma_without_nulls_add(initial_inputs, seq![repeat_condition], first);
                assert(seq![repeat_condition].take(0) =~= Seq::<Value>::empty());
                assert(self.without_nulls(seq![repeat_condition], second) =~= seq![
                    self.lowered_value(repeat_condition, second),
                ]);
                assert(after.values() =~= self.without_nulls(node.values(), first));
            },
            NodeKindView::ExitInvocation { .. } => {},
        }
    }

    /// The conversion for the `i`-th of `values`, which come after `before` among the
    /// uses.
    pub proof fn lemma_use_converted(
        self,
        body: BodyView,
        before: Seq<Value>,
        values: Seq<Value>,
        i: int,
    )
        requires
            (before + values).is_prefix_of(body.uses()),
            0 <= i < values.len(),
            self.null_type(values[i]) is Some,
        ensures
            ({
                let rank = (self.null_types(before).len() + self.null_types(
                    values.take(i),
                ).len()) as int;
                &&& rank < self.null_types(body.uses()).len()
                &&& self.without_null_uses(body).insts[body.insts.len() + rank] == self.null_inst(
                    self.null_type(values[i])->0,
                )
            }),
    {
        let uses = body.uses();
        let k = before.len() + i;
        assert((before + values)[k] == values[i]);
        assert(uses[k] == values[i]);
        assert(uses.take(k) =~= before + values.take(i)) by {
            assert forall|q: int| 0 <= q < k implies uses[q] == (before + values.take(i))[q] by {
                assert(uses[q] == (before + values)[q]);
            }
        }
        self.lemma_null_types_add(before, values.take(i));
        self.lemma_null_rank(uses, k);
        let rank = self.null_types(uses.take(k)).len() as int;
        assert(self.null_insts(uses)[rank] == self.null_inst(self.null_types(uses)[rank]));
    }
}

impl BodyView {
    /// What the first nodes take are first among the uses.
    pub proof fn lemma_node_uses_prefix(self, c: nat)
        requires
            c <= self.nodes.len(),
        ensures
            self.uses_before_node(c).is_prefix_of(self.uses()),
        decreases self.nodes.len() - c,
    {
        let some = self.uses_before_node(c);
        if c < self.nodes.len() {
            self.lemma_node_uses_prefix(c + 1);
            let more = self.uses_before_node(c + 1);
            assert(more == some + self.nodes[c as int].values());
            lemma_prefix_of_prefix(some, self.nodes[c as int].values(), self.uses());
        } else {
            assert(some =~= self.uses().subrange(0, some.len() as int));
        }
    }

    /// What the first regions hand on are first among the uses.
    pub proof fn lemma_region_uses_prefix(self, r: nat)
        requires
            r <= self.regions.len(),
        ensures
            self.uses_before_region(r).is_prefix_of(self.uses()),
        decreases self.regions.len() - r,
    {
        if r < self.regions.len() {
            self.lemma_region_uses_prefix(r + 1);
            lemma_prefix_of_prefix(
                self.uses_before_region(r),
                self.regions[r as int].values(),
                self.uses(),
            );
        } else {
            self.lemma_node_uses_prefix(0);
        }
    }
}

/// The first part of what stands first stands first.
proof fn lemma_prefix_of_prefix(a: Seq<Value>, b: Seq<Value>, all: Seq<Value>)
    requires
        (a + b).is_prefix_of(all),
    ensures
        a.is_prefix_of(all),
{
    assert forall|i: int| 0 <= i < a.len() implies a[i] == all[i] by {
        assert((a + b)[i] == all[i]);
    }
    assert(a =~= all.subrange(0, a.len() as int));
}

impl Env {
    /// None of the values is a physical null pointer.
    pub open spec fn has_none(self, values: Seq<Value>) -> bool {
        forall|i: int| 0 <= i < values.len() ==> self.null_type(#[trigger] values[i]) is None
    }

    /// Where none of the values is a physical null pointer, there are no types of such,
    /// and nothing is put in their place.
    pub proof fn lemma_no_null_types(self, values: Seq<Value>, first: int)
        requires
            self.has_none(values),
        ensures
            self.null_types(values) == Seq::<Type>::empty(),
            self.without_nulls(values, first) == values,
        decreases values.len(),
    {
        if values.len() > 0 {
            assert forall|i: int| 0 <= i < values.drop_last().len() implies self.null_type(
                #[trigger] values.drop_last()[i],
            ) is None by {
                assert(values.drop_last()[i] == values[i]);
            }
            self.lemma_no_null_types(values.drop_last(), first);
            assert(self.null_type(values[values.len() - 1]) is None);
        } else {
            assert(self.null_types(values) =~= Seq::<Type>::empty());
        }
        assert(self.without_nulls(values, first) =~= values);
    }

    /// No region hands on, and no node takes, a physical null pointer.
    pub open spec fn has_no_null_uses(self, body: BodyView) -> bool {
        &&& forall|r: int|
            0 <= r < body.regions.len() ==> self.has_none((#[trigger] body.regions[r]).values())
        &&& forall|c: int|
            0 <= c < body.nodes.len() ==> self.has_none((#[trigger] body.nodes[c]).values())
    }

    /// A body without null uses has none.
    pub proof fn lemma_no_null_uses_left(self, body: BodyView)
        ensures
            self.has_no_null_uses(self.without_null_uses(body)),
    {
        let after = self.without_null_uses(body);
        assert forall|r: int| 0 <= r < after.regions.len() implies self.has_none(
            (#[trigger] after.regions[r]).values(),
        ) by {
            let first = body.insts.len() + self.null_types(
                body.uses_before_region(r as nat),
            ).len();
            self.lemma_region_without_nulls(body.regions[r], first as int);
        }
        assert forall|c: int| 0 <= c < after.nodes.len() implies self.has_none(
            (#[trigger] after.nodes[c]).values(),
        ) by {
            if c < body.nodes.len() {
                let first = body.insts.len() + self.null_types(
                    body.uses_before_node(c as nat),
                ).len();
                self.lemma_node_without_nulls(body.nodes[c], first as int);
            }
        }
    }

    proof fn lemma_no_null_region_uses(self, body: BodyView, r: nat)
        requires
            self.has_no_null_uses(body),
            r <= body.regions.len(),
        ensures
            self.null_types(body.uses_before_region(r)) == Seq::<Type>::empty(),
        decreases r,
    {
        if r > 0 {
            self.lemma_no_null_region_uses(body, (r - 1) as nat);
            let values = body.regions[r - 1].values();
            self.lemma_no_null_types(values, 0);
            self.lemma_null_types_add(body.uses_before_region((r - 1) as nat), values);
        }
        assert(self.null_types(body.uses_before_region(r)) =~= Seq::<Type>::empty());
    }

    proof fn lemma_no_null_node_uses(self, body: BodyView, c: nat)
        requires
            self.has_no_null_uses(body),
            c <= body.nodes.len(),
        ensures
            self.null_types(body.uses_before_node(c)) == Seq::<Type>::empty(),
        decreases c,
    {
        if c > 0 {
            self.lemma_no_null_node_uses(body, (c - 1) as nat);
            let values = body.nodes[c - 1].values();
            self.lemma_no_null_types(values, 0);
            self.lemma_null_types_add(body.uses_before_node((c - 1) as nat), values);
        } else {
            self.lemma_no_null_region_uses(body, body.regions.len());
        }
        assert(self.null_types(body.uses_before_node(c)) =~= Seq::<Type>::empty());
    }

    /// Where there are no null uses, the body stays as it is.
    pub proof fn lemma_null_uses_as_they_are(self, body: BodyView)
        requires
            self.has_no_null_uses(body),
        ensures
            self.without_null_uses(body) == body,
    {
        let after = self.without_null_uses(body);
        self.lemma_no_null_node_uses(body, body.nodes.len());
        assert(self.null_insts(body.uses()) =~= Seq::<DataInstView>::empty());
        assert(after.insts =~= body.insts);
        assert forall|r: int| 0 <= r < body.regions.len() implies after.regions[r]
            == body.regions[r] by {
            let region = body.regions[r];
            let first = (body.insts.len() + self.null_types(
                body.uses_before_region(r as nat),
            ).len()) as int;
            assert(self.has_none(region.values()));
            assert forall|i: int| 0 <= i < region.outputs.len() implies self.null_type(
                #[trigger] region.outputs[i],
            ) is None by {
                assert(region.values()[i] == region.outputs[i]);
            }
            assert forall|i: int| 0 <= i < region.exit_inputs.len() implies self.null_type(
                #[trigger] region.exit_inputs[i],
            ) is None by {
                assert(region.values()[region.outputs.len() + i] == region.exit_inputs[i]);
            }
            self.lemma_no_null_types(region.outputs, first);
            self.lemma_no_null_types(
                region.exit_inputs,
                first + self.null_types(region.outputs).len(),
            );
        }
        assert(after.regions =~= body.regions);
        assert forall|c: int| 0 <= c < body.nodes.len() implies after.nodes[c]
            == body.nodes[c] by {
            let node = body.nodes[c];
            let first = (body.insts.len() + self.null_types(
                body.uses_before_node(c as nat),
            ).len()) as int;
            assert(self.has_none(node.values()));
            match node.kind {
                NodeKindView::Select { scrutinee } => {
                    assert(node.values()[0] == scrutinee);
                },
                NodeKindView::Loop { initial_inputs, repeat_condition } => {
                    let k = initial_inputs.len() as int;
                    assert(node.values()[k] == repeat_condition);
                    assert forall|i: int| 0 <= i < k implies self.null_type(
                        #[trigger] initial_inputs[i],
                    ) is None by {
                        assert(node.values()[i] == initial_inputs[i]);
                    }
                    self.lemma_no_null_types(initial_inputs, first);
                },
                NodeKindView::ExitInvocation { inputs } => {
                    self.lemma_no_null_types(inputs, first);
                },
                _ => {},
            }
        }
        assert(after.nodes =~= body.nodes);
    }
}

} // verus!
