//! What holds of a module after its null checks of physical pointers were lowered.

use crate::context::{ContextView, ModuleView};
use crate::ir::{
    BodyView, Const, ControlNode, DataInst, DataInstKindView, Func, FuncView, NodeKindView, Type,
    Value,
};
use crate::lowerer::Lowerer;
use crate::lowering::{
    has_typed_source, is_comparison, is_lowerable, is_lowerable_body, lemma_with_u64, lowered_funcs,
    lowering_env, new_insts, null_const, null_pointer_type, takes_any_of, u64_type, with_u64, Env,
    Lowering,
};
use crate::reach::{calls, lemma_reachable_in_range, lemma_same_reach, reachable};
use crate::types::{is_physical, type_of};
use crate::well_known::spv;
use vstd::prelude::*;

verus! {

impl Env {
    /// An instruction that a walk has come past, and a new one, stays as it is.
    pub proof fn lemma_settled(
        self,
        body: BodyView,
        n: nat,
        j: nat,
        n2: nat,
        j2: nat,
        x: int,
        n_funcs: int,
    )
        requires
            self.wf(),
            body.wf(self.types.len() as int, self.consts.len() as int, n_funcs),
            n < n2 || (n == n2 && j <= j2),
            j <= body.block(n as int).len(),
            n2 <= body.node_order.len(),
            j2 > 0 ==> n2 < body.node_order.len() && j2 <= body.block(n2 as int).len(),
            0 <= x < self.lowered_to(body, n, j).insts.len(),
            x >= body.insts.len() || body.visits_before(n as int, j as int, DataInst(x as usize)),
        ensures
            x < self.lowered_to(body, n2, j2).insts.len(),
            self.lowered_to(body, n2, j2).insts[x] == self.lowered_to(body, n, j).insts[x],
        decreases n2, j2,
    {
        if n == n2 && j == j2 {
        } else if j2 > 0 {
            let i = (j2 - 1) as nat;
            let before = self.lowered_to(body, n2, i);
            let d = body.block(n2 as int)[i as int];
            assert(body.visits_at(n2 as int, i as int, d));
            self.lemma_settled(body, n, j, n2, i, x, n_funcs);
            self.lemma_lowered_to(body, n2, i, n_funcs);
            self.lemma_lowered_inst(body, before, d, n_funcs);
            if x == d.0 {
                assert(DataInst(x as usize) == d);
                let (a, b) = choose|a: int, b: int| #[trigger]
                    body.visits_at(a, b, d) && (a < n || (a == n && b < j));
                assert(body.visits_at(a, b, d));
                assert(false);
            }
        } else {
            self.lemma_settled(body, n, j, (n2 - 1) as nat, body.block(n2 - 1).len(), x, n_funcs);
        }
    }

    /// The type of an output stays as it is or becomes `u64`.
    proof fn lemma_output_later(
        self,
        body: BodyView,
        n: nat,
        j: nat,
        n2: nat,
        j2: nat,
        x: int,
        n_funcs: int,
    )
        requires
            self.wf(),
            body.wf(self.types.len() as int, self.consts.len() as int, n_funcs),
            n < n2 || (n == n2 && j <= j2),
            j <= body.block(n as int).len(),
            n2 <= body.node_order.len(),
            j2 > 0 ==> n2 < body.node_order.len() && j2 <= body.block(n2 as int).len(),
            0 <= x < self.lowered_to(body, n, j).insts.len(),
        ensures
            x < self.lowered_to(body, n2, j2).insts.len(),
            ({
                let later = self.lowered_to(body, n2, j2).insts[x].form.output_type;
                ||| later == self.lowered_to(body, n, j).insts[x].form.output_type
                ||| later == Some(self.u64_ty)
            }),
        decreases n2, j2,
    {
        if n == n2 && j == j2 {
        } else if j2 > 0 {
            let i = (j2 - 1) as nat;
            let before = self.lowered_to(body, n2, i);
            let d = body.block(n2 as int)[i as int];
            assert(body.visits_at(n2 as int, i as int, d));
            self.lemma_output_later(body, n, j, n2, i, x, n_funcs);
            self.lemma_lowered_to(body, n2, i, n_funcs);
            self.lemma_lowered_inst(body, before, d, n_funcs);
        } else {
            self.lemma_output_later(
                body,
                n,
                j,
                (n2 - 1) as nat,
                body.block(n2 - 1).len(),
                x,
                n_funcs,
            );
        }
    }

    /// The instructions that were widened are those whose output has another type.
    pub proof fn lemma_widened(self, body: BodyView, n: nat, j: nat, x: usize, n_funcs: int)
        requires
            self.wf(),
            body.wf(self.types.len() as int, self.consts.len() as int, n_funcs),
            n <= body.node_order.len(),
            j > 0 ==> n < body.node_order.len() && j <= body.block(n as int).len(),
            x < body.insts.len(),
        ensures
            self.lowered_to(body, n, j).widened.contains(x) <==> self.lowered_to(
                body,
                n,
                j,
            ).insts[x as int].form.output_type != body.insts[x as int].form.output_type,
        decreases n, j,
    {
        if j > 0 {
            let i = (j - 1) as nat;
            let before = self.lowered_to(body, n, i);
            let d = body.block(n as int)[i as int];
            assert(body.visits_at(n as int, i as int, d));
            self.lemma_widened(body, n, i, x, n_funcs);
            self.lemma_lowered_to(body, n, i, n_funcs);
            self.lemma_lowered_inst(body, before, d, n_funcs);
            body.lemma_visits_once(n as int, i as int, d);
            if x == d.0 {
                assert(before.insts[x as int] == body.insts[x as int]);
            }
        } else if n > 0 {
            self.lemma_widened(body, (n - 1) as nat, body.block(n - 1).len(), x, n_funcs);
        }
    }

    /// What becomes of an instruction is what becomes of it when a walk comes to it.
    pub proof fn lemma_lowered_when_visited(
        self,
        body: BodyView,
        n: nat,
        j: nat,
        d: DataInst,
        n_funcs: int,
    )
        requires
            self.wf(),
            body.wf(self.types.len() as int, self.consts.len() as int, n_funcs),
            body.visits_at(n as int, j as int, d),
        ensures
            d.0 < body.insts.len(),
            d.0 < self.lowered_to(body, n, j).insts.len(),
            self.lowered_to(body, n, j).insts[d.0 as int] == body.insts[d.0 as int],
            self.is_kept(body.insts[d.0 as int], self.inst_lowered_body(body).insts[d.0 as int]),
            self.inst_lowered_body(body).insts[d.0 as int] == self.lowered_inst(
                body,
                self.lowered_to(body, n, j),
                d,
            ).insts[d.0 as int],
    {
        let end = body.node_order.len();
        self.lemma_lowered_to(body, n, j, n_funcs);
        self.lemma_lowered_to(body, n, j + 1, n_funcs);
        self.lemma_lowered_to(body, end, 0, n_funcs);
        body.lemma_visits_once(n as int, j as int, d);
        body.lemma_visits_step(n as int, j as int, d);
        assert(body.visits_before(n as int, j as int + 1, d));
        self.lemma_settled(body, n, j + 1, end, 0, d.0 as int, n_funcs);
    }
}

/// `after` is what `lower_physical_nulls` makes of `m`.
pub open spec fn is_lowered(m: ModuleView, after: ModuleView) -> bool {
    &&& after.funcs == lowered_funcs(m)
    &&& after.exports == m.exports
    &&& after.global_vars == m.global_vars
    &&& after.cx.types == lowering_env(m.cx).types
    &&& after.cx.consts == lowering_env(m.cx).consts
}

/// A constant is classified once for all. What `classify` gives for it, and notes, stays
/// the same whatever other constants are classified in between, and also where more types
/// and constants are interned.
pub proof fn law_classified_once_for_all(
    first: Lowerer,
    later: Lowerer,
    cx: ContextView,
    later_cx: ContextView,
    c: Const,
)
    requires
        first.wf(cx),
        later.wf(later_cx),
        cx.types.is_prefix_of(later_cx.types),
        cx.consts.is_prefix_of(later_cx.consts),
        c.0 < cx.consts.len(),
    ensures
        null_pointer_type(later_cx.types, later_cx.consts, c) == null_pointer_type(
            cx.types,
            cx.consts,
            c,
        ),
        first.offending@.dom().contains(c.0) ==> first.offending@[c.0] == null_pointer_type(
            later_cx.types,
            later_cx.consts,
            c,
        ),
        later.offending@.dom().contains(c.0) ==> later.offending@[c.0] == null_pointer_type(
            cx.types,
            cx.consts,
            c,
        ),
{
    assert(Const(c.0) == c);
    let def = cx.consts[c.0 as int];
    assert(later_cx.consts[c.0 as int] == def);
    assert(later_cx.types[def.ty.0 as int] == cx.types[def.ty.0 as int]);
}

/// The body of a function that was lowered is that body, lowered.
pub proof fn lemma_lowered_func(m: ModuleView, after: ModuleView, f: Func)
    requires
        m.wf(),
        after.wf(),
        is_lowered(m, after),
        reachable(m, f),
    ensures
        lowering_env(m.cx).wf(),
        f.0 < m.funcs.len(),
        m.funcs[f.0 as int] matches FuncView::Present(body) ==> {
            let env = lowering_env(m.cx);
            &&& body.wf(env.types.len() as int, env.consts.len() as int, m.funcs.len() as int)
            &&& after.funcs[f.0 as int] == FuncView::Present(env.lowered_body(body))
            &&& env.lowered_body(body).insts.len() <= usize::MAX
            &&& env.lowered_body(body).nodes.len() <= usize::MAX
            &&& env.inst_lowered_body(body).insts.len() <= usize::MAX
            &&& env.inst_lowered_body(body).wf(
                env.types.len() as int,
                env.consts.len() as int,
                m.funcs.len() as int,
            )
        },
{
    lemma_with_u64(m);
    lemma_reachable_in_range(m, f);
    assert(Func(f.0) == f);
    if let FuncView::Present(body) = m.funcs[f.0 as int] {
        let env = lowering_env(m.cx);
        assert(with_u64(m).funcs[f.0 as int] == FuncView::Present(body));
        assert(after.funcs[f.0 as int] == FuncView::Present(env.lowered_body(body)));
        env.lemma_inst_lowered_body_wf(body, m.funcs.len() as int);
    }
}

/// What a walk through a function that was lowered comes to is new, or was come to
/// before.
proof fn lemma_visited_before(
    env: Env,
    body: BodyView,
    d: DataInst,
    n_funcs: int,
) -> (place: (nat, nat))
    requires
        env.wf(),
        body.wf(env.types.len() as int, env.consts.len() as int, n_funcs),
        env.inst_lowered_body(body).insts.len() <= usize::MAX,
        env.inst_lowered_body(body).visits(d),
    ensures
        d.0 < env.inst_lowered_body(body).insts.len(),
        d.0 < body.insts.len() ==> body.visits_at(place.0 as int, place.1 as int, d),
        d.0 >= body.insts.len() ==> env.is_null_inst(env.inst_lowered_body(body).insts[d.0 as int]),
{
    let after = env.inst_lowered_body(body);
    let (n, p) = choose|n: int, p: int| after.visits_at(n, p, d);
    env.lemma_visits_in_lowered(body, n, p, d, n_funcs);
    env.lemma_lowered_to(body, body.node_order.len(), 0, n_funcs);
    let j = body.block(n).index_of(d);
    (n as nat, j as nat)
}

/// `v` is the null constant of a physical pointer type.
pub open spec fn is_null(cx: ContextView, v: Value) -> bool {
    v matches Value::Const(c) && null_pointer_type(cx.types, cx.consts, c) is Some
}

/// None of the values is the null constant of a physical pointer type.
pub open spec fn are_no_nulls(cx: ContextView, values: Seq<Value>) -> bool {
    forall|i: int| 0 <= i < values.len() ==> !is_null(cx, #[trigger] values[i])
}

/// No value that is used in a function is the null constant of a physical pointer type:
/// none that an instruction takes to which a walk comes, none that a region hands on to
/// what follows it, and none that a selection, a loop or an exit takes.
pub proof fn law_no_nulls_left(m: ModuleView, after: ModuleView, f: Func)
    requires
        m.wf(),
        after.wf(),
        is_lowered(m, after),
        reachable(m, f),
        after.funcs[f.0 as int] is Present,
    ensures
        ({
            let body = after.funcs[f.0 as int]->0;
            &&& forall|d: DataInst| #[trigger]
                body.visits(d) ==> are_no_nulls(after.cx, body.insts[d.0 as int].inputs)
            &&& forall|r: int|
                0 <= r < body.regions.len() ==> are_no_nulls(
                    after.cx,
                    (#[trigger] body.regions[r]).outputs,
                ) && are_no_nulls(after.cx, body.regions[r].exit_inputs)
            &&& forall|c: int|
                0 <= c < body.nodes.len() ==> are_no_nulls(
                    after.cx,
                    (#[trigger] body.nodes[c]).values(),
                )
        }),
{
    let env = lowering_env(m.cx);
    let n_funcs = m.funcs.len() as int;
    lemma_lowered_func(m, after, f);
    let body = m.funcs[f.0 as int]->0;
    let inst_lowered = env.inst_lowered_body(body);
    let fixed = env.lowered_body(body);
    env.lemma_without_null_uses_wf(inst_lowered, n_funcs);
    env.lemma_without_null_uses(inst_lowered);
    env.lemma_no_null_uses_left(inst_lowered);
    assert forall|d: DataInst| #[trigger] fixed.visits(d) implies are_no_nulls(
        after.cx,
        fixed.insts[d.0 as int].inputs,
    ) by {
        env.lemma_visited_without_null_uses(inst_lowered, d);
        let inputs = fixed.insts[d.0 as int].inputs;
        assert forall|i: int| 0 <= i < inputs.len() implies !is_null(
            after.cx,
            #[trigger] inputs[i],
        ) by {
            if d.0 < inst_lowered.insts.len() {
                assert(inst_lowered.visits(d));
                lemma_no_null_inputs(env, body, d, i, n_funcs);
            } else {
                assert(env.is_null_inst(fixed.insts[d.0 as int]));
                assert(inputs == seq![Value::Const(env.u64_zero)]);
                assert(env.null_type(Value::Const(env.u64_zero)) is None);
            }
        }
    }
    assert forall|r: int| 0 <= r < fixed.regions.len() implies are_no_nulls(
        after.cx,
        (#[trigger] fixed.regions[r]).outputs,
    ) && are_no_nulls(after.cx, fixed.regions[r].exit_inputs) by {
        let region = fixed.regions[r];
        assert(env.has_none(region.values()));
        assert forall|i: int| 0 <= i < region.outputs.len() implies !is_null(
            after.cx,
            #[trigger] region.outputs[i],
        ) by {
            assert(region.values()[i] == region.outputs[i]);
        }
        assert forall|i: int| 0 <= i < region.exit_inputs.len() implies !is_null(
            after.cx,
            #[trigger] region.exit_inputs[i],
        ) by {
            assert(region.values()[region.outputs.len() + i] == region.exit_inputs[i]);
        }
    }
    assert forall|c: int| 0 <= c < fixed.nodes.len() implies are_no_nulls(
        after.cx,
        (#[trigger] fixed.nodes[c]).values(),
    ) by {
        let values = fixed.nodes[c].values();
        assert(env.has_none(values));
        assert forall|i: int| 0 <= i < values.len() implies !is_null(
            after.cx,
            #[trigger] values[i],
        ) by {}
    }
}

/// No instruction takes a null pointer after instructions were lowered.
proof fn lemma_no_null_inputs(env: Env, body: BodyView, d: DataInst, i: int, n_funcs: int)
    requires
        env.wf(),
        body.wf(env.types.len() as int, env.consts.len() as int, n_funcs),
        env.inst_lowered_body(body).insts.len() <= usize::MAX,
        env.inst_lowered_body(body).visits(d),
        0 <= i < env.inst_lowered_body(body).insts[d.0 as int].inputs.len(),
    ensures
        env.null_type(env.inst_lowered_body(body).insts[d.0 as int].inputs[i]) is None,
{
    let (n, j) = lemma_visited_before(env, body, d, n_funcs);
    if d.0 < body.insts.len() {
        env.lemma_lowered_when_visited(body, n, j, d, n_funcs);
        lemma_no_nulls(env, body, env.lowered_to(body, n, j), d, i);
    } else {
        let inst = env.inst_lowered_body(body).insts[d.0 as int];
        assert(inst.inputs == seq![Value::Const(env.u64_zero)]);
        assert(env.null_type(Value::Const(env.u64_zero)) is None);
    }
}

proof fn lemma_no_nulls(env: Env, body: BodyView, before: Lowering, d: DataInst, i: int)
    requires
        env.wf(),
        d.0 < before.insts.len(),
        0 <= i < before.insts[d.0 as int].inputs.len(),
    ensures
        ({
            let inputs = env.lowered_inst(body, before, d).insts[d.0 as int].inputs;
            &&& inputs.len() == before.insts[d.0 as int].inputs.len()
            &&& env.null_type(inputs[i]) is None
        }),
{
    let inputs = env.lowered_inst(body, before, d).insts[d.0 as int].inputs;
    let values = env.without_nulls(before.insts[d.0 as int].inputs, before.insts.len() as int);
    assert(env.null_type(values[i]) is None);
    assert(env.null_type(Value::Const(env.u64_zero)) is None);
    assert(inputs[i] == values[i] || inputs[i] == Value::Const(env.u64_zero));
}

/// A conversion of a physical pointer to an integer gives a `u64`.
pub proof fn law_addresses_are_u64(m: ModuleView, after: ModuleView, f: Func, d: DataInst)
    requires
        m.wf(),
        after.wf(),
        is_lowerable(m),
        is_lowered(m, after),
        reachable(m, f),
        after.funcs[f.0 as int] is Present,
        after.funcs[f.0 as int]->0.visits(d),
        ({
            let body = after.funcs[f.0 as int]->0;
            let inst = body.insts[d.0 as int];
            &&& inst.form.kind matches DataInstKindView::SpvInst(spv_inst)
            &&& spv_inst.opcode == spv().op_convert_ptr_to_u
            &&& inst.inputs.len() > 0
            &&& type_of(after.cx.consts, body, inst.inputs[0]) matches Some(ty)
            &&& is_physical(after.cx.types, ty)
        }),
    ensures
        after.funcs[f.0 as int]->0.insts[d.0 as int].form.output_type == Some(
            lowering_env(m.cx).u64_ty,
        ),
        after.cx.types[lowering_env(m.cx).u64_ty.0 as int] == u64_type(),
{
    let env = lowering_env(m.cx);
    let n_funcs = m.funcs.len() as int;
    lemma_lowered_func(m, after, f);
    let body = m.funcs[f.0 as int]->0;
    let inst_lowered = env.inst_lowered_body(body);
    env.lemma_without_null_uses_wf(inst_lowered, n_funcs);
    env.lemma_without_null_uses(inst_lowered);
    env.lemma_visited_without_null_uses(inst_lowered, d);
    if d.0 < inst_lowered.insts.len() {
        let (n, j) = lemma_visited_before(env, body, d, n_funcs);
        if d.0 < body.insts.len() {
            lemma_still_typed(env, body, n, j, d, n_funcs);
            env.lemma_type_without_null_uses(
                inst_lowered,
                inst_lowered.insts[d.0 as int].inputs[0],
            );
            lemma_address_is_u64(env, body, n, j, d, n_funcs);
        }
    } else {
        assert(env.is_null_inst(env.lowered_body(body).insts[d.0 as int]));
    }
}

proof fn lemma_address_is_u64(env: Env, body: BodyView, n: nat, j: nat, d: DataInst, n_funcs: int)
    requires
        env.wf(),
        body.wf(env.types.len() as int, env.consts.len() as int, n_funcs),
        env.inst_lowered_body(body).insts.len() <= usize::MAX,
        is_lowerable_body(env, body),
        body.visits_at(n as int, j as int, d),
        ({
            let after = env.inst_lowered_body(body);
            let inst = after.insts[d.0 as int];
            &&& inst.form.kind matches DataInstKindView::SpvInst(spv_inst)
            &&& spv_inst.opcode == spv().op_convert_ptr_to_u
            &&& inst.inputs.len() > 0
            &&& type_of(env.consts, after, inst.inputs[0]) matches Some(ty)
            &&& is_physical(env.types, ty)
        }),
    ensures
        env.inst_lowered_body(body).insts[d.0 as int].form.output_type == Some(env.u64_ty),
{
    let end = body.node_order.len();
    let after = env.inst_lowered_body(body);
    let before = env.lowered_to(body, n, j);
    let next = env.lowered_to(body, n, j + 1);
    let old_inst = body.insts[d.0 as int];
    let first = before.insts.len() as int;
    let insts = before.insts + env.null_insts(old_inst.inputs);
    let inst = env.without_nulls_inst(old_inst, first);
    let then = BodyView { insts, ..body };
    env.lemma_lowered_when_visited(body, n, j, d, n_funcs);
    env.lemma_lowered_to(body, n, j, n_funcs);
    env.lemma_lowered_inst(body, before, d, n_funcs);
    env.lemma_lowered_len(body, n, j + 1, end, 0, n_funcs);
    if !env.is_narrow_address(then, inst) {
        let v = inst.inputs[0];
        assert(after.insts[d.0 as int] == inst);
        assert(has_typed_source(env, BodyView { insts: before.insts, ..body }, old_inst));
        lemma_source_typed(env, body, before, d);
        let ty = type_of(env.consts, then, v)->0;
        if let Value::DataInstOutput(e) = v {
            env.lemma_output_later(body, n, j + 1, end, 0, e.0 as int, n_funcs);
            assert(next.insts[e.0 as int].form.output_type == Some(ty)
                || next.insts[e.0 as int].form.output_type == Some(env.u64_ty));
        }
        if let Value::ControlNodeOutput { control_node, .. } = v {
            assert(after.nodes[control_node.0 as int].outputs
                == body.nodes[control_node.0 as int].outputs);
        }
        assert(!is_physical(env.types, env.u64_ty));
    }
}

/// The value that a conversion takes has a type when the conversion is lowered.
proof fn lemma_source_typed(env: Env, body: BodyView, before: Lowering, d: DataInst)
    requires
        d.0 < before.insts.len(),
        before.insts.len() + env.null_types(before.insts[d.0 as int].inputs).len() <= usize::MAX,
        before.insts[d.0 as int].inputs.len() > 0,
        type_of(
            env.consts,
            BodyView { insts: before.insts, ..body },
            before.insts[d.0 as int].inputs[0],
        ) is Some,
    ensures
        ({
            let old_inst = before.insts[d.0 as int];
            let insts = before.insts + env.null_insts(old_inst.inputs);
            let inst = env.without_nulls_inst(old_inst, before.insts.len() as int);
            type_of(env.consts, BodyView { insts, ..body }, inst.inputs[0]) is Some
        }),
{
    let values = before.insts[d.0 as int].inputs;
    let first = before.insts.len() as int;
    let insts = before.insts + env.null_insts(values);
    if env.null_type(values[0]) is Some {
        assert(values.take(0) =~= Seq::<Value>::empty());
        env.lemma_null_rank(values, 0);
        assert(insts[first] == env.null_inst(env.null_types(values)[0]));
    } else if let Value::DataInstOutput(e) = values[0] {
        assert(insts[e.0 as int] == before.insts[e.0 as int]);
    }
}

/// A comparison with an address that was widened before takes no integer zero but of
/// type `u64`.
pub proof fn law_compared_zeros_are_u64(
    m: ModuleView,
    after: ModuleView,
    f: Func,
    n: nat,
    j: nat,
    d: DataInst,
    e: DataInst,
    i: int,
    k: int,
)
    requires
        m.wf(),
        after.wf(),
        is_lowered(m, after),
        reachable(m, f),
        m.funcs[f.0 as int] is Present,
        m.funcs[f.0 as int]->0.visits_at(n as int, j as int, d),
        m.funcs[f.0 as int]->0.visits_before(n as int, j as int, e),
        after.funcs[f.0 as int]->0.insts[e.0 as int].form.output_type
            != m.funcs[f.0 as int]->0.insts[e.0 as int].form.output_type,
        ({
            let inst = after.funcs[f.0 as int]->0.insts[d.0 as int];
            &&& inst.form.kind matches DataInstKindView::SpvInst(spv_inst)
            &&& is_comparison(spv_inst.opcode)
            &&& 0 <= k < inst.inputs.len()
            &&& inst.inputs[k] == Value::DataInstOutput(e)
            &&& 0 <= i < inst.inputs.len()
        }),
    ensures
        !lowering_env(m.cx).is_narrow_zero(
            after.funcs[f.0 as int]->0.insts[d.0 as int].inputs[i],
        ),
{
    let env = lowering_env(m.cx);
    let n_funcs = m.funcs.len() as int;
    lemma_lowered_func(m, after, f);
    let body = m.funcs[f.0 as int]->0;
    let end = body.node_order.len();
    let before = env.lowered_to(body, n, j);
    env.lemma_without_null_uses(env.inst_lowered_body(body));
    env.lemma_lowered_to(body, end, 0, n_funcs);
    env.lemma_lowered_when_visited(body, n, j, d, n_funcs);
    let (n2, j2) = choose|n2: int, j2: int| #[trigger]
        body.visits_at(n2, j2, e) && (n2 < n || (n2 == n && j2 < j));
    assert(body.visits_at(n2, j2, e));
    env.lemma_lowered_to(body, n, j, n_funcs);
    env.lemma_settled(body, n, j, end, 0, e.0 as int, n_funcs);
    env.lemma_widened(body, n, j, e.0, n_funcs);
    assert(before.widened.contains(e.0));
    let inst = env.without_nulls_inst(body.insts[d.0 as int], before.insts.len() as int);
    assert(inst.inputs[k] == Value::DataInstOutput(e));
    assert(takes_any_of(inst.inputs, before.widened));
    assert(takes_any_of(env.widened_inst(inst).inputs, before.widened.insert(d.0)));
    assert(!env.is_narrow_zero(Value::Const(env.u64_zero)));
}

/// The instructions of the first `j` places stand first.
proof fn lemma_lowered_block_prefix(env: Env, body: BodyView, n: nat, j: nat, j2: nat)
    requires
        j <= j2,
    ensures
        env.lowered_block(body, n, j).is_prefix_of(env.lowered_block(body, n, j2)),
    decreases j2,
{
    let a = env.lowered_block(body, n, j);
    let b = env.lowered_block(body, n, j2);
    if j < j2 {
        lemma_lowered_block_prefix(env, body, n, j, (j2 - 1) as nat);
        let c = env.lowered_block(body, n, (j2 - 1) as nat);
        assert(a =~= c.subrange(0, a.len() as int));
        assert(a =~= b.subrange(0, a.len() as int));
    } else {
        assert(a =~= b.subrange(0, a.len() as int));
    }
}

/// Instruction `d` of the `n`-th node takes, as `v`, a zero that is converted to a
/// pointer of type `ty` earlier in the same block.
pub open spec fn takes_converted_zero(
    env: Env,
    body: BodyView,
    n: int,
    d: DataInst,
    v: Value,
    ty: Type,
) -> bool {
    &&& v matches Value::DataInstOutput(x)
    &&& x.0 < body.insts.len()
    &&& body.insts[x.0 as int] == env.null_inst(ty)
    &&& exists|p: int, q: int|
        #![trigger body.visits_at(n, p, d), body.visits_at(n, q, x)]
        body.visits_at(n, p, d) && body.visits_at(n, q, x) && q < p
}

/// Where in the walk through `fixed` the `n`-th node of a walk through `body` stands.
pub open spec fn new_place(body: BodyView, fixed: BodyView, n: int) -> int {
    fixed.node_order.index_of(body.node_order[n])
}

pub proof fn lemma_new_place(env: Env, body: BodyView, n: int, n_funcs: int)
    requires
        env.wf(),
        body.wf(env.types.len() as int, env.consts.len() as int, n_funcs),
        env.without_null_uses(body).nodes.len() <= usize::MAX,
        env.without_null_uses(body).insts.len() <= usize::MAX,
        0 <= n < body.node_order.len(),
    ensures
        new_place(body, env.without_null_uses(body), n) == env.place_without_null_uses(body, n),
{
    let fixed = env.without_null_uses(body);
    env.lemma_without_null_uses(body);
    env.lemma_without_null_uses_wf(body, n_funcs);
    let k = env.place_without_null_uses(body, n);
    assert(fixed.node_order[k] == body.node_order[n]);
    assert(fixed.node_order.contains(body.node_order[n]));
}

/// Where the conversion stands that an instruction takes in place of a null pointer: right
/// before the instruction, with nothing but conversions in between.
pub proof fn lemma_null_converted(
    m: ModuleView,
    after: ModuleView,
    f: Func,
    n: nat,
    j: nat,
    d: DataInst,
    i: int,
    c: Const,
    ty: Type,
) -> (place: (int, int))
    requires
        m.wf(),
        after.wf(),
        is_lowered(m, after),
        reachable(m, f),
        m.funcs[f.0 as int] is Present,
        m.funcs[f.0 as int]->0.visits_at(n as int, j as int, d),
        0 <= i < m.funcs[f.0 as int]->0.insts[d.0 as int].inputs.len(),
        m.funcs[f.0 as int]->0.insts[d.0 as int].inputs[i] == Value::Const(c),
        null_pointer_type(after.cx.types, after.cx.consts, c) == Some(ty),
    ensures
        ({
            let env = lowering_env(m.cx);
            let body = m.funcs[f.0 as int]->0;
            let last = after.funcs[f.0 as int]->0;
            let k = new_place(body, last, n as int);
            let first = env.lowered_to(body, n, j).insts.len();
            let r = env.null_types(body.insts[d.0 as int].inputs.take(i)).len();
            let x = DataInst((first + r) as usize);
            let (q, p) = place;
            &&& after.funcs[f.0 as int] is Present
            &&& body.insts.len() <= first + r < last.insts.len() <= usize::MAX
            &&& last.insts[d.0 as int].inputs[i] == Value::DataInstOutput(x)
            &&& last.insts[x.0 as int] == env.null_inst(ty)
            &&& last.visits_at(k, q, x)
            &&& last.visits_at(k, p, d)
            &&& q < p
            &&& forall|s: int| q <= s < p ==> (#[trigger] last.block(k)[s]).0 >= body.insts.len()
        }),
{
    let env = lowering_env(m.cx);
    let n_funcs = m.funcs.len() as int;
    lemma_lowered_func(m, after, f);
    let body = m.funcs[f.0 as int]->0;
    let fixed = env.inst_lowered_body(body);
    let end = body.node_order.len();
    let before = env.lowered_to(body, n, j);
    let next = env.lowered_to(body, n, j + 1);
    let values = body.insts[d.0 as int].inputs;
    let first = before.insts.len() as int;
    let r = env.null_types(values.take(i)).len() as int;
    env.lemma_lowered_when_visited(body, n, j, d, n_funcs);
    env.lemma_lowered_to(body, n, j, n_funcs);
    env.lemma_lowered_inst(body, before, d, n_funcs);
    env.lemma_lowered_len(body, n, j + 1, end, 0, n_funcs);
    env.lemma_null_rank(values, i);
    let x = DataInst((first + r) as usize);
    assert(next.insts[first + r] == env.null_insts(values)[r]);
    env.lemma_settled(body, n, j + 1, end, 0, first + r, n_funcs);
    assert(fixed.insts[x.0 as int] == env.null_inst(ty));
    assert(fixed.insts[d.0 as int].inputs[i] == Value::DataInstOutput(x));

    let len = body.block(n as int).len();
    let done = env.lowered_block(body, n, j);
    let more = env.lowered_block(body, n, j + 1);
    let list = env.lowered_block(body, n, len);
    env.lemma_blocks_of_lowered(body, n as int);
    lemma_lowered_block_prefix(env, body, n, j + 1, len);
    let fresh = new_insts(first, next.insts.len() as int);
    assert(more == done + fresh + seq![d]);
    let q = done.len() as int + r;
    let p = more.len() as int - 1;
    assert(more[q] == fresh[r]);
    assert(more[p] == d);
    assert(list[q] == more[q]);
    assert(list[p] == more[p]);
    assert(fixed.visits_at(n as int, p, d));
    assert(fixed.visits_at(n as int, q, x));

    let last = env.lowered_body(body);
    let k = new_place(body, last, n as int);
    env.lemma_without_null_uses(fixed);
    lemma_new_place(env, fixed, n as int, n_funcs);
    env.lemma_visits_kept(fixed, n as int, p, d);
    env.lemma_visits_kept(fixed, n as int, q, x);
    assert(k == env.place_without_null_uses(fixed, n as int));
    assert(last.visits_at(k, p, d));
    assert(last.visits_at(k, q, x));
    assert forall|s: int| q <= s < p implies (#[trigger] last.block(k)[s]).0
        >= body.insts.len() by {
        assert(last.block(k) == list);
        assert(list[s] == more[s]);
        assert(more[s] == fresh[s - done.len()]);
    }
    (q, p)
}

/// An instruction that took the null constant of a physical pointer type takes a
/// `u64` zero that is converted to that type earlier in the same block.
pub proof fn law_nulls_are_converted_zeros(
    m: ModuleView,
    after: ModuleView,
    f: Func,
    n: nat,
    j: nat,
    d: DataInst,
    i: int,
    c: Const,
    ty: Type,
)
    requires
        m.wf(),
        after.wf(),
        is_lowered(m, after),
        reachable(m, f),
        m.funcs[f.0 as int] is Present,
        m.funcs[f.0 as int]->0.visits_at(n as int, j as int, d),
        0 <= i < m.funcs[f.0 as int]->0.insts[d.0 as int].inputs.len(),
        m.funcs[f.0 as int]->0.insts[d.0 as int].inputs[i] == Value::Const(c),
        null_pointer_type(after.cx.types, after.cx.consts, c) == Some(ty),
    ensures
        takes_converted_zero(
            lowering_env(m.cx),
            after.funcs[f.0 as int]->0,
            new_place(m.funcs[f.0 as int]->0, after.funcs[f.0 as int]->0, n as int),
            d,
            after.funcs[f.0 as int]->0.insts[d.0 as int].inputs[i],
            ty,
        ),
{
    let (q, p) = lemma_null_converted(m, after, f, n, j, d, i, c, ty);
    let last = after.funcs[f.0 as int]->0;
    let k = new_place(m.funcs[f.0 as int]->0, last, n as int);
    let x = last.insts[d.0 as int].inputs[i]->DataInstOutput_0;
    assert(last.visits_at(k, p, d));
    assert(last.visits_at(k, q, x));
}

/// The `k`-th node that a walk reaches is none of the first `n_nodes` nodes. It is the
/// entry of the function, or comes right behind an entry that is a block.
pub open spec fn is_new_start(body: BodyView, n_nodes: int, k: int) -> bool {
    &&& 0 <= k < body.node_order.len()
    &&& body.node_order[k].0 >= n_nodes
    &&& body.entry == Some(body.node_order[0])
    &&& k == 0 || (k == 1 && body.nodes[body.node_order[0].0 as int].kind is Block)
}

/// `v` is a zero that is converted to a pointer of type `ty` at the start of the function,
/// in a block which is none of the first `n_nodes` nodes.
pub open spec fn is_converted_at_start(
    env: Env,
    body: BodyView,
    n_nodes: int,
    v: Value,
    ty: Type,
) -> bool {
    &&& v matches Value::DataInstOutput(x)
    &&& x.0 < body.insts.len()
    &&& body.insts[x.0 as int] == env.null_inst(ty)
    &&& exists|k: int, q: int| #[trigger]
        body.visits_at(k, q, x) && is_new_start(body, n_nodes, k)
}

/// A region that handed on the null constant of a physical pointer type, and a node that
/// took one, has a `u64` zero that is converted to that type in a new block at the start
/// of the function: that block is its entry, or comes right behind an entry that is a
/// block. Other values stay as they are.
pub proof fn law_null_uses_are_converted_zeros(m: ModuleView, after: ModuleView, f: Func)
    requires
        m.wf(),
        after.wf(),
        is_lowered(m, after),
        reachable(m, f),
        m.funcs[f.0 as int] is Present,
    ensures
        after.funcs[f.0 as int] is Present,
        ({
            let env = lowering_env(m.cx);
            let body = m.funcs[f.0 as int]->0;
            let fixed = after.funcs[f.0 as int]->0;
            &&& fixed.regions.len() == body.regions.len()
            &&& forall|r: int|
                0 <= r < body.regions.len() ==> are_converted_at_start(
                    env,
                    fixed,
                    body.nodes.len() as int,
                    body.regions[r].values(),
                    (#[trigger] fixed.regions[r]).values(),
                ) && fixed.regions[r].outputs.len() == body.regions[r].outputs.len()
            &&& fixed.nodes.len() >= body.nodes.len()
            &&& forall|c: int|
                0 <= c < body.nodes.len() ==> are_converted_at_start(
                    env,
                    fixed,
                    body.nodes.len() as int,
                    body.nodes[c].values(),
                    (#[trigger] fixed.nodes[c]).values(),
                )
        }),
{
    let env = lowering_env(m.cx);
    let n_funcs = m.funcs.len() as int;
    lemma_lowered_func(m, after, f);
    let body = m.funcs[f.0 as int]->0;
    let b = env.inst_lowered_body(body);
    let fixed = env.lowered_body(body);
    let n_nodes = body.nodes.len() as int;
    env.lemma_without_null_uses(b);
    assert forall|r: int| 0 <= r < body.regions.len() implies are_converted_at_start(
        env,
        fixed,
        n_nodes,
        body.regions[r].values(),
        (#[trigger] fixed.regions[r]).values(),
    ) && fixed.regions[r].outputs.len() == body.regions[r].outputs.len() by {
        let uses = b.uses_before_region(r as nat);
        let first = (b.insts.len() + env.null_types(uses).len()) as int;
        env.lemma_region_values(b.regions[r], first);
        b.lemma_region_uses_prefix((r + 1) as nat);
        assert(b.uses_before_region((r + 1) as nat) == uses + b.regions[r].values());
        lemma_converted_at_start(env, b, uses, b.regions[r].values());
    }
    assert forall|c: int| 0 <= c < body.nodes.len() implies are_converted_at_start(
        env,
        fixed,
        n_nodes,
        body.nodes[c].values(),
        (#[trigger] fixed.nodes[c]).values(),
    ) by {
        let uses = b.uses_before_node(c as nat);
        let first = (b.insts.len() + env.null_types(uses).len()) as int;
        assert(b.nodes[c] == env.lowered_node(body, c));
        assert(b.nodes[c].values() == body.nodes[c].values());
        assert(fixed.nodes[c] == env.nodes_without_nulls(b)[c]);
        env.lemma_node_values(b.nodes[c], first);
        b.lemma_node_uses_prefix((c + 1) as nat);
        assert(b.uses_before_node((c + 1) as nat) == uses + b.nodes[c].values());
        lemma_converted_at_start(env, b, uses, b.nodes[c].values());
    }
}

/// Physical null pointers among `values` are converted at the start of the function, and
/// the others of `fixed` are as they were.
pub open spec fn are_converted_at_start(
    env: Env,
    body: BodyView,
    n_nodes: int,
    values: Seq<Value>,
    fixed: Seq<Value>,
) -> bool {
    &&& fixed.len() == values.len()
    &&& forall|i: int|
        0 <= i < values.len() ==> match env.null_type(values[i]) {
            Some(ty) => is_converted_at_start(env, body, n_nodes, #[trigger] fixed[i], ty),
            None => fixed[i] == values[i],
        }
}

proof fn lemma_converted_at_start(
    env: Env,
    body: BodyView,
    uses: Seq<Value>,
    values: Seq<Value>,
)
    requires
        body.walk_wf(),
        env.without_null_uses(body).nodes.len() <= usize::MAX,
        env.without_null_uses(body).insts.len() <= usize::MAX,
        (uses + values).is_prefix_of(body.uses()),
    ensures
        are_converted_at_start(
            env,
            env.without_null_uses(body),
            body.nodes.len() as int,
            values,
            env.without_nulls(values, (body.insts.len() + env.null_types(uses).len()) as int),
        ),
{
    let after = env.without_null_uses(body);
    let first = (body.insts.len() + env.null_types(uses).len()) as int;
    let fixed = env.without_nulls(values, first);
    env.lemma_without_null_uses(body);
    assert forall|i: int| 0 <= i < values.len() implies match env.null_type(values[i]) {
        Some(ty) => is_converted_at_start(
            env,
            after,
            body.nodes.len() as int,
            #[trigger] fixed[i],
            ty,
        ),
        None => fixed[i] == values[i],
    } by {
        if env.null_type(values[i]) is Some {
            env.lemma_use_converted(body, uses, values, i);
            let rank = (env.null_types(uses).len() + env.null_types(
                values.take(i),
            ).len()) as int;
            let x = DataInst((body.insts.len() + rank) as usize);
            let k = body.start_place();
            env.lemma_visits_new(body, rank);
            assert(after.visits_at(k, rank, x));
            if k == 1 {
                assert(env.place_without_null_uses(body, 0) == 0);
                assert(after.node_order[0] == body.node_order[0]);
                let c = body.node_order[0].0 as int;
                assert(after.nodes[c] == env.nodes_without_nulls(body)[c]);
            }
            assert(is_new_start(after, body.nodes.len() as int, k));
            assert(fixed[i] == Value::DataInstOutput(x));
        }
    }
}

/// The instructions that a block had are still in it, in the order that they had.
pub proof fn law_order_kept(m: ModuleView, after: ModuleView, f: Func, n: nat)
    requires
        m.wf(),
        after.wf(),
        is_lowered(m, after),
        reachable(m, f),
        m.funcs[f.0 as int] is Present,
        n < m.funcs[f.0 as int]->0.node_order.len(),
    ensures
        after.funcs[f.0 as int] is Present,
        ({
            let body = m.funcs[f.0 as int]->0;
            let fixed = after.funcs[f.0 as int]->0;
            fixed.block(new_place(body, fixed, n as int)).filter(
                |x: DataInst| x.0 < body.insts.len(),
            ) == body.block(n as int)
        }),
{
    let env = lowering_env(m.cx);
    let n_funcs = m.funcs.len() as int;
    lemma_lowered_func(m, after, f);
    let body = m.funcs[f.0 as int]->0;
    let len = body.block(n as int).len();
    env.lemma_blocks_of_lowered(body, n as int);
    lemma_order_kept(env, body, n, len, n_funcs);
    assert(body.block(n as int).take(len as int) =~= body.block(n as int));
    let b = env.inst_lowered_body(body);
    let fixed = env.lowered_body(body);
    env.lemma_without_null_uses(b);
    lemma_new_place(env, b, n as int, n_funcs);
    let k = new_place(body, fixed, n as int);
    assert(k == env.place_without_null_uses(b, n as int));
    assert(fixed.node_order[k] == b.node_order[n as int]);
    assert(fixed.block(k) == b.block(n as int));
}

proof fn lemma_order_kept(env: Env, body: BodyView, n: nat, j: nat, n_funcs: int)
    requires
        env.wf(),
        body.wf(env.types.len() as int, env.consts.len() as int, n_funcs),
        env.inst_lowered_body(body).insts.len() <= usize::MAX,
        n < body.node_order.len(),
        j <= body.block(n as int).len(),
    ensures
        env.lowered_block(body, n, j).filter(|x: DataInst| x.0 < body.insts.len())
            == body.block(n as int).take(j as int),
    decreases j,
{
    let keep = |x: DataInst| x.0 < body.insts.len();
    let block = body.block(n as int);
    reveal(Seq::filter);
    if j > 0 {
        let i = (j - 1) as nat;
        let d = block[i as int];
        assert(body.visits_at(n as int, i as int, d));
        let from = env.lowered_to(body, n, i).insts.len() as int;
        let to = env.lowered_to(body, n, j).insts.len() as int;
        env.lemma_lowered_to(body, n, i, n_funcs);
        env.lemma_lowered_len(body, n, j, body.node_order.len(), 0, n_funcs);
        lemma_order_kept(env, body, n, i, n_funcs);
        let done = env.lowered_block(body, n, i);
        let fresh = new_insts(from, to);
        Seq::filter_distributes_over_add(done + fresh, seq![d], keep);
        Seq::filter_distributes_over_add(done, fresh, keep);
        lemma_none_kept(fresh, keep);
        assert(seq![d].drop_last() =~= Seq::<DataInst>::empty());
        assert(seq![d].filter(keep) =~= seq![d]);
        assert(block.take(j as int) =~= block.take(i as int) + seq![d]);
        assert(block.take(i as int) + Seq::<DataInst>::empty() =~= block.take(i as int));
    } else {
        assert(block.take(0) =~= Seq::<DataInst>::empty());
    }
}

proof fn lemma_none_kept(list: Seq<DataInst>, keep: spec_fn(DataInst) -> bool)
    requires
        forall|p: int| 0 <= p < list.len() ==> !keep(#[trigger] list[p]),
    ensures
        list.filter(keep) == Seq::<DataInst>::empty(),
    decreases list.len(),
{
    reveal(Seq::filter);
    if list.len() > 0 {
        assert forall|p: int| 0 <= p < list.drop_last().len() implies !keep(
            #[trigger] list.drop_last()[p],
        ) by {
            assert(list.drop_last()[p] == list[p]);
        }
        lemma_none_kept(list.drop_last(), keep);
        assert(!keep(list[list.len() - 1]));
    } else {
        assert(list.filter(keep) =~= Seq::<DataInst>::empty());
    }
}

/// Nothing else changes. An instruction keeps its attributes, what it does and how
/// many values it takes, and its output keeps its type or becomes a `u64`; one that a
/// walk does not come to stays as it is; new ones are conversions of zeros. Regions keep
/// their inputs. Nodes keep the types of their outputs, and stay what they are; at most
/// one is new, it is a block that is the entry or comes right behind it, and all that it
/// holds is new. The others are walked in the order that they had.
pub proof fn law_rest_kept(m: ModuleView, after: ModuleView, f: Func)
    requires
        m.wf(),
        after.wf(),
        is_lowered(m, after),
        reachable(m, f),
        m.funcs[f.0 as int] is Present,
    ensures
        after.funcs[f.0 as int] is Present,
        ({
            let env = lowering_env(m.cx);
            let body = m.funcs[f.0 as int]->0;
            let fixed = after.funcs[f.0 as int]->0;
            let s = fixed.nodes.len() - body.nodes.len();
            let start = ControlNode(body.nodes.len() as usize);
            &&& fixed.regions.len() == body.regions.len()
            &&& forall|r: int|
                0 <= r < body.regions.len() ==> (#[trigger] fixed.regions[r]).inputs
                    == body.regions[r].inputs
            &&& 0 <= s <= 1
            &&& s == 0 ==> fixed.node_order == body.node_order && fixed.entry == body.entry
            &&& s == 1 ==> {
                &&& fixed.node_order == body.node_order.insert(body.start_place(), start)
                &&& fixed.entry == (if body.start_place() == 0 {
                    Some(start)
                } else {
                    body.entry
                })
                &&& fixed.nodes[start.0 as int].kind is Block
                &&& forall|p: int|
                    0 <= p < fixed.nodes[start.0 as int].insts().len() ==> (
                    #[trigger] fixed.nodes[start.0 as int].insts()[p]).0 >= body.insts.len()
            }
            &&& forall|c: int|
                0 <= c < body.nodes.len() ==> (#[trigger] fixed.nodes[c]).outputs
                    == body.nodes[c].outputs && is_same_kind(
                    body.nodes[c].kind,
                    fixed.nodes[c].kind,
                )
            &&& fixed.insts.len() >= body.insts.len()
            &&& forall|x: int|
                0 <= x < body.insts.len() ==> env.is_kept(body.insts[x], #[trigger] fixed.insts[x])
            &&& forall|x: DataInst|
                x.0 < body.insts.len() && !#[trigger] body.visits(x) ==> fixed.insts[x.0 as int]
                    == body.insts[x.0 as int]
            &&& forall|x: int|
                body.insts.len() <= x < fixed.insts.len() ==> env.is_null_inst(
                    #[trigger] fixed.insts[x],
                )
        }),
{
    let env = lowering_env(m.cx);
    let n_funcs = m.funcs.len() as int;
    lemma_lowered_func(m, after, f);
    let body = m.funcs[f.0 as int]->0;
    let b = env.inst_lowered_body(body);
    let fixed = env.lowered_body(body);
    env.lemma_lowered_to(body, body.node_order.len(), 0, n_funcs);
    env.lemma_without_null_uses(b);
    env.lemma_without_null_uses_wf(b, n_funcs);
    body.lemma_visits_ends();
    assert(b.start_place() == body.start_place()) by {
        if let Some(c) = body.entry {
            assert(b.nodes[c.0 as int] == env.lowered_node(body, c.0 as int));
        }
    }
    if env.null_types(b.uses()).len() > 0 {
        assert(fixed.nodes[body.nodes.len() as int].insts() == new_insts(
            b.insts.len() as int,
            fixed.insts.len() as int,
        ));
    }
    assert forall|x: int| 0 <= x < body.insts.len() implies env.is_kept(
        body.insts[x],
        #[trigger] fixed.insts[x],
    ) by {
        assert(fixed.insts[x] == b.insts[x]);
    }
    assert forall|x: DataInst| x.0 < body.insts.len() && !#[trigger] body.visits(
        x,
    ) implies fixed.insts[x.0 as int] == body.insts[x.0 as int] by {
        assert(!body.visits_before(body.node_order.len() as int, 0, x));
        assert(fixed.insts[x.0 as int] == b.insts[x.0 as int]);
    }
    assert forall|x: int| body.insts.len() <= x < fixed.insts.len() implies env.is_null_inst(
        #[trigger] fixed.insts[x],
    ) by {
        if x < b.insts.len() {
            assert(fixed.insts[x] == b.insts[x]);
        }
    }
    assert forall|c: int| 0 <= c < body.nodes.len() implies (#[trigger] fixed.nodes[c]).outputs
        == body.nodes[c].outputs && is_same_kind(body.nodes[c].kind, fixed.nodes[c].kind) by {
        assert(b.nodes[c] == env.lowered_node(body, c));
        assert(fixed.nodes[c] == env.nodes_without_nulls(b)[c]);
    }
}

/// The nodes do the same.
pub open spec fn is_same_kind(a: NodeKindView, b: NodeKindView) -> bool {
    match a {
        NodeKindView::Block { .. } => b is Block,
        NodeKindView::Select { .. } => b is Select,
        NodeKindView::Loop { .. } => b is Loop,
        NodeKindView::ExitInvocation { .. } => b is ExitInvocation,
    }
}

/// A walk through a body that was lowered comes to what it came to before.
proof fn lemma_still_visited(env: Env, body: BodyView, d: DataInst, n_funcs: int)
    requires
        env.wf(),
        body.wf(env.types.len() as int, env.consts.len() as int, n_funcs),
        env.inst_lowered_body(body).insts.len() <= usize::MAX,
        body.visits(d),
    ensures
        d.0 < body.insts.len(),
        env.inst_lowered_body(body).visits(d),
{
    let fixed = env.inst_lowered_body(body);
    let (n, j) = choose|n: int, j: int| body.visits_at(n, j, d);
    assert(body.visits_at(n, j, d));
    let len = body.block(n).len();
    env.lemma_blocks_of_lowered(body, n);
    env.lemma_lowered_len(body, n as nat, len, body.node_order.len(), 0, n_funcs);
    env.lemma_lowered_block(body, n as nat, len, n_funcs);
    let list = fixed.block(n);
    assert(list.contains(body.block(n)[j]));
    let p = list.index_of(d);
    assert(fixed.visits_at(n, p, d));
}

/// A function that the module cannot reach stays as it is.
pub proof fn law_lower_unreached_kept(m: ModuleView, after: ModuleView, f: Func)
    requires
        is_lowered(m, after),
        f.0 < m.funcs.len(),
        !reachable(m, f),
    ensures
        after.funcs[f.0 as int] == m.funcs[f.0 as int],
{
    assert(Func(f.0) == f);
}

/// The module reaches the functions that it reached before, and no others.
pub proof fn law_lower_keeps_reach(m: ModuleView, after: ModuleView)
    requires
        m.wf(),
        after.wf(),
        is_lowered(m, after),
    ensures
        forall|f: Func| #[trigger] reachable(after, f) <==> reachable(m, f),
{
    let env = lowering_env(m.cx);
    let n_funcs = m.funcs.len() as int;
    assert forall|f: Func, g: Func| #[trigger] calls(after, f, g) <==> calls(m, f, g) by {
        if f.0 < m.funcs.len() && reachable(m, f) {
            lemma_lowered_func(m, after, f);
            if let FuncView::Present(body) = m.funcs[f.0 as int] {
                let b = env.inst_lowered_body(body);
                let fixed = env.lowered_body(body);
                env.lemma_lowered_to(body, body.node_order.len(), 0, n_funcs);
                env.lemma_without_null_uses(b);
                env.lemma_without_null_uses_wf(b, n_funcs);
                if body.calls(g) {
                    let d = choose|d: DataInst| #[trigger]
                        body.visits(d) && body.insts[d.0 as int].form.kind
                            == DataInstKindView::FuncCall(g);
                    lemma_still_visited(env, body, d, n_funcs);
                    env.lemma_visited_without_null_uses(b, d);
                    assert(env.is_kept(body.insts[d.0 as int], b.insts[d.0 as int]));
                    assert(fixed.visits(d));
                }
                if fixed.calls(g) {
                    let d = choose|d: DataInst| #[trigger]
                        fixed.visits(d) && fixed.insts[d.0 as int].form.kind
                            == DataInstKindView::FuncCall(g);
                    env.lemma_visited_without_null_uses(b, d);
                    if d.0 >= b.insts.len() {
                        assert(env.is_null_inst(fixed.insts[d.0 as int]));
                    } else {
                        let (n, j) = lemma_visited_before(env, body, d, n_funcs);
                        if d.0 < body.insts.len() {
                            assert(body.visits_at(n as int, j as int, d));
                            assert(body.visits(d));
                            assert(env.is_kept(body.insts[d.0 as int], b.insts[d.0 as int]));
                        } else {
                            assert(env.is_null_inst(b.insts[d.0 as int]));
                        }
                    }
                }
            }
        } else if f.0 < m.funcs.len() {
            assert(Func(f.0) == f);
        }
    }
    lemma_same_reach(m, after);
}

/// An instruction of a body that was lowered needs no lowering.
proof fn lemma_inst_is_lowered(env: Env, body: BodyView, d: DataInst, n_funcs: int)
    requires
        env.wf(),
        body.wf(env.types.len() as int, env.consts.len() as int, n_funcs),
        env.inst_lowered_body(body).insts.len() <= usize::MAX,
        is_lowerable_body(env, body),
        env.inst_lowered_body(body).visits(d),
    ensures
        needs_no_lowering(env, env.inst_lowered_body(body), d),
{
    let fixed = env.inst_lowered_body(body);
    let inst = fixed.insts[d.0 as int];
    let (n, j) = lemma_visited_before(env, body, d, n_funcs);
    assert forall|i: int| 0 <= i < inst.inputs.len() implies env.null_type(
        #[trigger] inst.inputs[i],
    ) is None by {
        if d.0 < body.insts.len() {
            env.lemma_lowered_when_visited(body, n, j, d, n_funcs);
            lemma_no_nulls(env, body, env.lowered_to(body, n, j), d, i);
        } else {
            assert(inst.inputs == seq![Value::Const(env.u64_zero)]);
        }
    }
    env.lemma_no_null_types(inst.inputs, 0);
    if d.0 < body.insts.len() {
        if env.is_narrow_address(fixed, inst) {
            lemma_address_is_u64(env, body, n, j, d, n_funcs);
        }
        lemma_still_typed(env, body, n, j, d, n_funcs);
    }
}

/// A conversion takes a value that has a type after all is lowered.
proof fn lemma_still_typed(env: Env, body: BodyView, n: nat, j: nat, d: DataInst, n_funcs: int)
    requires
        env.wf(),
        body.wf(env.types.len() as int, env.consts.len() as int, n_funcs),
        env.inst_lowered_body(body).insts.len() <= usize::MAX,
        is_lowerable_body(env, body),
        body.visits_at(n as int, j as int, d),
    ensures
        has_typed_source(
            env,
            env.inst_lowered_body(body),
            env.inst_lowered_body(body).insts[d.0 as int],
        ),
{
    let end = body.node_order.len();
    let fixed = env.inst_lowered_body(body);
    let before = env.lowered_to(body, n, j);
    let next = env.lowered_to(body, n, j + 1);
    let old_inst = body.insts[d.0 as int];
    let insts = before.insts + env.null_insts(old_inst.inputs);
    let inst = env.without_nulls_inst(old_inst, before.insts.len() as int);
    let then = BodyView { insts, ..body };
    env.lemma_lowered_when_visited(body, n, j, d, n_funcs);
    env.lemma_lowered_to(body, n, j, n_funcs);
    env.lemma_lowered_inst(body, before, d, n_funcs);
    env.lemma_lowered_len(body, n, j + 1, end, 0, n_funcs);
    if let DataInstKindView::SpvInst(spv_inst) = old_inst.form.kind {
        if spv_inst.opcode == spv().op_convert_ptr_to_u && old_inst.inputs.len() > 0 {
            let v = inst.inputs[0];
            assert(fixed.insts[d.0 as int].inputs == inst.inputs);
            assert(has_typed_source(env, BodyView { insts: before.insts, ..body }, old_inst));
            lemma_source_typed(env, body, before, d);
            if let Value::DataInstOutput(e) = v {
                assert(next.insts[e.0 as int].form.output_type is Some);
                env.lemma_output_later(body, n, j + 1, end, 0, e.0 as int, n_funcs);
            }
            if let Value::ControlNodeOutput { control_node, .. } = v {
                assert(fixed.nodes[control_node.0 as int].outputs
                    == body.nodes[control_node.0 as int].outputs);
            }
        }
    }
}

/// A walk that lowers nothing.
proof fn lemma_nothing_lowered(env: Env, body: BodyView, n: nat, j: nat)
    requires
        n <= body.node_order.len(),
        j > 0 ==> n < body.node_order.len() && j <= body.block(n as int).len(),
        forall|d: DataInst| #[trigger]
            body.visits(d) ==> needs_no_lowering(env, body, d),
    ensures
        env.lowered_to(body, n, j) == (Lowering { insts: body.insts, widened: Set::empty() }),
    decreases n, j,
{
    if j > 0 {
        let i = (j - 1) as nat;
        let before = env.lowered_to(body, n, i);
        let d = body.block(n as int)[i as int];
        assert(body.visits_at(n as int, i as int, d));
        assert(body.visits(d));
        lemma_nothing_lowered(env, body, n, i);
        let inst = body.insts[d.0 as int];
        assert(before.insts + env.null_insts(inst.inputs) =~= body.insts);
        assert(env.without_nulls(inst.inputs, before.insts.len() as int) =~= inst.inputs);
        assert(!takes_any_of(inst.inputs, Set::empty()));
        assert(body.insts.update(d.0 as int, inst) =~= body.insts);
    } else if n > 0 {
        lemma_nothing_lowered(env, body, (n - 1) as nat, body.block(n - 1).len());
    }
}

/// Where a walk lowers nothing, blocks stay as they are.
proof fn lemma_blocks_as_they_are(env: Env, body: BodyView, n: nat, j: nat)
    requires
        n < body.node_order.len(),
        j <= body.block(n as int).len(),
        forall|i: nat|
            i <= body.block(n as int).len() ==> (#[trigger] env.lowered_to(body, n, i)).insts
                == body.insts,
    ensures
        env.lowered_block(body, n, j) == body.block(n as int).take(j as int),
    decreases j,
{
    let block = body.block(n as int);
    if j > 0 {
        lemma_blocks_as_they_are(env, body, n, (j - 1) as nat);
        assert(env.lowered_to(body, n, j).insts == body.insts);
        assert(env.lowered_to(body, n, (j - 1) as nat).insts == body.insts);
        let len = body.insts.len() as int;
        assert(new_insts(len, len) =~= Seq::<DataInst>::empty());
        assert(block.take(j as int) =~= block.take(j - 1) + Seq::<DataInst>::empty() + seq![
            block[j - 1],
        ]);
    } else {
        assert(block.take(0) =~= Seq::<DataInst>::empty());
    }
}

/// The instruction needs no lowering.
spec fn needs_no_lowering(env: Env, body: BodyView, d: DataInst) -> bool {
    let inst = body.insts[d.0 as int];
    &&& d.0 < body.insts.len()
    &&& env.null_types(inst.inputs) == Seq::<Type>::empty()
    &&& forall|i: int|
        0 <= i < inst.inputs.len() ==> env.null_type(#[trigger] inst.inputs[i]) is None
    &&& !env.is_narrow_address(body, inst)
    &&& has_typed_source(env, body, inst)
}

/// Where no instruction needs lowering, none is lowered.
proof fn lemma_insts_as_they_are(env: Env, body: BodyView)
    requires
        body.walk_wf(),
        body.nodes.len() <= usize::MAX,
        forall|d: DataInst| #[trigger] body.visits(d) ==> needs_no_lowering(env, body, d),
    ensures
        is_lowerable_body(env, body),
        env.inst_lowered_body(body) == body,
{
    let twice = env.inst_lowered_body(body);
    lemma_nothing_lowered(env, body, body.node_order.len(), 0);
    assert forall|c: int| 0 <= c < body.nodes.len() implies twice.nodes[c] == body.nodes[c] by {
        let node = ControlNode(c as usize);
        if body.node_order.contains(node) {
            let n = body.node_order.index_of(node);
            assert(body.node_order[n] == node);
            let block = body.block(n);
            assert forall|i: nat| i <= block.len() implies (
            #[trigger] env.lowered_to(body, n as nat, i)).insts == body.insts by {
                lemma_nothing_lowered(env, body, n as nat, i);
            }
            lemma_blocks_as_they_are(env, body, n as nat, block.len());
            assert(block.take(block.len() as int) =~= block);
        }
    }
    assert(twice.nodes =~= body.nodes);
    assert forall|n: nat, j: nat, d: DataInst| #[trigger]
        body.visits_at(n as int, j as int, d) implies has_typed_source(
        env,
        BodyView { insts: env.lowered_to(body, n, j).insts, ..body },
        body.insts[d.0 as int],
    ) by {
        assert(body.visits(d));
        lemma_nothing_lowered(env, body, n, j);
        assert(BodyView { insts: body.insts, ..body } == body);
    }
}

/// Lowering a body that was lowered changes nothing.
proof fn lemma_lower_body_twice(env: Env, body: BodyView, n_funcs: int)
    requires
        env.wf(),
        body.wf(env.types.len() as int, env.consts.len() as int, n_funcs),
        env.inst_lowered_body(body).insts.len() <= usize::MAX,
        env.lowered_body(body).insts.len() <= usize::MAX,
        env.lowered_body(body).nodes.len() <= usize::MAX,
        is_lowerable_body(env, body),
    ensures
        is_lowerable_body(env, env.lowered_body(body)),
        env.lowered_body(env.lowered_body(body)) == env.lowered_body(body),
{
    let b = env.inst_lowered_body(body);
    let fixed = env.lowered_body(body);
    env.lemma_inst_lowered_body_wf(body, n_funcs);
    env.lemma_without_null_uses_wf(b, n_funcs);
    env.lemma_without_null_uses(b);
    assert forall|d: DataInst| #[trigger] fixed.visits(d) implies needs_no_lowering(
        env,
        fixed,
        d,
    ) by {
        env.lemma_visited_without_null_uses(b, d);
        let inst = fixed.insts[d.0 as int];
        if d.0 < b.insts.len() {
            lemma_inst_is_lowered(env, body, d, n_funcs);
            if inst.inputs.len() > 0 && type_of(env.consts, b, inst.inputs[0]) is Some {
                env.lemma_type_without_null_uses(b, inst.inputs[0]);
            }
        } else {
            assert(env.is_null_inst(inst));
            assert(inst.inputs == seq![Value::Const(env.u64_zero)]);
            assert(env.null_type(Value::Const(env.u64_zero)) is None);
            assert(env.has_none(inst.inputs));
            env.lemma_no_null_types(inst.inputs, 0);
        }
    }
    lemma_insts_as_they_are(env, fixed);
    env.lemma_no_null_uses_left(b);
    env.lemma_null_uses_as_they_are(fixed);
}

/// A module that was lowered needs no lowering: doing it again changes no function and
/// adds no type and no constant.
pub proof fn law_lower_twice(m: ModuleView, after: ModuleView)
    requires
        m.wf(),
        after.wf(),
        is_lowerable(m),
        is_lowered(m, after),
    ensures
        is_lowerable(after),
        lowered_funcs(after) == after.funcs,
        lowering_env(after.cx).types == after.cx.types,
        lowering_env(after.cx).consts == after.cx.consts,
{
    let env = lowering_env(m.cx);
    let n_funcs = m.funcs.len() as int;
    lemma_with_u64(m);
    assert(env.types.contains(u64_type())) by {
        assert(env.types[env.u64_ty.0 as int] == u64_type());
    }
    assert(env.consts.contains(null_const(env.u64_ty))) by {
        assert(env.consts[env.u64_zero.0 as int] == null_const(env.u64_ty));
    }
    assert(lowering_env(after.cx) == env);
    law_lower_keeps_reach(m, after);
    assert forall|f: Func| #[trigger] reachable(after, f) implies (
    after.funcs[f.0 as int] matches FuncView::Present(fixed) ==> is_lowerable_body(env, fixed)
        && env.lowered_body(fixed) == fixed) by {
        lemma_lowered_func(m, after, f);
        if let FuncView::Present(body) = m.funcs[f.0 as int] {
            lemma_lower_body_twice(env, body, n_funcs);
        }
    }
    assert forall|f: int| 0 <= f < after.funcs.len() implies lowered_funcs(after)[f]
        == after.funcs[f] by {
        let func = Func(f as usize);
        assert(reachable(after, func) || !reachable(after, func));
    }
    assert(lowered_funcs(after) =~= after.funcs);
}

} // verus!
