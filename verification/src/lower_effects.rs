//! What `lower_physical_nulls` makes of each value that a function uses and of each
//! instruction, in terms of the opcodes and words that types and constants are written with.

use crate::context::{law_interned, ContextView, ModuleView};
use crate::ir::{
    AttrSet, BodyView, Const, ConstDefView, ControlNode, DataInst, DataInstView, Func, FuncView,
    NodeKindView, NodeView, Type, TypeDefView, Value,
};
use crate::lower_laws::{
    are_converted_at_start, is_converted_at_start, is_lowered, is_new_start, is_same_kind,
    law_lower_unreached_kept, law_no_nulls_left, law_null_uses_are_converted_zeros,
    law_order_kept, law_rest_kept, lemma_lowered_func, lemma_new_place, lemma_null_converted,
    new_place,
};
use crate::lowering::{
    lemma_with_u64, lowering_env, new_insts, null_const, null_pointer_type, takes_any_of, u64_type,
    Env,
};
use crate::places::{law_walk, stands_at};
use crate::reach::reachable;
use crate::spirv::Imm;
use crate::types::{is_physical, type_of};
use crate::well_known::spv;
use vstd::prelude::*;

verus! {

/// `v` is an `OpConstantNull` whose type is an `OpTypePointer` in the
/// `PhysicalStorageBuffer` storage class.
pub open spec fn is_physical_null(cx: ContextView, v: Value) -> bool {
    &&& v matches Value::Const(c)
    &&& {
        let def = cx.consts[c.0 as int];
        let ty = cx.types[def.ty.0 as int];
        &&& def.kind is SpvInst
        &&& def.kind->spv_inst.opcode == spv().op_constant_null
        &&& ty.kind is SpvInst
        &&& ty.kind->spv_inst.opcode == spv().op_type_pointer
        &&& ty.kind->spv_inst.imms.len() == 1
        &&& ty.kind->spv_inst.imms[0] is Short
        &&& ty.kind->spv_inst.imms[0]->Short_1 == spv().physical_storage_buffer
    }
}

/// The type is a plain `OpTypeInt 64 0`.
pub open spec fn is_u64(def: TypeDefView) -> bool {
    &&& def.attrs == AttrSet(0)
    &&& def.kind is SpvInst
    &&& def.kind->spv_inst.opcode == spv().op_type_int
    &&& def.kind->spv_inst.imms.len() == 2
    &&& def.kind->spv_inst.imms[0] == Imm::Short(spv().literal_integer, 64)
    &&& def.kind->spv_inst.imms[1] == Imm::Short(spv().literal_integer, 0)
    &&& def.kind->inputs.len() == 0
}

/// `v` is a plain `OpConstantNull` of type `OpTypeInt 64 0`.
pub open spec fn is_u64_zero(cx: ContextView, v: Value) -> bool {
    &&& v matches Value::Const(c)
    &&& c.0 < cx.consts.len()
    &&& {
        let def = cx.consts[c.0 as int];
        &&& def.attrs == AttrSet(0)
        &&& def.ty.0 < cx.types.len()
        &&& is_u64(cx.types[def.ty.0 as int])
        &&& def.kind is SpvInst
        &&& def.kind->spv_inst.opcode == spv().op_constant_null
        &&& def.kind->spv_inst.imms.len() == 0
        &&& def.kind->inputs.len() == 0
    }
}

/// The instruction is a plain `OpConvertUToPtr` of a `u64` zero to type `ty`.
pub open spec fn converts_zero(cx: ContextView, inst: DataInstView, ty: Type) -> bool {
    &&& inst.attrs == AttrSet(0)
    &&& inst.form.kind is SpvInst
    &&& inst.form.kind->SpvInst_0.opcode == spv().op_convert_u_to_ptr
    &&& inst.form.kind->SpvInst_0.imms.len() == 0
    &&& inst.form.output_type == Some(ty)
    &&& inst.inputs.len() == 1
    &&& is_u64_zero(cx, inst.inputs[0])
}

/// The type `u64` and its zero are there, and nothing else is added to the types and
/// constants. Every handle goes on to name what it named.
pub proof fn law_lower_adds_u64_only(m: ModuleView, after: ModuleView)
    requires
        m.wf(),
        after.wf(),
        is_lowered(m, after),
    ensures
        m.cx.types.len() <= after.cx.types.len() <= m.cx.types.len() + 1,
        forall|t: int| 0 <= t < m.cx.types.len() ==> #[trigger] after.cx.types[t] == m.cx.types[t],
        forall|t: int|
            m.cx.types.len() <= t < after.cx.types.len() ==> is_u64(#[trigger] after.cx.types[t]),
        m.cx.consts.len() <= after.cx.consts.len() <= m.cx.consts.len() + 1,
        forall|c: int|
            0 <= c < m.cx.consts.len() ==> #[trigger] after.cx.consts[c] == m.cx.consts[c],
        forall|c: Const|
            m.cx.consts.len() <= c.0 < after.cx.consts.len() ==> #[trigger] is_u64_zero(
                after.cx,
                Value::Const(c),
            ),
        exists|c: Const| #[trigger] is_u64_zero(after.cx, Value::Const(c)),
{
    let env = lowering_env(m.cx);
    lemma_with_u64(m);
    law_interned(m.cx.types, u64_type());
    law_interned(m.cx.consts, null_const(env.u64_ty));
    lemma_u64_zero(m, after);
}

/// The `u64` zero of the pass is one.
proof fn lemma_u64_zero(m: ModuleView, after: ModuleView)
    requires
        m.wf(),
        after.wf(),
        is_lowered(m, after),
    ensures
        ({
            let env = lowering_env(m.cx);
            &&& env.wf()
            &&& is_u64_zero(after.cx, Value::Const(env.u64_zero))
            &&& is_u64(after.cx.types[env.u64_ty.0 as int])
            &&& env.u64_ty.0 < after.cx.types.len()
        }),
        forall|t: Type|
            t.0 < after.cx.types.len() && is_u64(#[trigger] after.cx.types[t.0 as int]) ==> t
                == lowering_env(m.cx).u64_ty,
{
    let env = lowering_env(m.cx);
    lemma_with_u64(m);
    assert(after.cx.types[env.u64_ty.0 as int] == u64_type());
    assert(after.cx.consts[env.u64_zero.0 as int] == null_const(env.u64_ty));
    assert forall|t: Type|
        t.0 < after.cx.types.len() && is_u64(#[trigger] after.cx.types[t.0 as int]) implies t
        == env.u64_ty by {
        let def = after.cx.types[t.0 as int];
        assert(def.kind->spv_inst.imms =~= u64_type().kind->spv_inst.imms);
        assert(def.kind->inputs =~= u64_type().kind->inputs);
        assert(def == u64_type());
        assert(after.cx.types.no_duplicates());
    }
}

/// A null pointer is one in the terms of the pass too.
proof fn lemma_physical_null(m: ModuleView, after: ModuleView, v: Value)
    requires
        is_lowered(m, after),
    ensures
        is_physical_null(after.cx, v) <==> lowering_env(m.cx).null_type(v) is Some,
        is_physical_null(after.cx, v) ==> lowering_env(m.cx).null_type(v) == Some(
            after.cx.consts[v->Const_0.0 as int].ty,
        ),
{
}

/// No instruction on the walk through a function that the module can reach takes an
/// `OpConstantNull` of an `OpTypePointer` type in the `PhysicalStorageBuffer` storage class,
/// whatever the pointer would point to.
pub proof fn law_no_null_is_taken(
    m: ModuleView,
    after: ModuleView,
    f: Func,
    n: int,
    j: int,
    d: DataInst,
    i: int,
)
    requires
        m.wf(),
        after.wf(),
        is_lowered(m, after),
        reachable(m, f),
        after.funcs[f.0 as int] is Present,
        stands_at(after.funcs[f.0 as int]->0, n, j, d),
        0 <= i < after.funcs[f.0 as int]->0.insts[d.0 as int].inputs.len(),
    ensures
        after.funcs[f.0 as int]->0.insts[d.0 as int].inputs[i] matches Value::Const(c) ==> {
            let def = after.cx.consts[c.0 as int];
            let ty = after.cx.types[def.ty.0 as int];
            !(def.kind is SpvInst && def.kind->spv_inst.opcode == spv().op_constant_null
                && ty.kind is SpvInst && ty.kind->spv_inst.opcode == spv().op_type_pointer
                && ty.kind->spv_inst.imms.len() == 1 && ty.kind->spv_inst.imms[0] is Short
                && ty.kind->spv_inst.imms[0]->Short_1 == spv().physical_storage_buffer)
        },
{
    law_no_nulls_left(m, after, f);
    law_walk(after.funcs[f.0 as int]->0);
    assert(after.funcs[f.0 as int]->0.visits(d));
    lemma_physical_null(m, after, after.funcs[f.0 as int]->0.insts[d.0 as int].inputs[i]);
}

/// None of the values is a null constant of a physical pointer type.
pub open spec fn has_no_physical_null(cx: ContextView, values: Seq<Value>) -> bool {
    forall|i: int| 0 <= i < values.len() ==> !is_physical_null(cx, #[trigger] values[i])
}

/// No region of such a function hands a null pointer on, and no selection, loop or exit
/// takes one.
pub proof fn law_no_null_is_handed_on(m: ModuleView, after: ModuleView, f: Func)
    requires
        m.wf(),
        after.wf(),
        is_lowered(m, after),
        reachable(m, f),
        after.funcs[f.0 as int] is Present,
    ensures
        ({
            let body = after.funcs[f.0 as int]->0;
            &&& forall|r: int|
                0 <= r < body.regions.len() ==> {
                    &&& has_no_physical_null(after.cx, (#[trigger] body.regions[r]).outputs)
                    &&& has_no_physical_null(after.cx, body.regions[r].exit_inputs)
                }
            &&& forall|c: int|
                0 <= c < body.nodes.len() ==> match (#[trigger] body.nodes[c]).kind {
                    NodeKindView::Block { .. } => true,
                    NodeKindView::Select { scrutinee } => !is_physical_null(after.cx, scrutinee),
                    NodeKindView::Loop { initial_inputs, repeat_condition } => {
                        &&& has_no_physical_null(after.cx, initial_inputs)
                        &&& !is_physical_null(after.cx, repeat_condition)
                    },
                    NodeKindView::ExitInvocation { inputs } => has_no_physical_null(
                        after.cx,
                        inputs,
                    ),
                }
        }),
{
    law_no_nulls_left(m, after, f);
    let body = after.funcs[f.0 as int]->0;
    assert forall|v: Value| #[trigger]
        is_physical_null(after.cx, v) implies lowering_env(m.cx).null_type(v) is Some by {
        lemma_physical_null(m, after, v);
    }
    assert forall|c: int| 0 <= c < body.nodes.len() implies match (#[trigger] body.nodes[c]).kind {
        NodeKindView::Block { .. } => true,
        NodeKindView::Select { scrutinee } => !is_physical_null(after.cx, scrutinee),
        NodeKindView::Loop { initial_inputs, repeat_condition } => {
            &&& has_no_physical_null(after.cx, initial_inputs)
            &&& !is_physical_null(after.cx, repeat_condition)
        },
        NodeKindView::ExitInvocation { inputs } => has_no_physical_null(after.cx, inputs),
    } by {
        let values = body.nodes[c].values();
        match body.nodes[c].kind {
            NodeKindView::Select { scrutinee } => {
                assert(values[0] == scrutinee);
            },
            NodeKindView::Loop { initial_inputs, repeat_condition } => {
                assert(values[initial_inputs.len() as int] == repeat_condition);
                assert forall|i: int| 0 <= i < initial_inputs.len() implies !is_physical_null(
                    after.cx,
                    #[trigger] initial_inputs[i],
                ) by {
                    assert(values[i] == initial_inputs[i]);
                }
            },
            _ => {},
        }
    }
}

/// In the function, `x` stands before `d` in the same block, with nothing in between but
/// instructions that are none of the first `n_insts`.
pub open spec fn stands_right_before(
    body: BodyView,
    n_insts: int,
    x: DataInst,
    d: DataInst,
) -> bool {
    exists|n: int, q: int, p: int|
        #![trigger stands_at(body, n, q, x), stands_at(body, n, p, d)]
        stands_at(body, n, q, x) && stands_at(body, n, p, d) && q < p && forall|s: int|
            q <= s < p ==> (#[trigger] body.nodes[body.node_order[n].0 as int].kind->insts[s]).0
                >= n_insts
}

/// An instruction that took a null pointer takes in its place the output of an instruction
/// of its own, which is new, stands right before it, and converts a `u64` zero to the type
/// that the null pointer had.
pub proof fn law_taken_nulls_are_converted(
    m: ModuleView,
    after: ModuleView,
    f: Func,
    n: int,
    j: int,
    d: DataInst,
    i: int,
)
    requires
        m.wf(),
        after.wf(),
        is_lowered(m, after),
        reachable(m, f),
        m.funcs[f.0 as int] is Present,
        stands_at(m.funcs[f.0 as int]->0, n, j, d),
        0 <= i < m.funcs[f.0 as int]->0.insts[d.0 as int].inputs.len(),
        is_physical_null(after.cx, m.funcs[f.0 as int]->0.insts[d.0 as int].inputs[i]),
    ensures
        after.funcs[f.0 as int] is Present,
        ({
            let body = m.funcs[f.0 as int]->0;
            let fixed = after.funcs[f.0 as int]->0;
            let c = body.insts[d.0 as int].inputs[i]->Const_0;
            let taken = fixed.insts[d.0 as int].inputs[i];
            let x = taken->DataInstOutput_0;
            &&& fixed.insts[d.0 as int].inputs.len() == body.insts[d.0 as int].inputs.len()
            &&& taken is DataInstOutput
            &&& body.insts.len() <= x.0 < fixed.insts.len()
            &&& converts_zero(after.cx, fixed.insts[x.0 as int], after.cx.consts[c.0 as int].ty)
            &&& stands_right_before(fixed, body.insts.len() as int, x, d)
        }),
{
    let env = lowering_env(m.cx);
    let body = m.funcs[f.0 as int]->0;
    let fixed = after.funcs[f.0 as int]->0;
    let v = body.insts[d.0 as int].inputs[i];
    let c = v->Const_0;
    let ty = after.cx.consts[c.0 as int].ty;
    lemma_physical_null(m, after, v);
    lemma_u64_zero(m, after);
    law_walk(body);
    law_walk(fixed);
    law_rest_kept(m, after, f);
    assert(body.visits_at(n, j, d));
    lemma_lowered_func(m, after, f);
    assert(d.0 < body.insts.len());
    assert(env.is_kept(body.insts[d.0 as int], fixed.insts[d.0 as int]));
    let (q, p) = lemma_null_converted(m, after, f, n as nat, j as nat, d, i, c, ty);
    let k = new_place(body, fixed, n);
    let x = fixed.insts[d.0 as int].inputs[i]->DataInstOutput_0;
    assert(fixed.visits_at(k, q, x));
    assert(fixed.visits_at(k, p, d));
    assert(stands_at(fixed, k, q, x));
    assert(stands_at(fixed, k, p, d));
    assert(fixed.insts[x.0 as int] == env.null_inst(ty));
    let list = fixed.nodes[fixed.node_order[k].0 as int].kind->insts;
    assert(fixed.block(k) == list);
    assert forall|s: int| q <= s < p implies (
    #[trigger] fixed.nodes[fixed.node_order[k].0 as int].kind->insts[s]).0
        >= body.insts.len() by {
        assert(fixed.block(k)[s].0 >= body.insts.len());
    }
}

/// The opcode compares integers for equality or as unsigned numbers.
pub open spec fn compares_unsigned(inst: DataInstView) -> bool {
    let op = inst.form.kind->SpvInst_0.opcode;
    &&& inst.form.kind is SpvInst
    &&& op == spv().op_i_equal || op == spv().op_i_not_equal || op == spv().op_u_greater_than
        || op == spv().op_u_greater_than_equal || op == spv().op_u_less_than || op
        == spv().op_u_less_than_equal
}

/// Before the `j`-th instruction of the `n`-th node stands an instruction of which the
/// output, which `v` is, gets another type.
pub open spec fn is_widened_before(
    body: BodyView,
    fixed: BodyView,
    n: int,
    j: int,
    v: Value,
) -> bool {
    &&& v matches Value::DataInstOutput(e)
    &&& e.0 < body.insts.len()
    &&& fixed.insts[e.0 as int].form.output_type != body.insts[e.0 as int].form.output_type
    &&& exists|n2: int, j2: int|
        stands_at(body, n2, j2, e) && (n2 < n || n2 == n && j2 < j)
}

/// What becomes of an instruction that stands in a function that the module can reach.
proof fn lemma_lowered_at(m: ModuleView, after: ModuleView, f: Func, n: int, j: int, d: DataInst)
    requires
        m.wf(),
        after.wf(),
        is_lowered(m, after),
        reachable(m, f),
        m.funcs[f.0 as int] is Present,
        stands_at(m.funcs[f.0 as int]->0, n, j, d),
    ensures
        after.funcs[f.0 as int] is Present,
        ({
            let env = lowering_env(m.cx);
            let body = m.funcs[f.0 as int]->0;
            let fixed = after.funcs[f.0 as int]->0;
            let b = env.inst_lowered_body(body);
            let before = env.lowered_to(body, n as nat, j as nat);
            let taken = env.without_nulls_inst(
                body.insts[d.0 as int],
                before.insts.len() as int,
            );
            let then = BodyView {
                insts: before.insts + env.null_insts(body.insts[d.0 as int].inputs),
                ..body
            };
            let inst = fixed.insts[d.0 as int];
            &&& env.wf()
            &&& body.wf(env.types.len() as int, env.consts.len() as int, m.funcs.len() as int)
            &&& b.insts.len() <= usize::MAX
            &&& body.visits_at(n, j, d)
            &&& d.0 < body.insts.len() <= b.insts.len() <= fixed.insts.len()
            &&& forall|x: int| 0 <= x < b.insts.len() ==> #[trigger] fixed.insts[x] == b.insts[x]
            &&& before.insts[d.0 as int] == body.insts[d.0 as int]
            &&& taken.inputs.len() == body.insts[d.0 as int].inputs.len()
            &&& inst.inputs == (if compares_unsigned(taken) && takes_any_of(
                taken.inputs,
                before.widened,
            ) {
                env.with_wide_zeros(taken.inputs)
            } else {
                taken.inputs
            })
            &&& inst.form == (if env.is_narrow_address(then, taken) {
                env.widened_inst(taken).form
            } else {
                taken.form
            })
        }),
{
    let env = lowering_env(m.cx);
    let n_funcs = m.funcs.len() as int;
    lemma_lowered_func(m, after, f);
    let body = m.funcs[f.0 as int]->0;
    law_walk(body);
    assert(body.visits_at(n, j, d));
    env.lemma_without_null_uses(env.inst_lowered_body(body));
    env.lemma_lowered_to(body, body.node_order.len(), 0, n_funcs);
    env.lemma_lowered_when_visited(body, n as nat, j as nat, d, n_funcs);
}

/// A value that is no null pointer is taken as it was, with one exception. A comparison of
/// an address that was widened before takes the `u64` zero in place of an integer constant
/// whose value is zero: an `OpConstantNull`, or an `OpConstant` all words of which are zero.
/// No other constant is touched.
pub proof fn law_other_operands_kept(
    m: ModuleView,
    after: ModuleView,
    f: Func,
    n: int,
    j: int,
    d: DataInst,
    i: int,
)
    requires
        m.wf(),
        after.wf(),
        is_lowered(m, after),
        reachable(m, f),
        m.funcs[f.0 as int] is Present,
        stands_at(m.funcs[f.0 as int]->0, n, j, d),
        0 <= i < m.funcs[f.0 as int]->0.insts[d.0 as int].inputs.len(),
        !is_physical_null(after.cx, m.funcs[f.0 as int]->0.insts[d.0 as int].inputs[i]),
        after.funcs[f.0 as int]->0.insts[d.0 as int].inputs[i]
            != m.funcs[f.0 as int]->0.insts[d.0 as int].inputs[i],
    ensures
        ({
            let body = m.funcs[f.0 as int]->0;
            let fixed = after.funcs[f.0 as int]->0;
            let inst = body.insts[d.0 as int];
            let c = inst.inputs[i]->Const_0;
            let def = after.cx.consts[c.0 as int];
            let ty = after.cx.types[def.ty.0 as int];
            &&& is_u64_zero(after.cx, fixed.insts[d.0 as int].inputs[i])
            &&& inst.inputs[i] is Const
            &&& def.kind is SpvInst
            &&& def.kind->spv_inst.opcode == spv().op_constant_null || {
                &&& def.kind->spv_inst.opcode == spv().op_constant
                &&& forall|w: int|
                    0 <= w < def.kind->spv_inst.imms.len() ==> {
                        let imm = #[trigger] def.kind->spv_inst.imms[w];
                        imm is Short && imm->Short_1 == 0
                    }
            }
            &&& ty.kind is SpvInst
            &&& ty.kind->spv_inst.opcode == spv().op_type_int
            &&& !is_u64(ty)
            &&& compares_unsigned(inst)
            &&& exists|k: int|
                0 <= k < inst.inputs.len() && is_widened_before(
                    body,
                    fixed,
                    n,
                    j,
                    #[trigger] inst.inputs[k],
                )
        }),
{
    let env = lowering_env(m.cx);
    let n_funcs = m.funcs.len() as int;
    lemma_lowered_func(m, after, f);
    lemma_u64_zero(m, after);
    let body = m.funcs[f.0 as int]->0;
    let fixed = after.funcs[f.0 as int]->0;
    let inst = body.insts[d.0 as int];
    law_walk(body);
    lemma_lowered_at(m, after, f, n, j, d);
    let b = env.inst_lowered_body(body);
    let before = env.lowered_to(body, n as nat, j as nat);
    let first = before.insts.len() as int;
    let taken = env.without_nulls_inst(inst, first);
    lemma_physical_null(m, after, inst.inputs[i]);
    assert(taken.inputs[i] == inst.inputs[i]);
    assert(env.is_narrow_zero(inst.inputs[i]));
    assert(takes_any_of(taken.inputs, before.widened));
    let k = choose|k: int|
        0 <= k < taken.inputs.len() && (#[trigger] taken.inputs[k] matches Value::DataInstOutput(e)
            && before.widened.contains(e.0));
    let e = taken.inputs[k]->DataInstOutput_0;
    lemma_widened_stands(env, body, n as nat, j as nat, e.0, n_funcs);
    env.lemma_lowered_to(body, n as nat, j as nat, n_funcs);
    assert(DataInst(e.0) == e);
    lemma_old_operand(env, body, n as nat, j as nat, d, k, n_funcs);
    assert(inst.inputs[k] == Value::DataInstOutput(e));
    let end = body.node_order.len();
    env.lemma_settled(body, n as nat, j as nat, end, 0, e.0 as int, n_funcs);
    env.lemma_widened(body, n as nat, j as nat, e.0, n_funcs);
    assert(fixed.insts[e.0 as int] == b.insts[e.0 as int]);
    assert(is_widened_before(body, fixed, n, j, inst.inputs[k]));
    let def = after.cx.consts[inst.inputs[i]->Const_0.0 as int];
    assert(!is_u64(after.cx.types[def.ty.0 as int]));
}

/// An operand that names an old instruction was there before.
proof fn lemma_old_operand(
    env: Env,
    body: BodyView,
    n: nat,
    j: nat,
    d: DataInst,
    k: int,
    n_funcs: int,
)
    requires
        env.wf(),
        body.wf(env.types.len() as int, env.consts.len() as int, n_funcs),
        body.visits_at(n as int, j as int, d),
        env.inst_lowered_body(body).insts.len() <= usize::MAX,
        0 <= k < body.insts[d.0 as int].inputs.len(),
        ({
            let first = env.lowered_to(body, n, j).insts.len() as int;
            let v = env.without_nulls(body.insts[d.0 as int].inputs, first)[k];
            v is DataInstOutput && v->DataInstOutput_0.0 < body.insts.len()
        }),
    ensures
        ({
            let first = env.lowered_to(body, n, j).insts.len() as int;
            let v = env.without_nulls(body.insts[d.0 as int].inputs, first)[k];
            v == body.insts[d.0 as int].inputs[k]
        }),
{
    let values = body.insts[d.0 as int].inputs;
    let before = env.lowered_to(body, n, j);
    let end = body.node_order.len();
    env.lemma_lowered_when_visited(body, n, j, d, n_funcs);
    env.lemma_lowered_to(body, n, j, n_funcs);
    env.lemma_lowered_inst(body, before, d, n_funcs);
    env.lemma_lowered_len(body, n, j + 1, end, 0, n_funcs);
    if env.null_type(values[k]) is Some {
        env.lemma_null_rank(values, k);
    }
}

/// What was widened stands before.
proof fn lemma_widened_stands(env: Env, body: BodyView, n: nat, j: nat, x: usize, n_funcs: int)
    requires
        env.wf(),
        body.wf(env.types.len() as int, env.consts.len() as int, n_funcs),
        n <= body.node_order.len(),
        j > 0 ==> n < body.node_order.len() && j <= body.block(n as int).len(),
        env.lowered_to(body, n, j).widened.contains(x),
    ensures
        x < body.insts.len(),
        body.visits_before(n as int, j as int, DataInst(x)),
    decreases n, j,
{
    if j > 0 {
        let i = (j - 1) as nat;
        let d = body.block(n as int)[i as int];
        assert(body.visits_at(n as int, i as int, d));
        body.lemma_visits_step(n as int, i as int, d);
        if x != d.0 {
            lemma_widened_stands(env, body, n, i, x, n_funcs);
            assert(body.visits_before(n as int, i as int, DataInst(x)));
        } else {
            assert(DataInst(x) == d);
        }
        assert(body.visits_before(n as int, i as int + 1, DataInst(x)));
    } else if n > 0 {
        let len = body.block(n - 1).len();
        lemma_widened_stands(env, body, (n - 1) as nat, len, x, n_funcs);
        body.lemma_visits_next_node(n - 1);
        assert(body.visits_before(n - 1, len as int, DataInst(x)));
    }
}

/// A comparison of an address that was widened before takes the `u64` zero in place of
/// every zero of another integer type, whether that is written as an `OpConstantNull` or
/// as an `OpConstant`.
pub proof fn law_compared_zeros_widened(
    m: ModuleView,
    after: ModuleView,
    f: Func,
    n: int,
    j: int,
    d: DataInst,
    i: int,
    k: int,
)
    requires
        m.wf(),
        after.wf(),
        is_lowered(m, after),
        reachable(m, f),
        m.funcs[f.0 as int] is Present,
        stands_at(m.funcs[f.0 as int]->0, n, j, d),
        compares_unsigned(m.funcs[f.0 as int]->0.insts[d.0 as int]),
        0 <= k < m.funcs[f.0 as int]->0.insts[d.0 as int].inputs.len(),
        is_widened_before(
            m.funcs[f.0 as int]->0,
            after.funcs[f.0 as int]->0,
            n,
            j,
            m.funcs[f.0 as int]->0.insts[d.0 as int].inputs[k],
        ),
        0 <= i < m.funcs[f.0 as int]->0.insts[d.0 as int].inputs.len(),
        m.funcs[f.0 as int]->0.insts[d.0 as int].inputs[i] is Const,
        ({
            let c = m.funcs[f.0 as int]->0.insts[d.0 as int].inputs[i]->Const_0;
            let def = after.cx.consts[c.0 as int];
            let ty = after.cx.types[def.ty.0 as int];
            &&& ty.kind is SpvInst
            &&& ty.kind->spv_inst.opcode == spv().op_type_int
            &&& !is_u64(ty)
            &&& def.kind is SpvInst
            &&& def.kind->spv_inst.opcode == spv().op_constant_null || {
                &&& def.kind->spv_inst.opcode == spv().op_constant
                &&& forall|w: int|
                    0 <= w < def.kind->spv_inst.imms.len() ==> {
                        let imm = #[trigger] def.kind->spv_inst.imms[w];
                        imm is Short && imm->Short_1 == 0
                    }
            }
        }),
    ensures
        is_u64_zero(after.cx, after.funcs[f.0 as int]->0.insts[d.0 as int].inputs[i]),
{
    let env = lowering_env(m.cx);
    let n_funcs = m.funcs.len() as int;
    lemma_lowered_func(m, after, f);
    lemma_u64_zero(m, after);
    let body = m.funcs[f.0 as int]->0;
    let fixed = after.funcs[f.0 as int]->0;
    let inst = body.insts[d.0 as int];
    let e = inst.inputs[k]->DataInstOutput_0;
    law_walk(body);
    lemma_lowered_at(m, after, f, n, j, d);
    let b = env.inst_lowered_body(body);
    let before = env.lowered_to(body, n as nat, j as nat);
    let taken = env.without_nulls_inst(inst, before.insts.len() as int);
    let end = body.node_order.len();
    env.lemma_lowered_to(body, n as nat, j as nat, n_funcs);
    assert(DataInst(e.0) == e);
    let (n2, j2) = choose|n2: int, j2: int|
        stands_at(body, n2, j2, e) && (n2 < n || n2 == n && j2 < j);
    assert(stands_at(body, n2, j2, e));
    assert(body.visits_at(n2, j2, e));
    assert(body.visits_before(n, j, e));
    env.lemma_settled(body, n as nat, j as nat, end, 0, e.0 as int, n_funcs);
    env.lemma_widened(body, n as nat, j as nat, e.0, n_funcs);
    assert(fixed.insts[e.0 as int] == b.insts[e.0 as int]);
    assert(before.widened.contains(e.0));
    assert(taken.inputs[k] == Value::DataInstOutput(e));
    assert(takes_any_of(taken.inputs, before.widened));
    lemma_physical_null(m, after, inst.inputs[i]);
    assert(taken.inputs[i] == inst.inputs[i]);
    assert(env.is_narrow_zero(inst.inputs[i]));
    assert(fixed.insts[d.0 as int].inputs[i] == Value::Const(env.u64_zero));
}

/// When a walk comes to an instruction, the first value that it takes has the type that it
/// had before the pass, unless it is the output of an instruction that was widened.
proof fn lemma_first_operand(env: Env, body: BodyView, n: nat, j: nat, d: DataInst, n_funcs: int)
    requires
        env.wf(),
        body.wf(env.types.len() as int, env.consts.len() as int, n_funcs),
        body.visits_at(n as int, j as int, d),
        env.inst_lowered_body(body).insts.len() <= usize::MAX,
        body.insts[d.0 as int].inputs.len() > 0,
        type_of(env.consts, body, body.insts[d.0 as int].inputs[0]) is Some,
    ensures
        ({
            let before = env.lowered_to(body, n, j);
            let inst = body.insts[d.0 as int];
            let insts = before.insts + env.null_insts(inst.inputs);
            let taken = env.without_nulls_inst(inst, before.insts.len() as int);
            let then = type_of(env.consts, BodyView { insts, ..body }, taken.inputs[0]);
            ||| then == type_of(env.consts, body, inst.inputs[0])
            ||| {
                let e = inst.inputs[0]->DataInstOutput_0;
                &&& inst.inputs[0] is DataInstOutput
                &&& e.0 < body.insts.len()
                &&& then == Some(env.u64_ty)
                &&& before.insts[e.0 as int].form.output_type
                    != body.insts[e.0 as int].form.output_type
            }
        }),
{
    let before = env.lowered_to(body, n, j);
    let values = body.insts[d.0 as int].inputs;
    let first = before.insts.len() as int;
    let insts = before.insts + env.null_insts(values);
    let end = body.node_order.len();
    env.lemma_lowered_when_visited(body, n, j, d, n_funcs);
    env.lemma_lowered_to(body, n, j, n_funcs);
    env.lemma_lowered_inst(body, before, d, n_funcs);
    env.lemma_lowered_len(body, n, j + 1, end, 0, n_funcs);
    if env.null_type(values[0]) is Some {
        assert(values.take(0) =~= Seq::<Value>::empty());
        env.lemma_null_rank(values, 0);
        assert(insts[first] == env.null_inst(env.null_types(values)[0]));
    } else if let Value::DataInstOutput(e) = values[0] {
        assert(insts[e.0 as int] == before.insts[e.0 as int]);
        assert(env.is_kept(body.insts[e.0 as int], before.insts[e.0 as int]));
    }
}

/// What got another type while instructions were lowered.
proof fn lemma_changed_output(env: Env, body: BodyView, n: nat, j: nat, x: DataInst, n_funcs: int)
    requires
        env.wf(),
        body.wf(env.types.len() as int, env.consts.len() as int, n_funcs),
        env.inst_lowered_body(body).insts.len() <= usize::MAX,
        n <= body.node_order.len(),
        j > 0 ==> n < body.node_order.len() && j <= body.block(n as int).len(),
        x.0 < body.insts.len(),
        env.lowered_to(body, n, j).insts[x.0 as int].form.output_type
            != body.insts[x.0 as int].form.output_type,
    ensures
        ({
            let inst = body.insts[x.0 as int];
            let ty = type_of(env.consts, body, inst.inputs[0]);
            &&& inst.form.kind is SpvInst
            &&& inst.form.kind->SpvInst_0.opcode == spv().op_convert_ptr_to_u
            &&& inst.inputs.len() > 0
            &&& ty is Some ==> is_physical(env.types, ty->0)
            &&& env.lowered_to(body, n, j).insts[x.0 as int].form.output_type == Some(env.u64_ty)
            &&& inst.form.output_type != Some(env.u64_ty)
        }),
    decreases n, j,
{
    if j > 0 {
        let i = (j - 1) as nat;
        let before = env.lowered_to(body, n, i);
        let d = body.block(n as int)[i as int];
        assert(body.visits_at(n as int, i as int, d));
        env.lemma_lowered_to(body, n, i, n_funcs);
        env.lemma_lowered_inst(body, before, d, n_funcs);
        if x.0 == d.0 {
            assert(x == d);
            let inst = body.insts[d.0 as int];
            env.lemma_lowered_when_visited(body, n, i, d, n_funcs);
            if inst.inputs.len() > 0 && type_of(env.consts, body, inst.inputs[0]) is Some {
                lemma_first_operand(env, body, n, i, d, n_funcs);
                assert(!is_physical(env.types, env.u64_ty));
            }
        } else {
            assert(env.lowered_to(body, n, j).insts[x.0 as int] == before.insts[x.0 as int]);
            lemma_changed_output(env, body, n, i, x, n_funcs);
        }
    } else if n > 0 {
        lemma_changed_output(env, body, (n - 1) as nat, body.block(n - 1).len(), x, n_funcs);
    }
}

/// An instruction gives a value of another type than before only where it is an
/// `OpConvertPtrToU` of a value whose type is an `OpTypePointer` in the
/// `PhysicalStorageBuffer` storage class, and then it gives a `u64`, and gave something else
/// before. It stands on the walk through a function that the module can reach.
pub proof fn law_only_addresses_widened(m: ModuleView, after: ModuleView, f: Func, x: DataInst)
    requires
        m.wf(),
        after.wf(),
        is_lowered(m, after),
        f.0 < m.funcs.len(),
        m.funcs[f.0 as int] is Present,
        x.0 < m.funcs[f.0 as int]->0.insts.len(),
        after.funcs[f.0 as int]->0.insts[x.0 as int].form.output_type
            != m.funcs[f.0 as int]->0.insts[x.0 as int].form.output_type,
    ensures
        ({
            let body = m.funcs[f.0 as int]->0;
            let inst = body.insts[x.0 as int];
            let output = after.funcs[f.0 as int]->0.insts[x.0 as int].form.output_type;
            let source = type_of(after.cx.consts, body, inst.inputs[0]);
            &&& reachable(m, f)
            &&& exists|n: int, j: int| stands_at(body, n, j, x)
            &&& inst.form.kind is SpvInst
            &&& inst.form.kind->SpvInst_0.opcode == spv().op_convert_ptr_to_u
            &&& inst.inputs.len() > 0
            &&& source is Some ==> {
                let ty = after.cx.types[(source->0).0 as int];
                &&& ty.kind is SpvInst
                &&& ty.kind->spv_inst.opcode == spv().op_type_pointer
                &&& ty.kind->spv_inst.imms.len() == 1
                &&& ty.kind->spv_inst.imms[0] is Short
                &&& ty.kind->spv_inst.imms[0]->Short_1 == spv().physical_storage_buffer
            }
            &&& output is Some
            &&& is_u64(after.cx.types[(output->0).0 as int])
        }),
{
    if !reachable(m, f) {
        law_lower_unreached_kept(m, after, f);
    }
    let env = lowering_env(m.cx);
    let n_funcs = m.funcs.len() as int;
    lemma_lowered_func(m, after, f);
    lemma_u64_zero(m, after);
    law_rest_kept(m, after, f);
    let body = m.funcs[f.0 as int]->0;
    law_walk(body);
    assert(body.visits(x));
    let end = body.node_order.len();
    env.lemma_lowered_to(body, end, 0, n_funcs);
    env.lemma_without_null_uses(env.inst_lowered_body(body));
    lemma_changed_output(env, body, end, 0, x, n_funcs);
}

/// Every `OpConvertPtrToU`, on the walk through a function that the module can reach, of a
/// value whose type is an `OpTypePointer` in the `PhysicalStorageBuffer` storage class gives
/// a `u64`. (What an `OpConvertPtrToU` gives is no pointer.)
pub proof fn law_physical_addresses_widened(
    m: ModuleView,
    after: ModuleView,
    f: Func,
    n: int,
    j: int,
    d: DataInst,
)
    requires
        m.wf(),
        after.wf(),
        is_lowered(m, after),
        reachable(m, f),
        m.funcs[f.0 as int] is Present,
        stands_at(m.funcs[f.0 as int]->0, n, j, d),
        ({
            let body = m.funcs[f.0 as int]->0;
            let inst = body.insts[d.0 as int];
            let source = type_of(after.cx.consts, body, inst.inputs[0]);
            let ty = after.cx.types[(source->0).0 as int];
            &&& inst.form.kind is SpvInst
            &&& inst.form.kind->SpvInst_0.opcode == spv().op_convert_ptr_to_u
            &&& inst.inputs.len() > 0
            &&& source is Some
            &&& ty.kind is SpvInst
            &&& ty.kind->spv_inst.opcode == spv().op_type_pointer
            &&& ty.kind->spv_inst.imms.len() == 1
            &&& ty.kind->spv_inst.imms[0] is Short
            &&& ty.kind->spv_inst.imms[0]->Short_1 == spv().physical_storage_buffer
            &&& inst.inputs[0] matches Value::DataInstOutput(e) ==> {
                let kind = body.insts[e.0 as int].form.kind;
                !(kind is SpvInst && kind->SpvInst_0.opcode == spv().op_convert_ptr_to_u)
            }
        }),
    ensures
        ({
            let output = after.funcs[f.0 as int]->0.insts[d.0 as int].form.output_type;
            &&& output is Some
            &&& is_u64(after.cx.types[(output->0).0 as int])
        }),
{
    let env = lowering_env(m.cx);
    let n_funcs = m.funcs.len() as int;
    lemma_lowered_at(m, after, f, n, j, d);
    lemma_u64_zero(m, after);
    let body = m.funcs[f.0 as int]->0;
    let inst = body.insts[d.0 as int];
    lemma_first_operand(env, body, n as nat, j as nat, d, n_funcs);
    if let Value::DataInstOutput(e) = inst.inputs[0] {
        let before = env.lowered_to(body, n as nat, j as nat);
        if before.insts[e.0 as int].form.output_type
            != body.insts[e.0 as int].form.output_type {
            lemma_changed_output(env, body, n as nat, j as nat, e, n_funcs);
        }
    }
}

/// The block with new instructions at the start of the function: it is none of the first
/// `n_nodes` nodes, and the `k`-th on the walk. It comes right behind an entry that is a
/// block, and is the entry where there is no such.
pub open spec fn is_start_block(body: BodyView, n_nodes: int, k: int) -> bool {
    &&& 0 <= k < body.node_order.len()
    &&& body.node_order[k].0 >= n_nodes
    &&& body.entry == Some(body.node_order[0])
    &&& k == 0 || k == 1 && body.nodes[body.node_order[0].0 as int].kind is Block
}

/// `fixed` is what becomes of value `v` where a region hands it on or a node takes it: a
/// null pointer becomes a `u64` zero that a new instruction in the new block at the start of
/// the function converts to the type that the null pointer had. Any other stays as it is.
pub open spec fn is_use_lowered(
    cx: ContextView,
    body: BodyView,
    n_insts: int,
    n_nodes: int,
    v: Value,
    fixed: Value,
) -> bool {
    if is_physical_null(cx, v) {
        let x = fixed->DataInstOutput_0;
        &&& fixed is DataInstOutput
        &&& n_insts <= x.0 < body.insts.len()
        &&& converts_zero(cx, body.insts[x.0 as int], cx.consts[v->Const_0.0 as int].ty)
        &&& exists|k: int, q: int| #[trigger]
            stands_at(body, k, q, x) && is_start_block(body, n_nodes, k)
    } else {
        fixed == v
    }
}

/// The same of several values, one by one.
pub open spec fn are_uses_lowered(
    cx: ContextView,
    body: BodyView,
    n_insts: int,
    n_nodes: int,
    values: Seq<Value>,
    fixed: Seq<Value>,
) -> bool {
    &&& fixed.len() == values.len()
    &&& forall|i: int|
        0 <= i < values.len() ==> is_use_lowered(
            cx,
            body,
            n_insts,
            n_nodes,
            values[i],
            #[trigger] fixed[i],
        )
}

/// What a region hands on, and what a selection, a loop and an exit take, stays as it was,
/// but for null pointers, which become `u64` zeros that are converted to the same types at
/// the start of the function.
pub proof fn law_handed_on_nulls_are_converted(m: ModuleView, after: ModuleView, f: Func)
    requires
        m.wf(),
        after.wf(),
        is_lowered(m, after),
        reachable(m, f),
        m.funcs[f.0 as int] is Present,
    ensures
        after.funcs[f.0 as int] is Present,
        ({
            let body = m.funcs[f.0 as int]->0;
            let fixed = after.funcs[f.0 as int]->0;
            let n_insts = body.insts.len() as int;
            let n_nodes = body.nodes.len() as int;
            let lowered = |values: Seq<Value>, new: Seq<Value>|
                are_uses_lowered(after.cx, fixed, n_insts, n_nodes, values, new);
            &&& fixed.regions.len() == body.regions.len()
            &&& forall|r: int|
                0 <= r < body.regions.len() ==> {
                    let old = body.regions[r];
                    let new = #[trigger] fixed.regions[r];
                    &&& lowered(old.outputs, new.outputs)
                    &&& lowered(old.exit_inputs, new.exit_inputs)
                }
            &&& forall|c: int|
                0 <= c < body.nodes.len() ==> match (
                    body.nodes[c].kind,
                    (#[trigger] fixed.nodes[c]).kind,
                ) {
                    (NodeKindView::Block { .. }, NodeKindView::Block { .. }) => true,
                    (
                        NodeKindView::Select { scrutinee },
                        NodeKindView::Select { scrutinee: new },
                    ) => lowered(seq![scrutinee], seq![new]),
                    (
                        NodeKindView::Loop { initial_inputs, repeat_condition },
                        NodeKindView::Loop {
                            initial_inputs: new_inputs,
                            repeat_condition: new_condition,
                        },
                    ) => {
                        &&& lowered(initial_inputs, new_inputs)
                        &&& lowered(seq![repeat_condition], seq![new_condition])
                    },
                    (
                        NodeKindView::ExitInvocation { inputs },
                        NodeKindView::ExitInvocation { inputs: new_inputs },
                    ) => lowered(inputs, new_inputs),
                    _ => false,
                }
        }),
{
    let env = lowering_env(m.cx);
    let body = m.funcs[f.0 as int]->0;
    let fixed = after.funcs[f.0 as int]->0;
    law_null_uses_are_converted_zeros(m, after, f);
    law_rest_kept(m, after, f);
    assert forall|r: int| 0 <= r < body.regions.len() implies {
        let old = body.regions[r];
        let new = #[trigger] fixed.regions[r];
        &&& are_uses_lowered_of(m, after, f, old.outputs, new.outputs)
        &&& are_uses_lowered_of(m, after, f, old.exit_inputs, new.exit_inputs)
    } by {
        let old = body.regions[r];
        let new = fixed.regions[r];
        let k = old.outputs.len() as int;
        assert(new.values().len() == old.values().len());
        lemma_uses_lowered(m, after, f, old.values(), new.values(), 0, k);
        lemma_uses_lowered(m, after, f, old.values(), new.values(), k, old.values().len() as int);
        assert(old.values().subrange(0, k) =~= old.outputs);
        assert(new.values().subrange(0, k) =~= new.outputs);
        assert(old.values().subrange(k, old.values().len() as int) =~= old.exit_inputs);
        assert(new.values().subrange(k, old.values().len() as int) =~= new.exit_inputs);
    }
    assert forall|c: int| 0 <= c < body.nodes.len() implies are_node_uses_lowered(
        m,
        after,
        f,
        body.nodes[c],
        #[trigger] fixed.nodes[c],
    ) by {
        lemma_node_uses_lowered(m, after, f, body.nodes[c], fixed.nodes[c]);
    }
}

spec fn are_uses_lowered_of(
    m: ModuleView,
    after: ModuleView,
    f: Func,
    values: Seq<Value>,
    fixed: Seq<Value>,
) -> bool {
    let body = m.funcs[f.0 as int]->0;
    are_uses_lowered(
        after.cx,
        after.funcs[f.0 as int]->0,
        body.insts.len() as int,
        body.nodes.len() as int,
        values,
        fixed,
    )
}

spec fn are_node_uses_lowered(
    m: ModuleView,
    after: ModuleView,
    f: Func,
    node: NodeView,
    fixed: NodeView,
) -> bool {
    match (node.kind, fixed.kind) {
        (NodeKindView::Block { .. }, NodeKindView::Block { .. }) => true,
        (
            NodeKindView::Select { scrutinee },
            NodeKindView::Select { scrutinee: new },
        ) => are_uses_lowered_of(m, after, f, seq![scrutinee], seq![new]),
        (
            NodeKindView::Loop { initial_inputs, repeat_condition },
            NodeKindView::Loop { initial_inputs: new_inputs, repeat_condition: new_condition },
        ) => {
            &&& are_uses_lowered_of(m, after, f, initial_inputs, new_inputs)
            &&& are_uses_lowered_of(m, after, f, seq![repeat_condition], seq![new_condition])
        },
        (
            NodeKindView::ExitInvocation { inputs },
            NodeKindView::ExitInvocation { inputs: new_inputs },
        ) => are_uses_lowered_of(m, after, f, inputs, new_inputs),
        _ => false,
    }
}

proof fn lemma_node_uses_lowered(
    m: ModuleView,
    after: ModuleView,
    f: Func,
    node: NodeView,
    fixed: NodeView,
)
    requires
        m.wf(),
        after.wf(),
        is_lowered(m, after),
        reachable(m, f),
        m.funcs[f.0 as int] is Present,
        is_same_kind(node.kind, fixed.kind),
        are_converted_at_start(
            lowering_env(m.cx),
            after.funcs[f.0 as int]->0,
            m.funcs[f.0 as int]->0.nodes.len() as int,
            node.values(),
            fixed.values(),
        ),
    ensures
        are_node_uses_lowered(m, after, f, node, fixed),
{
    let old = node.values();
    let new = fixed.values();
    let len = old.len() as int;
    lemma_uses_lowered(m, after, f, old, new, 0, len);
    assert(old.subrange(0, len) =~= old);
    assert(new.subrange(0, len) =~= new);
    match (node.kind, fixed.kind) {
        (
            NodeKindView::Loop { initial_inputs, repeat_condition },
            NodeKindView::Loop { initial_inputs: new_inputs, repeat_condition: new_condition },
        ) => {
            lemma_uses_lowered(m, after, f, old, new, 0, len - 1);
            lemma_uses_lowered(m, after, f, old, new, len - 1, len);
            assert(old.subrange(0, len - 1) =~= initial_inputs);
            assert(new.subrange(0, len - 1) =~= new_inputs);
            assert(old.subrange(len - 1, len) =~= seq![repeat_condition]);
            assert(new.subrange(len - 1, len) =~= seq![new_condition]);
        },
        _ => {},
    }
}

/// Uses that are converted at the start of the function are lowered.
proof fn lemma_uses_lowered(
    m: ModuleView,
    after: ModuleView,
    f: Func,
    values: Seq<Value>,
    fixed: Seq<Value>,
    from: int,
    to: int,
)
    requires
        m.wf(),
        after.wf(),
        is_lowered(m, after),
        reachable(m, f),
        m.funcs[f.0 as int] is Present,
        are_converted_at_start(
            lowering_env(m.cx),
            after.funcs[f.0 as int]->0,
            m.funcs[f.0 as int]->0.nodes.len() as int,
            values,
            fixed,
        ),
        0 <= from <= to <= values.len(),
    ensures
        are_uses_lowered_of(m, after, f, values.subrange(from, to), fixed.subrange(from, to)),
{
    let env = lowering_env(m.cx);
    let body = m.funcs[f.0 as int]->0;
    let last = after.funcs[f.0 as int]->0;
    let n_insts = body.insts.len() as int;
    let n_nodes = body.nodes.len() as int;
    lemma_u64_zero(m, after);
    lemma_lowered_func(m, after, f);
    law_rest_kept(m, after, f);
    law_walk(last);
    let old = values.subrange(from, to);
    let new = fixed.subrange(from, to);
    assert forall|i: int| 0 <= i < old.len() implies is_use_lowered(
        after.cx,
        last,
        n_insts,
        n_nodes,
        old[i],
        #[trigger] new[i],
    ) by {
        let v = values[from + i];
        let w = fixed[from + i];
        assert(old[i] == v);
        assert(new[i] == w);
        lemma_physical_null(m, after, v);
        if let Some(ty) = env.null_type(v) {
            assert(is_converted_at_start(env, last, n_nodes, w, ty));
            let x = w->DataInstOutput_0;
            let (k, q) = choose|k: int, q: int| #[trigger]
                last.visits_at(k, q, x) && is_new_start(last, n_nodes, k);
            assert(last.visits_at(k, q, x));
            assert(stands_at(last, k, q, x));
            assert(is_start_block(last, n_nodes, k));
            let start = ControlNode(n_nodes as usize);
            assert(last.node_order[k].0 < last.nodes.len()) by {
                assert(last.walk_wf());
            }
            assert(last.node_order[k] == start);
            assert(last.nodes[start.0 as int].insts()[q] == x);
        }
    }
}

/// Nothing else changes. There are as many functions as before, an imported one is
/// imported, and one that the module cannot reach is as it was. An instruction keeps its
/// attributes, what it does and how many values it takes. Regions keep the types of their
/// inputs, nodes those of their outputs. At most one node is new, and it is a block at the
/// start of the function; all others are walked in the order that they had.
pub proof fn law_lower_keeps_the_rest(m: ModuleView, after: ModuleView, f: Func)
    requires
        m.wf(),
        after.wf(),
        is_lowered(m, after),
        f.0 < m.funcs.len(),
    ensures
        after.funcs.len() == m.funcs.len(),
        after.exports == m.exports,
        after.global_vars == m.global_vars,
        m.funcs[f.0 as int] is Imported ==> after.funcs[f.0 as int] is Imported,
        !reachable(m, f) ==> after.funcs[f.0 as int] == m.funcs[f.0 as int],
        m.funcs[f.0 as int] is Present ==> after.funcs[f.0 as int] is Present && {
            let body = m.funcs[f.0 as int]->0;
            let fixed = after.funcs[f.0 as int]->0;
            let start = ControlNode(body.nodes.len() as usize);
            let behind_entry = body.entry is Some && body.nodes[(
            body.entry->0).0 as int].kind is Block;
            &&& fixed.regions.len() == body.regions.len()
            &&& forall|r: int|
                0 <= r < body.regions.len() ==> (#[trigger] fixed.regions[r]).inputs
                    == body.regions[r].inputs
            &&& forall|c: int|
                0 <= c < body.nodes.len() ==> (#[trigger] fixed.nodes[c]).outputs
                    == body.nodes[c].outputs
            &&& fixed.nodes.len() == body.nodes.len() ==> {
                &&& fixed.node_order == body.node_order
                &&& fixed.entry == body.entry
            }
            &&& fixed.nodes.len() != body.nodes.len() ==> {
                &&& fixed.nodes.len() == body.nodes.len() + 1
                &&& fixed.nodes[start.0 as int].kind is Block
                &&& forall|p: int|
                    0 <= p < fixed.nodes[start.0 as int].kind->insts.len() ==> (
                    #[trigger] fixed.nodes[start.0 as int].kind->insts[p]).0 >= body.insts.len()
                &&& behind_entry ==> fixed.entry == body.entry && fixed.node_order
                    == body.node_order.insert(1, start)
                &&& !behind_entry ==> fixed.entry == Some(start) && fixed.node_order
                    == body.node_order.insert(0, start)
            }
            &&& fixed.insts.len() >= body.insts.len()
            &&& forall|x: int|
                0 <= x < body.insts.len() ==> {
                    &&& (#[trigger] fixed.insts[x]).attrs == body.insts[x].attrs
                    &&& fixed.insts[x].form.kind == body.insts[x].form.kind
                    &&& fixed.insts[x].inputs.len() == body.insts[x].inputs.len()
                }
            &&& forall|x: DataInst|
                x.0 < body.insts.len() && #[trigger] fixed.insts[x.0 as int]
                    != body.insts[x.0 as int] ==> exists|n: int, j: int|
                    stands_at(body, n, j, x)
        },
{
    assert(Func(f.0) == f);
    if reachable(m, f) {
        if let FuncView::Present(body) = m.funcs[f.0 as int] {
            law_rest_kept(m, after, f);
            law_walk(body);
            let fixed = after.funcs[f.0 as int]->0;
            let env = lowering_env(m.cx);
            assert forall|x: int| 0 <= x < body.insts.len() implies {
                &&& (#[trigger] fixed.insts[x]).attrs == body.insts[x].attrs
                &&& fixed.insts[x].form.kind == body.insts[x].form.kind
                &&& fixed.insts[x].inputs.len() == body.insts[x].inputs.len()
            } by {
                assert(env.is_kept(body.insts[x], fixed.insts[x]));
            }
            if fixed.nodes.len() != body.nodes.len() {
                let start = ControlNode(body.nodes.len() as usize);
                assert forall|p: int|
                    0 <= p < fixed.nodes[start.0 as int].kind->insts.len() implies (
                #[trigger] fixed.nodes[start.0 as int].kind->insts[p]).0 >= body.insts.len() by {
                    assert(fixed.nodes[start.0 as int].insts()[p].0 >= body.insts.len());
                }
            }
            assert forall|x: DataInst|
                x.0 < body.insts.len() && #[trigger] fixed.insts[x.0 as int]
                    != body.insts[x.0 as int] implies exists|n: int, j: int|
                stands_at(body, n, j, x) by {
                assert(body.visits(x));
            }
        }
    } else {
        law_lower_unreached_kept(m, after, f);
    }
}

/// A constant is offending exactly where it is an `OpConstantNull` whose type is an
/// `OpTypePointer` in the `PhysicalStorageBuffer` storage class, and what is given for it is
/// that type.
pub proof fn law_offending_nulls(types: Seq<TypeDefView>, consts: Seq<ConstDefView>, c: Const)
    ensures
        ({
            let def = consts[c.0 as int];
            let ty = types[def.ty.0 as int];
            let offending = def.kind is SpvInst && def.kind->spv_inst.opcode
                == spv().op_constant_null && ty.kind is SpvInst && ty.kind->spv_inst.opcode
                == spv().op_type_pointer && ty.kind->spv_inst.imms.len() == 1
                && ty.kind->spv_inst.imms[0] is Short && ty.kind->spv_inst.imms[0]->Short_1
                == spv().physical_storage_buffer;
            null_pointer_type(types, consts, c) == (if offending {
                Some(def.ty)
            } else {
                None
            })
        }),
{
}

/// Two operands that were null pointers take the outputs of two instructions, whether they
/// are operands of one instruction or of two.
pub proof fn law_conversions_not_shared(
    m: ModuleView,
    after: ModuleView,
    f: Func,
    n: int,
    j: int,
    d: DataInst,
    i: int,
    n2: int,
    j2: int,
    d2: DataInst,
    i2: int,
)
    requires
        m.wf(),
        after.wf(),
        is_lowered(m, after),
        reachable(m, f),
        m.funcs[f.0 as int] is Present,
        stands_at(m.funcs[f.0 as int]->0, n, j, d),
        0 <= i < m.funcs[f.0 as int]->0.insts[d.0 as int].inputs.len(),
        is_physical_null(after.cx, m.funcs[f.0 as int]->0.insts[d.0 as int].inputs[i]),
        stands_at(m.funcs[f.0 as int]->0, n2, j2, d2),
        0 <= i2 < m.funcs[f.0 as int]->0.insts[d2.0 as int].inputs.len(),
        is_physical_null(after.cx, m.funcs[f.0 as int]->0.insts[d2.0 as int].inputs[i2]),
        d != d2 || i != i2,
    ensures
        after.funcs[f.0 as int]->0.insts[d.0 as int].inputs[i]
            != after.funcs[f.0 as int]->0.insts[d2.0 as int].inputs[i2],
{
    let env = lowering_env(m.cx);
    let n_funcs = m.funcs.len() as int;
    let body = m.funcs[f.0 as int]->0;
    let v = body.insts[d.0 as int].inputs[i];
    let v2 = body.insts[d2.0 as int].inputs[i2];
    lemma_lowered_at(m, after, f, n, j, d);
    lemma_lowered_at(m, after, f, n2, j2, d2);
    lemma_physical_null(m, after, v);
    lemma_physical_null(m, after, v2);
    let c = v->Const_0;
    let c2 = v2->Const_0;
    let ty = after.cx.consts[c.0 as int].ty;
    let ty2 = after.cx.consts[c2.0 as int].ty;
    let p = lemma_null_converted(m, after, f, n as nat, j as nat, d, i, c, ty);
    let p2 = lemma_null_converted(m, after, f, n2 as nat, j2 as nat, d2, i2, c2, ty2);
    if d == d2 {
        assert(n == n2 && j == j2);
        if i < i2 {
            env.lemma_null_rank_unique(body.insts[d.0 as int].inputs, i, i2);
        } else {
            env.lemma_null_rank_unique(body.insts[d.0 as int].inputs, i2, i);
        }
    } else if n < n2 || n == n2 && j < j2 {
        lemma_converted_earlier(env, body, n as nat, j as nat, d, i, n2 as nat, j2 as nat, n_funcs);
    } else {
        assert(!(n == n2 && j == j2));
        lemma_converted_earlier(
            env,
            body,
            n2 as nat,
            j2 as nat,
            d2,
            i2,
            n as nat,
            j as nat,
            n_funcs,
        );
    }
}

/// What is converted for an instruction is there before a walk comes to a later one.
proof fn lemma_converted_earlier(
    env: Env,
    body: BodyView,
    n: nat,
    j: nat,
    d: DataInst,
    i: int,
    n2: nat,
    j2: nat,
    n_funcs: int,
)
    requires
        env.wf(),
        body.wf(env.types.len() as int, env.consts.len() as int, n_funcs),
        body.visits_at(n as int, j as int, d),
        n < n2 || n == n2 && j < j2,
        n2 < body.node_order.len(),
        j2 <= body.block(n2 as int).len(),
        0 <= i < body.insts[d.0 as int].inputs.len(),
        env.null_type(body.insts[d.0 as int].inputs[i]) is Some,
    ensures
        env.lowered_to(body, n, j).insts.len() + env.null_types(
            body.insts[d.0 as int].inputs.take(i),
        ).len() < env.lowered_to(body, n2, j2).insts.len(),
{
    let before = env.lowered_to(body, n, j);
    env.lemma_lowered_when_visited(body, n, j, d, n_funcs);
    env.lemma_lowered_to(body, n, j, n_funcs);
    env.lemma_lowered_inst(body, before, d, n_funcs);
    env.lemma_null_rank(body.insts[d.0 as int].inputs, i);
    env.lemma_lowered_len(body, n, j + 1, n2, j2, n_funcs);
}

/// The `i`-th operand of an instruction that stands in `body` was a null pointer, and in
/// `fixed` it is the output of instruction `x`.
pub open spec fn takes_for_null(
    cx: ContextView,
    body: BodyView,
    fixed: BodyView,
    n: int,
    j: int,
    d: DataInst,
    i: int,
    x: DataInst,
) -> bool {
    &&& stands_at(body, n, j, d)
    &&& 0 <= i < body.insts[d.0 as int].inputs.len()
    &&& is_physical_null(cx, body.insts[d.0 as int].inputs[i])
    &&& fixed.insts[d.0 as int].inputs[i] == Value::DataInstOutput(x)
}

/// Nothing is converted for nothing. Every new instruction gives what an instruction takes
/// in place of a null pointer, or stands in the new block at the start of the function.
pub proof fn law_new_insts_are_taken(m: ModuleView, after: ModuleView, f: Func, x: DataInst)
    requires
        m.wf(),
        after.wf(),
        is_lowered(m, after),
        reachable(m, f),
        m.funcs[f.0 as int] is Present,
        m.funcs[f.0 as int]->0.insts.len() <= x.0,
        x.0 < after.funcs[f.0 as int]->0.insts.len(),
    ensures
        ({
            let body = m.funcs[f.0 as int]->0;
            let fixed = after.funcs[f.0 as int]->0;
            ||| exists|n: int, j: int, d: DataInst, i: int|
                takes_for_null(after.cx, body, fixed, n, j, d, i, x)
            ||| exists|k: int, q: int| #[trigger]
                stands_at(fixed, k, q, x) && is_start_block(fixed, body.nodes.len() as int, k)
        }),
{
    let env = lowering_env(m.cx);
    let n_funcs = m.funcs.len() as int;
    lemma_lowered_func(m, after, f);
    let body = m.funcs[f.0 as int]->0;
    let fixed = after.funcs[f.0 as int]->0;
    let b = env.inst_lowered_body(body);
    let end = body.node_order.len();
    env.lemma_without_null_uses(b);
    env.lemma_without_null_uses_wf(b, n_funcs);
    if x.0 < b.insts.len() {
        let (n, j, i) = lemma_added_for(env, body, end, 0, x.0 as int, n_funcs);
        let d = body.block(n as int)[j as int];
        let v = body.insts[d.0 as int].inputs[i];
        law_walk(body);
        assert(body.visits_at(n as int, j as int, d));
        assert(stands_at(body, n as int, j as int, d));
        lemma_physical_null(m, after, v);
        let c = v->Const_0;
        let ty = after.cx.consts[c.0 as int].ty;
        let p = lemma_null_converted(m, after, f, n, j, d, i, c, ty);
        assert(DataInst(x.0) == x);
        assert(takes_for_null(after.cx, body, fixed, n as int, j as int, d, i, x));
    } else {
        let k = b.start_place();
        let q = x.0 - b.insts.len();
        env.lemma_visits_new(b, q);
        law_walk(fixed);
        assert(fixed.visits_at(k, q, DataInst((b.insts.len() + q) as usize)));
        assert(stands_at(fixed, k, q, x));
        if k == 1 {
            assert(env.place_without_null_uses(b, 0) == 0);
            assert(fixed.node_order[0] == b.node_order[0]);
            let c = b.node_order[0].0 as int;
            assert(fixed.nodes[c] == env.nodes_without_nulls(b)[c]);
        }
        assert(is_start_block(fixed, body.nodes.len() as int, k));
    }
}

/// The place for which an instruction was added while instructions were lowered.
proof fn lemma_added_for(
    env: Env,
    body: BodyView,
    n: nat,
    j: nat,
    x: int,
    n_funcs: int,
) -> (place: (nat, nat, int))
    requires
        env.wf(),
        body.wf(env.types.len() as int, env.consts.len() as int, n_funcs),
        n <= body.node_order.len(),
        j > 0 ==> n < body.node_order.len() && j <= body.block(n as int).len(),
        body.insts.len() <= x < env.lowered_to(body, n, j).insts.len(),
    ensures
        ({
            let (n2, j2, i) = place;
            let d = body.block(n2 as int)[j2 as int];
            let values = body.insts[d.0 as int].inputs;
            &&& n2 < body.node_order.len()
            &&& j2 < body.block(n2 as int).len()
            &&& 0 <= i < values.len()
            &&& env.null_type(values[i]) is Some
            &&& x == env.lowered_to(body, n2, j2).insts.len() + env.null_types(
                values.take(i),
            ).len()
        }),
    decreases n, j,
{
    if j > 0 {
        let k = (j - 1) as nat;
        let before = env.lowered_to(body, n, k);
        let d = body.block(n as int)[k as int];
        assert(body.visits_at(n as int, k as int, d));
        if x < before.insts.len() {
            lemma_added_for(env, body, n, k, x, n_funcs)
        } else {
            env.lemma_lowered_when_visited(body, n, k, d, n_funcs);
            env.lemma_lowered_to(body, n, k, n_funcs);
            env.lemma_lowered_inst(body, before, d, n_funcs);
            let i = lemma_of_rank(env, body.insts[d.0 as int].inputs, x - before.insts.len());
            (n, k, i)
        }
    } else {
        lemma_added_for(env, body, (n - 1) as nat, body.block(n - 1).len(), x, n_funcs)
    }
}

/// The null pointer with a given place among the null pointers.
proof fn lemma_of_rank(env: Env, values: Seq<Value>, r: int) -> (i: int)
    requires
        0 <= r < env.null_types(values).len(),
    ensures
        0 <= i < values.len(),
        env.null_type(values[i]) is Some,
        env.null_types(values.take(i)).len() == r,
    decreases values.len(),
{
    let rest = values.drop_last();
    let last = values.len() - 1;
    assert(values.take(last) =~= rest);
    if r < env.null_types(rest).len() {
        let i = lemma_of_rank(env, rest, r);
        assert(rest.take(i) =~= values.take(i));
        i
    } else {
        last
    }
}

/// Of the instructions of a block none is lost or moved: without the new ones, they are
/// those that it had, in the order that they had. A block that is not on the walk stays as
/// it is.
pub proof fn law_blocks_keep_order(m: ModuleView, after: ModuleView, f: Func, c: ControlNode)
    requires
        m.wf(),
        after.wf(),
        is_lowered(m, after),
        reachable(m, f),
        m.funcs[f.0 as int] is Present,
        c.0 < m.funcs[f.0 as int]->0.nodes.len(),
        m.funcs[f.0 as int]->0.nodes[c.0 as int].kind is Block,
    ensures
        after.funcs[f.0 as int] is Present,
        ({
            let body = m.funcs[f.0 as int]->0;
            let old = body.nodes[c.0 as int].kind;
            let new = after.funcs[f.0 as int]->0.nodes[c.0 as int].kind;
            &&& new is Block
            &&& body.node_order.contains(c) ==> new->insts.filter(
                |x: DataInst| x.0 < body.insts.len(),
            ) == old->insts
            &&& !body.node_order.contains(c) ==> new->insts == old->insts
        }),
{
    let env = lowering_env(m.cx);
    let n_funcs = m.funcs.len() as int;
    lemma_lowered_func(m, after, f);
    law_rest_kept(m, after, f);
    let body = m.funcs[f.0 as int]->0;
    let fixed = after.funcs[f.0 as int]->0;
    let b = env.inst_lowered_body(body);
    assert(ControlNode(c.0) == c);
    assert(b.nodes[c.0 as int] == env.lowered_node(body, c.0 as int));
    env.lemma_without_null_uses(b);
    assert(fixed.nodes[c.0 as int].insts() == b.nodes[c.0 as int].insts());
    assert(is_same_kind(body.nodes[c.0 as int].kind, fixed.nodes[c.0 as int].kind));
    if body.node_order.contains(c) {
        let n = body.node_order.index_of(c);
        let k = new_place(body, fixed, n);
        law_order_kept(m, after, f, n as nat);
        assert(body.block(n) == body.nodes[c.0 as int].kind->insts);
        lemma_new_place(env, b, n, n_funcs);
        assert(fixed.node_order[k] == c);
        assert(fixed.block(k) == fixed.nodes[c.0 as int].kind->insts);
    }
}

/// One of the values was a null pointer, and is now the output of instruction `x`.
pub open spec fn is_for_null(
    cx: ContextView,
    values: Seq<Value>,
    fixed: Seq<Value>,
    x: DataInst,
) -> bool {
    exists|i: int|
        0 <= i < values.len() && is_physical_null(cx, values[i]) && #[trigger] fixed[i]
            == Value::DataInstOutput(x)
}

/// Instruction `x` gives what region `r` hands on in place of a null pointer.
pub open spec fn is_handed_on_for_null(
    cx: ContextView,
    body: BodyView,
    fixed: BodyView,
    r: int,
    x: DataInst,
) -> bool {
    &&& 0 <= r < body.regions.len()
    &&& {
        ||| is_for_null(cx, body.regions[r].outputs, fixed.regions[r].outputs, x)
        ||| is_for_null(cx, body.regions[r].exit_inputs, fixed.regions[r].exit_inputs, x)
    }
}

/// Instruction `x` gives what node `c` takes in place of a null pointer.
pub open spec fn is_taken_by_node_for_null(
    cx: ContextView,
    body: BodyView,
    fixed: BodyView,
    c: int,
    x: DataInst,
) -> bool {
    &&& 0 <= c < body.nodes.len()
    &&& match (body.nodes[c].kind, fixed.nodes[c].kind) {
        (
            NodeKindView::Select { scrutinee },
            NodeKindView::Select { scrutinee: new },
        ) => is_for_null(cx, seq![scrutinee], seq![new], x),
        (
            NodeKindView::Loop { initial_inputs, repeat_condition },
            NodeKindView::Loop { initial_inputs: new_inputs, repeat_condition: new_condition },
        ) => {
            ||| is_for_null(cx, initial_inputs, new_inputs, x)
            ||| is_for_null(cx, seq![repeat_condition], seq![new_condition], x)
        },
        (
            NodeKindView::ExitInvocation { inputs },
            NodeKindView::ExitInvocation { inputs: new_inputs },
        ) => is_for_null(cx, inputs, new_inputs, x),
        _ => false,
    }
}

/// A region hands on what instruction `x` gives, or a node takes it, in place of a null
/// pointer.
pub open spec fn is_used_for_null(
    cx: ContextView,
    body: BodyView,
    fixed: BodyView,
    x: DataInst,
) -> bool {
    ||| exists|r: int| is_handed_on_for_null(cx, body, fixed, r, x)
    ||| exists|c: int| is_taken_by_node_for_null(cx, body, fixed, c, x)
}

/// There is a new block only where it is needed: everything in it is handed on by a region,
/// or taken by a selection, a loop or an exit, in place of a null pointer, and there is
/// something in it.
pub proof fn law_start_block_is_in_use(m: ModuleView, after: ModuleView, f: Func)
    requires
        m.wf(),
        after.wf(),
        is_lowered(m, after),
        reachable(m, f),
        m.funcs[f.0 as int] is Present,
        after.funcs[f.0 as int]->0.nodes.len() != m.funcs[f.0 as int]->0.nodes.len(),
    ensures
        ({
            let body = m.funcs[f.0 as int]->0;
            let fixed = after.funcs[f.0 as int]->0;
            let start = fixed.nodes[body.nodes.len() as int].kind;
            &&& start is Block
            &&& start->insts.len() > 0
            &&& forall|q: int|
                0 <= q < start->insts.len() ==> is_used_for_null(
                    after.cx,
                    body,
                    fixed,
                    #[trigger] start->insts[q],
                )
        }),
{
    let env = lowering_env(m.cx);
    let n_funcs = m.funcs.len() as int;
    lemma_lowered_func(m, after, f);
    law_rest_kept(m, after, f);
    let body = m.funcs[f.0 as int]->0;
    let fixed = after.funcs[f.0 as int]->0;
    let b = env.inst_lowered_body(body);
    env.lemma_without_null_uses(b);
    let uses = b.uses();
    let start = fixed.nodes[body.nodes.len() as int].kind;
    assert(env.null_types(uses).len() > 0);
    assert(start->insts == new_insts(b.insts.len() as int, fixed.insts.len() as int));
    assert(start->insts.len() == env.null_types(uses).len());
    assert forall|q: int| 0 <= q < start->insts.len() implies is_used_for_null(
        after.cx,
        body,
        fixed,
        #[trigger] start->insts[q],
    ) by {
        let x = start->insts[q];
        assert(x == DataInst((b.insts.len() + q) as usize));
        let t = lemma_of_rank(env, uses, q);
        lemma_physical_null(m, after, uses[t]);
        if t < b.uses_before_region(b.regions.len()).len() {
            b.lemma_region_uses_prefix(b.regions.len());
            let (r, i) = lemma_use_of_region(b, b.regions.len(), t);
            lemma_handed_on(m, after, f, r, i, t, q);
            assert(is_handed_on_for_null(after.cx, body, fixed, r, x));
        } else {
            let (c, i) = lemma_use_of_node(b, b.nodes.len(), t);
            lemma_taken_by_node(m, after, f, c, i, t, q);
            assert(is_taken_by_node_for_null(after.cx, body, fixed, c, x));
        }
    }
}

/// The region that hands on one of the uses.
proof fn lemma_use_of_region(body: BodyView, n: nat, t: int) -> (place: (int, int))
    requires
        n <= body.regions.len(),
        0 <= t < body.uses_before_region(n).len(),
    ensures
        0 <= place.0 < n,
        0 <= place.1 < body.regions[place.0].values().len(),
        t == body.uses_before_region(place.0 as nat).len() + place.1,
    decreases n,
{
    let before = body.uses_before_region((n - 1) as nat);
    if t < before.len() {
        lemma_use_of_region(body, (n - 1) as nat, t)
    } else {
        (n - 1, t - before.len())
    }
}

/// The node that takes one of the uses.
proof fn lemma_use_of_node(body: BodyView, n: nat, t: int) -> (place: (int, int))
    requires
        n <= body.nodes.len(),
        body.uses_before_region(body.regions.len()).len() <= t < body.uses_before_node(n).len(),
    ensures
        0 <= place.0 < n,
        0 <= place.1 < body.nodes[place.0].values().len(),
        t == body.uses_before_node(place.0 as nat).len() + place.1,
    decreases n,
{
    let before = body.uses_before_node((n - 1) as nat);
    if t < before.len() {
        lemma_use_of_node(body, (n - 1) as nat, t)
    } else {
        (n - 1, t - before.len())
    }
}

/// What stands in place of one of the uses.
proof fn lemma_in_place_of_use(
    env: Env,
    body: BodyView,
    before: Seq<Value>,
    values: Seq<Value>,
    i: int,
)
    requires
        (before + values).is_prefix_of(body.uses()),
        0 <= i < values.len(),
        env.null_type(body.uses()[before.len() + i]) is Some,
    ensures
        body.uses()[before.len() + i] == values[i],
        ({
            let first = (body.insts.len() + env.null_types(before).len()) as int;
            let q = env.null_types(body.uses().take(before.len() + i)).len();
            env.without_nulls(values, first)[i] == Value::DataInstOutput(
                DataInst((body.insts.len() + q) as usize),
            )
        }),
{
    let uses = body.uses();
    let t = before.len() + i;
    assert((before + values)[t] == values[i]);
    assert(uses[t] == values[i]);
    assert(uses.take(t) =~= before + values.take(i)) by {
        assert forall|q: int| 0 <= q < t implies uses[q] == (before + values.take(i))[q] by {
            assert(uses[q] == (before + values)[q]);
        }
    }
    env.lemma_null_types_add(before, values.take(i));
}

proof fn lemma_handed_on(
    m: ModuleView,
    after: ModuleView,
    f: Func,
    r: int,
    i: int,
    t: int,
    q: int,
)
    requires
        m.wf(),
        after.wf(),
        is_lowered(m, after),
        reachable(m, f),
        m.funcs[f.0 as int] is Present,
        ({
            let env = lowering_env(m.cx);
            let body = m.funcs[f.0 as int]->0;
            let b = env.inst_lowered_body(body);
            &&& 0 <= r < body.regions.len()
            &&& 0 <= i < b.regions[r].values().len()
            &&& t == b.uses_before_region(r as nat).len() + i
            &&& 0 <= t < b.uses().len()
            &&& env.null_type(b.uses()[t]) is Some
            &&& q == env.null_types(b.uses().take(t)).len()
        }),
    ensures
        ({
            let body = m.funcs[f.0 as int]->0;
            let b = lowering_env(m.cx).inst_lowered_body(body);
            let x = DataInst((b.insts.len() + q) as usize);
            is_handed_on_for_null(after.cx, body, after.funcs[f.0 as int]->0, r, x)
        }),
{
    let env = lowering_env(m.cx);
    lemma_lowered_func(m, after, f);
    let body = m.funcs[f.0 as int]->0;
    let fixed = after.funcs[f.0 as int]->0;
    let b = env.inst_lowered_body(body);
    let x = DataInst((b.insts.len() + q) as usize);
    let before = b.uses_before_region(r as nat);
    let values = b.regions[r].values();
    let first = (b.insts.len() + env.null_types(before).len()) as int;
    b.lemma_region_uses_prefix((r + 1) as nat);
    assert(b.uses_before_region((r + 1) as nat) == before + values);
    lemma_in_place_of_use(env, b, before, values, i);
    env.lemma_region_values(b.regions[r], first);
    lemma_physical_null(m, after, values[i]);
    let old = body.regions[r];
    let new = fixed.regions[r];
    assert(new == env.region_without_nulls(old, first));
    assert(new.values()[i] == Value::DataInstOutput(x));
    if i < old.outputs.len() {
        assert(old.outputs[i] == values[i]);
        assert(new.outputs[i] == new.values()[i]);
    } else {
        let k = i - old.outputs.len();
        assert(old.exit_inputs[k] == values[i]);
        assert(new.exit_inputs[k] == new.values()[i]);
    }
}

proof fn lemma_taken_by_node(
    m: ModuleView,
    after: ModuleView,
    f: Func,
    c: int,
    i: int,
    t: int,
    q: int,
)
    requires
        m.wf(),
        after.wf(),
        is_lowered(m, after),
        reachable(m, f),
        m.funcs[f.0 as int] is Present,
        ({
            let env = lowering_env(m.cx);
            let body = m.funcs[f.0 as int]->0;
            let b = env.inst_lowered_body(body);
            &&& 0 <= c < body.nodes.len()
            &&& 0 <= i < b.nodes[c].values().len()
            &&& t == b.uses_before_node(c as nat).len() + i
            &&& 0 <= t < b.uses().len()
            &&& env.null_type(b.uses()[t]) is Some
            &&& q == env.null_types(b.uses().take(t)).len()
        }),
    ensures
        ({
            let body = m.funcs[f.0 as int]->0;
            let b = lowering_env(m.cx).inst_lowered_body(body);
            let x = DataInst((b.insts.len() + q) as usize);
            is_taken_by_node_for_null(after.cx, body, after.funcs[f.0 as int]->0, c, x)
        }),
{
    let env = lowering_env(m.cx);
    lemma_lowered_func(m, after, f);
    let body = m.funcs[f.0 as int]->0;
    let fixed = after.funcs[f.0 as int]->0;
    let b = env.inst_lowered_body(body);
    let x = DataInst((b.insts.len() + q) as usize);
    let before = b.uses_before_node(c as nat);
    let values = b.nodes[c].values();
    let first = (b.insts.len() + env.null_types(before).len()) as int;
    b.lemma_node_uses_prefix((c + 1) as nat);
    assert(b.uses_before_node((c + 1) as nat) == before + values);
    lemma_in_place_of_use(env, b, before, values, i);
    env.lemma_node_values(b.nodes[c], first);
    lemma_physical_null(m, after, values[i]);
    assert(b.nodes[c] == env.lowered_node(body, c));
    assert(fixed.nodes[c] == env.nodes_without_nulls(b)[c]);
    let new = fixed.nodes[c].values();
    assert(new[i] == Value::DataInstOutput(x));
    match (body.nodes[c].kind, fixed.nodes[c].kind) {
        (NodeKindView::Select { scrutinee }, NodeKindView::Select { scrutinee: s2 }) => {
            assert(seq![scrutinee][0] == values[0]);
            assert(seq![s2][0] == new[0]);
            assert(is_for_null(after.cx, seq![scrutinee], seq![s2], x));
        },
        (
            NodeKindView::Loop { initial_inputs, repeat_condition },
            NodeKindView::Loop { initial_inputs: new_inputs, repeat_condition: new_condition },
        ) => {
            if i < initial_inputs.len() {
                assert(initial_inputs[i] == values[i]);
                assert(new_inputs[i] == new[i]);
            } else {
                assert(seq![repeat_condition][0] == values[i]);
                assert(seq![new_condition][0] == new[i]);
                assert(is_for_null(
                    after.cx,
                    seq![repeat_condition],
                    seq![new_condition],
                    x,
                ));
            }
        },
        _ => {},
    }
}

} // verus!
