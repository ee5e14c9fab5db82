//! Lowers instructions with physical null pointers, one after the other.

use crate::collections::{
    add_handle, const_note, has_handle, indices_in, set_const_note, typed_indices_in, IndexVec,
    TypedIndexVec,
};
use crate::context::{
    interned, lemma_interned_form_wf, same_output_type, Context, ContextView, ModuleView,
};
use crate::edit::{insert_inst, set_form};
use crate::ir::{
    BodyView, Const, ConstKind, ControlNode, ControlNodeKind, DataInst, DataInstFormDef,
    DataInstKind, DataInstKindView, DataInstView, FormView, Func, FuncDefBody, Type, TypeKind,
    Value,
};
use crate::lists::lemma_contains_push;
use crate::lowering::{
    has_typed_source, is_comparison, new_insts, null_pointer_type, takes_any_of, Env, Lowering,
};
use crate::reach::{reachable, Worklist};
use crate::spirv::{Imm, Inst, Opcode};
use crate::types::{
    is_physical_pointer, lemma_same_type_of, lemma_type_of_in_range, type_of, value_type,
};
use crate::well_known::{spv, WellKnown};
use rustc_data_structures::fx::{FxHashMap, FxHashSet};
use vstd::prelude::*;

verus! {

/// The type of constant `c`, where that is the null of a physical pointer type.
pub fn offending_null_pointer_type(cx: &Context, wk: &WellKnown, c: Const) -> (ty: Option<Type>)
    requires
        *wk == spv(),
        c.0 < cx@.consts.len(),
        cx@.consts[c.0 as int].ty.0 < cx@.types.len(),
    ensures
        ty == null_pointer_type(cx@.types, cx@.consts, c),
{
    assert(cx@.consts[c.0 as int] == cx.consts@[c.0 as int]@);
    let const_def = &cx.consts[c.0];
    match &const_def.kind {
        ConstKind::SpvInst { spv_inst, .. } => {
            if spv_inst.opcode != wk.op_constant_null {
                return None;
            }
            if !is_physical_pointer(cx, wk, const_def.ty) {
                return None;
            }
            Some(const_def.ty)
        },
        _ => None,
    }
}

/// The pass over one module.
pub struct Lowerer {
    pub wk: WellKnown,
    pub u64_ty: Type,
    pub u64_zero: Const,
    /// Which constants were looked at, and what came of it.
    pub offending: FxHashMap<usize, Option<Type>>,
    pub work: Worklist,
    /// The conversions to an integer that give a `u64` and did not before.
    pub widened_ptr_to_u: FxHashSet<usize>,
}

impl Lowerer {
    /// The types and constants that the pass works with.
    pub open spec fn env(self, cx: ContextView) -> Env {
        Env {
            types: cx.types,
            consts: cx.consts,
            u64_ty: self.u64_ty,
            u64_zero: self.u64_zero,
        }
    }

    /// What was noted of constants is so.
    pub open spec fn wf(self, cx: ContextView) -> bool {
        &&& self.wk == spv()
        &&& self.env(cx).wf()
        &&& forall|c: usize| #[trigger]
            self.offending@.dom().contains(c) ==> c < cx.consts.len() && self.offending@[c]
                == null_pointer_type(cx.types, cx.consts, Const(c))
    }

    /// The type of constant `c`, where that is the null of a physical pointer type. It is
    /// noted, and need not be found again.
    pub fn classify(&mut self, cx: &Context, c: Const) -> (ty: Option<Type>)
        requires
            old(self).wf(cx@),
            c.0 < cx@.consts.len(),
        ensures
            final(self).wf(cx@),
            *final(self) == (Lowerer { offending: final(self).offending, ..*old(self) }),
            ty == null_pointer_type(cx@.types, cx@.consts, c),
            final(self).offending@ == old(self).offending@.insert(c.0, ty),
    {
        assert(Const(c.0) == c);
        if let Some(cached) = const_note(&self.offending, c.0) {
            assert(self.offending@.insert(c.0, cached) =~= self.offending@);
            return cached;
        }
        let result = offending_null_pointer_type(cx, &self.wk, c);
        set_const_note(&mut self.offending, c.0, result);
        result
    }

    /// Where the physical null pointers are among the inputs of an instruction.
    fn null_inputs(&mut self, cx: &Context, inputs: &Vec<Value>) -> (places: TypedIndexVec)
        requires
            old(self).wf(cx@),
            forall|i: int|
                0 <= i < inputs@.len() ==> (#[trigger] inputs@[i] matches Value::Const(c) ==> c.0
                    < cx@.consts.len()),
        ensures
            final(self).wf(cx@),
            *final(self) == (Lowerer { offending: final(self).offending, ..*old(self) }),
            are_null_places(old(self).env(cx@), inputs@, typed_indices_in(places)),
    {
        let ghost env = self.env(cx@);
        let mut places = TypedIndexVec::new();
        let mut i: usize = 0;
        assert(inputs@.take(0) =~= Seq::<Value>::empty());
        while i < inputs.len()
            invariant
                self.wf(cx@),
                *self == (Lowerer { offending: self.offending, ..*old(self) }),
                env == self.env(cx@),
                forall|i: int|
                    0 <= i < inputs@.len() ==> (#[trigger] inputs@[i] matches Value::Const(c)
                        ==> c.0 < cx@.consts.len()),
                i <= inputs@.len(),
                typed_indices_in(places).len() == env.null_types(inputs@.take(i as int)).len(),
                forall|r: int|
                    0 <= r < typed_indices_in(places).len() ==> is_null_place(
                        env,
                        inputs@,
                        r,
                        #[trigger] typed_indices_in(places)[r],
                    ),
            decreases inputs@.len() - i,
        {
            let ghost before = typed_indices_in(places);
            proof {
                env.lemma_null_types_step(inputs@, i as int);
            }
            if let Value::Const(c) = inputs[i] {
                if let Some(ty) = self.classify(cx, c) {
                    places.push((i, ty));
                    assert(is_null_place(
                        env,
                        inputs@,
                        before.len() as int,
                        typed_indices_in(places)[before.len() as int],
                    ));
                }
            }
            i = i + 1;
        }
        assert(inputs@.take(i as int) =~= inputs@);
        places
    }
}

/// The values with the outputs of instructions `first`, `first + 1` and so on in
/// place of the first `r` physical null pointers.
spec fn partly_without_nulls(env: Env, values: Seq<Value>, first: int, r: int) -> Seq<Value> {
    Seq::new(
        values.len(),
        |i: int|
            if env.null_type(values[i]) is Some && env.null_types(values.take(i)).len() < r {
                Value::DataInstOutput(
                    DataInst((first + env.null_types(values.take(i)).len()) as usize),
                )
            } else {
                values[i]
            },
    )
}

/// The body with new instructions for the first `r` physical null pointers that
/// instruction `d` takes, which stand from place `pos` of block `node`.
spec fn with_null_insts(
    env: Env,
    body: BodyView,
    node: ControlNode,
    pos: int,
    d: DataInst,
    r: int,
) -> BodyView {
    let inst = body.insts[d.0 as int];
    let first = body.insts.len() as int;
    let def = body.nodes[node.0 as int];
    BodyView {
        insts: (body.insts + env.null_insts(inst.inputs).take(r)).update(
            d.0 as int,
            DataInstView { inputs: partly_without_nulls(env, inst.inputs, first, r), ..inst },
        ),
        nodes: body.nodes.update(
            node.0 as int,
            def.with_insts(
                def.insts().take(pos) + new_insts(first, first + r) + def.insts().skip(pos),
            ),
        ),
        ..body
    }
}

/// With no new instructions, the body is as it was.
proof fn lemma_no_null_insts(env: Env, body: BodyView, node: ControlNode, pos: int, d: DataInst)
    requires
        d.0 < body.insts.len(),
        node.0 < body.nodes.len(),
        0 <= pos <= body.nodes[node.0 as int].insts().len(),
    ensures
        with_null_insts(env, body, node, pos, d, 0) == body,
{
    let inst = body.insts[d.0 as int];
    let first = body.insts.len() as int;
    let def = body.nodes[node.0 as int];
    let after = with_null_insts(env, body, node, pos, d, 0);
    assert(partly_without_nulls(env, inst.inputs, first, 0) =~= inst.inputs);
    assert(after.insts =~= body.insts);
    assert(def.insts().take(pos) + new_insts(first, first) + def.insts().skip(pos) =~= def.insts());
    assert(after.nodes =~= body.nodes);
}

/// With one more new instruction.
proof fn lemma_next_null_inst(
    env: Env,
    body: BodyView,
    node: ControlNode,
    pos: int,
    d: DataInst,
    r: int,
    idx: int,
    ty: Type,
)
    requires
        d.0 < body.insts.len(),
        node.0 < body.nodes.len(),
        body.nodes[node.0 as int].kind is Block,
        0 <= pos <= body.nodes[node.0 as int].insts().len(),
        0 <= idx < body.insts[d.0 as int].inputs.len(),
        env.null_type(body.insts[d.0 as int].inputs[idx]) == Some(ty),
        env.null_types(body.insts[d.0 as int].inputs.take(idx)).len() == r,
        body.insts.len() + r <= usize::MAX,
    ensures
        0 <= r < env.null_types(body.insts[d.0 as int].inputs).len(),
        ({
            let before = with_null_insts(env, body, node, pos, d, r);
            let added = before.with_new_inst(node, pos + r, env.null_inst(ty));
            let inst = added.insts[d.0 as int];
            let v = Value::DataInstOutput(DataInst(before.insts.len() as usize));
            &&& before.insts.len() == body.insts.len() + r
            &&& added.with_inst(d, DataInstView { inputs: inst.inputs.update(idx, v), ..inst })
                == with_null_insts(env, body, node, pos, d, r + 1)
        }),
{
    let old_inst = body.insts[d.0 as int];
    let values = old_inst.inputs;
    let first = body.insts.len() as int;
    let def = body.nodes[node.0 as int];
    let list = def.insts();
    let before = with_null_insts(env, body, node, pos, d, r);
    let added = before.with_new_inst(node, pos + r, env.null_inst(ty));
    let inst = added.insts[d.0 as int];
    let v = Value::DataInstOutput(DataInst(before.insts.len() as usize));
    let after = added.with_inst(d, DataInstView { inputs: inst.inputs.update(idx, v), ..inst });
    let goal = with_null_insts(env, body, node, pos, d, r + 1);
    env.lemma_null_rank(values, idx);
    assert(before.insts.len() == first + r);
    assert(inst.inputs.update(idx, v) =~= partly_without_nulls(env, values, first, r + 1)) by {
        assert forall|i: int| 0 <= i < values.len() implies #[trigger] inst.inputs.update(idx, v)[i]
            == partly_without_nulls(env, values, first, r + 1)[i] by {
            if i < idx && env.null_type(values[i]) is Some {
                env.lemma_null_rank_unique(values, i, idx);
            }
            if i > idx && env.null_type(values[i]) is Some {
                env.lemma_null_rank_unique(values, idx, i);
            }
        }
    }
    assert(env.null_insts(values).take(r + 1) =~= env.null_insts(values).take(r).push(
        env.null_inst(ty),
    ));
    assert(after.insts =~= goal.insts);
    let old_list = list.take(pos) + new_insts(first, first + r) + list.skip(pos);
    let new_list = list.take(pos) + new_insts(first, first + r + 1) + list.skip(pos);
    assert(old_list.insert(pos + r, DataInst((first + r) as usize)) =~= new_list);
    assert(after.nodes =~= goal.nodes);
}

/// The `r`-th null pointer among `values` is of the type, and at the place, that
/// `place` says.
spec fn is_null_place(env: Env, values: Seq<Value>, r: int, place: (usize, Type)) -> bool {
    &&& place.0 < values.len()
    &&& env.null_type(values[place.0 as int]) == Some(place.1)
    &&& env.null_types(values.take(place.0 as int)).len() == r
}

/// `places` are those of the null pointers among `values`, in order.
spec fn are_null_places(env: Env, values: Seq<Value>, places: Seq<(usize, Type)>) -> bool {
    &&& places.len() == env.null_types(values).len()
    &&& forall|r: int|
        0 <= r < places.len() ==> is_null_place(env, values, r, #[trigger] places[r])
}

/// Every form after the first `first_form` is that of an instruction from
/// `first_inst` on.
spec fn forms_of_new_insts(
    forms: Seq<FormView>,
    first_form: int,
    insts: Seq<DataInstView>,
    first_inst: int,
) -> bool {
    forall|h: int|
        first_form <= h < forms.len() ==> is_form_of_new_inst(#[trigger] forms[h], insts, first_inst)
}

/// `form` is that of an instruction from `first_inst` on.
pub open spec fn is_form_of_new_inst(
    form: FormView,
    insts: Seq<DataInstView>,
    first_inst: int,
) -> bool {
    exists|x: int| first_inst <= x < insts.len() && (#[trigger] insts[x]).form == form
}

impl Lowerer {
    /// Has an instruction take converted zeros in place of physical null pointers.
    fn rewrite_nulls(
        &mut self,
        cx: &mut Context,
        body: &mut FuncDefBody,
        node: ControlNode,
        pos: usize,
        d: DataInst,
        Ghost(n_funcs): Ghost<int>,
    )
        requires
            old(self).wf(old(cx)@),
            old(cx)@.wf(n_funcs),
            old(body).forms_within(old(cx)@.forms.len() as int),
            d.0 < old(body).data_insts@.len(),
            old(body).view_in(old(cx)@.forms).insts[d.0 as int].wf(
                old(cx)@.types.len() as int,
                old(cx)@.consts.len() as int,
                n_funcs,
            ),
            node.0 < old(body).control_nodes@.len(),
            old(body).control_nodes@[node.0 as int].kind is Block,
            pos <= old(body).control_nodes@[node.0 as int]@.insts().len(),
        ensures
            final(self).wf(final(cx)@),
            *final(self) == (Lowerer { offending: final(self).offending, ..*old(self) }),
            final(cx)@.wf(n_funcs),
            final(cx)@.types == old(cx)@.types,
            final(cx)@.consts == old(cx)@.consts,
            old(cx)@.forms.is_prefix_of(final(cx)@.forms),
            final(body).forms_within(final(cx)@.forms.len() as int),
            ({
                let env = old(self).env(old(cx)@);
                let before = old(body).view_in(old(cx)@.forms);
                let k = env.null_types(before.insts[d.0 as int].inputs).len() as int;
                let after = final(body).view_in(final(cx)@.forms);
                &&& after == with_null_insts(env, before, node, pos as int, d, k)
                &&& forms_of_new_insts(
                    final(cx)@.forms,
                    old(cx)@.forms.len() as int,
                    after.insts,
                    before.insts.len() as int,
                )
            }),
    {
        let ghost env = self.env(cx@);
        let ghost before = body.view_in(cx@.forms);
        let ghost old_forms = cx@.forms;
        let ghost values = before.insts[d.0 as int].inputs;
        assert(before.insts[d.0 as int] == body.data_insts@[d.0 as int].view_in(cx@.forms));
        assert(before.nodes[node.0 as int] == body.control_nodes@[node.0 as int]@);
        assert(before.insts.len() == body.data_insts.len());
        let places = self.null_inputs(cx, &body.data_insts[d.0].inputs);
        let to_rewrite = places.as_slice();
        proof {
            lemma_no_null_insts(env, before, node, pos as int, d);
            assert(old_forms =~= old_forms.subrange(0, old_forms.len() as int));
        }
        let mut r: usize = 0;
        while r < to_rewrite.len()
            invariant
                self.wf(cx@),
                env == self.env(cx@),
                self.u64_zero == old(self).u64_zero,
                cx@.wf(n_funcs),
                cx@.types == env.types,
                cx@.consts == env.consts,
                old_forms.is_prefix_of(cx@.forms),
                body.forms_within(cx@.forms.len() as int),
                d.0 < before.insts.len(),
                values == before.insts[d.0 as int].inputs,
                before.insts[d.0 as int].wf(
                    env.types.len() as int,
                    env.consts.len() as int,
                    n_funcs,
                ),
                node.0 < before.nodes.len(),
                before.nodes[node.0 as int].kind is Block,
                pos <= before.nodes[node.0 as int].insts().len(),
                are_null_places(env, values, to_rewrite@),
                r <= to_rewrite@.len(),
                body.view_in(cx@.forms) == with_null_insts(
                    env,
                    before,
                    node,
                    pos as int,
                    d,
                    r as int,
                ),
                forms_of_new_insts(
                    cx@.forms,
                    old_forms.len() as int,
                    body.view_in(cx@.forms).insts,
                    before.insts.len() as int,
                ),
            decreases to_rewrite@.len() - r,
        {
            let (idx, ptr_ty) = to_rewrite[r];
            let ghost cur = body.view_in(cx@.forms);
            let ghost cur_cx = cx@;
            proof {
                assert(is_null_place(env, values, r as int, to_rewrite@[r as int]));
                assert(cur.insts.len() == before.insts.len() + r);
                assert(cur.insts.len() == body.data_insts.len());
                lemma_next_null_inst(env, before, node, pos as int, d, r as int, idx as int, ptr_ty);
                assert(cur.nodes.len() == body.control_nodes@.len());
                assert(cur.nodes[node.0 as int] == body.control_nodes@[node.0 as int]@);
                if let ControlNodeKind::Block { insts } = body.control_nodes@[node.0 as int].kind {
                    assert(insts.len() >= pos + r);
                }
                assert(values[idx as int] is Const);
                assert(cur.insts[d.0 as int] == body.data_insts@[d.0 as int].view_in(cx@.forms));
            }
            let def = DataInstFormDef {
                kind: DataInstKind::SpvInst(
                    Inst { opcode: self.wk.op_convert_u_to_ptr, imms: Vec::new() },
                ),
                output_type: Some(ptr_ty),
            };
            let mut inputs: Vec<Value> = Vec::new();
            inputs.push(Value::Const(self.u64_zero));
            proof {
                let inst = env.null_inst(ptr_ty);
                assert(def@ =~= inst.form);
                assert(inputs@ =~= inst.inputs);
            }
            let new_inst = insert_inst(cx, body, node, pos + r, def, inputs);
            proof {
                lemma_interned_form_wf(cur_cx, cx@, env.null_inst(ptr_ty).form, n_funcs);
            }
            let ghost added = body.view_in(cx@.forms);
            assert(added.insts.len() == body.data_insts@.len());
            assert(added.insts[d.0 as int] == body.data_insts@[d.0 as int].view_in(cx@.forms));
            body.set_input(d, idx, Value::DataInstOutput(new_inst));
            proof {
                let after = body.view_in(cx@.forms);
                assert forall|h: int| old_forms.len() <= h < cx@.forms.len() implies is_form_of_new_inst(
                    #[trigger] cx@.forms[h],
                    after.insts,
                    before.insts.len() as int,
                ) by {
                    if h < cur_cx.forms.len() {
                        assert(cx@.forms[h] == cur_cx.forms[h]);
                        let x = choose|x: int|
                            before.insts.len() <= x < cur.insts.len() && (#[trigger] cur.insts[x]).form
                                == cur_cx.forms[h];
                        assert(after.insts[x] == cur.insts[x]);
                    } else {
                        let x = cur.insts.len() as int;
                        assert(after.insts[x] == env.null_inst(ptr_ty));
                    }
                }
                assert(old_forms =~= cx@.forms.subrange(0, old_forms.len() as int));
            }
            r = r + 1;
        }
    }
}

/// Whether `op` compares integers for equality or as unsigned numbers.
fn is_compare(wk: &WellKnown, op: Opcode) -> (is: bool)
    requires
        *wk == spv(),
    ensures
        is == is_comparison(op),
{
    op == wk.op_i_equal || op == wk.op_i_not_equal || op == wk.op_u_greater_than || op
        == wk.op_u_greater_than_equal || op == wk.op_u_less_than || op == wk.op_u_less_than_equal
}

/// Whether every immediate is a word that is zero.
fn are_all_zero(imms: &Vec<Imm>) -> (zero: bool)
    ensures
        zero == (forall|i: int|
            0 <= i < imms@.len() ==> (#[trigger] imms@[i] matches Imm::Short(_, word) && word
                == 0)),
{
    let mut i: usize = 0;
    while i < imms.len()
        invariant
            i <= imms@.len(),
            forall|j: int|
                0 <= j < i ==> (#[trigger] imms@[j] matches Imm::Short(_, word) && word == 0),
        decreases imms@.len() - i,
    {
        match imms[i] {
            Imm::Short(_, 0) => {},
            _ => {
                assert(!(imms@[i as int] matches Imm::Short(_, word) && word == 0));
                return false;
            },
        }
        i = i + 1;
    }
    true
}

impl Lowerer {
    /// Whether an instruction converts a physical pointer to an integer that is not
    /// a `u64`.
    fn is_narrow(
        &self,
        cx: &Context,
        body: &FuncDefBody,
        d: DataInst,
        Ghost(n_funcs): Ghost<int>,
    ) -> (narrow: bool)
        requires
            self.wf(cx@),
            cx@.wf(n_funcs),
            body.forms_within(cx@.forms.len() as int),
            body.view_in(cx@.forms).handles_wf(
                cx@.types.len() as int,
                cx@.consts.len() as int,
                n_funcs,
            ),
            d.0 < body.data_insts@.len(),
            has_typed_source(
                self.env(cx@),
                body.view_in(cx@.forms),
                body.view_in(cx@.forms).insts[d.0 as int],
            ),
        ensures
            narrow == self.env(cx@).is_narrow_address(
                body.view_in(cx@.forms),
                body.view_in(cx@.forms).insts[d.0 as int],
            ),
    {
        let ghost view = body.view_in(cx@.forms);
        let def = &body.data_insts[d.0];
        assert(view.insts[d.0 as int] == def.view_in(cx@.forms));
        assert(cx@.forms[def.form.0 as int] == cx.forms@[def.form.0 as int]@);
        let form_def = &cx.forms[def.form.0];
        match &form_def.kind {
            DataInstKind::SpvInst(spv_inst) => {
                if spv_inst.opcode != self.wk.op_convert_ptr_to_u {
                    return false;
                }
                let already_u64 = same_output_type(form_def.output_type, Some(self.u64_ty));
                let src_is_physical = if def.inputs.len() > 0 {
                    proof {
                        lemma_type_of_in_range(cx@, view, def.inputs@[0], n_funcs);
                    }
                    is_physical_pointer(cx, &self.wk, value_type(cx, body, def.inputs[0]))
                } else {
                    false
                };
                !already_u64 && src_is_physical
            },
            _ => false,
        }
    }

    /// Has a conversion of a physical pointer to an integer give a `u64`.
    fn widen(
        &mut self,
        cx: &mut Context,
        body: &mut FuncDefBody,
        d: DataInst,
        Ghost(n_funcs): Ghost<int>,
    )
        requires
            old(self).wf(old(cx)@),
            old(cx)@.wf(n_funcs),
            old(body).forms_within(old(cx)@.forms.len() as int),
            old(body).view_in(old(cx)@.forms).handles_wf(
                old(cx)@.types.len() as int,
                old(cx)@.consts.len() as int,
                n_funcs,
            ),
            d.0 < old(body).data_insts@.len(),
            has_typed_source(
                old(self).env(old(cx)@),
                old(body).view_in(old(cx)@.forms),
                old(body).view_in(old(cx)@.forms).insts[d.0 as int],
            ),
        ensures
            final(self).wf(final(cx)@),
            *final(self) == (Lowerer {
                widened_ptr_to_u: final(self).widened_ptr_to_u,
                ..*old(self)
            }),
            final(cx)@.wf(n_funcs),
            final(cx)@.types == old(cx)@.types,
            final(cx)@.consts == old(cx)@.consts,
            old(cx)@.forms.is_prefix_of(final(cx)@.forms),
            final(body).forms_within(final(cx)@.forms.len() as int),
            ({
                let env = old(self).env(old(cx)@);
                let before = old(body).view_in(old(cx)@.forms);
                let inst = before.insts[d.0 as int];
                let after = final(body).view_in(final(cx)@.forms);
                let widened = final(self).widened_ptr_to_u@;
                if env.is_narrow_address(before, inst) {
                    &&& after == before.with_inst(d, env.widened_inst(inst))
                    &&& final(cx)@.forms == interned(
                        old(cx)@.forms,
                        env.widened_inst(inst).form,
                    )
                    &&& widened == old(self).widened_ptr_to_u@.insert(d.0)
                } else {
                    &&& after == before
                    &&& final(cx)@.forms == old(cx)@.forms
                    &&& widened == old(self).widened_ptr_to_u@
                }
            }),
    {
        assert(cx@.forms =~= cx@.forms.subrange(0, cx@.forms.len() as int));
        if !self.is_narrow(cx, body, d, Ghost(n_funcs)) {
            return;
        }
        let ghost env = self.env(cx@);
        let ghost before = body.view_in(cx@.forms);
        let ghost old_cx = cx@;
        let form = body.data_insts[d.0].form;
        assert(before.insts[d.0 as int] == body.data_insts@[d.0 as int].view_in(cx@.forms));
        assert(cx@.forms[form.0 as int] == cx.forms@[form.0 as int]@);
        if let DataInstKind::SpvInst(spv_inst) = &cx.forms[form.0].kind {
            let def = DataInstFormDef {
                kind: DataInstKind::SpvInst(spv_inst.duplicate()),
                output_type: Some(self.u64_ty),
            };
            assert(def@ == env.widened_inst(before.insts[d.0 as int]).form);
            set_form(cx, body, d, def);
            proof {
                lemma_interned_form_wf(
                    old_cx,
                    cx@,
                    env.widened_inst(before.insts[d.0 as int]).form,
                    n_funcs,
                );
            }
            add_handle(&mut self.widened_ptr_to_u, d.0);
        }
    }

    /// Whether a value is a zero of an integer type other than `u64`.
    fn is_narrow_zero(&self, cx: &Context, v: Value) -> (narrow: bool)
        requires
            self.wf(cx@),
            v matches Value::Const(c) ==> c.0 < cx@.consts.len(),
        ensures
            narrow == self.env(cx@).is_narrow_zero(v),
    {
        match v {
            Value::Const(c) => {
                assert(cx@.consts[c.0 as int] == cx.consts@[c.0 as int]@);
                let const_def = &cx.consts[c.0];
                if const_def.ty == self.u64_ty {
                    return false;
                }
                assert(self.env(cx@).consts[c.0 as int].ty.0 < cx@.types.len());
                assert(cx@.types[const_def.ty.0 as int] == cx.types@[const_def.ty.0 as int]@);
                match &cx.types[const_def.ty.0].kind {
                    TypeKind::SpvInst { spv_inst, .. } => {
                        if spv_inst.opcode != self.wk.op_type_int {
                            return false;
                        }
                    },
                    _ => {
                        return false;
                    },
                }
                match &const_def.kind {
                    ConstKind::SpvInst { spv_inst, .. } => {
                        if spv_inst.opcode == self.wk.op_constant_null {
                            true
                        } else if spv_inst.opcode == self.wk.op_constant {
                            are_all_zero(&spv_inst.imms)
                        } else {
                            false
                        }
                    },
                    _ => false,
                }
            },
            _ => false,
        }
    }

    /// Whether an instruction takes the output of a conversion that was widened.
    fn takes_widened(&self, inputs: &Vec<Value>) -> (takes: bool)
        ensures
            takes == takes_any_of(inputs@, self.widened_ptr_to_u@),
    {
        let mut i: usize = 0;
        while i < inputs.len()
            invariant
                i <= inputs@.len(),
                forall|j: int|
                    0 <= j < i ==> !(#[trigger] inputs@[j] matches Value::DataInstOutput(d)
                        && self.widened_ptr_to_u@.contains(d.0)),
            decreases inputs@.len() - i,
        {
            if let Value::DataInstOutput(d) = inputs[i] {
                if has_handle(&self.widened_ptr_to_u, d.0) {
                    assert(inputs@[i as int] matches Value::DataInstOutput(d)
                        && self.widened_ptr_to_u@.contains(d.0));
                    return true;
                }
            }
            i = i + 1;
        }
        false
    }

    /// Where an instruction takes zeros of integer types other than `u64`.
    fn narrow_zeros(&self, cx: &Context, inputs: &Vec<Value>) -> (places: IndexVec)
        requires
            self.wf(cx@),
            forall|i: int|
                0 <= i < inputs@.len() ==> (#[trigger] inputs@[i] matches Value::Const(c) ==> c.0
                    < cx@.consts.len()),
        ensures
            forall|i: usize| #[trigger]
                indices_in(places).contains(i) <==> i < inputs@.len() && self.env(
                    cx@,
                ).is_narrow_zero(inputs@[i as int]),
    {
        let ghost env = self.env(cx@);
        let mut places = IndexVec::new();
        let mut i: usize = 0;
        while i < inputs.len()
            invariant
                self.wf(cx@),
                env == self.env(cx@),
                forall|i: int|
                    0 <= i < inputs@.len() ==> (#[trigger] inputs@[i] matches Value::Const(c)
                        ==> c.0 < cx@.consts.len()),
                i <= inputs@.len(),
                forall|k: usize| #[trigger]
                    indices_in(places).contains(k) <==> k < i && env.is_narrow_zero(
                        inputs@[k as int],
                    ),
            decreases inputs@.len() - i,
        {
            let ghost before = indices_in(places);
            assert(inputs@[i as int] matches Value::Const(c) ==> c.0 < cx@.consts.len());
            if self.is_narrow_zero(cx, inputs[i]) {
                places.push(i);
                proof {
                    assert forall|k: usize| #[trigger]
                        indices_in(places).contains(k) <==> k <= i && env.is_narrow_zero(
                            inputs@[k as int],
                        ) by {
                        lemma_contains_push(before, i, k);
                    }
                }
            }
            i = i + 1;
        }
        places
    }

    /// Widens the zeros of a comparison with an address that was widened.
    fn patch_comparison(
        &self,
        cx: &Context,
        body: &mut FuncDefBody,
        d: DataInst,
        Ghost(n_funcs): Ghost<int>,
    )
        requires
            self.wf(cx@),
            old(body).forms_within(cx@.forms.len() as int),
            d.0 < old(body).data_insts@.len(),
            old(body).view_in(cx@.forms).insts[d.0 as int].wf(
                cx@.types.len() as int,
                cx@.consts.len() as int,
                n_funcs,
            ),
        ensures
            final(body).forms_within(cx@.forms.len() as int),
            ({
                let before = old(body).view_in(cx@.forms);
                final(body).view_in(cx@.forms) == before.with_inst(
                    d,
                    self.env(cx@).patched_inst(
                        before.insts[d.0 as int],
                        self.widened_ptr_to_u@,
                    ),
                )
            }),
    {
        let ghost env = self.env(cx@);
        let ghost before = body.view_in(cx@.forms);
        let ghost inst = before.insts[d.0 as int];
        let form = body.data_insts[d.0].form;
        proof {
            assert(inst == body.data_insts@[d.0 as int].view_in(cx@.forms));
            assert(cx@.forms[form.0 as int] == cx.forms@[form.0 as int]@);
            assert(before.with_inst(d, inst).insts =~= before.insts);
            assert(inst.inputs.len() == body.data_insts@[d.0 as int].inputs.len());
        }
        match &cx.forms[form.0].kind {
            DataInstKind::SpvInst(spv_inst) => {
                if !is_compare(&self.wk, spv_inst.opcode) {
                    return;
                }
            },
            _ => {
                return;
            },
        }
        if !self.takes_widened(&body.data_insts[d.0].inputs) {
            return;
        }
        let places = self.narrow_zeros(cx, &body.data_insts[d.0].inputs);
        let to_patch = places.as_slice();
        let ghost mut inputs = inst.inputs;
        let mut r: usize = 0;
        while r < to_patch.len()
            invariant
                body.forms_within(cx@.forms.len() as int),
                env == self.env(cx@),
                d.0 < before.insts.len(),
                inst == before.insts[d.0 as int],
                r <= to_patch@.len(),
                forall|i: usize| #[trigger]
                    to_patch@.contains(i) <==> i < inst.inputs.len() && env.is_narrow_zero(
                        inst.inputs[i as int],
                    ),
                inputs.len() == inst.inputs.len() <= usize::MAX,
                forall|i: int|
                    0 <= i < inputs.len() ==> #[trigger] inputs[i] == (if to_patch@.take(
                        r as int,
                    ).contains(i as usize) {
                        Value::Const(env.u64_zero)
                    } else {
                        inst.inputs[i]
                    }),
                body.view_in(cx@.forms) == before.with_inst(d, DataInstView { inputs, ..inst }),
            decreases to_patch@.len() - r,
        {
            let idx = to_patch[r];
            let ghost cur = body.view_in(cx@.forms);
            let ghost cur_inputs = inputs;
            proof {
                assert(to_patch@.contains(idx));
                assert(cur.insts.len() == body.data_insts@.len());
                assert(cur.insts[d.0 as int] == body.data_insts@[d.0 as int].view_in(cx@.forms));
            }
            body.set_input(d, idx, Value::Const(self.u64_zero));
            proof {
                inputs = cur_inputs.update(idx as int, Value::Const(env.u64_zero));
                let after = before.with_inst(d, DataInstView { inputs, ..inst });
                assert(body.view_in(cx@.forms).insts =~= after.insts);
                assert forall|i: int| 0 <= i < inputs.len() implies #[trigger] inputs[i] == (
                if to_patch@.take(r + 1).contains(i as usize) {
                    Value::Const(env.u64_zero)
                } else {
                    inst.inputs[i]
                }) by {
                    let done = to_patch@.take(r as int);
                    assert(to_patch@.take(r + 1) =~= done.push(idx));
                    lemma_contains_push(done, idx, i as usize);
                    assert(i != idx ==> inputs[i] == cur_inputs[i]);
                }
            }
            r = r + 1;
        }
        proof {
            assert(to_patch@.take(r as int) =~= to_patch@);
            assert(inputs =~= env.with_wide_zeros(inst.inputs));
        }
    }
}

/// With all the new instructions that `d` takes, the body is in order, and ready
/// for the rest of what becomes of `d`.
proof fn lemma_all_null_insts(
    env: Env,
    before: BodyView,
    widened: Set<usize>,
    node: ControlNode,
    pos: int,
    d: DataInst,
    n_funcs: int,
)
    requires
        env.wf(),
        before.handles_wf(env.types.len() as int, env.consts.len() as int, n_funcs),
        d.0 < before.insts.len(),
        node.0 < before.nodes.len(),
        has_typed_source(env, before, before.insts[d.0 as int]),
        before.insts.len() + env.null_types(before.insts[d.0 as int].inputs).len() <= usize::MAX,
    ensures
        ({
            let old_inst = before.insts[d.0 as int];
            let k = env.null_types(old_inst.inputs).len() as int;
            let after = with_null_insts(env, before, node, pos, d, k);
            let inst = after.insts[d.0 as int];
            let end = env.lowered_inst(before, Lowering { insts: before.insts, widened }, d);
            &&& after.handles_wf(env.types.len() as int, env.consts.len() as int, n_funcs)
            &&& has_typed_source(env, after, inst)
            &&& end == (if env.is_narrow_address(after, inst) {
                Lowering {
                    insts: after.insts.update(
                        d.0 as int,
                        env.patched_inst(env.widened_inst(inst), widened.insert(d.0)),
                    ),
                    widened: widened.insert(d.0),
                }
            } else {
                Lowering {
                    insts: after.insts.update(d.0 as int, env.patched_inst(inst, widened)),
                    widened,
                }
            })
        }),
{
    let n_types = env.types.len() as int;
    let n_consts = env.consts.len() as int;
    let old_inst = before.insts[d.0 as int];
    let values = old_inst.inputs;
    let first = before.insts.len() as int;
    let k = env.null_types(values).len() as int;
    let after = with_null_insts(env, before, node, pos, d, k);
    let inst = after.insts[d.0 as int];
    let insts = before.insts + env.null_insts(values);
    assert(old_inst.wf(n_types, n_consts, n_funcs));
    assert(env.null_insts(values).take(k) =~= env.null_insts(values));
    assert(partly_without_nulls(env, values, first, k) =~= env.without_nulls(values, first)) by {
        assert forall|i: int| 0 <= i < values.len() implies #[trigger] partly_without_nulls(
            env,
            values,
            first,
            k,
        )[i] == env.without_nulls(values, first)[i] by {
            if env.null_type(values[i]) is Some {
                env.lemma_null_rank(values, i);
            }
        }
    }
    assert(inst == env.without_nulls_inst(old_inst, first));
    env.lemma_null_types_physical(values);
    assert forall|x: int| 0 <= x < after.insts.len() implies (#[trigger] after.insts[x]).wf(
        n_types,
        n_consts,
        n_funcs,
    ) by {
        if x == d.0 {
            assert forall|i: int| 0 <= i < inst.inputs.len() implies (
            #[trigger] inst.inputs[i] matches Value::Const(c) ==> c.0 < n_consts) by {
                assert(values[i] matches Value::Const(c) ==> c.0 < n_consts);
            }
        } else if x < first {
            assert(after.insts[x] == before.insts[x]);
        } else {
            assert(after.insts[x] == env.null_inst(env.null_types(values)[x - first]));
        }
    }
    assert forall|n: int| 0 <= n < after.nodes.len() implies (#[trigger] after.nodes[n]).outputs
        == before.nodes[n].outputs by {}
    assert forall|n: int, i: int|
        0 <= n < after.nodes.len() && 0 <= i < after.nodes[n].outputs.len() implies #[trigger] after.nodes[n].outputs[i].0
        < n_types by {
        assert(before.nodes[n].outputs[i].0 < n_types);
    }
    assert(after.handles_wf(n_types, n_consts, n_funcs));
    if inst.inputs.len() > 0 {
        let source = inst.inputs[0];
        let raw = BodyView { insts, ..before };
        assert forall|x: int| 0 <= x < after.insts.len() implies (
        #[trigger] after.insts[x]).form.output_type == raw.insts[x].form.output_type by {}
        lemma_same_type_of(env.consts, after, raw, source);
        if env.null_type(values[0]) is Some {
            assert(values.take(0) =~= Seq::<Value>::empty());
            env.lemma_null_rank(values, 0);
            assert(source == Value::DataInstOutput(DataInst(first as usize)));
            assert(raw.insts[first] == env.null_inst(env.null_types(values)[0]));
            assert(type_of(env.consts, raw, source) is Some);
        } else {
            assert(source == values[0]);
            if let Value::DataInstOutput(e) = source {
                if e.0 < first {
                    assert(raw.insts[e.0 as int] == before.insts[e.0 as int]);
                }
            }
        }
    }
    assert(insts.update(d.0 as int, inst) =~= after.insts);
    assert(insts.update(d.0 as int, env.patched_inst(inst, widened)) =~= after.insts.update(
        d.0 as int,
        env.patched_inst(inst, widened),
    ));
    let wide = env.patched_inst(env.widened_inst(inst), widened.insert(d.0));
    assert(insts.update(d.0 as int, wide) =~= after.insts.update(d.0 as int, wide));
}

/// Every form after the first `first_form` is that of instruction `d` or of one
/// from `first_inst` on.
pub open spec fn forms_of_changed_insts(
    forms: Seq<FormView>,
    first_form: int,
    insts: Seq<DataInstView>,
    d: DataInst,
    first_inst: int,
) -> bool {
    forall|h: int|
        first_form <= h < forms.len() ==> (#[trigger] forms[h] == insts[d.0 as int].form
            || is_form_of_new_inst(forms[h], insts, first_inst))
}

/// The body after instruction `d`, at place `pos` of block `node`, was lowered.
pub open spec fn lowered_at(
    env: Env,
    body: BodyView,
    widened: Set<usize>,
    node: ControlNode,
    pos: int,
    d: DataInst,
) -> BodyView {
    let end = env.lowered_inst(body, Lowering { insts: body.insts, widened }, d);
    let def = body.nodes[node.0 as int];
    BodyView {
        insts: end.insts,
        nodes: body.nodes.update(
            node.0 as int,
            def.with_insts(
                def.insts().take(pos) + new_insts(
                    body.insts.len() as int,
                    end.insts.len() as int,
                ) + def.insts().skip(pos),
            ),
        ),
        ..body
    }
}

impl Lowerer {
    /// Lowers one instruction, and comes across the function that it calls.
    pub(crate) fn in_place_transform_data_inst_def(
        &mut self,
        cx: &mut Context,
        body: &mut FuncDefBody,
        node: ControlNode,
        pos: usize,
        d: DataInst,
        Ghost(m): Ghost<ModuleView>,
        Ghost(busy): Ghost<Option<Func>>,
    )
        requires
            old(self).wf(old(cx)@),
            old(self).work.tracks(m, old(cx)@.forms, busy),
            old(cx)@.wf(m.funcs.len() as int),
            old(body).forms_within(old(cx)@.forms.len() as int),
            old(body).view_in(old(cx)@.forms).handles_wf(
                old(cx)@.types.len() as int,
                old(cx)@.consts.len() as int,
                m.funcs.len() as int,
            ),
            d.0 < old(body).data_insts@.len(),
            node.0 < old(body).control_nodes@.len(),
            old(body).control_nodes@[node.0 as int].kind is Block,
            pos <= old(body).control_nodes@[node.0 as int]@.insts().len(),
            has_typed_source(
                old(self).env(old(cx)@),
                old(body).view_in(old(cx)@.forms),
                old(body).view_in(old(cx)@.forms).insts[d.0 as int],
            ),
            old(body).view_in(
                old(cx)@.forms,
            ).insts[d.0 as int].form.kind matches DataInstKindView::FuncCall(g) ==> reachable(m, g),
        ensures
            final(self).wf(final(cx)@),
            final(self).u64_ty == old(self).u64_ty,
            final(self).u64_zero == old(self).u64_zero,
            final(self).work.tracks(m, final(cx)@.forms, busy),
            final(self).work.work_left(m.funcs.len() as int) == old(self).work.work_left(
                m.funcs.len() as int,
            ),
            final(self).work.global_var_queue == old(self).work.global_var_queue,
            old(self).work.seen().subset_of(final(self).work.seen()),
            forall|f: Func| #[trigger]
                final(self).work.looked_at(f) <==> old(self).work.looked_at(f),
            old(body).view_in(
                old(cx)@.forms,
            ).insts[d.0 as int].form.kind matches DataInstKindView::FuncCall(g)
                ==> final(self).work.seen().contains(g.0),
            final(cx)@.wf(m.funcs.len() as int),
            final(cx)@.types == old(cx)@.types,
            final(cx)@.consts == old(cx)@.consts,
            old(cx)@.forms.is_prefix_of(final(cx)@.forms),
            final(body).forms_within(final(cx)@.forms.len() as int),
            ({
                let env = old(self).env(old(cx)@);
                let before = old(body).view_in(old(cx)@.forms);
                let widened = old(self).widened_ptr_to_u@;
                let after = final(body).view_in(final(cx)@.forms);
                &&& after == lowered_at(env, before, widened, node, pos as int, d)
                &&& final(self).widened_ptr_to_u@ == env.lowered_inst(
                    before,
                    Lowering { insts: before.insts, widened },
                    d,
                ).widened
                &&& forms_of_changed_insts(
                    final(cx)@.forms,
                    old(cx)@.forms.len() as int,
                    after.insts,
                    d,
                    before.insts.len() as int,
                )
            }),
    {
        let ghost n_funcs = m.funcs.len() as int;
        let ghost env = self.env(cx@);
        let ghost before = body.view_in(cx@.forms);
        let ghost old_forms = cx@.forms;
        let ghost widened = self.widened_ptr_to_u@;
        let form = body.data_insts[d.0].form;
        proof {
            assert(before.insts[d.0 as int] == body.data_insts@[d.0 as int].view_in(cx@.forms));
            assert(before.insts[d.0 as int].wf(
                cx@.types.len() as int,
                cx@.consts.len() as int,
                n_funcs,
            ));
        }
        self.work.transform_data_inst_form_use(cx, form, Ghost(m), Ghost(busy));

        self.rewrite_nulls(cx, body, node, pos, d, Ghost(n_funcs));
        let ghost rewritten = body.view_in(cx@.forms);
        let ghost rewritten_forms = cx@.forms;
        proof {
            assert(rewritten.insts.len() == body.data_insts.len());
            lemma_all_null_insts(env, before, widened, node, pos as int, d, n_funcs);
        }

        self.widen(cx, body, d, Ghost(n_funcs));
        let ghost wide = body.view_in(cx@.forms);
        proof {
            assert(wide.insts.len() == body.data_insts@.len());
            assert(rewritten.insts[d.0 as int].wf(
                cx@.types.len() as int,
                cx@.consts.len() as int,
                n_funcs,
            ));
            assert(old_forms.is_prefix_of(cx@.forms)) by {
                assert(old_forms =~= cx@.forms.subrange(0, old_forms.len() as int));
            }
            self.work.lemma_more_forms(m, old_forms, cx@.forms, busy);
        }

        self.patch_comparison(cx, body, d, Ghost(n_funcs));
        proof {
            let after = body.view_in(cx@.forms);
            let goal = lowered_at(env, before, widened, node, pos as int, d);
            assert(after.insts =~= goal.insts);
            assert(after.nodes =~= goal.nodes);
            assert forall|h: int| old_forms.len() <= h < cx@.forms.len() implies (
            #[trigger] cx@.forms[h] == after.insts[d.0 as int].form || is_form_of_new_inst(
                cx@.forms[h],
                after.insts,
                before.insts.len() as int,
            )) by {
                if h < rewritten_forms.len() {
                    assert(cx@.forms[h] == rewritten_forms[h]);
                    assert(is_form_of_new_inst(
                        rewritten_forms[h],
                        rewritten.insts,
                        before.insts.len() as int,
                    ));
                    let x = choose|x: int|
                        before.insts.len() <= x < rewritten.insts.len() && (
                        #[trigger] rewritten.insts[x]).form == rewritten_forms[h];
                    assert(after.insts[x] == rewritten.insts[x]);
                }
            }
        }
    }
}

} // verus!
