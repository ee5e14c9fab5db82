//! Fits the alignment of loads, stores and copies to the storage classes of
//! their pointers: a physical pointer must be given one, and a logical pointer
//! must not. The alignment that is given is the natural one of what is loaded,
//! stored or copied.

use crate::alignment::{alignment, natural_alignment, FALLBACK_ALIGN};
use crate::context::{
    interned, lemma_interned, lemma_interned_form_wf, types_wf, Context, ContextView, Module,
    ModuleView,
};
use crate::edit::set_form;
use crate::ir::{
    BodyView, DataInst, DataInstFormDef, DataInstKind, DataInstKindView, DataInstView, FormView,
    Func, FuncDecl, FuncDefBody, FuncView, Type, TypeKind, TypeOrConst, Value,
};
use crate::memory_access::{fix_memory_access, Access};
use crate::reach::{reachable, Worklist};
use crate::rewrite::{
    callees_seen, changed_funcs, forms_added, forms_come_from, has_form, is_form_in, is_under_way,
    lemma_callee_reachable, lemma_callees_all, lemma_callees_next_node, lemma_callees_step,
    lemma_forms_in_use, lemma_func_changed, lemma_funcs_changed,
};
use crate::spirv::{same_imms, Inst, InstView, Opcode};
use crate::strip_laws::is_stripped;
use crate::types::{
    lemma_same_type_of, lemma_type_of_in_range, pointer_class, pointer_storage_class, type_of,
    value_type,
};
use crate::well_known::{spv, WellKnown};
use vstd::prelude::*;

verus! {

/// `op` is a load, store or copy.
pub open spec fn is_memory_op(op: Opcode) -> bool {
    op == spv().op_load || op == spv().op_store || op == spv().op_copy_memory
}

/// The storage class of pointer `v` and the type of what it points to. There are
/// none where `v` is not a pointer to something.
pub open spec fn pointer_info(cx: ContextView, body: BodyView, v: Value) -> Option<(u32, Type)> {
    match type_of(cx.consts, body, v) {
        Some(ty) => match pointer_class(cx.types[ty.0 as int]) {
            Some(storage_class) => {
                let inputs = cx.types[ty.0 as int].kind->inputs;
                if inputs.len() > 0 && inputs[0] is Type {
                    Some((storage_class, inputs[0]->Type_0))
                } else {
                    None
                }
            },
            None => None,
        },
        None => None,
    }
}

/// The pointer is physical.
pub open spec fn info_is_physical(info: Option<(u32, Type)>) -> bool {
    info matches Some((storage_class, _)) && storage_class == spv().physical_storage_buffer
}

/// The alignment of what a pointer points to.
pub open spec fn pointee_alignment(cx: ContextView, info: Option<(u32, Type)>) -> nat {
    match info {
        Some((_, pointee)) => alignment(cx.types, pointee),
        None => FALLBACK_ALIGN as nat,
    }
}

/// What there is to know of the pointers of a load, store or copy.
pub open spec fn access_of(
    cx: ContextView,
    body: BodyView,
    op: Opcode,
    inst: DataInstView,
) -> Access {
    let is_copy = op == spv().op_copy_memory;
    let dst_info = pointer_info(cx, body, inst.inputs[0]);
    let src_info = if is_copy {
        pointer_info(cx, body, inst.inputs[1])
    } else {
        dst_info
    };
    let dst_align = if op == spv().op_load && inst.form.output_type is Some {
        alignment(cx.types, inst.form.output_type->0)
    } else if op == spv().op_store {
        alignment(cx.types, type_of(cx.consts, body, inst.inputs[1])->0)
    } else {
        pointee_alignment(cx, dst_info)
    };
    Access {
        is_copy,
        dst_physical: info_is_physical(dst_info),
        src_physical: info_is_physical(src_info),
        dst_align: dst_align as u32,
        src_align: if is_copy {
            pointee_alignment(cx, src_info) as u32
        } else {
            dst_align as u32
        },
    }
}

/// A load, store or copy has the operands that it needs, and they have types.
pub open spec fn is_accessible(cx: ContextView, body: BodyView, inst: DataInstView) -> bool {
    match inst.form.kind {
        DataInstKindView::SpvInst(spv_inst) => is_memory_op(spv_inst.opcode) ==> {
            &&& inst.inputs.len() >= 1
            &&& type_of(cx.consts, body, inst.inputs[0]) is Some
            &&& spv_inst.opcode != spv().op_load ==> inst.inputs.len() >= 2 && type_of(
                cx.consts,
                body,
                inst.inputs[1],
            ) is Some
        },
        _ => true,
    }
}

/// What becomes of an instruction: a load, store or copy has its `MemoryAccess`
/// operands fixed, and nothing else changes.
pub open spec fn stripped_inst(
    cx: ContextView,
    body: BodyView,
    inst: DataInstView,
) -> DataInstView {
    match inst.form.kind {
        DataInstKindView::SpvInst(spv_inst) => if is_memory_op(spv_inst.opcode) {
            DataInstView {
                form: FormView {
                    kind: DataInstKindView::SpvInst(
                        InstView {
                            opcode: spv_inst.opcode,
                            imms: access_of(cx, body, spv_inst.opcode, inst).fixed(spv_inst.imms),
                        },
                    ),
                    output_type: inst.form.output_type,
                },
                ..inst
            }
        } else {
            inst
        },
        _ => inst,
    }
}

/// What becomes of a body: every instruction that a walk reaches is fixed.
pub open spec fn stripped_body(cx: ContextView, body: BodyView) -> BodyView {
    BodyView {
        insts: Seq::new(
            body.insts.len(),
            |d: int|
                if body.visits(DataInst(d as usize)) {
                    stripped_inst(cx, body, body.insts[d])
                } else {
                    body.insts[d]
                },
        ),
        ..body
    }
}

/// What becomes of a function.
pub open spec fn stripped_func(cx: ContextView, func: FuncView) -> FuncView {
    match func {
        FuncView::Imported => FuncView::Imported,
        FuncView::Present(body) => FuncView::Present(stripped_body(cx, body)),
    }
}

/// The loads, stores and copies of a body are in order.
pub open spec fn body_is_accessible(cx: ContextView, body: BodyView) -> bool {
    forall|d: DataInst| #[trigger]
        body.visits(d) ==> is_accessible(cx, body, body.insts[d.0 as int])
}

/// The loads, stores and copies of a function are in order.
pub open spec fn func_is_accessible(cx: ContextView, func: FuncView) -> bool {
    func matches FuncView::Present(body) ==> body_is_accessible(cx, body)
}

/// The loads, stores and copies that the module can reach are in order.
pub open spec fn is_strippable(m: ModuleView) -> bool {
    forall|f: Func| #[trigger] reachable(m, f) ==> func_is_accessible(m.cx, m.funcs[f.0 as int])
}

/// What becomes of the functions of a module.
pub open spec fn stripped_funcs(m: ModuleView) -> Seq<FuncView> {
    changed_funcs(m, |func: FuncView| stripped_func(m.cx, func))
}

/// Instructions that differ in nothing but immediates have the same pointers in bodies
/// that differ in nothing else, and the same instruction is fixed in the same way.
pub proof fn lemma_same_access(
    cx: ContextView,
    a: BodyView,
    inst: DataInstView,
    cx2: ContextView,
    b: BodyView,
    inst2: DataInstView,
)
    requires
        cx.types == cx2.types,
        cx.consts == cx2.consts,
        a.regions == b.regions,
        a.nodes == b.nodes,
        a.insts.len() == b.insts.len(),
        forall|d: int|
            0 <= d < a.insts.len() ==> (#[trigger] a.insts[d]).form.output_type
                == b.insts[d].form.output_type,
        inst.inputs == inst2.inputs,
        inst.form.output_type == inst2.form.output_type,
    ensures
        forall|op: Opcode| #[trigger]
            access_of(cx, a, op, inst) == access_of(cx2, b, op, inst2),
        inst.form.kind == inst2.form.kind || (inst.form.kind is SpvInst && inst2.form.kind is SpvInst
            && inst.form.kind->SpvInst_0.opcode == inst2.form.kind->SpvInst_0.opcode)
            ==> is_accessible(cx, a, inst) == is_accessible(cx2, b, inst2),
        inst == inst2 ==> stripped_inst(cx, a, inst) == stripped_inst(cx2, b, inst2),
{
    lemma_same_type_of(cx.consts, a, b, inst.inputs[0]);
    lemma_same_type_of(cx.consts, a, b, inst.inputs[1]);
}

/// `cur` is `orig` with those instructions fixed that a walk comes to before the
/// `j`-th of its `n`-th node.
spec fn is_partly_stripped(cx: ContextView, orig: BodyView, cur: BodyView, n: int, j: int) -> bool {
    &&& cur.regions == orig.regions
    &&& cur.nodes == orig.nodes
    &&& cur.node_order == orig.node_order
    &&& cur.entry == orig.entry
    &&& cur.insts.len() == orig.insts.len()
    &&& forall|d: DataInst|
        d.0 < orig.insts.len() ==> cur.insts[d.0 as int] == (if #[trigger] orig.visits_before(n, j, d) {
            stripped_inst(cx, orig, orig.insts[d.0 as int])
        } else {
            orig.insts[d.0 as int]
        })
}

/// Every form after the first `first` is that of an instruction that a walk comes to
/// before the `j`-th of its `n`-th node, fixed.
spec fn partial_forms_come_from(
    forms: Seq<FormView>,
    first: int,
    cx: ContextView,
    orig: BodyView,
    n: int,
    j: int,
) -> bool {
    forall|h: int|
        first <= h < forms.len() ==> is_partial_form(#[trigger] forms[h], cx, orig, n, j)
}

/// `form` is that of such an instruction.
spec fn is_partial_form(form: FormView, cx: ContextView, orig: BodyView, n: int, j: int) -> bool {
    exists|d: DataInst| #[trigger]
        orig.visits_before(n, j, d) && stripped_inst(cx, orig, orig.insts[d.0 as int]).form == form
}

/// What is needed to fix the next instruction.
proof fn lemma_step(
    m: ModuleView,
    func: Func,
    orig: BodyView,
    cx: ContextView,
    before: BodyView,
    n: int,
    j: int,
    d: DataInst,
)
    requires
        m.wf(),
        func.0 < m.funcs.len(),
        m.funcs[func.0 as int] == FuncView::Present(orig),
        reachable(m, func),
        func_is_accessible(m.cx, FuncView::Present(orig)),
        cx.types == m.cx.types,
        cx.consts == m.cx.consts,
        is_partly_stripped(m.cx, orig, before, n, j),
        orig.visits_at(n, j, d),
    ensures
        d.0 < before.insts.len(),
        before.insts[d.0 as int] == orig.insts[d.0 as int],
        is_accessible(cx, before, before.insts[d.0 as int]),
        stripped_inst(cx, before, before.insts[d.0 as int]) == stripped_inst(
            m.cx,
            orig,
            orig.insts[d.0 as int],
        ),
        before.wf(cx.types.len() as int, cx.consts.len() as int, m.funcs.len() as int),
        orig.insts[d.0 as int].form.kind matches DataInstKindView::FuncCall(g) ==> reachable(m, g),
{
    let n_types = cx.types.len() as int;
    let n_consts = cx.consts.len() as int;
    let n_funcs = m.funcs.len() as int;
    assert(orig.wf(n_types, n_consts, n_funcs));
    orig.lemma_visits_once(n, j, d);
    assert(orig.visits(d));
    assert forall|i: int| 0 <= i < before.insts.len() implies (#[trigger] before.insts[i]).form.output_type
        == orig.insts[i].form.output_type && before.insts[i].wf(n_types, n_consts, n_funcs) by {
        let x = DataInst(i as usize);
        assert(orig.insts[i].wf(n_types, n_consts, n_funcs));
        assert(before.insts[x.0 as int] == if orig.visits_before(n, j, x) {
            stripped_inst(m.cx, orig, orig.insts[i])
        } else {
            orig.insts[i]
        });
    }
    let inst = orig.insts[d.0 as int];
    lemma_same_access(cx, before, inst, m.cx, orig, inst);
    assert forall|n: int, j: int, d: DataInst| #[trigger]
        before.visits_at(n, j, d) implies orig.visits_at(n, j, d) by {}
    lemma_callee_reachable(m, func, orig, n, j, d);
}

/// One instruction further.
proof fn lemma_stepped(
    cx: ContextView,
    orig: BodyView,
    before: BodyView,
    after: BodyView,
    n: int,
    j: int,
    d: DataInst,
)
    requires
        is_partly_stripped(cx, orig, before, n, j),
        orig.visits_at(n, j, d),
        d.0 < orig.insts.len(),
        after == before.with_inst(d, stripped_inst(cx, orig, orig.insts[d.0 as int])),
    ensures
        is_partly_stripped(cx, orig, after, n, j + 1),
{
    orig.lemma_visits_step(n, j, d);
    assert forall|x: DataInst| x.0 < orig.insts.len() implies after.insts[x.0 as int] == (
    if #[trigger] orig.visits_before(n, j + 1, x) {
        stripped_inst(cx, orig, orig.insts[x.0 as int])
    } else {
        orig.insts[x.0 as int]
    }) by {
        assert(orig.visits_before(n, j, x) || !orig.visits_before(n, j, x));
    }
}

/// One instruction further, forms come from where they should.
proof fn lemma_forms_stepped(
    before: Seq<FormView>,
    after: Seq<FormView>,
    first: int,
    cx: ContextView,
    orig: BodyView,
    n: int,
    j: int,
    d: DataInst,
)
    requires
        0 <= first,
        partial_forms_come_from(before, first, cx, orig, n, j),
        orig.visits_at(n, j, d),
        after == interned(before, stripped_inst(cx, orig, orig.insts[d.0 as int]).form),
    ensures
        partial_forms_come_from(after, first, cx, orig, n, j + 1),
{
    orig.lemma_visits_step(n, j, d);
    assert forall|h: int| first <= h < after.len() implies is_partial_form(
        #[trigger] after[h],
        cx,
        orig,
        n,
        j + 1,
    ) by {
        if h < before.len() {
            assert(is_partial_form(before[h], cx, orig, n, j));
            let x = choose|x: DataInst| #[trigger]
                orig.visits_before(n, j, x) && stripped_inst(cx, orig, orig.insts[x.0 as int]).form
                    == before[h];
            assert(orig.visits_before(n, j + 1, x));
        } else {
            assert(orig.visits_before(n, j + 1, d));
        }
    }
}

/// One node further.
proof fn lemma_next_node(
    cx: ContextView,
    orig: BodyView,
    cur: BodyView,
    forms: Seq<FormView>,
    first: int,
    n: int,
)
    requires
        is_partly_stripped(cx, orig, cur, n, orig.block(n).len() as int),
        partial_forms_come_from(forms, first, cx, orig, n, orig.block(n).len() as int),
    ensures
        is_partly_stripped(cx, orig, cur, n + 1, 0),
        partial_forms_come_from(forms, first, cx, orig, n + 1, 0),
{
    orig.lemma_visits_next_node(n);
    let len = orig.block(n).len() as int;
    assert forall|h: int| first <= h < forms.len() implies is_partial_form(
        #[trigger] forms[h],
        cx,
        orig,
        n + 1,
        0,
    ) by {
        assert(is_partial_form(forms[h], cx, orig, n, len));
        let x = choose|x: DataInst| #[trigger]
            orig.visits_before(n, len, x) && stripped_inst(cx, orig, orig.insts[x.0 as int]).form
                == forms[h];
        assert(orig.visits_before(n + 1, 0, x));
    }
    assert forall|x: DataInst| x.0 < orig.insts.len() implies cur.insts[x.0 as int] == (
    if #[trigger] orig.visits_before(n + 1, 0, x) {
        stripped_inst(cx, orig, orig.insts[x.0 as int])
    } else {
        orig.insts[x.0 as int]
    }) by {
        assert(orig.visits_before(n, len, x) || !orig.visits_before(n, len, x));
    }
}

/// At the end of a walk, the body is fixed.
proof fn lemma_all_stripped(
    m: ModuleView,
    func: Func,
    orig: BodyView,
    cur: BodyView,
    forms: Seq<FormView>,
    first: int,
)
    requires
        m.wf(),
        func.0 < m.funcs.len(),
        m.funcs[func.0 as int] == FuncView::Present(orig),
        is_partly_stripped(m.cx, orig, cur, orig.node_order.len() as int, 0),
        partial_forms_come_from(forms, first, m.cx, orig, orig.node_order.len() as int, 0),
    ensures
        cur == stripped_body(m.cx, orig),
        forms_come_from(forms, first, FuncView::Present(stripped_body(m.cx, orig))),
{
    let end = orig.node_order.len() as int;
    orig.lemma_visits_ends();
    let all = stripped_body(m.cx, orig);
    assert forall|i: int| 0 <= i < cur.insts.len() implies cur.insts[i] == all.insts[i] by {
        let x = DataInst(i as usize);
        assert(cur.insts[x.0 as int] == if orig.visits_before(end, 0, x) {
            stripped_inst(m.cx, orig, orig.insts[i])
        } else {
            orig.insts[i]
        });
    }
    assert(cur.insts =~= all.insts);
    assert forall|h: int| first <= h < forms.len() implies is_form_in(
        #[trigger] forms[h],
        FuncView::Present(all),
    ) by {
        assert(is_partial_form(forms[h], m.cx, orig, end, 0));
        let x = choose|x: DataInst| #[trigger]
            orig.visits_before(end, 0, x) && stripped_inst(m.cx, orig, orig.insts[x.0 as int]).form
                == forms[h];
        assert(orig.visits(x));
        let (n, j) = choose|n: int, j: int| orig.visits_at(n, j, x);
        assert(orig.visits_at(n, j, x));
        assert(orig.wf(
            m.cx.types.len() as int,
            m.cx.consts.len() as int,
            m.funcs.len() as int,
        ));
        assert(all.insts[x.0 as int].form == forms[h]);
    }
}

/// The pass over one module.
pub struct AlignmentFixer {
    pub wk: WellKnown,
    pub work: Worklist,
}

/// The storage class of a pointer and the type of what it points to.
fn pointer_info_of(cx: &Context, wk: &WellKnown, body: &FuncDefBody, ptr: Value) -> (info: Option<
    (u32, Type),
>)
    requires
        *wk == spv(),
        body.forms_within(cx@.forms.len() as int),
        type_of(cx@.consts, body.view_in(cx@.forms), ptr) matches Some(ty) && ty.0
            < cx@.types.len(),
    ensures
        info == pointer_info(cx@, body.view_in(cx@.forms), ptr),
{
    let ptr_ty = value_type(cx, body, ptr);
    assert(cx@.types[ptr_ty.0 as int] == cx.types@[ptr_ty.0 as int]@);
    match pointer_storage_class(cx, wk, ptr_ty) {
        Some(storage_class) => {
            if let TypeKind::SpvInst { type_and_const_inputs, .. } = &cx.types[ptr_ty.0].kind {
                if type_and_const_inputs.len() > 0 {
                    if let TypeOrConst::Type(pointee) = type_and_const_inputs[0] {
                        return Some((storage_class, pointee));
                    }
                }
            }
            None
        },
        None => None,
    }
}

/// The type that a pointer points to is one of the module's.
proof fn lemma_pointee_in_range(cx: ContextView, body: BodyView, v: Value, n_funcs: int)
    requires
        cx.wf(n_funcs),
        body.wf(cx.types.len() as int, cx.consts.len() as int, n_funcs),
    ensures
        pointer_info(cx, body, v) matches Some((_, pointee)) ==> pointee.0 < cx.types.len(),
{
    lemma_type_of_in_range(cx, body, v, n_funcs);
    if let Some((_, pointee)) = pointer_info(cx, body, v) {
        let ty = type_of(cx.consts, body, v)->0;
        assert(cx.types[ty.0 as int].kind->inputs[0] == TypeOrConst::Type(pointee));
    }
}

/// The alignment of a value, or of what a pointer points to where the value has
/// no type.
fn access_align(
    cx: &Context,
    wk: &WellKnown,
    info: Option<(u32, Type)>,
    value_type: Option<Type>,
) -> (align: u32)
    requires
        *wk == spv(),
        types_wf(cx@.types),
        value_type matches Some(ty) ==> ty.0 < cx@.types.len(),
        info matches Some((_, pointee)) ==> pointee.0 < cx@.types.len(),
    ensures
        align == (match value_type {
            Some(ty) => alignment(cx@.types, ty),
            None => pointee_alignment(cx@, info),
        }),
{
    if let Some(ty) = value_type {
        natural_alignment(cx, wk, ty)
    } else if let Some((_, pointee)) = info {
        natural_alignment(cx, wk, pointee)
    } else {
        FALLBACK_ALIGN
    }
}

impl AlignmentFixer {
    /// What there is to know of the pointers of a load, store or copy.
    fn access(
        &self,
        cx: &Context,
        body: &FuncDefBody,
        d: DataInst,
        opcode: Opcode,
        Ghost(n_funcs): Ghost<int>,
    ) -> (access: Access)
        requires
            self.wk == spv(),
            cx@.wf(n_funcs),
            body.forms_within(cx@.forms.len() as int),
            body.view_in(cx@.forms).wf(cx@.types.len() as int, cx@.consts.len() as int, n_funcs),
            d.0 < body.data_insts@.len(),
            is_memory_op(opcode),
            cx@.forms[body.data_insts@[d.0 as int].form.0 as int].kind matches
                DataInstKindView::SpvInst(spv_inst) && spv_inst.opcode == opcode,
            is_accessible(cx@, body.view_in(cx@.forms), body.view_in(cx@.forms).insts[d.0 as int]),
        ensures
            access == access_of(
                cx@,
                body.view_in(cx@.forms),
                opcode,
                body.view_in(cx@.forms).insts[d.0 as int],
            ),
    {
        let wk = &self.wk;
        let ghost view = body.view_in(cx@.forms);
        let ghost inst = view.insts[d.0 as int];
        let def = &body.data_insts[d.0];
        assert(inst == def.view_in(cx@.forms));
        assert(inst.wf(cx@.types.len() as int, cx@.consts.len() as int, n_funcs));
        let is_load = opcode == wk.op_load;
        let is_store = opcode == wk.op_store;
        let is_copy = opcode == wk.op_copy_memory;
        proof {
            lemma_type_of_in_range(cx@, view, inst.inputs[0], n_funcs);
            lemma_pointee_in_range(cx@, view, inst.inputs[0], n_funcs);
            if !is_load {
                lemma_type_of_in_range(cx@, view, inst.inputs[1], n_funcs);
                lemma_pointee_in_range(cx@, view, inst.inputs[1], n_funcs);
            }
        }

        let dst_info = pointer_info_of(cx, wk, body, def.inputs[0]);
        let src_info = if is_copy {
            pointer_info_of(cx, wk, body, def.inputs[1])
        } else {
            dst_info
        };

        let dst_align = if is_load {
            assert(cx@.forms[def.form.0 as int] == cx.forms@[def.form.0 as int]@);
            access_align(cx, wk, dst_info, cx.forms[def.form.0].output_type)
        } else if is_store {
            access_align(cx, wk, dst_info, Some(value_type(cx, body, def.inputs[1])))
        } else {
            access_align(cx, wk, dst_info, None)
        };
        let src_align = if is_copy {
            access_align(cx, wk, src_info, None)
        } else {
            dst_align
        };

        let dst_physical = match dst_info {
            Some((storage_class, _)) => storage_class == wk.physical_storage_buffer,
            None => false,
        };
        let src_physical = match src_info {
            Some((storage_class, _)) => storage_class == wk.physical_storage_buffer,
            None => false,
        };
        Access { is_copy, dst_physical, src_physical, dst_align, src_align }
    }

    /// Fixes one instruction, and comes across the function that it calls.
    fn in_place_transform_data_inst_def(
        &mut self,
        cx: &mut Context,
        body: &mut FuncDefBody,
        d: DataInst,
        Ghost(m): Ghost<ModuleView>,
        Ghost(busy): Ghost<Option<Func>>,
    )
        requires
            old(self).wk == spv(),
            old(self).work.tracks(m, old(cx)@.forms, busy),
            old(cx)@.wf(m.funcs.len() as int),
            old(body).forms_within(old(cx)@.forms.len() as int),
            old(body).view_in(old(cx)@.forms).wf(
                old(cx)@.types.len() as int,
                old(cx)@.consts.len() as int,
                m.funcs.len() as int,
            ),
            d.0 < old(body).data_insts@.len(),
            is_accessible(
                old(cx)@,
                old(body).view_in(old(cx)@.forms),
                old(body).view_in(old(cx)@.forms).insts[d.0 as int],
            ),
            old(body).view_in(
                old(cx)@.forms,
            ).insts[d.0 as int].form.kind matches DataInstKindView::FuncCall(g)
                ==> reachable(m, g),
        ensures
            final(self).wk == old(self).wk,
            final(self).work.tracks(m, final(cx)@.forms, busy),
            final(self).work.work_left(m.funcs.len() as int) == old(self).work.work_left(
                m.funcs.len() as int,
            ),
            final(self).work.global_var_queue == old(self).work.global_var_queue,
            old(self).work.seen().subset_of(final(self).work.seen()),
            forall|f: Func| #[trigger]
                final(self).work.looked_at(f) <==> old(self).work.looked_at(f),
            old(body).view_in(
                old(cx)@.forms,
            ).insts[d.0 as int].form.kind matches DataInstKindView::FuncCall(g)
                ==> final(self).work.seen().contains(g.0),
            final(cx)@.wf(m.funcs.len() as int),
            final(cx)@.types == old(cx)@.types,
            final(cx)@.consts == old(cx)@.consts,
            old(cx)@.forms.is_prefix_of(final(cx)@.forms),
            final(body).forms_within(final(cx)@.forms.len() as int),
            ({
                let before = old(body).view_in(old(cx)@.forms);
                let inst = stripped_inst(old(cx)@, before, before.insts[d.0 as int]);
                &&& final(cx)@.forms == interned(old(cx)@.forms, inst.form)
                &&& final(body).view_in(final(cx)@.forms) == before.with_inst(d, inst)
            }),
    {
        let ghost before = body.view_in(cx@.forms);
        let ghost inst = before.insts[d.0 as int];
        let ghost new_inst = stripped_inst(cx@, before, inst);
        let ghost n_funcs = m.funcs.len() as int;
        let form = body.data_insts[d.0].form;
        proof {
            assert(inst == body.data_insts@[d.0 as int].view_in(cx@.forms));
            assert(inst.wf(cx@.types.len() as int, cx@.consts.len() as int, n_funcs));
            assert(cx@.forms[form.0 as int] == cx.forms@[form.0 as int]@);
            assert(cx@.forms.contains(inst.form));
            lemma_interned(cx@.forms, new_inst.form);
            assert(before.insts.update(d.0 as int, inst) =~= before.insts);
        }
        self.work.transform_data_inst_form_use(cx, form, Ghost(m), Ghost(busy));

        let (opcode, new_imms) = match &cx.forms[form.0].kind {
            DataInstKind::SpvInst(spv_inst) => {
                let opcode = spv_inst.opcode;
                if opcode != self.wk.op_load && opcode != self.wk.op_store && opcode
                    != self.wk.op_copy_memory {
                    return;
                }
                let access = self.access(cx, body, d, opcode, Ghost(n_funcs));
                let new_imms = fix_memory_access(&self.wk, &access, &spv_inst.imms);
                if same_imms(&new_imms, &spv_inst.imms) {
                    assert(new_inst == inst);
                    return;
                }
                (opcode, new_imms)
            },
            _ => {
                return;
            },
        };
        let output_type = cx.forms[form.0].output_type;
        let ghost old_cx = cx@;
        set_form(
            cx,
            body,
            d,
            DataInstFormDef {
                kind: DataInstKind::SpvInst(Inst { opcode, imms: new_imms }),
                output_type,
            },
        );
        proof {
            lemma_interned_form_wf(old_cx, cx@, new_inst.form, n_funcs);
            self.work.lemma_more_forms(m, old_cx.forms, cx@.forms, busy);
        }
    }

    /// The pass is on its way through function `func`, which was `orig`, and comes to
    /// the `j`-th instruction of the `n`-th node.
    spec fn is_at(
        self,
        cx: Context,
        body: FuncDefBody,
        m: ModuleView,
        func: Func,
        orig: BodyView,
        old_forms: Seq<FormView>,
        n: int,
        j: int,
    ) -> bool {
        &&& self.wk == spv()
        &&& self.work.tracks(m, cx@.forms, Some(func))
        &&& callees_seen(orig, self.work, n, j)
        &&& cx@.wf(m.funcs.len() as int)
        &&& cx@.types == m.cx.types
        &&& cx@.consts == m.cx.consts
        &&& old_forms.is_prefix_of(cx@.forms)
        &&& body.forms_within(cx@.forms.len() as int)
        &&& is_partly_stripped(m.cx, orig, body.view_in(cx@.forms), n, j)
        &&& partial_forms_come_from(cx@.forms, old_forms.len() as int, m.cx, orig, n, j)
    }

    /// Fixes one function, and comes across the functions that it calls.
    fn in_place_transform_func_decl(
        &mut self,
        cx: &mut Context,
        decl: &mut FuncDecl,
        Ghost(m): Ghost<ModuleView>,
        Ghost(func): Ghost<Func>,
    )
        requires
            m.wf(),
            func.0 < m.funcs.len(),
            reachable(m, func),
            func_is_accessible(m.cx, m.funcs[func.0 as int]),
            old(self).wk == spv(),
            old(self).work.tracks(m, old(cx)@.forms, Some(func)),
            old(cx)@.wf(m.funcs.len() as int),
            old(cx)@.types == m.cx.types,
            old(cx)@.consts == m.cx.consts,
            old(decl).forms_within(old(cx)@.forms.len() as int),
            old(decl).view_in(old(cx)@.forms) == m.funcs[func.0 as int],
        ensures
            final(self).wk == old(self).wk,
            final(self).work.tracks(m, final(cx)@.forms, None),
            final(self).work.work_left(m.funcs.len() as int) == old(self).work.work_left(
                m.funcs.len() as int,
            ),
            final(self).work.global_var_queue == old(self).work.global_var_queue,
            forall|f: Func| #[trigger]
                final(self).work.looked_at(f) <==> old(self).work.looked_at(f),
            final(cx)@.wf(m.funcs.len() as int),
            final(cx)@.types == old(cx)@.types,
            final(cx)@.consts == old(cx)@.consts,
            old(cx)@.forms.is_prefix_of(final(cx)@.forms),
            final(decl).forms_within(final(cx)@.forms.len() as int),
            final(decl).view_in(final(cx)@.forms) == stripped_func(m.cx, m.funcs[func.0 as int]),
            forms_come_from(
                final(cx)@.forms,
                old(cx)@.forms.len() as int,
                stripped_func(m.cx, m.funcs[func.0 as int]),
            ),
    {
        let ghost n_funcs = m.funcs.len() as int;
        let ghost old_forms = cx@.forms;
        assert(old_forms =~= old_forms.subrange(0, old_forms.len() as int));
        match decl {
            FuncDecl::Imported => {
                proof {
                    self.work.lemma_done(m, cx@.forms, func);
                }
            },
            FuncDecl::Present(body) => {
                let ghost orig = body.view_in(cx@.forms);
                assert(m.funcs[func.0 as int] == FuncView::Present(orig));
                assert(orig.wf(m.cx.types.len() as int, m.cx.consts.len() as int, n_funcs));
                proof {
                    orig.lemma_visits_ends();
                }
                let mut n: usize = 0;
                while n < body.node_order.len()
                    invariant
                        m.wf(),
                        n_funcs == m.funcs.len(),
                        func.0 < m.funcs.len(),
                        reachable(m, func),
                        m.funcs[func.0 as int] == FuncView::Present(orig),
                        func_is_accessible(m.cx, FuncView::Present(orig)),
                        orig.wf(m.cx.types.len() as int, m.cx.consts.len() as int, n_funcs),
                        n <= orig.node_order.len(),
                        self.is_at(*cx, *body, m, func, orig, old_forms, n as int, 0),
                        self.work.work_left(n_funcs) == old(self).work.work_left(n_funcs),
                        self.work.global_var_queue == old(self).work.global_var_queue,
                        forall|f: Func| #[trigger]
                            self.work.looked_at(f) <==> old(self).work.looked_at(f),
                    decreases orig.node_order.len() - n,
                {
                    let node = body.node_order[n];
                    let ghost cur = body.view_in(cx@.forms);
                    assert(cur.nodes[node.0 as int] == body.control_nodes@[node.0 as int]@);
                    let len = body.block_len(node);
                    let mut j: usize = 0;
                    while j < len
                        invariant
                            m.wf(),
                            n_funcs == m.funcs.len(),
                            func.0 < m.funcs.len(),
                            reachable(m, func),
                            m.funcs[func.0 as int] == FuncView::Present(orig),
                            func_is_accessible(m.cx, FuncView::Present(orig)),
                            orig.wf(m.cx.types.len() as int, m.cx.consts.len() as int, n_funcs),
                            n < orig.node_order.len(),
                            node == orig.node_order[n as int],
                            j <= len,
                            len == orig.block(n as int).len(),
                            self.is_at(*cx, *body, m, func, orig, old_forms, n as int, j as int),
                            self.work.work_left(n_funcs) == old(self).work.work_left(n_funcs),
                            self.work.global_var_queue == old(self).work.global_var_queue,
                            forall|f: Func| #[trigger]
                                self.work.looked_at(f) <==> old(self).work.looked_at(f),
                        decreases len - j,
                    {
                        let ghost before = body.view_in(cx@.forms);
                        let ghost before_forms = cx@.forms;
                        let ghost before_work = self.work;
                        assert(before.nodes[node.0 as int] == body.control_nodes@[node.0 as int]@);
                        let d = body.block_inst(node, j);
                        proof {
                            assert(orig.visits_at(n as int, j as int, d));
                            lemma_step(m, func, orig, cx@, before, n as int, j as int, d);
                        }
                        self.in_place_transform_data_inst_def(
                            cx,
                            body,
                            d,
                            Ghost(m),
                            Ghost(Some(func)),
                        );
                        proof {
                            let after = body.view_in(cx@.forms);
                            let first = old_forms.len() as int;
                            lemma_stepped(m.cx, orig, before, after, n as int, j as int, d);
                            lemma_callees_step(
                                orig,
                                before_work,
                                self.work,
                                n as int,
                                j as int,
                                d,
                            );
                            lemma_forms_stepped(
                                before_forms,
                                cx@.forms,
                                first,
                                m.cx,
                                orig,
                                n as int,
                                j as int,
                                d,
                            );
                        }
                        j = j + 1;
                    }
                    proof {
                        let after = body.view_in(cx@.forms);
                        let first = old_forms.len() as int;
                        lemma_next_node(m.cx, orig, after, cx@.forms, first, n as int);
                        lemma_callees_next_node(orig, self.work, n as int);
                    }
                    n = n + 1;
                }
                proof {
                    let after = body.view_in(cx@.forms);
                    let first = old_forms.len() as int;
                    lemma_all_stripped(m, func, orig, after, cx@.forms, first);
                    lemma_callees_all(m, func, orig, self.work);
                    self.work.lemma_done(m, cx@.forms, func);
                }
            },
        }
    }
}

/// A fixed body is in order.
proof fn lemma_stripped_wf(
    cx: ContextView,
    body: BodyView,
    n_types: int,
    n_consts: int,
    n_funcs: int,
)
    requires
        body.wf(n_types, n_consts, n_funcs),
    ensures
        stripped_body(cx, body).wf(n_types, n_consts, n_funcs),
{
    let after = stripped_body(cx, body);
    assert forall|n: int, j: int, d: DataInst| #[trigger]
        after.visits_at(n, j, d) implies body.visits_at(n, j, d) by {}
    assert forall|d: int| 0 <= d < after.insts.len() implies (#[trigger] after.insts[d]).wf(
        n_types,
        n_consts,
        n_funcs,
    ) by {
        assert(body.insts[d].wf(n_types, n_consts, n_funcs));
        assert(after.insts[d].inputs == body.insts[d].inputs);
    }
}

/// Fixed functions are in order.
proof fn lemma_stripped_funcs_wf(m: ModuleView)
    requires
        m.wf(),
    ensures
        forall|f: int|
            0 <= f < m.funcs.len() ==> (#[trigger] stripped_funcs(m)[f] matches FuncView::Present(
                body,
            ) ==> body.wf(
                m.cx.types.len() as int,
                m.cx.consts.len() as int,
                m.funcs.len() as int,
            )),
{
    assert forall|f: int| 0 <= f < m.funcs.len() implies (
    #[trigger] stripped_funcs(m)[f] matches FuncView::Present(body) ==> body.wf(
        m.cx.types.len() as int,
        m.cx.consts.len() as int,
        m.funcs.len() as int,
    )) by {
        if let FuncView::Present(body) = m.funcs[f] {
            lemma_stripped_wf(
                m.cx,
                body,
                m.cx.types.len() as int,
                m.cx.consts.len() as int,
                m.funcs.len() as int,
            );
        }
    }
}

/// Gives the loads, stores and copies of physical pointers an alignment where they
/// have none, and takes it off those of logical pointers, in every function that the
/// module can reach.
pub fn strip_when_invalid(module: &mut Module)
    requires
        old(module).wf(),
        is_strippable(old(module)@),
    ensures
        final(module).wf(),
        final(module)@.funcs == stripped_funcs(old(module)@),
        final(module)@.exports == old(module)@.exports,
        final(module)@.global_vars == old(module)@.global_vars,
        final(module)@.cx.types == old(module)@.cx.types,
        final(module)@.cx.consts == old(module)@.cx.consts,
        forms_added(
            old(module)@,
            |func: FuncView| stripped_func(old(module)@.cx, func),
            final(module)@.cx.forms,
        ),
        is_stripped(old(module)@, final(module)@),
        old(module)@.cx.forms.is_prefix_of(final(module)@.cx.forms),
        forall|h: int|
            old(module)@.cx.forms.len() <= h < final(module)@.cx.forms.len() ==> has_form(
                final(module)@.funcs,
                #[trigger] final(module)@.cx.forms[h],
            ),
{
    let ghost m = module@;
    let ghost change = |func: FuncView| stripped_func(m.cx, func);
    let mut fixer = AlignmentFixer { wk: WellKnown::get(), work: Worklist::new() };
    fixer.work.transform_module(module);
    assert(m.cx.forms =~= m.cx.forms.subrange(0, m.cx.forms.len() as int));
    assert(m.funcs.len() == module.funcs.len());
    while fixer.work.global_var_queue.len() > 0 || fixer.work.func_queue.len() > 0
        invariant
            m.wf(),
            change == |func: FuncView| stripped_func(m.cx, func),
            is_strippable(m),
            fixer.wk == spv(),
            fixer.work.tracks(m, module.cx@.forms, None),
            is_under_way(m, change, *module, fixer.work),
        decreases
                fixer.work.work_left(m.funcs.len() as int)
                    + fixer.work.global_var_queue@.len(),
    {
        let ghost start = fixer.work;
        while fixer.work.global_var_queue.len() > 0
            invariant
                fixer.wk == spv(),
                fixer.work.tracks(m, module.cx@.forms, None),
                fixer.work.seen_funcs == start.seen_funcs,
                fixer.work.func_queue == start.func_queue,
                is_under_way(m, change, *module, fixer.work),
            decreases fixer.work.global_var_queue@.len(),
        {
            fixer.work.global_var_queue.pop_front();
        }
        while fixer.work.func_queue.len() > 0
            invariant
                m.wf(),
                change == |func: FuncView| stripped_func(m.cx, func),
                is_strippable(m),
                fixer.wk == spv(),
                fixer.work.tracks(m, module.cx@.forms, None),
                is_under_way(m, change, *module, fixer.work),
                fixer.work.global_var_queue@.len() == 0,
                (fixer.work.seen_funcs == start.seen_funcs && fixer.work.func_queue
                    == start.func_queue) || fixer.work.work_left(m.funcs.len() as int) < start.work_left(
                    m.funcs.len() as int,
                ),
            decreases fixer.work.work_left(m.funcs.len() as int),
        {
            let ghost before = *module;
            let ghost before_work = fixer.work;
            if let Some(func) = fixer.work.func_queue.pop_front() {
                let ghost popped = fixer.work;
                proof {
                    Worklist::lemma_pop(before_work, popped, m, module.cx@.forms);
                    popped.lemma_work_left(m, module.cx@.forms, Some(func));
                }
                fixer.in_place_transform_func_decl(
                    &mut module.cx,
                    &mut module.funcs[func.0],
                    Ghost(m),
                    Ghost(func),
                );
                proof {
                    lemma_func_changed(
                        m,
                        change,
                        before,
                        *module,
                        before_work,
                        fixer.work,
                        func,
                    );
                }
            }
        }
        proof {
            fixer.work.lemma_work_left(m, module.cx@.forms, None);
        }
    }
    proof {
        lemma_funcs_changed(m, change, *module, fixer.work);
        lemma_stripped_funcs_wf(m);
        assert(stripped_funcs(m) == changed_funcs(m, change));
        lemma_forms_in_use(m, change, module@.cx.forms);
    }
}

} // verus!
