//! The types of values, and what there is to know of pointer types.

use crate::context::{Context, ContextView};
use crate::ir::{
    BodyView, Const, ConstDefView, ControlNode, ControlRegion, DataInst, FuncDefBody, Type,
    TypeDefView, TypeKind, TypeKindView, Value,
};
use crate::spirv::Imm;
use crate::well_known::{spv, WellKnown};
use vstd::prelude::*;

verus! {

/// The type of `v` in `body`. There is none where `v` names nothing, and none of
/// an instruction without an output.
pub open spec fn type_of(consts: Seq<ConstDefView>, body: BodyView, v: Value) -> Option<Type> {
    match v {
        Value::Const(c) => if c.0 < consts.len() {
            Some(consts[c.0 as int].ty)
        } else {
            None
        },
        Value::ControlRegionInput { region, input_idx } => if region.0 < body.regions.len()
            && input_idx < body.regions[region.0 as int].inputs.len() {
            Some(body.regions[region.0 as int].inputs[input_idx as int])
        } else {
            None
        },
        Value::ControlNodeOutput { control_node, output_idx } => if control_node.0
            < body.nodes.len() && output_idx < body.nodes[control_node.0 as int].outputs.len() {
            Some(body.nodes[control_node.0 as int].outputs[output_idx as int])
        } else {
            None
        },
        Value::DataInstOutput(d) => if d.0 < body.insts.len() {
            body.insts[d.0 as int].form.output_type
        } else {
            None
        },
    }
}

/// Whether `v` has a type in `body`.
pub fn has_type(cx: &Context, body: &FuncDefBody, v: Value) -> (has: bool)
    requires
        body.forms_within(cx@.forms.len() as int),
    ensures
        has == (type_of(cx@.consts, body.view_in(cx@.forms), v) is Some),
{
    let ghost view = body.view_in(cx@.forms);
    match v {
        Value::Const(c) => c.0 < cx.consts.len(),
        Value::ControlRegionInput { region, input_idx } => {
            if region.0 >= body.control_regions.len() {
                return false;
            }
            assert(view.regions[region.0 as int] == body.control_regions@[region.0 as int]@);
            (input_idx as usize) < body.control_regions[region.0].inputs.len()
        },
        Value::ControlNodeOutput { control_node, output_idx } => {
            if control_node.0 >= body.control_nodes.len() {
                return false;
            }
            assert(view.nodes[control_node.0 as int] == body.control_nodes@[control_node.0 as int]@);
            (output_idx as usize) < body.control_nodes[control_node.0].outputs.len()
        },
        Value::DataInstOutput(d) => {
            if d.0 >= body.data_insts.len() {
                return false;
            }
            let form = body.data_insts[d.0].form;
            assert(view.insts[d.0 as int] == body.data_insts@[d.0 as int].view_in(cx@.forms));
            assert(cx@.forms[form.0 as int] == cx.forms@[form.0 as int]@);
            cx.forms[form.0].output_type.is_some()
        },
    }
}

/// The type of `v` in `body`.
pub fn value_type(cx: &Context, body: &FuncDefBody, v: Value) -> (ty: Type)
    requires
        body.forms_within(cx@.forms.len() as int),
        type_of(cx@.consts, body.view_in(cx@.forms), v) is Some,
    ensures
        type_of(cx@.consts, body.view_in(cx@.forms), v) == Some(ty),
{
    let ghost view = body.view_in(cx@.forms);
    match v {
        Value::Const(c) => {
            assert(cx@.consts[c.0 as int] == cx.consts@[c.0 as int]@);
            cx.consts[c.0].ty
        },
        Value::ControlRegionInput { region, input_idx } => {
            assert(view.regions[region.0 as int] == body.control_regions@[region.0 as int]@);
            body.control_regions[region.0].inputs[input_idx as usize]
        },
        Value::ControlNodeOutput { control_node, output_idx } => {
            assert(view.nodes[control_node.0 as int] == body.control_nodes@[control_node.0 as int]@);
            body.control_nodes[control_node.0].outputs[output_idx as usize]
        },
        Value::DataInstOutput(d) => {
            let form = body.data_insts[d.0].form;
            assert(view.insts[d.0 as int] == body.data_insts@[d.0 as int].view_in(cx@.forms));
            assert(cx@.forms[form.0 as int] == cx.forms@[form.0 as int]@);
            match cx.forms[form.0].output_type {
                Some(ty) => ty,
                None => Type(0),
            }
        },
    }
}

/// The type of a value is one of the module's types.
pub proof fn lemma_type_of_in_range(cx: ContextView, body: BodyView, v: Value, n_funcs: int)
    requires
        cx.wf(n_funcs),
        body.handles_wf(cx.types.len() as int, cx.consts.len() as int, n_funcs),
    ensures
        type_of(cx.consts, body, v) matches Some(ty) ==> ty.0 < cx.types.len(),
{
    match v {
        Value::Const(c) => {},
        Value::ControlRegionInput { region, input_idx } => {
            if type_of(cx.consts, body, v) is Some {
                assert(body.regions[region.0 as int].inputs[input_idx as int].0 < cx.types.len());
            }
        },
        Value::ControlNodeOutput { control_node, output_idx } => {
            if type_of(cx.consts, body, v) is Some {
                assert(body.nodes[control_node.0 as int].outputs[output_idx as int].0
                    < cx.types.len());
            }
        },
        Value::DataInstOutput(d) => {
            if type_of(cx.consts, body, v) is Some {
                assert(body.insts[d.0 as int].wf(
                    cx.types.len() as int,
                    cx.consts.len() as int,
                    n_funcs,
                ));
            }
        },
    }
}

/// Bodies that agree in the types of their inputs and outputs agree in the types of
/// their values.
pub proof fn lemma_same_type_of(consts: Seq<ConstDefView>, a: BodyView, b: BodyView, v: Value)
    requires
        a.regions.len() == b.regions.len(),
        forall|r: int|
            0 <= r < a.regions.len() ==> (#[trigger] a.regions[r]).inputs == b.regions[r].inputs,
        a.nodes.len() == b.nodes.len(),
        forall|n: int|
            0 <= n < a.nodes.len() ==> (#[trigger] a.nodes[n]).outputs == b.nodes[n].outputs,
        a.insts.len() == b.insts.len(),
        forall|d: int|
            0 <= d < a.insts.len() ==> (#[trigger] a.insts[d]).form.output_type
                == b.insts[d].form.output_type,
    ensures
        type_of(consts, a, v) == type_of(consts, b, v),
{
}

/// The storage class of a pointer type: the one immediate of an `OpTypePointer`.
/// Other types have none, nor has an `OpTypePointer` with other immediates.
pub open spec fn pointer_class(def: TypeDefView) -> Option<u32> {
    match def.kind {
        TypeKindView::SpvInst { spv_inst, .. } => if spv_inst.opcode == spv().op_type_pointer
            && spv_inst.imms.len() == 1 {
            match spv_inst.imms[0] {
                Imm::Short(_, storage_class) => Some(storage_class),
                _ => None,
            }
        } else {
            None
        },
        _ => None,
    }
}

/// `ty` is a pointer type in the `PhysicalStorageBuffer` storage class.
pub open spec fn is_physical(types: Seq<TypeDefView>, ty: Type) -> bool {
    pointer_class(types[ty.0 as int]) == Some(spv().physical_storage_buffer)
}

/// A pointer is physical where its type is an `OpTypePointer` whose one immediate is the
/// word for `PhysicalStorageBuffer`. What it points to, and how the word is labelled, makes
/// no difference.
pub proof fn law_physical_pointers(types: Seq<TypeDefView>, ty: Type)
    ensures
        is_physical(types, ty) <==> {
            let kind = types[ty.0 as int].kind;
            &&& kind is SpvInst
            &&& kind->spv_inst.opcode == spv().op_type_pointer
            &&& kind->spv_inst.imms.len() == 1
            &&& kind->spv_inst.imms[0] is Short
            &&& kind->spv_inst.imms[0]->Short_1 == spv().physical_storage_buffer
        },
{
}

/// Two types that differ in nothing but what they are made of are both in a storage class,
/// and in the same one, or neither is.
pub proof fn law_storage_class_ignores_pointee(a: TypeDefView, b: TypeDefView)
    requires
        a.kind is SpvInst,
        b.kind is SpvInst,
        a.kind->spv_inst == b.kind->spv_inst,
    ensures
        pointer_class(a) == pointer_class(b),
        pointer_class(a) is Some <==> a.kind->spv_inst.opcode == spv().op_type_pointer
            && a.kind->spv_inst.imms.len() == 1 && a.kind->spv_inst.imms[0] is Short,
        pointer_class(a) matches Some(class) ==> a.kind->spv_inst.imms[0]->Short_1 == class,
{
}

/// The type of a value is the one that is written down where the value comes from: at the
/// constant, among the inputs of the region, among the outputs of the node, or at the
/// instruction. A value that comes from nowhere has none.
pub proof fn law_types_of_values(consts: Seq<ConstDefView>, body: BodyView, i: int, k: u32)
    requires
        0 <= i <= usize::MAX,
    ensures
        type_of(consts, body, Value::Const(Const(i as usize))) == (if i < consts.len() {
            Some(consts[i].ty)
        } else {
            None
        }),
        type_of(consts, body, Value::DataInstOutput(DataInst(i as usize))) == (if i
            < body.insts.len() {
            body.insts[i].form.output_type
        } else {
            None
        }),
        ({
            let region = ControlRegion(i as usize);
            let v = Value::ControlRegionInput { region, input_idx: k };
            if i < body.regions.len() && k < body.regions[i].inputs.len() {
                type_of(consts, body, v) == Some(body.regions[i].inputs[k as int])
            } else {
                type_of(consts, body, v) is None
            }
        }),
        ({
            let control_node = ControlNode(i as usize);
            let v = Value::ControlNodeOutput { control_node, output_idx: k };
            if i < body.nodes.len() && k < body.nodes[i].outputs.len() {
                type_of(consts, body, v) == Some(body.nodes[i].outputs[k as int])
            } else {
                type_of(consts, body, v) is None
            }
        }),
{
}

/// The storage class of a pointer type.
pub fn pointer_storage_class(cx: &Context, wk: &WellKnown, ty: Type) -> (class: Option<u32>)
    requires
        *wk == spv(),
        ty.0 < cx@.types.len(),
    ensures
        class == pointer_class(cx@.types[ty.0 as int]),
{
    assert(cx@.types[ty.0 as int] == cx.types@[ty.0 as int]@);
    match &cx.types[ty.0].kind {
        TypeKind::SpvInst { spv_inst, .. } => {
            if spv_inst.opcode != wk.op_type_pointer || spv_inst.imms.len() != 1 {
                return None;
            }
            match spv_inst.imms[0] {
                Imm::Short(_, storage_class) => Some(storage_class),
                _ => None,
            }
        },
        _ => None,
    }
}

/// Whether `ty` is a pointer type in the `PhysicalStorageBuffer` storage class.
pub fn is_physical_pointer(cx: &Context, wk: &WellKnown, ty: Type) -> (physical: bool)
    requires
        *wk == spv(),
        ty.0 < cx@.types.len(),
    ensures
        physical == is_physical(cx@.types, ty),
{
    match pointer_storage_class(cx, wk, ty) {
        Some(storage_class) => storage_class == wk.physical_storage_buffer,
        None => false,
    }
}

} // verus!
