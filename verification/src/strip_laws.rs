//! What holds of a module after the alignment of its loads, stores and copies was
//! fitted to their pointers.

use crate::alignment::law_alignment_is_power_of_two;
use crate::context::{ContextView, ModuleView};
use crate::ir::{BodyView, DataInst, DataInstKindView, DataInstView, Func, FuncView};
use crate::memory_access::{accesses, is_aligned, MEMORY_ACCESS_ALIGNED_BIT};
use crate::memory_access_laws::{
    ends_in_empty_literal, fixed_access, given_operand, is_side_aligned,
    law_aligned_where_physical, law_alignments_given, law_fixed_once_for_all,
    law_other_bits_kept, law_other_immediates_kept, other_imms,
};
use crate::reach::{calls, lemma_reachable_in_range, lemma_same_reach, reachable};
use crate::spirv::Opcode;
use crate::strip_logical_alignment::{
    access_of, func_is_accessible, is_accessible, is_memory_op, is_strippable, lemma_same_access,
    pointer_info, stripped_body, stripped_func, stripped_funcs, stripped_inst,
};
use crate::types::type_of;
use vstd::prelude::*;

verus! {

/// `after` is what `strip_when_invalid` makes of `m`.
pub open spec fn is_stripped(m: ModuleView, after: ModuleView) -> bool {
    &&& after.funcs == stripped_funcs(m)
    &&& after.exports == m.exports
    &&& after.cx.types == m.cx.types
    &&& after.cx.consts == m.cx.consts
}

/// A walk through a fixed body is a walk through the body.
proof fn lemma_same_walk(cx: ContextView, body: BodyView, n_types: int, n_consts: int, n_funcs: int)
    requires
        body.wf(n_types, n_consts, n_funcs),
    ensures
        forall|d: DataInst| #[trigger] stripped_body(cx, body).visits(d) <==> body.visits(d),
        forall|d: DataInst| #[trigger] body.visits(d) ==> d.0 < body.insts.len(),
        forall|f: Func| #[trigger] stripped_body(cx, body).calls(f) <==> body.calls(f),
{
    let after = stripped_body(cx, body);
    assert forall|d: DataInst| #[trigger] after.visits(d) <==> body.visits(d) by {
        if after.visits(d) {
            let (n, j) = choose|n: int, j: int| after.visits_at(n, j, d);
            assert(body.visits_at(n, j, d));
        }
        if body.visits(d) {
            let (n, j) = choose|n: int, j: int| body.visits_at(n, j, d);
            assert(after.visits_at(n, j, d));
        }
    }
    assert forall|f: Func| #[trigger] after.calls(f) <==> body.calls(f) by {
        if after.calls(f) {
            let d = choose|d: DataInst| #[trigger]
                after.visits(d) && after.insts[d.0 as int].form.kind == DataInstKindView::FuncCall(
                    f,
                );
            assert(body.visits(d));
        }
        if body.calls(f) {
            let d = choose|d: DataInst| #[trigger]
                body.visits(d) && body.insts[d.0 as int].form.kind == DataInstKindView::FuncCall(f);
            assert(after.visits(d));
        }
    }
}

/// The module reaches the functions that it reached before, and no others.
pub proof fn law_strip_keeps_reach(m: ModuleView, after: ModuleView)
    requires
        m.wf(),
        is_stripped(m, after),
    ensures
        forall|f: Func| #[trigger] reachable(after, f) <==> reachable(m, f),
{
    assert forall|f: Func, g: Func| #[trigger] calls(after, f, g) <==> calls(m, f, g) by {
        if f.0 < m.funcs.len() {
            if let FuncView::Present(body) = m.funcs[f.0 as int] {
                lemma_same_walk(
                    m.cx,
                    body,
                    m.cx.types.len() as int,
                    m.cx.consts.len() as int,
                    m.funcs.len() as int,
                );
            }
        }
    }
    lemma_same_reach(m, after);
}

/// A function that the module cannot reach stays as it is.
pub proof fn law_strip_unreached_kept(m: ModuleView, after: ModuleView, f: Func)
    requires
        is_stripped(m, after),
        f.0 < m.funcs.len(),
        !reachable(m, f),
    ensures
        after.funcs[f.0 as int] == m.funcs[f.0 as int],
{
    assert(Func(f.0) == f);
}

/// Of an instruction nothing changes but the immediates of a load, store or copy,
/// and of these nothing but the `MemoryAccess` operands. Every instruction stays
/// where it is.
pub proof fn law_strip_changes_accesses_only(m: ModuleView, after: ModuleView, f: Func)
    requires
        m.wf(),
        is_stripped(m, after),
        f.0 < m.funcs.len(),
    ensures
        match (m.funcs[f.0 as int], after.funcs[f.0 as int]) {
            (FuncView::Imported, FuncView::Imported) => true,
            (FuncView::Present(body), FuncView::Present(fixed)) => {
                &&& fixed.regions == body.regions
                &&& fixed.nodes == body.nodes
                &&& fixed.node_order == body.node_order
                &&& fixed.entry == body.entry
                &&& fixed.insts.len() == body.insts.len()
                &&& forall|d: int|
                    0 <= d < body.insts.len() ==> differ_in_accesses(
                        body.insts[d],
                        #[trigger] fixed.insts[d],
                    )
            },
            _ => false,
        },
{
    if let FuncView::Present(body) = m.funcs[f.0 as int] {
        if let FuncView::Present(fixed) = after.funcs[f.0 as int] {
            assert forall|d: int| 0 <= d < body.insts.len() implies differ_in_accesses(
                body.insts[d],
                #[trigger] fixed.insts[d],
            ) by {
                if let DataInstKindView::SpvInst(a) = body.insts[d].form.kind {
                    law_other_immediates_kept(
                        access_of(m.cx, body, a.opcode, body.insts[d]),
                        a.imms,
                    );
                }
            }
        }
    }
}

/// The instructions differ in nothing but `MemoryAccess` operands, which only a
/// load, store or copy has.
pub open spec fn differ_in_accesses(inst: DataInstView, fixed: DataInstView) -> bool {
    &&& fixed.attrs == inst.attrs
    &&& fixed.inputs == inst.inputs
    &&& fixed.form.output_type == inst.form.output_type
    &&& fixed.form.kind == inst.form.kind || match (inst.form.kind, fixed.form.kind) {
        (DataInstKindView::SpvInst(a), DataInstKindView::SpvInst(b)) => {
            &&& is_memory_op(a.opcode)
            &&& b.opcode == a.opcode
            &&& other_imms(b.imms) == other_imms(a.imms)
        },
        _ => false,
    }
}

/// Every load, store and copy that the module can reach reads and writes through a
/// pointer with an alignment exactly where the pointer is physical. This holds of either
/// side of a copy.
pub proof fn law_strip_aligns(m: ModuleView, after: ModuleView, f: Func, d: DataInst)
    requires
        m.wf(),
        is_stripped(m, after),
        f.0 < m.funcs.len(),
        reachable(m, f),
        m.funcs[f.0 as int] is Present,
        m.funcs[f.0 as int]->0.visits(d),
        m.funcs[f.0 as int]->0.insts[d.0 as int].form.kind is SpvInst,
        is_memory_op(m.funcs[f.0 as int]->0.insts[d.0 as int].form.kind->SpvInst_0.opcode),
    ensures
        after.funcs[f.0 as int] is Present,
        after.funcs[f.0 as int]->0.visits(d),
        after.funcs[f.0 as int]->0.insts[d.0 as int].form.kind is SpvInst,
        ({
            let body = after.funcs[f.0 as int]->0;
            let inst = body.insts[d.0 as int];
            let spv_inst = inst.form.kind->SpvInst_0;
            let a = access_of(after.cx, body, spv_inst.opcode, inst);
            let operands = accesses(spv_inst.imms);
            let old_inst = m.funcs[f.0 as int]->0.insts[d.0 as int].form.kind->SpvInst_0;
            &&& spv_inst.opcode == old_inst.opcode
            &&& is_side_aligned(operands, 0) == a.dst_physical
            &&& a.is_copy ==> is_side_aligned(operands, 1) == a.src_physical
            &&& forall|k: int|
                0 <= k < operands.len() ==> is_aligned((#[trigger] operands[k]).0) == a.physical(k)
        }),
{
    let body = m.funcs[f.0 as int]->0;
    lemma_stripped_access(m, after, f, d);
    let inst = body.insts[d.0 as int];
    let spv_inst = inst.form.kind->SpvInst_0;
    law_aligned_where_physical(access_of(m.cx, body, spv_inst.opcode, inst), spv_inst.imms);
}

/// What a load, store or copy that the module can reach becomes.
proof fn lemma_stripped_access(m: ModuleView, after: ModuleView, f: Func, d: DataInst)
    requires
        m.wf(),
        is_stripped(m, after),
        f.0 < m.funcs.len(),
        reachable(m, f),
        m.funcs[f.0 as int] is Present,
        m.funcs[f.0 as int]->0.visits(d),
        m.funcs[f.0 as int]->0.insts[d.0 as int].form.kind is SpvInst,
        is_memory_op(m.funcs[f.0 as int]->0.insts[d.0 as int].form.kind->SpvInst_0.opcode),
    ensures
        after.funcs[f.0 as int] is Present,
        after.funcs[f.0 as int]->0.visits(d),
        ({
            let body = m.funcs[f.0 as int]->0;
            let inst = body.insts[d.0 as int];
            let op = inst.form.kind->SpvInst_0.opcode;
            let fixed = after.funcs[f.0 as int]->0;
            let fixed_inst = fixed.insts[d.0 as int];
            &&& fixed_inst == stripped_inst(m.cx, body, inst)
            &&& access_of(after.cx, fixed, op, fixed_inst) == access_of(m.cx, body, op, inst)
        }),
{
    let body = m.funcs[f.0 as int]->0;
    lemma_same_walk(
        m.cx,
        body,
        m.cx.types.len() as int,
        m.cx.consts.len() as int,
        m.funcs.len() as int,
    );
    let inst = body.insts[d.0 as int];
    let spv_inst = inst.form.kind->SpvInst_0;
    assert(Func(f.0) == f);
    assert(DataInst(d.0) == d);
    assert(after.funcs[f.0 as int]->0.insts[d.0 as int] == stripped_inst(m.cx, body, inst));
    lemma_same_access(
        after.cx,
        stripped_body(m.cx, body),
        stripped_inst(m.cx, body, inst),
        m.cx,
        body,
        inst,
    );
    assert(access_of(
        after.cx,
        stripped_body(m.cx, body),
        spv_inst.opcode,
        stripped_inst(m.cx, body, inst),
    ) == access_of(m.cx, body, spv_inst.opcode, inst));
}

/// All bits of the `MemoryAccess` operands of a load, store or copy that the module can
/// reach, but `Aligned`, stay as they were given for the pointers.
pub proof fn law_strip_keeps_other_bits(
    m: ModuleView,
    after: ModuleView,
    f: Func,
    d: DataInst,
    k: int,
)
    requires
        m.wf(),
        is_stripped(m, after),
        f.0 < m.funcs.len(),
        reachable(m, f),
        m.funcs[f.0 as int] is Present,
        m.funcs[f.0 as int]->0.visits(d),
        m.funcs[f.0 as int]->0.insts[d.0 as int].form.kind is SpvInst,
        is_memory_op(m.funcs[f.0 as int]->0.insts[d.0 as int].form.kind->SpvInst_0.opcode),
        after.funcs[f.0 as int] is Present,
        after.funcs[f.0 as int]->0.insts[d.0 as int].form.kind is SpvInst,
        0 <= k < accesses(
            after.funcs[f.0 as int]->0.insts[d.0 as int].form.kind->SpvInst_0.imms,
        ).len(),
    ensures
        ({
            let body = after.funcs[f.0 as int]->0;
            let inst = body.insts[d.0 as int];
            let spv_inst = inst.form.kind->SpvInst_0;
            let a = access_of(after.cx, body, spv_inst.opcode, inst);
            let old_inst = m.funcs[f.0 as int]->0.insts[d.0 as int].form.kind->SpvInst_0;
            accesses(spv_inst.imms)[k].0 & !MEMORY_ACCESS_ALIGNED_BIT == given_operand(
                a,
                accesses(old_inst.imms),
                k,
            ).0 & !MEMORY_ACCESS_ALIGNED_BIT
        }),
{
    let body = m.funcs[f.0 as int]->0;
    lemma_stripped_access(m, after, f, d);
    let inst = body.insts[d.0 as int];
    let spv_inst = inst.form.kind->SpvInst_0;
    let a = access_of(m.cx, body, spv_inst.opcode, inst);
    law_other_bits_kept(a, spv_inst.imms);
    assert(accesses(a.fixed(spv_inst.imms))[k].0 & !MEMORY_ACCESS_ALIGNED_BIT
        == given_operand(a, accesses(spv_inst.imms), k).0 & !MEMORY_ACCESS_ALIGNED_BIT);
}

/// The instruction is a load or store of a physical pointer, and ends in a literal that
/// reads as an empty `MemoryAccess` word.
pub open spec fn has_empty_literal(cx: ContextView, body: BodyView, inst: DataInstView) -> bool {
    &&& inst.form.kind matches DataInstKindView::SpvInst(spv_inst)
    &&& is_memory_op(spv_inst.opcode)
    &&& !access_of(cx, body, spv_inst.opcode, inst).is_copy
    &&& access_of(cx, body, spv_inst.opcode, inst).dst_physical
    &&& ends_in_empty_literal(spv_inst.imms)
}

/// No load or store of a physical pointer that the module can reach ends in a literal
/// that reads as an empty `MemoryAccess` word.
pub open spec fn has_no_empty_literals(m: ModuleView) -> bool {
    forall|f: Func, d: DataInst| #[trigger]
        reachable(m, f) && f.0 < m.funcs.len() && m.funcs[f.0 as int] is Present && #[trigger]
        m.funcs[f.0 as int]->0.visits(d) ==> !has_empty_literal(
            m.cx,
            m.funcs[f.0 as int]->0,
            m.funcs[f.0 as int]->0.insts[d.0 as int],
        )
}

/// Every load, store and copy that the module can reach gives its physical pointers the
/// alignments that it gave them before, and else the natural ones. This leaves out a load
/// or store of a physical pointer whose alignment is written as an empty `MemoryAccess`
/// word.
pub proof fn law_strip_gives_alignments(
    m: ModuleView,
    after: ModuleView,
    f: Func,
    d: DataInst,
    k: int,
)
    requires
        m.wf(),
        is_stripped(m, after),
        f.0 < m.funcs.len(),
        reachable(m, f),
        m.funcs[f.0 as int] is Present,
        m.funcs[f.0 as int]->0.visits(d),
        m.funcs[f.0 as int]->0.insts[d.0 as int].form.kind is SpvInst,
        is_memory_op(m.funcs[f.0 as int]->0.insts[d.0 as int].form.kind->SpvInst_0.opcode),
        !has_empty_literal(
            m.cx,
            m.funcs[f.0 as int]->0,
            m.funcs[f.0 as int]->0.insts[d.0 as int],
        ),
        after.funcs[f.0 as int] is Present,
        after.funcs[f.0 as int]->0.insts[d.0 as int].form.kind is SpvInst,
        0 <= k < accesses(
            after.funcs[f.0 as int]->0.insts[d.0 as int].form.kind->SpvInst_0.imms,
        ).len(),
    ensures
        ({
            let body = after.funcs[f.0 as int]->0;
            let inst = body.insts[d.0 as int];
            let spv_inst = inst.form.kind->SpvInst_0;
            let a = access_of(after.cx, body, spv_inst.opcode, inst);
            let old_inst = m.funcs[f.0 as int]->0.insts[d.0 as int].form.kind->SpvInst_0;
            accesses(spv_inst.imms)[k].1 == fixed_access(
                a,
                k,
                given_operand(a, accesses(old_inst.imms), k),
            ).1
        }),
{
    let body = m.funcs[f.0 as int]->0;
    lemma_stripped_access(m, after, f, d);
    let inst = body.insts[d.0 as int];
    let spv_inst = inst.form.kind->SpvInst_0;
    let a = access_of(m.cx, body, spv_inst.opcode, inst);
    lemma_align_is_some(m.cx, body, spv_inst.opcode, inst);
    law_alignments_given(a, spv_inst.imms);
    assert(accesses(a.fixed(spv_inst.imms))[k].1 == fixed_access(
        a,
        k,
        given_operand(a, accesses(spv_inst.imms), k),
    ).1);
}

/// A module that was fixed needs no fixing: doing it again changes no function. This
/// leaves out a load or store of a physical pointer whose alignment is written as an empty
/// `MemoryAccess` word.
pub proof fn law_strip_twice(m: ModuleView, after: ModuleView)
    requires
        m.wf(),
        is_strippable(m),
        is_stripped(m, after),
        has_no_empty_literals(m),
    ensures
        is_strippable(after),
        stripped_funcs(after) == after.funcs,
{
    law_strip_keeps_reach(m, after);
    assert forall|f: Func| #[trigger] reachable(after, f) implies func_is_accessible(
        after.cx,
        after.funcs[f.0 as int],
    ) && stripped_func(after.cx, after.funcs[f.0 as int]) == after.funcs[f.0 as int] by {
        lemma_reachable_in_range(m, f);
        assert(Func(f.0) == f);
        if m.funcs[f.0 as int] is Present {
            lemma_strip_body_twice(m, after, f);
        }
    }
    assert(stripped_funcs(after) =~= after.funcs);
}

proof fn lemma_strip_body_twice(m: ModuleView, after: ModuleView, f: Func)
    requires
        m.wf(),
        is_strippable(m),
        is_stripped(m, after),
        has_no_empty_literals(m),
        f.0 < m.funcs.len(),
        reachable(m, f),
        m.funcs[f.0 as int] is Present,
    ensures
        ({
            let fixed = stripped_body(m.cx, m.funcs[f.0 as int]->0);
            &&& func_is_accessible(after.cx, FuncView::Present(fixed))
            &&& stripped_body(after.cx, fixed) == fixed
        }),
{
    let body = m.funcs[f.0 as int]->0;
    let fixed = stripped_body(m.cx, body);
    lemma_same_walk(
        m.cx,
        body,
        m.cx.types.len() as int,
        m.cx.consts.len() as int,
        m.funcs.len() as int,
    );
    assert forall|d: DataInst| #[trigger] fixed.visits(d) implies is_accessible(
        after.cx,
        fixed,
        fixed.insts[d.0 as int],
    ) && stripped_inst(after.cx, fixed, fixed.insts[d.0 as int]) == fixed.insts[d.0 as int] by {
        assert(body.visits(d));
        assert(m.funcs[f.0 as int]->0.visits(d));
        lemma_strip_inst_twice(m.cx, after.cx, body, body.insts[d.0 as int]);
    }
    assert(stripped_body(after.cx, fixed).insts =~= fixed.insts);
}

proof fn lemma_strip_inst_twice(
    cx: ContextView,
    after_cx: ContextView,
    body: BodyView,
    inst: DataInstView,
)
    requires
        after_cx.types == cx.types,
        after_cx.consts == cx.consts,
        is_accessible(cx, body, inst),
        !has_empty_literal(cx, body, inst),
    ensures
        ({
            let fixed = stripped_body(cx, body);
            let fixed_inst = stripped_inst(cx, body, inst);
            &&& is_accessible(after_cx, fixed, fixed_inst)
            &&& stripped_inst(after_cx, fixed, fixed_inst) == fixed_inst
        }),
{
    if let DataInstKindView::SpvInst(spv_inst) = inst.form.kind {
        let op = spv_inst.opcode;
        let fixed = stripped_body(cx, body);
        let fixed_inst = stripped_inst(cx, body, inst);
        lemma_same_access(after_cx, fixed, fixed_inst, cx, body, inst);
        assert(access_of(after_cx, fixed, op, fixed_inst) == access_of(cx, body, op, inst));
        if is_memory_op(op) {
            lemma_align_is_some(cx, body, op, inst);
            law_fixed_once_for_all(access_of(cx, body, op, inst), spv_inst.imms);
        }
    }
}

/// The alignment of an access is not zero.
pub proof fn lemma_align_is_some(cx: ContextView, body: BodyView, op: Opcode, inst: DataInstView)
    ensures
        access_of(cx, body, op, inst).dst_align != 0,
{
    let dst_info = pointer_info(cx, body, inst.inputs[0]);
    law_alignment_is_power_of_two(cx.types, inst.form.output_type->0);
    law_alignment_is_power_of_two(cx.types, type_of(cx.consts, body, inst.inputs[1])->0);
    if let Some((_, pointee)) = dst_info {
        law_alignment_is_power_of_two(cx.types, pointee);
    }
}

} // verus!
