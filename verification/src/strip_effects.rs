//! What `strip_when_invalid` makes of each load, store and copy, in terms of the types of
//! its pointers and the words that it came with.

use crate::alignment::alignment;
use crate::context::ModuleView;
use crate::ir::{DataInst, Func, FuncView};
use crate::memory_access::accesses;
use crate::memory_access_laws::{
    given_words, is_side_aligned, law_aligned_where_physical, law_copy_words,
    law_load_and_store_words, law_lone_words, wanted_words,
};
use crate::places::{law_walk, stands_at};
use crate::reach::{lemma_reachable_in_range, reachable};
use crate::spirv::Imm;
use crate::strip_laws::{is_stripped, lemma_align_is_some};
use crate::strip_logical_alignment::{
    access_of, func_is_accessible, is_accessible, is_strippable, stripped_body, stripped_inst,
};
use crate::types::type_of;
use crate::well_known::spv;
use vstd::prelude::*;

verus! {

/// What becomes of an instruction that stands in a function that the module can reach.
proof fn lemma_stripped_at(m: ModuleView, after: ModuleView, f: Func, n: int, j: int, d: DataInst)
    requires
        m.wf(),
        is_stripped(m, after),
        reachable(m, f),
        m.funcs[f.0 as int] is Present,
        stands_at(m.funcs[f.0 as int]->0, n, j, d),
    ensures
        f.0 < m.funcs.len(),
        d.0 < m.funcs[f.0 as int]->0.insts.len(),
        after.funcs[f.0 as int] is Present,
        after.funcs[f.0 as int]->0.insts[d.0 as int] == stripped_inst(
            m.cx,
            m.funcs[f.0 as int]->0,
            m.funcs[f.0 as int]->0.insts[d.0 as int],
        ),
        is_strippable(m) ==> is_accessible(
            m.cx,
            m.funcs[f.0 as int]->0,
            m.funcs[f.0 as int]->0.insts[d.0 as int],
        ),
{
    lemma_reachable_in_range(m, f);
    let body = m.funcs[f.0 as int]->0;
    assert(m.funcs[f.0 as int] == FuncView::Present(body));
    law_walk(body);
    assert(body.visits_at(n, j, d));
    assert(body.visits(d));
    assert(Func(f.0) == f);
    assert(DataInst(d.0) == d);
    assert(after.funcs[f.0 as int] == FuncView::Present(stripped_body(m.cx, body)));
    if is_strippable(m) {
        assert(func_is_accessible(m.cx, m.funcs[f.0 as int]));
    }
}

/// A load or store is aligned exactly where its pointer, wherever that comes from, is of an
/// `OpTypePointer` type in the `PhysicalStorageBuffer` storage class that says what it
/// points to. The same holds of each side of a copy.
pub proof fn law_strip_aligns_physical(
    m: ModuleView,
    after: ModuleView,
    f: Func,
    n: int,
    j: int,
    d: DataInst,
    side: int,
)
    requires
        m.wf(),
        is_strippable(m),
        is_stripped(m, after),
        reachable(m, f),
        m.funcs[f.0 as int] is Present,
        stands_at(m.funcs[f.0 as int]->0, n, j, d),
        m.funcs[f.0 as int]->0.insts[d.0 as int].form.kind is SpvInst,
        ({
            let op = m.funcs[f.0 as int]->0.insts[d.0 as int].form.kind->SpvInst_0.opcode;
            ||| side == 0 && (op == spv().op_load || op == spv().op_store)
            ||| (side == 0 || side == 1) && op == spv().op_copy_memory
        }),
    ensures
        after.funcs[f.0 as int] is Present,
        after.funcs[f.0 as int]->0.insts[d.0 as int].form.kind is SpvInst,
        ({
            let body = m.funcs[f.0 as int]->0;
            let ptr = body.insts[d.0 as int].inputs[side];
            let imms = after.funcs[f.0 as int]->0.insts[d.0 as int].form.kind->SpvInst_0.imms;
            is_side_aligned(accesses(imms), side) <==> {
                let ty = type_of(m.cx.consts, body, ptr);
                let kind = m.cx.types[(ty->0).0 as int].kind;
                &&& ty is Some
                &&& kind is SpvInst
                &&& kind->spv_inst.opcode == spv().op_type_pointer
                &&& kind->spv_inst.imms.len() == 1
                &&& kind->spv_inst.imms[0] is Short
                &&& kind->spv_inst.imms[0]->Short_1 == spv().physical_storage_buffer
                &&& kind->inputs.len() > 0
                &&& kind->inputs[0] is Type
            }
        }),
{
    lemma_stripped_at(m, after, f, n, j, d);
    let body = m.funcs[f.0 as int]->0;
    let inst = body.insts[d.0 as int];
    let spv_inst = inst.form.kind->SpvInst_0;
    law_aligned_where_physical(access_of(m.cx, body, spv_inst.opcode, inst), spv_inst.imms);
}

/// What becomes of the words of a load or store. Through a physical pointer it gets the
/// `Aligned` bit where it has none, with the natural alignment of what it loads or stores,
/// and else keeps the alignment that it has. Through any other it loses the bit and the
/// alignment, and the whole operand where that says nothing else. Other bits stay. (A
/// literal that reads as an empty `MemoryAccess` word is lost. An alignment that is missing
/// behind the bit is written as a `MemoryAccess` word.)
pub proof fn law_strip_loads_and_stores(
    m: ModuleView,
    after: ModuleView,
    f: Func,
    n: int,
    j: int,
    d: DataInst,
    bits: u32,
    literal: Imm,
)
    requires
        m.wf(),
        is_strippable(m),
        is_stripped(m, after),
        reachable(m, f),
        m.funcs[f.0 as int] is Present,
        stands_at(m.funcs[f.0 as int]->0, n, j, d),
        m.funcs[f.0 as int]->0.insts[d.0 as int].form.kind is SpvInst,
        ({
            let op = m.funcs[f.0 as int]->0.insts[d.0 as int].form.kind->SpvInst_0.opcode;
            op == spv().op_load || op == spv().op_store
        }),
    ensures
        after.funcs[f.0 as int] is Present,
        after.funcs[f.0 as int]->0.insts[d.0 as int].form.kind is SpvInst,
        ({
            let body = m.funcs[f.0 as int]->0;
            let inst = body.insts[d.0 as int];
            let spv_inst = inst.form.kind->SpvInst_0;
            let fixed = after.funcs[f.0 as int]->0.insts[d.0 as int].form.kind->SpvInst_0.imms;
            let kind = m.cx.types[(type_of(m.cx.consts, body, inst.inputs[0])->0).0 as int].kind;
            let physical = kind is SpvInst && kind->spv_inst.opcode == spv().op_type_pointer
                && kind->spv_inst.imms.len() == 1 && kind->spv_inst.imms[0] is Short
                && kind->spv_inst.imms[0]->Short_1 == spv().physical_storage_buffer
                && kind->inputs.len() > 0 && kind->inputs[0] is Type;
            let moved = if spv_inst.opcode == spv().op_store {
                type_of(m.cx.consts, body, inst.inputs[1])->0
            } else if inst.form.output_type is Some {
                inst.form.output_type->0
            } else {
                kind->inputs[0]->Type_0
            };
            let aligned = |bits: u32|
                seq![
                    Imm::Short(spv().memory_access, bits),
                    Imm::Short(spv().literal_integer, alignment(m.cx.types, moved) as u32),
                ];
            &&& spv_inst.imms.len() == 0 && physical ==> fixed == aligned(0x2)
            &&& spv_inst.imms.len() == 0 && !physical ==> fixed.len() == 0
            &&& spv_inst.imms == given_words(bits, literal) ==> {
                &&& physical && bits & 0x2 == 0 ==> fixed == aligned(bits | 0x2)
                &&& physical && bits & 0x2 != 0 && literal != Imm::Short(spv().memory_access, 0)
                    ==> fixed == spv_inst.imms
                &&& !physical && bits & !0x2u32 == 0 ==> fixed.len() == 0
                &&& !physical && bits & !0x2u32 != 0 ==> fixed == seq![
                    Imm::Short(spv().memory_access, bits & !0x2u32),
                ]
            }
            &&& bits & 0x2 != 0 && spv_inst.imms == seq![Imm::Short(spv().memory_access, bits)]
                ==> {
                &&& physical ==> fixed == spv_inst.imms.push(
                    Imm::Short(spv().memory_access, alignment(m.cx.types, moved) as u32),
                )
                &&& !physical && bits & !0x2u32 == 0 ==> fixed.len() == 0
                &&& !physical && bits & !0x2u32 != 0 ==> fixed == seq![
                    Imm::Short(spv().memory_access, bits & !0x2u32),
                ]
            }
        }),
{
    lemma_stripped_at(m, after, f, n, j, d);
    let body = m.funcs[f.0 as int]->0;
    let inst = body.insts[d.0 as int];
    let spv_inst = inst.form.kind->SpvInst_0;
    let a = access_of(m.cx, body, spv_inst.opcode, inst);
    law_load_and_store_words(a, bits, literal);
    if bits & 0x2 != 0 {
        law_lone_words(a, bits);
        lemma_align_is_some(m.cx, body, spv_inst.opcode, inst);
        let word = Imm::Short(spv().memory_access, bits);
        let align = Imm::Short(spv().memory_access, a.dst_align);
        assert(seq![word].push(align) =~= seq![word, align]);
    }
    if spv_inst.imms.len() == 0 {
        assert(spv_inst.imms =~= Seq::<Imm>::empty());
    }
}

/// What becomes of the words of a copy. Where a side of it is a physical pointer, each side
/// gets words of its own. Those of a physical side give the alignment that they gave, and
/// else the natural one of what the pointer points to; those of another give none. Words
/// that were about both sides go to both, and their alignment to the destination. Where no
/// side is physical, no alignment is left. Other bits stay.
pub proof fn law_strip_copies(
    m: ModuleView,
    after: ModuleView,
    f: Func,
    n: int,
    j: int,
    d: DataInst,
    bits: u32,
    literal: Imm,
    bits2: u32,
    literal2: Imm,
)
    requires
        m.wf(),
        is_strippable(m),
        is_stripped(m, after),
        reachable(m, f),
        m.funcs[f.0 as int] is Present,
        stands_at(m.funcs[f.0 as int]->0, n, j, d),
        m.funcs[f.0 as int]->0.insts[d.0 as int].form.kind is SpvInst,
        m.funcs[f.0 as int]->0.insts[d.0 as int].form.kind->SpvInst_0.opcode
            == spv().op_copy_memory,
    ensures
        after.funcs[f.0 as int] is Present,
        after.funcs[f.0 as int]->0.insts[d.0 as int].form.kind is SpvInst,
        ({
            let body = m.funcs[f.0 as int]->0;
            let inst = body.insts[d.0 as int];
            let imms = inst.form.kind->SpvInst_0.imms;
            let fixed = after.funcs[f.0 as int]->0.insts[d.0 as int].form.kind->SpvInst_0.imms;
            let kind = |side: int|
                m.cx.types[(type_of(m.cx.consts, body, inst.inputs[side])->0).0 as int].kind;
            let physical = |side: int|
                kind(side) is SpvInst && kind(side)->spv_inst.opcode == spv().op_type_pointer
                    && kind(side)->spv_inst.imms.len() == 1 && kind(side)->spv_inst.imms[0] is Short
                    && kind(side)->spv_inst.imms[0]->Short_1 == spv().physical_storage_buffer
                    && kind(side)->inputs.len() > 0 && kind(side)->inputs[0] is Type;
            let words = |side: int, bits: u32, literal: Imm|
                wanted_words(
                    physical(side),
                    bits,
                    literal,
                    alignment(m.cx.types, kind(side)->inputs[0]->Type_0) as u32,
                );
            let some_physical = physical(0) || physical(1);
            let one = given_words(bits, literal);
            let two = one + given_words(bits2, literal2);
            &&& imms.len() == 0 && !some_physical ==> fixed.len() == 0
            &&& imms.len() == 0 && some_physical ==> fixed == words(0, 0, literal) + words(
                1,
                0,
                literal,
            )
            &&& imms == one ==> {
                &&& some_physical ==> fixed == words(0, bits, literal) + words(
                    1,
                    bits & !0x2u32,
                    literal,
                )
                &&& !some_physical && bits & !0x2u32 != 0 ==> fixed == words(0, bits, literal)
                &&& !some_physical && bits & !0x2u32 == 0 ==> fixed.len() == 0
            }
            &&& imms == two ==> {
                &&& some_physical || bits & !0x2u32 != 0 || bits2 & !0x2u32 != 0 ==> fixed == words(
                    0,
                    bits,
                    literal,
                ) + words(1, bits2, literal2)
                &&& !some_physical && bits & !0x2u32 == 0 && bits2 & !0x2u32 == 0 ==> fixed.len()
                    == 0
            }
        }),
{
    lemma_stripped_at(m, after, f, n, j, d);
    let body = m.funcs[f.0 as int]->0;
    let inst = body.insts[d.0 as int];
    let spv_inst = inst.form.kind->SpvInst_0;
    let a = access_of(m.cx, body, spv_inst.opcode, inst);
    law_copy_words(a, bits, literal, bits2, literal2);
    assert(0u32 & 0x2u32 == 0) by (bit_vector);
    if spv_inst.imms.len() == 0 {
        assert(spv_inst.imms =~= Seq::<Imm>::empty());
    }
}

/// Nothing else changes. An instruction keeps its attributes, what it takes and what type
/// it gives; only a load, store or copy gets other immediates, and only one that stands in
/// a function that the module can reach. Everything stays where it is.
pub proof fn law_strip_keeps_the_rest(m: ModuleView, after: ModuleView, f: Func)
    requires
        m.wf(),
        is_stripped(m, after),
        f.0 < m.funcs.len(),
    ensures
        after.funcs.len() == m.funcs.len(),
        m.funcs[f.0 as int] is Imported ==> after.funcs[f.0 as int] is Imported,
        !reachable(m, f) ==> after.funcs[f.0 as int] == m.funcs[f.0 as int],
        m.funcs[f.0 as int] is Present ==> after.funcs[f.0 as int] is Present && {
            let body = m.funcs[f.0 as int]->0;
            let fixed = after.funcs[f.0 as int]->0;
            &&& fixed.regions == body.regions
            &&& fixed.nodes == body.nodes
            &&& fixed.node_order == body.node_order
            &&& fixed.entry == body.entry
            &&& fixed.insts.len() == body.insts.len()
            &&& forall|d: DataInst|
                d.0 < body.insts.len() ==> {
                    let old = body.insts[d.0 as int];
                    let new = #[trigger] fixed.insts[d.0 as int];
                    &&& new.attrs == old.attrs
                    &&& new.inputs == old.inputs
                    &&& new.form.output_type == old.form.output_type
                    &&& new.form.kind != old.form.kind ==> {
                        let op = old.form.kind->SpvInst_0.opcode;
                        &&& old.form.kind is SpvInst
                        &&& op == spv().op_load || op == spv().op_store || op
                            == spv().op_copy_memory
                        &&& new.form.kind is SpvInst
                        &&& new.form.kind->SpvInst_0.opcode == op
                        &&& exists|n: int, j: int| stands_at(body, n, j, d)
                    }
                }
        },
{
    assert(Func(f.0) == f);
    if let FuncView::Present(body) = m.funcs[f.0 as int] {
        law_walk(body);
        let fixed = after.funcs[f.0 as int]->0;
        assert forall|d: DataInst| d.0 < body.insts.len() implies {
            let old = body.insts[d.0 as int];
            let new = #[trigger] fixed.insts[d.0 as int];
            &&& new.attrs == old.attrs
            &&& new.inputs == old.inputs
            &&& new.form.output_type == old.form.output_type
            &&& new.form.kind != old.form.kind ==> {
                let op = old.form.kind->SpvInst_0.opcode;
                &&& old.form.kind is SpvInst
                &&& op == spv().op_load || op == spv().op_store || op == spv().op_copy_memory
                &&& new.form.kind is SpvInst
                &&& new.form.kind->SpvInst_0.opcode == op
                &&& exists|n: int, j: int| stands_at(body, n, j, d)
            }
        } by {
            assert(DataInst(d.0) == d);
            assert(body.visits(d) || !body.visits(d));
        }
    }
}

/// The pass takes every module in order whose loads, stores and copies have the operands
/// that they need, where these have types: a pointer, and what is stored or the pointer
/// that is copied from. It looks at nothing but what the module can reach.
pub proof fn law_what_is_strippable(m: ModuleView)
    requires
        m.wf(),
    ensures
        is_strippable(m) <==> forall|f: Func, n: int, j: int, d: DataInst|
            #![trigger reachable(m, f), stands_at(m.funcs[f.0 as int]->0, n, j, d)]
            reachable(m, f) && m.funcs[f.0 as int] is Present && stands_at(
                m.funcs[f.0 as int]->0,
                n,
                j,
                d,
            ) ==> {
                let body = m.funcs[f.0 as int]->0;
                let inst = body.insts[d.0 as int];
                let op = inst.form.kind->SpvInst_0.opcode;
                let is_typed = |i: int|
                    i < inst.inputs.len() && type_of(m.cx.consts, body, inst.inputs[i]) is Some;
                inst.form.kind is SpvInst ==> {
                    &&& op == spv().op_load ==> is_typed(0)
                    &&& op == spv().op_store || op == spv().op_copy_memory ==> is_typed(0)
                        && is_typed(1)
                }
            },
{
    if is_strippable(m) {
        assert forall|f: Func, n: int, j: int, d: DataInst|
            #![trigger reachable(m, f), stands_at(m.funcs[f.0 as int]->0, n, j, d)]
            reachable(m, f) && m.funcs[f.0 as int] is Present && stands_at(
                m.funcs[f.0 as int]->0,
                n,
                j,
                d,
            ) implies is_accessible(
            m.cx,
            m.funcs[f.0 as int]->0,
            m.funcs[f.0 as int]->0.insts[d.0 as int],
        ) by {
            assert(func_is_accessible(m.cx, m.funcs[f.0 as int]));
            law_walk(m.funcs[f.0 as int]->0);
            assert(m.funcs[f.0 as int]->0.visits(d));
        }
    } else {
        let f = choose|f: Func| #[trigger]
            reachable(m, f) && !func_is_accessible(m.cx, m.funcs[f.0 as int]);
        let body = m.funcs[f.0 as int]->0;
        let d = choose|d: DataInst| #[trigger]
            body.visits(d) && !is_accessible(m.cx, body, body.insts[d.0 as int]);
        law_walk(body);
        let (n, j) = choose|n: int, j: int| stands_at(body, n, j, d);
        assert(stands_at(m.funcs[f.0 as int]->0, n, j, d));
    }
}

} // verus!
