//! The natural alignment of types.

use crate::context::{types_wf, Context};
use crate::ir::{Type, TypeDefView, TypeKind, TypeKindView, TypeOrConst};
use crate::spirv::{Imm, Opcode};
use crate::well_known::{spv, WellKnown};
use vstd::arithmetic::power2::{
    lemma2_to64, lemma_pow2_pos, lemma_pow2_strictly_increases, lemma_pow2_unfold, pow2,
};
use vstd::prelude::*;

verus! {

/// The alignment of types of which nothing is known. It promises nothing.
pub const FALLBACK_ALIGN: u32 = 1;

/// The smallest power of two that is at least `n`.
pub open spec fn round_up(n: nat) -> nat
    decreases n,
{
    if n <= 1 {
        1
    } else {
        2 * round_up(((n + 1) / 2) as nat)
    }
}

/// `round_up` gives a power of two that is at least `n`, and every power of two
/// that is at least `n` is at least that.
pub proof fn lemma_round_up(n: nat)
    ensures
        round_up(n) >= n,
        exists|k: nat| round_up(n) == pow2(k),
        forall|k: nat| #[trigger] pow2(k) >= n ==> pow2(k) >= round_up(n),
    decreases n,
{
    if n <= 1 {
        assert(pow2(0) == 1) by {
            lemma_pow2_pos(0);
            lemma2_to64();
        }
        assert forall|k: nat| #[trigger] pow2(k) >= n implies pow2(k) >= round_up(n) by {
            lemma_pow2_pos(k);
        }
    } else {
        let half = ((n + 1) / 2) as nat;
        lemma_round_up(half);
        let k = choose|k: nat| round_up(half) == pow2(k);
        lemma_pow2_unfold(k + 1);
        assert(round_up(n) == pow2(k + 1));
        assert forall|k: nat| #[trigger] pow2(k) >= n implies pow2(k) >= round_up(n) by {
            if k == 0 {
                lemma2_to64();
            } else {
                lemma_pow2_unfold(k);
                assert(pow2((k - 1) as nat) >= half);
            }
        }
    }
}

/// Doubling steps of [`next_power_of_two`] end where `round_up` says.
proof fn lemma_round_up_doubles(n: nat, p: nat)
    requires
        exists|k: nat| p == pow2(k),
        p < n,
    ensures
        2 * p <= round_up(n),
{
    lemma_round_up(n);
    let k = choose|k: nat| p == pow2(k);
    let l = choose|l: nat| round_up(n) == pow2(l);
    if l <= k {
        if l < k {
            lemma_pow2_strictly_increases(l, k);
        }
        assert(false);
    }
    lemma_pow2_unfold(k + 1);
    if k + 1 < l {
        lemma_pow2_strictly_increases(k + 1, l);
    }
}

/// The smallest power of two that is at least `n`.
fn next_power_of_two(n: u32) -> (p: u32)
    requires
        n <= 0x2000_0000,
    ensures
        p == round_up(n as nat),
        p >= 1,
{
    proof {
        lemma2_to64();
        lemma_round_up(n as nat);
        assert(pow2(29) == 0x2000_0000);
        assert(round_up(n as nat) <= pow2(29));
    }
    let mut p: u32 = 1;
    while p < n
        invariant
            p >= 1,
            p <= round_up(n as nat) <= 0x2000_0000,
            exists|k: nat| p == pow2(k),
        decreases 0x2000_0000 - p,
    {
        proof {
            lemma_round_up_doubles(n as nat, p as nat);
            let k = choose|k: nat| p == pow2(k);
            lemma_pow2_unfold(k + 1);
            assert(2 * p == pow2(k + 1));
        }
        p = 2 * p;
    }
    proof {
        lemma_round_up(n as nat);
        let k = choose|k: nat| p == pow2(k);
        assert(pow2(k) >= n);
    }
    p
}

/// The alignment in bytes of an `OpTypeInt` or `OpTypeFloat` with these
/// immediates: the width, which comes first, in bytes, rounded up to a power of
/// two.
pub open spec fn scalar_alignment(imms: Seq<Imm>) -> nat {
    if imms.len() > 0 {
        match imms[0] {
            Imm::Short(_, bit_width) => round_up(
                if bit_width < 8 {
                    1
                } else {
                    (bit_width / 8) as nat
                },
            ),
            _ => FALLBACK_ALIGN as nat,
        }
    } else {
        FALLBACK_ALIGN as nat
    }
}

/// `op` is a type made of elements of one type.
pub open spec fn has_elements(op: Opcode) -> bool {
    ||| op == spv().op_type_vector
    ||| op == spv().op_type_matrix
    ||| op == spv().op_type_array
    ||| op == spv().op_type_runtime_array
}

/// The natural alignment in bytes of type `ty`: of a number its size rounded up
/// to a power of two, of elements that of an element, of a structure that of the
/// member with the largest, and of anything else the fallback. (A type is only
/// ever made of earlier types.)
pub open spec fn alignment(types: Seq<TypeDefView>, ty: Type) -> nat
    decreases ty.0, types[ty.0 as int].kind->inputs.len() + 1,
{
    match types[ty.0 as int].kind {
        TypeKindView::SpvInst { spv_inst, inputs } => {
            if spv_inst.opcode == spv().op_type_int || spv_inst.opcode == spv().op_type_float {
                scalar_alignment(spv_inst.imms)
            } else if has_elements(spv_inst.opcode) {
                if inputs.len() > 0 && inputs[0] is Type && inputs[0]->Type_0.0 < ty.0 {
                    alignment(types, inputs[0]->Type_0)
                } else {
                    FALLBACK_ALIGN as nat
                }
            } else if spv_inst.opcode == spv().op_type_struct {
                members_alignment(types, ty, inputs.len())
            } else {
                FALLBACK_ALIGN as nat
            }
        },
        _ => FALLBACK_ALIGN as nat,
    }
}

/// The largest alignment among the first `n` members of structure `ty`, or the
/// fallback where there are none.
pub open spec fn members_alignment(types: Seq<TypeDefView>, ty: Type, n: nat) -> nat
    decreases ty.0, n,
{
    if n == 0 {
        FALLBACK_ALIGN as nat
    } else {
        let before = members_alignment(types, ty, (n - 1) as nat);
        match types[ty.0 as int].kind->inputs[n - 1] {
            TypeOrConst::Type(field) => if field.0 < ty.0 && alignment(types, field) > before {
                alignment(types, field)
            } else {
                before
            },
            TypeOrConst::Const(_) => before,
        }
    }
}

/// A natural alignment is a power of two, and at most 2^29, for a width has 32
/// bits and counts bits.
pub proof fn law_alignment_is_power_of_two(types: Seq<TypeDefView>, ty: Type)
    ensures
        exists|k: nat| alignment(types, ty) == pow2(k),
        1 <= alignment(types, ty) <= 0x2000_0000,
    decreases ty.0, types[ty.0 as int].kind->inputs.len() + 1,
{
    lemma2_to64();
    assert(FALLBACK_ALIGN as nat == pow2(0));
    match types[ty.0 as int].kind {
        TypeKindView::SpvInst { spv_inst, inputs } => {
            if spv_inst.opcode == spv().op_type_int || spv_inst.opcode == spv().op_type_float {
                if spv_inst.imms.len() > 0 {
                    match spv_inst.imms[0] {
                        Imm::Short(_, bit_width) => lemma_round_up(
                            if bit_width < 8 {
                                1
                            } else {
                                (bit_width / 8) as nat
                            },
                        ),
                        _ => {},
                    }
                }
            } else if has_elements(spv_inst.opcode) {
                if inputs.len() > 0 && inputs[0] is Type && inputs[0]->Type_0.0 < ty.0 {
                    law_alignment_is_power_of_two(types, inputs[0]->Type_0);
                }
            } else if spv_inst.opcode == spv().op_type_struct {
                lemma_members_alignment_is_power_of_two(types, ty, inputs.len());
            }
        },
        _ => {},
    }
}

proof fn lemma_members_alignment_is_power_of_two(types: Seq<TypeDefView>, ty: Type, n: nat)
    ensures
        exists|k: nat| members_alignment(types, ty, n) == pow2(k),
        1 <= members_alignment(types, ty, n) <= 0x2000_0000,
    decreases ty.0, n,
{
    lemma2_to64();
    assert(FALLBACK_ALIGN as nat == pow2(0));
    if n > 0 {
        lemma_members_alignment_is_power_of_two(types, ty, (n - 1) as nat);
        match types[ty.0 as int].kind->inputs[n - 1] {
            TypeOrConst::Type(field) => if field.0 < ty.0 {
                law_alignment_is_power_of_two(types, field);
            },
            TypeOrConst::Const(_) => {},
        }
    }
}

/// A structure is aligned for each of its members, and no more than one of them needs.
pub proof fn law_structure_alignment(types: Seq<TypeDefView>, ty: Type)
    requires
        types_wf(types),
        ty.0 < types.len(),
        types[ty.0 as int].kind is SpvInst,
        types[ty.0 as int].kind->spv_inst.opcode == spv().op_type_struct,
    ensures
        forall|i: int|
            0 <= i < types[ty.0 as int].kind->inputs.len() ==> (
            #[trigger] types[ty.0 as int].kind->inputs[i] matches TypeOrConst::Type(field)
                ==> alignment(types, ty) >= alignment(types, field)),
        alignment(types, ty) == FALLBACK_ALIGN || exists|i: int|
            0 <= i < types[ty.0 as int].kind->inputs.len() && (
            #[trigger] types[ty.0 as int].kind->inputs[i] matches TypeOrConst::Type(field)
                && alignment(types, ty) == alignment(types, field)),
{
    lemma_largest_member(types, ty, types[ty.0 as int].kind->inputs.len());
}

proof fn lemma_largest_member(types: Seq<TypeDefView>, ty: Type, n: nat)
    requires
        types_wf(types),
        ty.0 < types.len(),
        types[ty.0 as int].kind is SpvInst,
        n <= types[ty.0 as int].kind->inputs.len(),
    ensures
        forall|i: int|
            0 <= i < n ==> (#[trigger] types[ty.0 as int].kind->inputs[i] matches TypeOrConst::Type(
                field,
            ) ==> members_alignment(types, ty, n) >= alignment(types, field)),
        members_alignment(types, ty, n) == FALLBACK_ALIGN || exists|i: int|
            0 <= i < n && (#[trigger] types[ty.0 as int].kind->inputs[i] matches TypeOrConst::Type(
                field,
            ) && members_alignment(types, ty, n) == alignment(types, field)),
    decreases n,
{
    if n > 0 {
        let inputs = types[ty.0 as int].kind->inputs;
        lemma_largest_member(types, ty, (n - 1) as nat);
        let before = members_alignment(types, ty, (n - 1) as nat);
        if let TypeOrConst::Type(field) = inputs[n - 1] {
            assert(types[ty.0 as int].kind->inputs[n - 1] == TypeOrConst::Type(field));
            assert(field.0 < ty.0);
        }
        assert forall|i: int| 0 <= i < n implies (
        #[trigger] types[ty.0 as int].kind->inputs[i] matches TypeOrConst::Type(field)
            ==> members_alignment(types, ty, n) >= alignment(types, field)) by {
            if i < n - 1 {
                assert(types[ty.0 as int].kind->inputs[i] matches TypeOrConst::Type(field)
                    ==> before >= alignment(types, field));
            }
        }
        if members_alignment(types, ty, n) == before && before != FALLBACK_ALIGN {
            let i = choose|i: int|
                0 <= i < n - 1 && (
                #[trigger] types[ty.0 as int].kind->inputs[i] matches TypeOrConst::Type(field)
                    && before == alignment(types, field));
            assert(types[ty.0 as int].kind->inputs[i] is Type);
        }
    }
}

/// A number is aligned to the least power of two that is no less than its size in bytes.
/// One that is smaller than a byte takes a byte.
pub proof fn law_number_alignment(types: Seq<TypeDefView>, ty: Type)
    requires
        types[ty.0 as int].kind is SpvInst,
        types[ty.0 as int].kind->spv_inst.opcode == spv().op_type_int
            || types[ty.0 as int].kind->spv_inst.opcode == spv().op_type_float,
        types[ty.0 as int].kind->spv_inst.imms.len() > 0,
        types[ty.0 as int].kind->spv_inst.imms[0] is Short,
    ensures
        ({
            let bit_width = types[ty.0 as int].kind->spv_inst.imms[0]->Short_1;
            let align = alignment(types, ty);
            &&& align >= 1
            &&& align >= bit_width / 8
            &&& exists|k: nat| align == pow2(k)
            &&& forall|k: nat| #[trigger] pow2(k) < align ==> pow2(k) < bit_width / 8
        }),
{
    let bit_width = types[ty.0 as int].kind->spv_inst.imms[0]->Short_1;
    let bytes: nat = if bit_width < 8 {
        1
    } else {
        (bit_width / 8) as nat
    };
    lemma_round_up(bytes);
    assert(alignment(types, ty) == round_up(bytes));
    assert forall|k: nat| #[trigger] pow2(k) < alignment(types, ty) implies pow2(k) < bit_width
        / 8 by {
        lemma_pow2_pos(k);
        assert(pow2(k) < bytes);
    }
}

/// Vectors, matrices and arrays are aligned as one of their elements is, however many
/// there are.
pub proof fn law_element_alignment(types: Seq<TypeDefView>, ty: Type, elem: Type)
    requires
        types_wf(types),
        ty.0 < types.len(),
        types[ty.0 as int].kind is SpvInst,
        ({
            let op = types[ty.0 as int].kind->spv_inst.opcode;
            ||| op == spv().op_type_vector
            ||| op == spv().op_type_matrix
            ||| op == spv().op_type_array
            ||| op == spv().op_type_runtime_array
        }),
        types[ty.0 as int].kind->inputs.len() > 0,
        types[ty.0 as int].kind->inputs[0] == TypeOrConst::Type(elem),
    ensures
        alignment(types, ty) == alignment(types, elem),
{
    assert(types[ty.0 as int].kind->inputs[0] matches TypeOrConst::Type(c) ==> c.0 < ty.0);
}

/// Nothing is promised of a type of which nothing is known: of one that is neither a
/// number nor made of others, and of one that lacks what would tell.
pub proof fn law_unknown_alignment(types: Seq<TypeDefView>, ty: Type)
    ensures
        ({
            let kind = types[ty.0 as int].kind;
            let op = kind->spv_inst.opcode;
            let is_number = op == spv().op_type_int || op == spv().op_type_float;
            let has_elements = op == spv().op_type_vector || op == spv().op_type_matrix || op
                == spv().op_type_array || op == spv().op_type_runtime_array;
            ||| !(kind is SpvInst)
            ||| !is_number && !has_elements && op != spv().op_type_struct
            ||| is_number && (kind->spv_inst.imms.len() == 0 || !(
            kind->spv_inst.imms[0] is Short))
            ||| has_elements && (kind->inputs.len() == 0 || kind->inputs[0] is Const)
        }) ==> alignment(types, ty) == 1,
{
}

/// Types that are written alike are aligned alike. It makes no difference what attributes
/// they have, nor what other types there are.
pub proof fn law_alignment_of_same_types(
    types: Seq<TypeDefView>,
    other: Seq<TypeDefView>,
    ty: Type,
)
    requires
        types_wf(types),
        ty.0 < types.len(),
        ty.0 < other.len(),
        forall|t: int| 0 <= t <= ty.0 ==> (#[trigger] other[t]).kind == types[t].kind,
    ensures
        alignment(other, ty) == alignment(types, ty),
    decreases ty.0, 1nat, 0nat,
{
    assert(other[ty.0 as int].kind == types[ty.0 as int].kind);
    if let TypeKindView::SpvInst { spv_inst, inputs } = types[ty.0 as int].kind {
        if has_elements(spv_inst.opcode) {
            if inputs.len() > 0 && inputs[0] is Type && inputs[0]->Type_0.0 < ty.0 {
                law_alignment_of_same_types(types, other, inputs[0]->Type_0);
            }
        } else if spv_inst.opcode == spv().op_type_struct {
            lemma_members_of_same_types(types, other, ty, inputs.len());
        }
    }
}

proof fn lemma_members_of_same_types(
    types: Seq<TypeDefView>,
    other: Seq<TypeDefView>,
    ty: Type,
    n: nat,
)
    requires
        types_wf(types),
        ty.0 < types.len(),
        ty.0 < other.len(),
        types[ty.0 as int].kind is SpvInst,
        n <= types[ty.0 as int].kind->inputs.len(),
        forall|t: int| 0 <= t <= ty.0 ==> (#[trigger] other[t]).kind == types[t].kind,
    ensures
        members_alignment(other, ty, n) == members_alignment(types, ty, n),
    decreases ty.0, 0nat, n,
{
    assert(other[ty.0 as int].kind == types[ty.0 as int].kind);
    if n > 0 {
        lemma_members_of_same_types(types, other, ty, (n - 1) as nat);
        if let TypeOrConst::Type(field) = types[ty.0 as int].kind->inputs[n - 1] {
            if field.0 < ty.0 {
                law_alignment_of_same_types(types, other, field);
            }
        }
    }
}

/// The natural alignment in bytes of a type.
pub fn natural_alignment(cx: &Context, wk: &WellKnown, ty: Type) -> (align: u32)
    requires
        *wk == spv(),
        types_wf(cx@.types),
        ty.0 < cx@.types.len(),
    ensures
        align == alignment(cx@.types, ty),
    decreases ty.0,
{
    let ghost types = cx@.types;
    assert(types[ty.0 as int] == cx.types@[ty.0 as int]@);
    let (spv_inst, inputs) = match &cx.types[ty.0].kind {
        TypeKind::SpvInst { spv_inst, type_and_const_inputs } => (spv_inst, type_and_const_inputs),
        _ => {
            return FALLBACK_ALIGN;
        },
    };
    let op = spv_inst.opcode;
    if op == wk.op_type_int || op == wk.op_type_float {
        if spv_inst.imms.len() > 0 {
            if let Imm::Short(_, bit_width) = spv_inst.imms[0] {
                let bytes: u32 = bit_width / 8;
                return next_power_of_two(if bytes > 1 { bytes } else { 1 });
            }
        }
        return FALLBACK_ALIGN;
    }
    if op == wk.op_type_vector || op == wk.op_type_matrix || op == wk.op_type_array || op
        == wk.op_type_runtime_array {
        if inputs.len() > 0 {
            if let TypeOrConst::Type(elem) = inputs[0] {
                assert(types[ty.0 as int].kind->inputs[0] == TypeOrConst::Type(elem));
                return natural_alignment(cx, wk, elem);
            }
        }
        return FALLBACK_ALIGN;
    }
    if op == wk.op_type_struct {
        let mut largest: u32 = FALLBACK_ALIGN;
        let mut i: usize = 0;
        while i < inputs.len()
            invariant
                *wk == spv(),
                types == cx@.types,
                types_wf(types),
                ty.0 < types.len(),
                types[ty.0 as int].kind is SpvInst,
                types[ty.0 as int].kind->inputs == inputs@,
                i <= inputs@.len(),
                largest == members_alignment(types, ty, i as nat),
            decreases inputs@.len() - i,
        {
            if let TypeOrConst::Type(field) = inputs[i] {
                assert(types[ty.0 as int].kind->inputs[i as int] == TypeOrConst::Type(field));
                let align = natural_alignment(cx, wk, field);
                if align > largest {
                    largest = align;
                }
            }
            i = i + 1;
        }
        return largest;
    }
    FALLBACK_ALIGN
}

} // verus!
