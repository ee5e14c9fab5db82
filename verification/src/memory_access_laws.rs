//! What holds of fixed `MemoryAccess` operands.

use crate::memory_access::{
    access_bits, access_word, accesses, align_word, all_accesses_empty, first_len, is_access,
    is_aligned, without_empty_end, Access, MEMORY_ACCESS_ALIGNED_BIT,
};
use crate::spirv::Imm;
use crate::well_known::spv;
use vstd::prelude::*;

verus! {

/// The immediates that are neither `MemoryAccess` words nor their literals.
pub open spec fn other_imms(imms: Seq<Imm>) -> Seq<Imm>
    decreases imms.len(),
{
    if imms.len() == 0 {
        Seq::empty()
    } else if is_access(imms[0]) {
        other_imms(imms.skip(first_len(imms)))
    } else {
        seq![imms[0]] + other_imms(imms.skip(1))
    }
}

/// What the `k`-th `MemoryAccess` operand of an instruction becomes, as its bits and its
/// literal, where it was `operand`. About a physical pointer it is aligned, and has the
/// literal that it had, and else the alignment of that pointer; about a logical one it is
/// not aligned. (The alignment is of the kind of the operand where that was aligned and
/// had none.)
pub open spec fn fixed_access(a: Access, k: int, operand: (u32, Option<Imm>)) -> (
    u32,
    Option<Imm>,
) {
    if a.physical(k) {
        (
            operand.0 | MEMORY_ACCESS_ALIGNED_BIT,
            Some(
                match operand.1 {
                    Some(literal) => literal,
                    None => if is_aligned(operand.0) {
                        access_word(a.align(k))
                    } else {
                        align_word(a.align(k))
                    },
                },
            ),
        )
    } else {
        (operand.0 & !MEMORY_ACCESS_ALIGNED_BIT, None)
    }
}

/// The `MemoryAccess` operand that an instruction with `operands` has for what its `k`-th
/// is about. The only one of a copy is about both sides, but its alignment is that of the
/// destination. Where there is none, it is as good as an empty one.
pub open spec fn given_operand(a: Access, operands: Seq<(u32, Option<Imm>)>, k: int) -> (
    u32,
    Option<Imm>,
) {
    if k < operands.len() {
        operands[k]
    } else if a.is_copy && operands.len() == 1 {
        (operands[0].0 & !MEMORY_ACCESS_ALIGNED_BIT, None)
    } else {
        (0, None)
    }
}

/// What becomes of the `MemoryAccess` operands, the first of which is the `i`-th
/// of its instruction.
spec fn fixed_accesses(
    a: Access,
    operands: Seq<(u32, Option<Imm>)>,
    i: int,
) -> Seq<(u32, Option<Imm>)> {
    Seq::new(operands.len(), |k: int| fixed_access(a, i + k, operands[k]))
}

proof fn lemma_bits(bits: u32)
    ensures
        is_aligned(bits | MEMORY_ACCESS_ALIGNED_BIT),
        !is_aligned(bits & !MEMORY_ACCESS_ALIGNED_BIT),
        (bits | MEMORY_ACCESS_ALIGNED_BIT) | MEMORY_ACCESS_ALIGNED_BIT == bits
            | MEMORY_ACCESS_ALIGNED_BIT,
        (bits & !MEMORY_ACCESS_ALIGNED_BIT) & !MEMORY_ACCESS_ALIGNED_BIT == bits
            & !MEMORY_ACCESS_ALIGNED_BIT,
        (bits | MEMORY_ACCESS_ALIGNED_BIT) & !MEMORY_ACCESS_ALIGNED_BIT == bits
            & !MEMORY_ACCESS_ALIGNED_BIT,
        (bits & !MEMORY_ACCESS_ALIGNED_BIT) | MEMORY_ACCESS_ALIGNED_BIT == bits
            | MEMORY_ACCESS_ALIGNED_BIT,
        bits | MEMORY_ACCESS_ALIGNED_BIT != 0,
        !is_aligned(bits) ==> bits & !MEMORY_ACCESS_ALIGNED_BIT == bits,
        !is_aligned(0),
{
    assert((bits | 0x2u32) & 0x2u32 != 0) by (bit_vector);
    assert((bits & !0x2u32) & 0x2u32 == 0) by (bit_vector);
    assert((bits | 0x2u32) | 0x2u32 == bits | 0x2u32) by (bit_vector);
    assert((bits & !0x2u32) & !0x2u32 == bits & !0x2u32) by (bit_vector);
    assert((bits | 0x2u32) & !0x2u32 == bits & !0x2u32) by (bit_vector);
    assert((bits & !0x2u32) | 0x2u32 == bits | 0x2u32) by (bit_vector);
    assert(bits | 0x2u32 != 0) by (bit_vector);
    assert(bits & 0x2u32 == 0 ==> bits & !0x2u32 == bits) by (bit_vector);
    assert(0u32 & 0x2u32 == 0) by (bit_vector);
}

/// Fixed operands are read back one by one, and fixing them again leaves them
/// alone, whatever comes after them.
proof fn lemma_fixed_prefix(a: Access, imms: Seq<Imm>, i: int, tail: Seq<Imm>)
    requires
        i >= 0,
    ensures
        accesses(a.fixed_operands(imms, i) + tail) == fixed_accesses(a, accesses(imms), i)
            + accesses(tail),
        a.fixed_operands(a.fixed_operands(imms, i) + tail, i) == a.fixed_operands(imms, i)
            + a.fixed_operands(tail, i + accesses(imms).len()),
        other_imms(a.fixed_operands(imms, i) + tail) == other_imms(imms) + other_imms(tail),
    decreases imms.len(),
{
    let all = a.fixed_operands(imms, i) + tail;
    if imms.len() == 0 {
        assert(all =~= tail);
        assert(fixed_accesses(a, accesses(imms), i) =~= Seq::empty());
        assert(Seq::<(u32, Option<Imm>)>::empty() + accesses(tail) =~= accesses(tail));
        assert(Seq::<Imm>::empty() + a.fixed_operands(tail, i) =~= a.fixed_operands(tail, i));
        assert(Seq::<Imm>::empty() + other_imms(tail) =~= other_imms(tail));
    } else if is_access(imms[0]) {
        let bits = access_bits(imms[0]);
        lemma_bits(bits);
        let literal = if first_len(imms) == 2 {
            Some(imms[1])
        } else {
            None
        };
        let rest = imms.skip(first_len(imms));
        let head = a.fixed_operand(i, bits, literal);
        let rest_fixed = a.fixed_operands(rest, i + 1);
        lemma_fixed_prefix(a, rest, i + 1, tail);
        assert(all =~= head + (rest_fixed + tail));
        assert(all[0] == head[0]);
        assert(is_access(all[0]));
        if a.physical(i) {
            assert(all[1] == head[1]);
            assert(all.skip(2) =~= rest_fixed + tail);
            assert(first_len(all) == 2);
        } else {
            assert(all.skip(1) =~= rest_fixed + tail);
            assert(first_len(all) == 1);
        }
        let mapped = fixed_accesses(a, accesses(imms), i);
        let mapped_rest = fixed_accesses(a, accesses(rest), i + 1);
        assert(accesses(imms) == seq![(bits, literal)] + accesses(rest));
        assert forall|k: int| 0 <= k < mapped_rest.len() implies mapped[k + 1] == mapped_rest[k] by {
            assert(accesses(imms)[k + 1] == accesses(rest)[k]);
            assert(i + (k + 1) == (i + 1) + k);
        }
        assert(mapped =~= seq![mapped[0]] + mapped_rest);
        assert(accesses(all) =~= mapped + accesses(tail));
        assert(a.fixed_operands(all, i) =~= a.fixed_operands(imms, i) + a.fixed_operands(
            tail,
            i + accesses(imms).len(),
        ));
    } else {
        let rest = imms.skip(1);
        let rest_fixed = a.fixed_operands(rest, i);
        lemma_fixed_prefix(a, rest, i, tail);
        assert(all =~= seq![imms[0]] + (rest_fixed + tail));
        assert(all[0] == imms[0]);
        assert(all.skip(1) =~= rest_fixed + tail);
        assert(a.fixed_operands(all, i) =~= a.fixed_operands(imms, i) + a.fixed_operands(
            tail,
            i + accesses(imms).len(),
        ));
        assert(other_imms(all) =~= other_imms(imms) + other_imms(tail));
    }
}

/// What an operand that was fixed reads as, and that fixing it leaves it alone, whatever
/// comes after it.
proof fn lemma_operand(a: Access, i: int, bits: u32, literal: Option<Imm>, tail: Seq<Imm>)
    requires
        i >= 0,
    ensures
        accesses(a.fixed_operand(i, bits, literal) + tail) == seq![
            fixed_access(a, i, (bits, literal)),
        ] + accesses(tail),
        a.fixed_operands(a.fixed_operand(i, bits, literal) + tail, i) == a.fixed_operand(
            i,
            bits,
            literal,
        ) + a.fixed_operands(tail, i + 1),
        other_imms(a.fixed_operand(i, bits, literal) + tail) == other_imms(tail),
{
    let head = a.fixed_operand(i, bits, literal);
    let all = head + tail;
    lemma_bits(bits);
    assert(all[0] == head[0]);
    if a.physical(i) {
        assert(all[1] == head[1]);
        assert(all.skip(2) =~= tail);
    } else {
        assert(all.skip(1) =~= tail);
    }
    assert(a.fixed_operand(i, access_bits(all[0]), if first_len(all) == 2 {
        Some(all[1])
    } else {
        None
    }) =~= head);
}

/// A new operand is an empty one that was fixed.
proof fn lemma_new_operand(a: Access, i: int)
    ensures
        Access::new_operand(a.physical(i), a.align(i)) == a.fixed_operand(i, 0, None),
{
    lemma_bits(0);
    assert(0u32 & !0x2u32 == 0) by (bit_vector);
    assert(0u32 | 0x2u32 == 2) by (bit_vector);
    assert(Access::new_operand(a.physical(i), a.align(i)) =~= a.fixed_operand(i, 0, None));
}

/// The operand of a source is the one that was about both sides, without its alignment,
/// fixed.
proof fn lemma_source_operand(a: Access, bits: u32)
    requires
        a.is_copy,
    ensures
        a.source_operand(bits) == a.fixed_operand(1, bits & !MEMORY_ACCESS_ALIGNED_BIT, None),
{
    lemma_bits(bits);
    assert(a.source_operand(bits) =~= a.fixed_operand(
        1,
        bits & !MEMORY_ACCESS_ALIGNED_BIT,
        None,
    ));
}

/// The missing operands are read back, and fixing them leaves them alone. After
/// them nothing is missing.
proof fn lemma_missing(a: Access, operands: Seq<(u32, Option<Imm>)>)
    ensures
        ({
            let n = operands.len() as int;
            let missing = a.missing_operands(operands);
            let more = accesses(missing);
            &&& a.fixed_operands(missing, n) == missing
            &&& other_imms(missing) == Seq::<Imm>::empty()
            &&& forall|k: int|
                0 <= k < more.len() ==> #[trigger] more[k] == fixed_access(
                    a,
                    n + k,
                    given_operand(a, operands, n + k),
                )
            &&& forall|all: Seq<(u32, Option<Imm>)>|
                all.len() == n + more.len() ==> #[trigger] a.missing_operands(all) == Seq::<
                    Imm,
                >::empty()
            &&& a.dst_physical ==> n + more.len() >= 1
            &&& a.is_copy && (a.dst_physical || a.src_physical) ==> n + more.len() >= 2
        }),
{
    let n = operands.len() as int;
    let missing = a.missing_operands(operands);
    let none = Seq::<Imm>::empty();
    assert(accesses(none) =~= Seq::empty());
    assert(a.fixed_operands(none, n) =~= none);
    assert(a.fixed_operands(none, n + 1) =~= none);
    assert(a.fixed_operands(none, n + 2) =~= none);
    assert(other_imms(none) =~= none);
    assert(missing + none =~= missing);
    if !a.is_copy && n == 0 && a.dst_physical {
        lemma_new_operand(a, 0);
        lemma_operand(a, 0, 0, None, none);
    } else if a.is_copy && (a.dst_physical || a.src_physical) && n == 0 {
        let src = a.fixed_operand(1, 0, None);
        lemma_new_operand(a, 0);
        lemma_new_operand(a, 1);
        lemma_operand(a, 1, 0, None, none);
        assert(src + none =~= src);
        lemma_operand(a, 0, 0, None, src);
        assert(a.fixed_operands(missing, n) =~= missing);
    } else if a.is_copy && (a.dst_physical || a.src_physical) && n == 1 {
        lemma_source_operand(a, operands[0].0);
        lemma_operand(a, 1, operands[0].0 & !MEMORY_ACCESS_ALIGNED_BIT, None, none);
    } else {
        assert(missing =~= none);
    }
}

/// Without an empty `MemoryAccess` word at the end, either that operand is gone,
/// or the literal of the last operand is.
proof fn lemma_drop_empty(imms: Seq<Imm>)
    requires
        imms.len() > 0,
        imms.last() == access_word(0),
    ensures
        ({
            let operands = accesses(imms);
            let fewer = accesses(imms.drop_last());
            &&& operands.len() > 0
            &&& other_imms(imms.drop_last()) == other_imms(imms)
            &&& {
                ||| fewer == operands.drop_last() && operands.last().0 == 0
                ||| fewer == operands.update(operands.len() - 1, (operands.last().0, None))
            }
        }),
    decreases imms.len(),
{
    lemma_bits(0);
    let last = imms.drop_last();
    assert(accesses(Seq::<Imm>::empty()) =~= Seq::empty());
    assert(other_imms(Seq::<Imm>::empty()) =~= Seq::empty());
    if imms.len() == 1 {
        assert(imms[0] == access_word(0));
        assert(imms.skip(1) =~= Seq::empty());
        assert(last =~= Seq::empty());
        assert(accesses(imms) =~= seq![(0u32, None::<Imm>)]);
        assert(accesses(last) =~= accesses(imms).drop_last());
    } else if is_access(imms[0]) && first_len(imms) == 2 && imms.len() == 2 {
        assert(imms.skip(2) =~= Seq::empty());
        assert(last =~= seq![imms[0]]);
        assert(last.skip(1) =~= Seq::empty());
        assert(accesses(imms) =~= seq![(access_bits(imms[0]), Some(imms[1]))]);
        assert(accesses(last) =~= seq![(access_bits(imms[0]), None::<Imm>)]);
        assert(accesses(last) =~= accesses(imms).update(0, (access_bits(imms[0]), None)));
    } else {
        let k = if is_access(imms[0]) {
            first_len(imms)
        } else {
            1
        };
        let rest = imms.skip(k);
        lemma_drop_empty(rest);
        assert(rest.drop_last() =~= last.skip(k));
        assert(last[0] == imms[0]);
        if k == 2 {
            assert(last[1] == imms[1]);
        }
        if is_access(imms[0]) {
            assert(first_len(last) == k);
            let first = (
                access_bits(imms[0]),
                if k == 2 {
                    Some(imms[1])
                } else {
                    None
                },
            );
            assert(accesses(imms) == seq![first] + accesses(rest));
            assert(accesses(last) == seq![first] + accesses(rest.drop_last()));
            let operands = accesses(imms);
            if accesses(rest.drop_last()) == accesses(rest).drop_last() && accesses(rest).last().0
                == 0 {
                assert(accesses(last) =~= operands.drop_last());
            } else {
                assert(accesses(last) =~= operands.update(
                    operands.len() - 1,
                    (operands.last().0, None),
                ));
            }
        }
    }
}

/// Without the empty `MemoryAccess` words at the end, operands are gone that
/// were empty, and the others have the bits that they had.
proof fn lemma_without_empty_end(imms: Seq<Imm>)
    ensures
        ({
            let operands = accesses(imms);
            let fewer = accesses(without_empty_end(imms));
            &&& without_empty_end(imms).is_prefix_of(imms)
            &&& without_empty_end(without_empty_end(imms)) == without_empty_end(imms)
            &&& other_imms(without_empty_end(imms)) == other_imms(imms)
            &&& fewer.len() <= operands.len()
            &&& forall|k: int| 0 <= k < fewer.len() ==> (#[trigger] fewer[k]).0 == operands[k].0
            &&& forall|k: int|
                fewer.len() <= k < operands.len() ==> (#[trigger] operands[k]).0 == 0
        }),
    decreases imms.len(),
{
    if imms.len() > 0 && imms.last() == access_word(0) {
        lemma_drop_empty(imms);
        lemma_without_empty_end(imms.drop_last());
        let shorter = accesses(imms.drop_last());
        let operands = accesses(imms);
        let fewer = accesses(without_empty_end(imms));
        assert forall|k: int| fewer.len() <= k < operands.len() implies (#[trigger] operands[k]).0
            == 0 by {
            if k < shorter.len() {
                assert(shorter[k].0 == operands[k].0);
            }
        }
        assert forall|k: int| 0 <= k < fewer.len() implies (#[trigger] fewer[k]).0 == operands[k].0 by {
            assert(shorter[k].0 == operands[k].0);
        }
        let r = without_empty_end(imms);
        assert forall|k: int| 0 <= k < r.len() implies r[k] == imms[k] by {
            assert(r[k] == imms.drop_last()[k]);
        }
        assert(r =~= imms.subrange(0, r.len() as int));
    } else {
        assert(imms =~= imms.subrange(0, imms.len() as int));
    }
}

/// Every operand is some word.
proof fn lemma_access_is_word(imms: Seq<Imm>, k: int)
    requires
        0 <= k < accesses(imms).len(),
    ensures
        exists|j: int| 0 <= j < imms.len() && imms[j] == access_word(accesses(imms)[k].0),
    decreases imms.len(),
{
    if is_access(imms[0]) {
        if k == 0 {
            assert(imms[0] == access_word(accesses(imms)[k].0));
        } else {
            let rest = imms.skip(first_len(imms));
            lemma_access_is_word(rest, k - 1);
            let j = choose|j: int|
                0 <= j < rest.len() && rest[j] == access_word(accesses(rest)[k - 1].0);
            assert(imms[j + first_len(imms)] == rest[j]);
        }
    } else {
        let rest = imms.skip(1);
        lemma_access_is_word(rest, k);
        let j = choose|j: int| 0 <= j < rest.len() && rest[j] == access_word(accesses(rest)[k].0);
        assert(imms[j + 1] == rest[j]);
    }
}

/// Immediates none of which is a `MemoryAccess` word have no such operand.
proof fn lemma_no_access(a: Access, imms: Seq<Imm>, i: int)
    requires
        forall|j: int| 0 <= j < imms.len() ==> !is_access(#[trigger] imms[j]),
    ensures
        accesses(imms) == Seq::<(u32, Option<Imm>)>::empty(),
        other_imms(imms) == imms,
        a.fixed_operands(imms, i) == imms,
        imms.filter(|imm: Imm| !is_access(imm)) == imms,
    decreases imms.len(),
{
    if imms.len() > 0 {
        let rest = imms.skip(1);
        assert forall|j: int| 0 <= j < rest.len() implies !is_access(#[trigger] rest[j]) by {
            assert(rest[j] == imms[j + 1]);
        }
        lemma_no_access(a, rest, i);
        assert(seq![imms[0]] + rest =~= imms);
    }
    let keep = |imm: Imm| !is_access(imm);
    lemma_filter_all(imms, keep);
}

proof fn lemma_filter_all(imms: Seq<Imm>, keep: spec_fn(Imm) -> bool)
    requires
        forall|j: int| 0 <= j < imms.len() ==> keep(#[trigger] imms[j]),
    ensures
        imms.filter(keep) == imms,
    decreases imms.len(),
{
    reveal(Seq::filter);
    if imms.len() > 0 {
        lemma_filter_all(imms.drop_last(), keep);
        assert(imms.drop_last().push(imms.last()) =~= imms);
    }
}

/// Where every `MemoryAccess` word is empty, the other immediates are what is
/// left without these words.
proof fn lemma_all_empty(imms: Seq<Imm>)
    requires
        all_accesses_empty(imms),
    ensures
        other_imms(imms) == imms.filter(|imm: Imm| !is_access(imm)),
    decreases imms.len(),
{
    let keep = |imm: Imm| !is_access(imm);
    lemma_bits(0);
    if imms.len() == 0 {
        reveal(Seq::filter);
    } else {
        let rest = imms.skip(1);
        assert forall|j: int| 0 <= j < rest.len() && is_access(rest[j]) implies #[trigger] rest[j]
            == access_word(0) by {
            assert(rest[j] == imms[j + 1]);
        }
        lemma_all_empty(rest);
        if is_access(imms[0]) {
            assert(imms[0] == access_word(0));
            assert(first_len(imms) == 1);
        }
        lemma_filter_first(imms, keep);
    }
}

proof fn lemma_filter_first(imms: Seq<Imm>, keep: spec_fn(Imm) -> bool)
    requires
        imms.len() > 0,
    ensures
        imms.filter(keep) == (if keep(imms[0]) {
            seq![imms[0]]
        } else {
            Seq::empty()
        }) + imms.skip(1).filter(keep),
    decreases imms.len(),
{
    reveal(Seq::filter);
    if imms.len() == 1 {
        assert(imms.drop_last() =~= Seq::empty());
        assert(imms.skip(1) =~= Seq::empty());
        assert(imms.drop_last().filter(keep) =~= Seq::empty());
        assert(imms.skip(1).filter(keep) =~= Seq::empty());
        assert(imms.filter(keep) =~= (if keep(imms[0]) {
            seq![imms[0]]
        } else {
            Seq::empty()
        }) + imms.skip(1).filter(keep));
    } else {
        let front = imms.drop_last();
        lemma_filter_first(front, keep);
        assert(front.skip(1) =~= imms.skip(1).drop_last());
        assert(front[0] == imms[0]);
        assert(imms.skip(1).last() == imms.last());
        assert(imms.filter(keep) =~= (if keep(imms[0]) {
            seq![imms[0]]
        } else {
            Seq::empty()
        }) + imms.skip(1).filter(keep));
    }
}

proof fn lemma_filter_keeps(imms: Seq<Imm>, keep: spec_fn(Imm) -> bool)
    ensures
        forall|j: int| 0 <= j < imms.filter(keep).len() ==> keep(#[trigger] imms.filter(keep)[j]),
    decreases imms.len(),
{
    reveal(Seq::filter);
    if imms.len() > 0 {
        lemma_filter_keeps(imms.drop_last(), keep);
    }
}

/// What is known of the operands before empty ones are dropped.
proof fn lemma_all_fixed(a: Access, imms: Seq<Imm>)
    ensures
        ({
            let all = a.fixed_operands(imms, 0) + a.missing_operands(accesses(imms));
            let operands = accesses(all);
            &&& a.fixed_operands(all, 0) == all
            &&& a.missing_operands(operands) == Seq::<Imm>::empty()
            &&& other_imms(all) == other_imms(imms)
            &&& forall|k: int|
                0 <= k < operands.len() ==> #[trigger] operands[k] == fixed_access(
                    a,
                    k,
                    given_operand(a, accesses(imms), k),
                )
            &&& a.dst_physical ==> operands.len() >= 1
            &&& a.is_copy && (a.dst_physical || a.src_physical) ==> operands.len() >= 2
        }),
{
    let n = accesses(imms).len() as int;
    let missing = a.missing_operands(accesses(imms));
    let all = a.fixed_operands(imms, 0) + missing;
    lemma_fixed_prefix(a, imms, 0, missing);
    lemma_missing(a, accesses(imms));
    let mapped = fixed_accesses(a, accesses(imms), 0);
    let operands = accesses(all);
    assert(operands == mapped + accesses(missing));
    assert forall|k: int| 0 <= k < operands.len() implies #[trigger] operands[k] == fixed_access(
        a,
        k,
        given_operand(a, accesses(imms), k),
    ) by {
        if k < n {
            assert(operands[k] == mapped[k]);
        } else {
            assert(operands[k] == accesses(missing)[k - n]);
            assert(n + (k - n) == k);
        }
    }
    assert(operands.len() == n + accesses(missing).len());
    assert(other_imms(imms) + Seq::<Imm>::empty() =~= other_imms(imms));
}

/// The immediates end in a literal that reads as an empty `MemoryAccess` word.
pub open spec fn ends_in_empty_literal(imms: Seq<Imm>) -> bool {
    &&& imms.len() > 0
    &&& imms.last() == access_word(0)
    &&& accesses(imms).len() > 0
    &&& accesses(imms).last().1 == Some(access_word(0))
    &&& accesses(imms.drop_last()).len() == accesses(imms).len()
}

/// The last of the operands that were fixed for a physical pointer is an empty
/// `MemoryAccess` word only where it was before, as a literal.
proof fn lemma_fixed_end(a: Access, imms: Seq<Imm>, i: int)
    requires
        i >= 0,
        !a.is_copy,
        a.dst_physical,
        a.dst_align != 0,
        imms.len() > 0,
        a.fixed_operands(imms, i).last() == access_word(0),
    ensures
        ends_in_empty_literal(imms),
    decreases imms.len(),
{
    let k = if is_access(imms[0]) {
        first_len(imms)
    } else {
        1
    };
    let rest = imms.skip(k);
    let next = if is_access(imms[0]) {
        i + 1
    } else {
        i
    };
    let tail = a.fixed_operands(rest, next);
    if rest.len() == 0 {
        assert(tail =~= Seq::empty());
        if is_access(imms[0]) {
            let bits = access_bits(imms[0]);
            lemma_bits(bits);
            let literal = if k == 2 {
                Some(imms[1])
            } else {
                None
            };
            assert(a.fixed_operands(imms, i) =~= a.fixed_operand(i, bits, literal));
            assert(k == 2 && imms[1] == access_word(0));
            assert(accesses(Seq::<Imm>::empty()) =~= Seq::empty());
            assert(imms.drop_last() =~= seq![imms[0]]);
            assert(imms.drop_last().skip(1) =~= Seq::empty());
            assert(imms.skip(2) =~= Seq::empty());
            assert(accesses(imms) == seq![(bits, Some(imms[1]))] + accesses(imms.skip(2)));
            assert(accesses(imms) =~= seq![(bits, Some(imms[1]))]);
            assert(accesses(imms.drop_last()) =~= seq![(bits, None::<Imm>)]);
        } else {
            assert(a.fixed_operands(imms, i) =~= seq![imms[0]]);
            assert(false);
        }
    } else {
        assert(tail.len() > 0) by {
            lemma_fixed_nonempty(a, rest, next);
        }
        assert(tail.last() == a.fixed_operands(imms, i).last());
        lemma_fixed_end(a, rest, next);
        let front = imms.drop_last();
        assert(rest.last() == imms.last());
        assert(front[0] == imms[0]);
        assert(front.skip(k) =~= rest.drop_last());
        if is_access(imms[0]) {
            if k == 2 {
                assert(front[1] == imms[1]);
            }
            assert(first_len(front) == k);
            assert(accesses(imms).last() == accesses(rest).last());
        }
    }
}

proof fn lemma_fixed_nonempty(a: Access, imms: Seq<Imm>, i: int)
    requires
        imms.len() > 0,
    ensures
        a.fixed_operands(imms, i).len() > 0,
{
    if is_access(imms[0]) {
        let literal = if first_len(imms) == 2 {
            Some(imms[1])
        } else {
            None
        };
        assert(a.fixed_operand(i, access_bits(imms[0]), literal).len() > 0);
    }
}

/// Nothing is dropped from a load or store through a physical pointer.
proof fn lemma_nothing_dropped(a: Access, imms: Seq<Imm>)
    requires
        a.dst_align != 0,
        !a.is_copy,
        a.dst_physical,
        !ends_in_empty_literal(imms),
    ensures
        a.fixed(imms) == a.fixed_operands(imms, 0) + a.missing_operands(accesses(imms)),
{
    let n = accesses(imms).len() as int;
    let missing = a.missing_operands(accesses(imms));
    let all = a.fixed_operands(imms, 0) + missing;
    if all.len() > 0 && all.last() == access_word(0) {
        if n == 0 {
            assert(all.last() == missing[1]);
        } else {
            assert(all =~= a.fixed_operands(imms, 0));
            lemma_fixed_end(a, imms, 0);
        }
        assert(false);
    }
}

/// What is known of the bits of the operands after empty ones are dropped.
proof fn lemma_fixed_bits(a: Access, imms: Seq<Imm>)
    ensures
        ({
            let operands = accesses(a.fixed(imms));
            &&& forall|k: int|
                0 <= k < operands.len() ==> (#[trigger] operands[k]).0 == fixed_access(
                    a,
                    k,
                    given_operand(a, accesses(imms), k),
                ).0
            &&& a.dst_physical ==> operands.len() >= 1
            &&& a.is_copy && (a.dst_physical || a.src_physical) ==> operands.len() >= 2
        }),
{
    let all = a.fixed_operands(imms, 0) + a.missing_operands(accesses(imms));
    let operands = accesses(all);
    lemma_all_fixed(a, imms);
    if !a.is_copy {
        lemma_without_empty_end(all);
        let fewer = accesses(a.fixed(imms));
        assert forall|k: int| 0 <= k < fewer.len() implies (#[trigger] fewer[k]).0
            == fixed_access(a, k, given_operand(a, accesses(imms), k)).0 by {
            assert(fewer[k].0 == operands[k].0);
        }
        if a.dst_physical && fewer.len() == 0 {
            assert(operands[0].0 == 0);
            lemma_bits(given_operand(a, accesses(imms), 0).0);
        }
    } else if all_accesses_empty(all) {
        if a.dst_physical || a.src_physical {
            let k = if a.dst_physical {
                0
            } else {
                1
            };
            lemma_bits(given_operand(a, accesses(imms), k).0);
            lemma_bits(0);
            assert(operands[k] == fixed_access(a, k, given_operand(a, accesses(imms), k)));
            lemma_access_is_word(all, k);
            let j = choose|j: int| 0 <= j < all.len() && all[j] == access_word(operands[k].0);
            assert(is_access(all[j]));
            assert(all[j] == access_word(0));
            assert(is_aligned(operands[k].0));
        }
        let keep = |imm: Imm| !is_access(imm);
        lemma_filter_keeps(all, keep);
        lemma_no_access(a, a.fixed(imms), 0);
    }
}

/// The `k`-th pointer is read or written with an alignment: the `MemoryAccess` operand
/// that is about it is aligned. Where there is only one, it is about all pointers.
pub open spec fn is_side_aligned(operands: Seq<(u32, Option<Imm>)>, k: int) -> bool {
    if k < operands.len() {
        is_aligned(operands[k].0)
    } else if operands.len() == 1 {
        is_aligned(operands[0].0)
    } else {
        false
    }
}

/// After the fix, a pointer is read or written with an alignment exactly where it is
/// physical, on either side of a copy. Every `MemoryAccess` operand is aligned exactly
/// where the pointer that it is about is physical.
pub proof fn law_aligned_where_physical(a: Access, imms: Seq<Imm>)
    ensures
        ({
            let operands = accesses(a.fixed(imms));
            &&& is_side_aligned(operands, 0) == a.dst_physical
            &&& a.is_copy ==> is_side_aligned(operands, 1) == a.src_physical
            &&& forall|k: int|
                0 <= k < operands.len() ==> is_aligned((#[trigger] operands[k]).0) == a.physical(k)
        }),
{
    let operands = accesses(a.fixed(imms));
    lemma_fixed_bits(a, imms);
    assert forall|k: int| 0 <= k < operands.len() implies is_aligned((#[trigger] operands[k]).0)
        == a.physical(k) by {
        lemma_bits(given_operand(a, accesses(imms), k).0);
    }
}

/// The fix is limited to the `Aligned` bit: of a `MemoryAccess` operand all other bits
/// stay as they were given for the pointer that it is about.
pub proof fn law_other_bits_kept(a: Access, imms: Seq<Imm>)
    ensures
        ({
            let operands = accesses(a.fixed(imms));
            forall|k: int|
                0 <= k < operands.len() ==> (#[trigger] operands[k]).0
                    & !MEMORY_ACCESS_ALIGNED_BIT == given_operand(a, accesses(imms), k).0
                    & !MEMORY_ACCESS_ALIGNED_BIT
        }),
{
    let operands = accesses(a.fixed(imms));
    lemma_fixed_bits(a, imms);
    assert forall|k: int| 0 <= k < operands.len() implies (#[trigger] operands[k]).0
        & !MEMORY_ACCESS_ALIGNED_BIT == given_operand(a, accesses(imms), k).0
        & !MEMORY_ACCESS_ALIGNED_BIT by {
        lemma_bits(given_operand(a, accesses(imms), k).0);
    }
}

/// A `MemoryAccess` operand about a physical pointer gives an alignment: the one that
/// was given for that pointer before, and else the natural one. One about a logical
/// pointer gives none. The one exception is a load or store through a physical pointer
/// whose last immediate is a literal that reads as an empty `MemoryAccess` word. (No
/// alignment is 0.)
pub proof fn law_alignments_given(a: Access, imms: Seq<Imm>)
    requires
        !a.is_copy && a.dst_physical ==> a.dst_align != 0 && !ends_in_empty_literal(imms),
    ensures
        ({
            let operands = accesses(a.fixed(imms));
            forall|k: int|
                0 <= k < operands.len() ==> (#[trigger] operands[k]).1 == fixed_access(
                    a,
                    k,
                    given_operand(a, accesses(imms), k),
                ).1
        }),
{
    let all = a.fixed_operands(imms, 0) + a.missing_operands(accesses(imms));
    let operands = accesses(a.fixed(imms));
    lemma_all_fixed(a, imms);
    if !a.is_copy && a.dst_physical {
        lemma_nothing_dropped(a, imms);
    } else if !a.is_copy {
        lemma_fixed_bits(a, imms);
        assert forall|k: int| 0 <= k < operands.len() implies (#[trigger] operands[k]).1
            == fixed_access(a, k, given_operand(a, accesses(imms), k)).1 by {
            lemma_bits(given_operand(a, accesses(imms), k).0);
            if operands[k].1 is Some {
                lemma_literal_is_aligned(a.fixed(imms), k);
            }
        }
    } else if all_accesses_empty(all) {
        let keep = |imm: Imm| !is_access(imm);
        lemma_filter_keeps(all, keep);
        lemma_no_access(a, a.fixed(imms), 0);
    }
}

/// The fix leaves the immediates alone that are neither `MemoryAccess` words nor
/// their literals.
pub proof fn law_other_immediates_kept(a: Access, imms: Seq<Imm>)
    ensures
        other_imms(a.fixed(imms)) == other_imms(imms),
{
    let all = a.fixed_operands(imms, 0) + a.missing_operands(accesses(imms));
    lemma_all_fixed(a, imms);
    if !a.is_copy {
        lemma_without_empty_end(all);
    } else if all_accesses_empty(all) {
        let keep = |imm: Imm| !is_access(imm);
        lemma_all_empty(all);
        lemma_filter_keeps(all, keep);
        lemma_no_access(a, a.fixed(imms), 0);
    }
}

/// Where no `MemoryAccess` word is aligned and the pointer is not physical,
/// there is nothing to fix.
proof fn lemma_nothing_to_fix(a: Access, imms: Seq<Imm>, i: int)
    requires
        i >= 0,
        !a.is_copy,
        !a.dst_physical,
        forall|j: int| 0 <= j < imms.len() && is_access(imms[j]) ==> !is_aligned(
            access_bits(#[trigger] imms[j]),
        ),
    ensures
        a.fixed_operands(imms, i) == imms,
    decreases imms.len(),
{
    if imms.len() > 0 {
        let rest = imms.skip(1);
        assert forall|j: int| 0 <= j < rest.len() && is_access(rest[j]) implies !is_aligned(
            access_bits(#[trigger] rest[j]),
        ) by {
            assert(rest[j] == imms[j + 1]);
        }
        let next = if is_access(imms[0]) {
            i + 1
        } else {
            i
        };
        lemma_nothing_to_fix(a, rest, next);
        if is_access(imms[0]) {
            lemma_bits(access_bits(imms[0]));
            assert(first_len(imms) == 1);
            assert(a.fixed_operand(i, access_bits(imms[0]), None) =~= seq![imms[0]]);
        }
        assert(seq![imms[0]] + rest =~= imms);
    }
}

/// Fixed for a pointer that is not physical, no `MemoryAccess` word is aligned.
proof fn lemma_fixed_unaligned(a: Access, imms: Seq<Imm>, i: int)
    requires
        i >= 0,
        !a.is_copy,
        !a.dst_physical,
    ensures
        forall|j: int|
            0 <= j < a.fixed_operands(imms, i).len() && is_access(a.fixed_operands(imms, i)[j])
                ==> !is_aligned(access_bits(#[trigger] a.fixed_operands(imms, i)[j])),
    decreases imms.len(),
{
    if imms.len() > 0 {
        if is_access(imms[0]) {
            lemma_bits(access_bits(imms[0]));
            let rest = imms.skip(first_len(imms));
            lemma_fixed_unaligned(a, rest, i + 1);
            let fixed = a.fixed_operands(imms, i);
            let tail = a.fixed_operands(rest, i + 1);
            assert forall|j: int| 0 <= j < fixed.len() && is_access(fixed[j]) implies !is_aligned(
                access_bits(#[trigger] fixed[j]),
            ) by {
                if j > 0 {
                    assert(fixed[j] == tail[j - 1]);
                }
            }
        } else {
            let rest = imms.skip(1);
            lemma_fixed_unaligned(a, rest, i);
            let fixed = a.fixed_operands(imms, i);
            let tail = a.fixed_operands(rest, i);
            assert forall|j: int| 0 <= j < fixed.len() && is_access(fixed[j]) implies !is_aligned(
                access_bits(#[trigger] fixed[j]),
            ) by {
                if j > 0 {
                    assert(fixed[j] == tail[j - 1]);
                }
            }
        }
    }
}

/// Only an aligned operand has a literal.
proof fn lemma_literal_is_aligned(imms: Seq<Imm>, k: int)
    requires
        0 <= k < accesses(imms).len(),
        accesses(imms)[k].1 is Some,
    ensures
        is_aligned(accesses(imms)[k].0),
    decreases imms.len(),
{
    if imms.len() > 0 {
        if is_access(imms[0]) {
            let rest = imms.skip(first_len(imms));
            if k > 0 {
                assert(accesses(imms)[k] == accesses(rest)[k - 1]);
                lemma_literal_is_aligned(rest, k - 1);
            }
        } else {
            lemma_literal_is_aligned(imms.skip(1), k);
        }
    }
}

/// A `MemoryAccess` word that says nothing is left out where it can be: at the end of
/// a load or store, and of a copy where all of them are such.
pub proof fn law_no_empty_operands(a: Access, imms: Seq<Imm>)
    ensures
        !a.is_copy && a.fixed(imms).len() > 0 ==> a.fixed(imms).last() != access_word(0),
        a.is_copy && all_accesses_empty(a.fixed(imms)) ==> accesses(a.fixed(imms)).len() == 0,
{
    let all = a.fixed_operands(imms, 0) + a.missing_operands(accesses(imms));
    if !a.is_copy {
        lemma_no_empty_end(all);
    } else if all_accesses_empty(all) {
        let keep = |imm: Imm| !is_access(imm);
        lemma_filter_keeps(all, keep);
        lemma_no_access(a, a.fixed(imms), 0);
    }
}

proof fn lemma_no_empty_end(imms: Seq<Imm>)
    ensures
        without_empty_end(imms).len() > 0 ==> without_empty_end(imms).last() != access_word(0),
    decreases imms.len(),
{
    if imms.len() > 0 && imms.last() == access_word(0) {
        lemma_no_empty_end(imms.drop_last());
    }
}

/// Fixing twice is fixing once. The one exception is a load or store through a
/// physical pointer whose last immediate is a literal that reads as an empty
/// `MemoryAccess` word. (No alignment is 0.)
pub proof fn law_fixed_once_for_all(a: Access, imms: Seq<Imm>)
    requires
        !a.is_copy && a.dst_physical ==> a.dst_align != 0 && !ends_in_empty_literal(imms),
    ensures
        a.fixed(a.fixed(imms)) == a.fixed(imms),
{
    let all = a.fixed_operands(imms, 0) + a.missing_operands(accesses(imms));
    let fixed = a.fixed(imms);
    lemma_all_fixed(a, imms);
    if !a.is_copy {
        lemma_without_empty_end(all);
        if a.dst_physical {
            lemma_nothing_dropped(a, imms);
            assert(all + Seq::<Imm>::empty() =~= all);
        } else {
            assert(all =~= a.fixed_operands(imms, 0));
            lemma_fixed_unaligned(a, imms, 0);
            assert forall|j: int| 0 <= j < fixed.len() && is_access(fixed[j]) implies !is_aligned(
                access_bits(#[trigger] fixed[j]),
            ) by {
                assert(fixed[j] == all[j]);
            }
            lemma_nothing_to_fix(a, fixed, 0);
            assert(a.missing_operands(accesses(fixed)) =~= Seq::empty());
            assert(fixed + Seq::<Imm>::empty() =~= fixed);
        }
    } else if all_accesses_empty(all) {
        let keep = |imm: Imm| !is_access(imm);
        lemma_filter_keeps(all, keep);
        lemma_no_access(a, fixed, 0);
        lemma_fixed_bits(a, imms);
        assert(a.missing_operands(accesses(fixed)) =~= Seq::empty());
        assert(fixed + Seq::<Imm>::empty() =~= fixed);
    } else {
        assert(fixed == all);
        assert(all + Seq::<Imm>::empty() =~= all);
    }
}

/// The words of a `MemoryAccess` operand with these bits. The literal is one of them where
/// the `Aligned` bit is set.
pub open spec fn given_words(bits: u32, literal: Imm) -> Seq<Imm> {
    if bits & 0x2 != 0 {
        seq![Imm::Short(spv().memory_access, bits), literal]
    } else {
        seq![Imm::Short(spv().memory_access, bits)]
    }
}

/// The words that a pointer wants in place of these. Of a physical pointer they give an
/// alignment, which is `align` only where they gave none before. Of a logical pointer they
/// give none. Other bits stay.
pub open spec fn wanted_words(physical: bool, bits: u32, literal: Imm, align: u32) -> Seq<Imm> {
    if !physical {
        seq![Imm::Short(spv().memory_access, bits & !0x2u32)]
    } else if bits & 0x2 != 0 {
        seq![Imm::Short(spv().memory_access, bits), literal]
    } else {
        seq![
            Imm::Short(spv().memory_access, bits | 0x2),
            Imm::Short(spv().literal_integer, align),
        ]
    }
}

/// Nothing is read of no words.
proof fn lemma_no_words(a: Access, i: int)
    ensures
        a.fixed_operands(Seq::empty(), i) == Seq::<Imm>::empty(),
        accesses(Seq::empty()) == Seq::<(u32, Option<Imm>)>::empty(),
{
    assert(a.fixed_operands(Seq::empty(), i) =~= Seq::<Imm>::empty());
    assert(accesses(Seq::empty()) =~= Seq::<(u32, Option<Imm>)>::empty());
}

/// The words of an operand with others behind them, fixed and read.
proof fn lemma_given_words(a: Access, i: int, bits: u32, literal: Imm, tail: Seq<Imm>)
    requires
        i >= 0,
    ensures
        ({
            let words = given_words(bits, literal);
            let align = a.align(i);
            &&& a.fixed_operands(words + tail, i) == wanted_words(
                a.physical(i),
                bits,
                literal,
                align,
            ) + a.fixed_operands(tail, i + 1)
            &&& accesses(words + tail).len() == 1 + accesses(tail).len()
            &&& accesses(words + tail)[0].0 == bits
        }),
{
    let words = given_words(bits, literal);
    let all = words + tail;
    lemma_bits(bits);
    assert(bits & 0x2u32 != 0 ==> bits | 0x2u32 == bits) by (bit_vector);
    assert(all[0] == words[0]);
    if bits & 0x2 != 0 {
        assert(all[1] == literal);
        assert(first_len(all) == 2);
        assert(all.skip(2) =~= tail);
        assert(a.fixed_operand(i, bits, Some(literal)) =~= wanted_words(
            a.physical(i),
            bits,
            literal,
            a.align(i),
        ));
    } else {
        assert(first_len(all) == 1);
        assert(all.skip(1) =~= tail);
        assert(a.fixed_operand(i, bits, None) =~= wanted_words(
            a.physical(i),
            bits,
            literal,
            a.align(i),
        ));
    }
}

/// How words are read. Those of a `MemoryAccess` operand are its bits and, where its
/// `Aligned` bit is set, a literal. Words of other kinds say nothing. An aligned operand at
/// the very end has no literal.
pub proof fn law_words_are_read(bits: u32, literal: Imm, other: Imm, tail: Seq<Imm>)
    requires
        !(other is Short && other->Short_0 == spv().memory_access),
    ensures
        accesses(Seq::empty()).len() == 0,
        accesses(given_words(bits, literal) + tail) == seq![
            (
                bits,
                if bits & 0x2 != 0 {
                    Some(literal)
                } else {
                    None
                },
            ),
        ] + accesses(tail),
        accesses(seq![other] + tail) == accesses(tail),
        bits & 0x2 != 0 ==> accesses(seq![Imm::Short(spv().memory_access, bits)]) == seq![
            (bits, None::<Imm>),
        ],
        other_imms(Seq::empty()).len() == 0,
        other_imms(given_words(bits, literal) + tail) == other_imms(tail),
        other_imms(seq![other] + tail) == seq![other] + other_imms(tail),
{
    let words = given_words(bits, literal);
    let all = words + tail;
    assert(all[0] == words[0]);
    if bits & 0x2 != 0 {
        assert(all[1] == literal);
        assert(first_len(all) == 2);
        assert(all.skip(2) =~= tail);
    } else {
        assert(first_len(all) == 1);
        assert(all.skip(1) =~= tail);
    }
    assert((seq![other] + tail).skip(1) =~= tail);
    assert((seq![other] + tail)[0] == other);
    let last = seq![Imm::Short(spv().memory_access, bits)];
    assert(last.skip(1) =~= Seq::<Imm>::empty());
    assert(accesses(Seq::<Imm>::empty()) =~= Seq::<(u32, Option<Imm>)>::empty());
    assert(accesses(last) =~= seq![(bits, None::<Imm>)]);
}

/// What becomes of a load or store that has no `MemoryAccess` operand, and of one that has
/// one. A physical pointer gets the `Aligned` bit and the alignment where it has none, and
/// keeps the one that it has. A logical pointer loses them, and with them an operand that
/// says nothing else. (A literal that reads as an empty `MemoryAccess` word is lost.)
pub proof fn law_load_and_store_words(a: Access, bits: u32, literal: Imm)
    requires
        !a.is_copy,
    ensures
        a.fixed(Seq::empty()) == (if a.dst_physical {
            seq![
                Imm::Short(spv().memory_access, 0x2),
                Imm::Short(spv().literal_integer, a.dst_align),
            ]
        } else {
            Seq::empty()
        }),
        !a.dst_physical ==> a.fixed(given_words(bits, literal)) == (if bits & !0x2u32 == 0 {
            Seq::empty()
        } else {
            seq![Imm::Short(spv().memory_access, bits & !0x2u32)]
        }),
        a.dst_physical && bits & 0x2 == 0 ==> a.fixed(given_words(bits, literal)) == seq![
            Imm::Short(spv().memory_access, bits | 0x2),
            Imm::Short(spv().literal_integer, a.dst_align),
        ],
        a.dst_physical && bits & 0x2 != 0 && literal != Imm::Short(spv().memory_access, 0)
            ==> a.fixed(given_words(bits, literal)) == given_words(bits, literal),
{
    let none = Seq::<Imm>::empty();
    lemma_no_words(a, 0);
    lemma_no_words(a, 1);
    let missing = a.missing_operands(accesses(none));
    assert(none + missing =~= missing);
    if a.dst_physical {
        assert(missing[1] == align_word(a.dst_align));
    } else {
        assert(missing =~= none);
    }
    let words = given_words(bits, literal);
    let wanted = wanted_words(a.dst_physical, bits, literal, a.dst_align);
    lemma_given_words(a, 0, bits, literal, none);
    assert(words + none =~= words);
    assert(wanted + none =~= wanted);
    assert(a.missing_operands(accesses(words)) =~= none);
    lemma_bits(bits);
    assert(a.fixed(words) == without_empty_end(wanted));
    if !a.dst_physical && bits & !0x2u32 == 0 {
        assert(wanted.drop_last() =~= none);
        assert(without_empty_end(none) == none);
    }
    if a.dst_physical && bits & 0x2 == 0 {
        assert(wanted.last() == align_word(a.dst_align));
    }
}

/// What becomes of an aligned `MemoryAccess` word that comes last, without a literal: a
/// physical pointer gets its alignment in a word of the same kind. And what becomes of a
/// literal of a load or store that reads as an empty `MemoryAccess` word: it is lost.
pub proof fn law_lone_words(a: Access, bits: u32)
    requires
        bits & 0x2 != 0,
    ensures
        ({
            let word = Imm::Short(spv().memory_access, bits);
            let rest = Imm::Short(spv().memory_access, bits & !0x2u32);
            let align = Imm::Short(spv().memory_access, a.dst_align);
            let no_word = Imm::Short(spv().memory_access, 0);
            let src = if a.src_physical {
                seq![word, Imm::Short(spv().literal_integer, a.src_align)]
            } else {
                seq![rest]
            };
            &&& !a.is_copy && a.dst_physical && a.dst_align != 0 ==> a.fixed(seq![word]) == seq![
                word,
                align,
            ]
            &&& !a.is_copy && a.dst_physical ==> a.fixed(seq![word, no_word]) == seq![word]
            &&& !a.is_copy && !a.dst_physical ==> a.fixed(seq![word]) == (if bits & !0x2u32 == 0 {
                Seq::empty()
            } else {
                seq![rest]
            })
            &&& a.is_copy && a.dst_physical ==> a.fixed(seq![word]) == seq![word, align] + src
            &&& a.is_copy && !a.dst_physical && a.src_physical ==> a.fixed(seq![word]) == seq![rest]
                + src
        }),
{
    let word = Imm::Short(spv().memory_access, bits);
    let no_word = Imm::Short(spv().memory_access, 0);
    let rest = Imm::Short(spv().memory_access, bits & !0x2u32);
    let align = Imm::Short(spv().memory_access, a.dst_align);
    let none = Seq::<Imm>::empty();
    let last = seq![word];
    lemma_bits(bits);
    lemma_no_words(a, 1);
    assert(bits & 0x2u32 != 0 ==> bits | 0x2u32 == bits) by (bit_vector);
    assert(bits & 0x2u32 != 0 ==> bits != 0) by (bit_vector);
    assert(last.skip(1) =~= none);
    assert(first_len(last) == 1);
    let wanted = a.fixed_operand(0, bits, None);
    assert(wanted + none =~= wanted);
    assert(a.fixed_operands(last, 0) == wanted);
    assert(accesses(last) =~= seq![(bits, None::<Imm>)]);
    let missing = a.missing_operands(accesses(last));
    if !a.is_copy {
        assert(missing =~= none);
        assert(a.fixed(last) == without_empty_end(wanted));
        if a.dst_physical {
            assert(wanted =~= seq![word, align]);
            lemma_given_words(a, 0, bits, no_word, none);
            let two = given_words(bits, no_word);
            assert(two + none =~= two);
            assert(two =~= seq![word, no_word]);
            assert(a.missing_operands(accesses(two)) =~= none);
            assert(a.fixed(two) == without_empty_end(two));
            assert(two.drop_last() =~= last);
            assert(without_empty_end(last) == last);
        } else {
            assert(wanted =~= seq![rest]);
            assert(wanted.drop_last() =~= none);
            assert(without_empty_end(none) == none);
        }
    } else if a.dst_physical || a.src_physical {
        assert(missing == a.source_operand(bits));
        lemma_words_in_use(wanted, missing);
        if a.dst_physical {
            assert(wanted =~= seq![word, align]);
        } else {
            assert(wanted =~= seq![rest]);
        }
    }
}

/// A load or store that has several `MemoryAccess` operands has each of them fixed as if it
/// were the only one, where something is left of those that follow it.
pub proof fn law_words_fixed_one_by_one(a: Access, bits: u32, literal: Imm, tail: Seq<Imm>)
    requires
        !a.is_copy,
        accesses(tail).len() > 0,
        a.fixed(tail).len() > 0,
    ensures
        a.fixed(given_words(bits, literal) + tail) == wanted_words(
            a.dst_physical,
            bits,
            literal,
            a.dst_align,
        ) + a.fixed(tail),
{
    let none = Seq::<Imm>::empty();
    let words = given_words(bits, literal);
    let wanted = wanted_words(a.dst_physical, bits, literal, a.dst_align);
    lemma_given_words(a, 0, bits, literal, tail);
    lemma_same_for_all(a, tail, 0, 1);
    let all = a.fixed_operands(tail, 0);
    assert(a.missing_operands(accesses(tail)) =~= none);
    assert(a.missing_operands(accesses(words + tail)) =~= none);
    assert(all + none =~= all);
    assert((wanted + all) + none =~= wanted + all);
    lemma_empty_end_of_more(wanted, all);
}

/// The operands of a load or store are all about its one pointer.
proof fn lemma_same_for_all(a: Access, imms: Seq<Imm>, i: int, k: int)
    requires
        !a.is_copy,
    ensures
        a.fixed_operands(imms, i) == a.fixed_operands(imms, k),
    decreases imms.len(),
{
    if imms.len() > 0 {
        if is_access(imms[0]) {
            lemma_same_for_all(a, imms.skip(first_len(imms)), i + 1, k + 1);
        } else {
            lemma_same_for_all(a, imms.skip(1), i, k);
        }
    }
}

proof fn lemma_empty_end_of_more(front: Seq<Imm>, imms: Seq<Imm>)
    requires
        without_empty_end(imms).len() > 0,
    ensures
        without_empty_end(front + imms) == front + without_empty_end(imms),
    decreases imms.len(),
{
    assert((front + imms).last() == imms.last());
    if imms.last() == access_word(0) {
        assert((front + imms).drop_last() =~= front + imms.drop_last());
        lemma_empty_end_of_more(front, imms.drop_last());
    }
}

/// Words of other kinds stay in front of the `MemoryAccess` words that follow them.
pub proof fn law_other_words_stay_in_front(a: Access, other: Imm, imms: Seq<Imm>)
    requires
        !(other is Short && other->Short_0 == spv().memory_access),
    ensures
        a.fixed(seq![other] + imms) == seq![other] + a.fixed(imms),
{
    let front = seq![other];
    let more = front + imms;
    let keep = |imm: Imm| !is_access(imm);
    assert(more.skip(1) =~= imms);
    assert(more[0] == other);
    let all = a.fixed_operands(imms, 0) + a.missing_operands(accesses(imms));
    assert(a.fixed_operands(more, 0) == front + a.fixed_operands(imms, 0));
    assert(a.fixed_operands(more, 0) + a.missing_operands(accesses(imms)) =~= front + all);
    assert((front + all).skip(1) =~= all);
    assert((front + all)[0] == other);
    if !a.is_copy {
        lemma_empty_end_behind(front, all);
    } else {
        assert(all_accesses_empty(front + all) == all_accesses_empty(all)) by {
            if all_accesses_empty(front + all) {
                assert forall|i: int| 0 <= i < all.len() && is_access(
                    all[i],
                ) implies #[trigger] all[i] == access_word(0) by {
                    assert((front + all)[i + 1] == all[i]);
                }
            }
            if all_accesses_empty(all) {
                assert forall|i: int| 0 <= i < (front + all).len() && is_access(
                    (front + all)[i],
                ) implies #[trigger] (front + all)[i] == access_word(0) by {
                    if i > 0 {
                        assert((front + all)[i] == all[i - 1]);
                    }
                }
            }
        }
        lemma_filter_first(front + all, keep);
    }
}

proof fn lemma_empty_end_behind(front: Seq<Imm>, imms: Seq<Imm>)
    requires
        front.len() == 1,
        front[0] != access_word(0),
    ensures
        without_empty_end(front + imms) == front + without_empty_end(imms),
    decreases imms.len(),
{
    if imms.len() > 0 {
        assert((front + imms).last() == imms.last());
        if imms.last() == access_word(0) {
            assert((front + imms).drop_last() =~= front + imms.drop_last());
            lemma_empty_end_behind(front, imms.drop_last());
        }
    } else {
        assert(front + imms =~= front);
        assert(without_empty_end(imms) == imms);
    }
}

/// What becomes of a copy that has no `MemoryAccess` operand, of one that has one, which is
/// about both sides, and of one that has two. Where a side is physical, each side has its
/// own, and the alignment of the source is its own where it had none of its own. Where
/// neither is, no alignment is left, and no operands where none says anything.
pub proof fn law_copy_words(a: Access, bits: u32, literal: Imm, bits2: u32, literal2: Imm)
    requires
        a.is_copy,
    ensures
        ({
            let some_physical = a.dst_physical || a.src_physical;
            let none = Seq::<Imm>::empty();
            let no_word = Imm::Short(spv().memory_access, 0);
            let one = given_words(bits, literal);
            let two = one + given_words(bits2, literal2);
            let dst = wanted_words(a.dst_physical, bits, literal, a.dst_align);
            let src = wanted_words(a.src_physical, bits2, literal2, a.src_align);
            let both = wanted_words(a.src_physical, bits & !0x2u32, literal, a.src_align);
            &&& !some_physical ==> a.fixed(none) == none
            &&& some_physical ==> a.fixed(none) == wanted_words(
                a.dst_physical,
                0,
                no_word,
                a.dst_align,
            ) + wanted_words(a.src_physical, 0, no_word, a.src_align)
            &&& some_physical ==> a.fixed(one) == dst + both
            &&& !some_physical && bits & !0x2u32 != 0 ==> a.fixed(one) == dst
            &&& !some_physical && bits & !0x2u32 == 0 ==> a.fixed(one) == none
            &&& some_physical || bits & !0x2u32 != 0 || bits2 & !0x2u32 != 0 ==> a.fixed(two)
                == dst + src
            &&& !some_physical && bits & !0x2u32 == 0 && bits2 & !0x2u32 == 0 ==> a.fixed(two)
                == none
        }),
{
    lemma_copy_without_words(a);
    lemma_copy_with_one(a, bits, literal);
    lemma_copy_with_two(a, bits, literal, bits2, literal2);
}

proof fn lemma_copy_without_words(a: Access)
    requires
        a.is_copy,
    ensures
        ({
            let none = Seq::<Imm>::empty();
            let no_word = Imm::Short(spv().memory_access, 0);
            if a.dst_physical || a.src_physical {
                a.fixed(none) == wanted_words(a.dst_physical, 0, no_word, a.dst_align)
                    + wanted_words(a.src_physical, 0, no_word, a.src_align)
            } else {
                a.fixed(none) == none
            }
        }),
{
    let none = Seq::<Imm>::empty();
    let no_word = Imm::Short(spv().memory_access, 0);
    let keep = |imm: Imm| !is_access(imm);
    lemma_no_words(a, 0);
    lemma_bits(0);
    assert(0u32 & !0x2u32 == 0) by (bit_vector);
    assert(0u32 | 0x2u32 == 2) by (bit_vector);
    let dst = wanted_words(a.dst_physical, 0, no_word, a.dst_align);
    let src = wanted_words(a.src_physical, 0, no_word, a.src_align);
    assert(dst =~= Access::new_operand(a.dst_physical, a.dst_align));
    assert(src =~= Access::new_operand(a.src_physical, a.src_align));
    let missing = a.missing_operands(accesses(none));
    assert(none + missing =~= missing);
    if a.dst_physical || a.src_physical {
        lemma_words_in_use(dst, src);
    } else {
        assert(missing =~= none);
        lemma_filter_all(none, keep);
    }
}

proof fn lemma_copy_with_one(a: Access, bits: u32, literal: Imm)
    requires
        a.is_copy,
    ensures
        ({
            let one = given_words(bits, literal);
            let dst = wanted_words(a.dst_physical, bits, literal, a.dst_align);
            let both = wanted_words(a.src_physical, bits & !0x2u32, literal, a.src_align);
            if a.dst_physical || a.src_physical {
                a.fixed(one) == dst + both
            } else if bits & !0x2u32 != 0 {
                a.fixed(one) == dst
            } else {
                a.fixed(one) == Seq::<Imm>::empty()
            }
        }),
{
    let none = Seq::<Imm>::empty();
    let one = given_words(bits, literal);
    let dst = wanted_words(a.dst_physical, bits, literal, a.dst_align);
    let both = wanted_words(a.src_physical, bits & !0x2u32, literal, a.src_align);
    lemma_no_words(a, 1);
    lemma_bits(bits);
    lemma_given_words(a, 0, bits, literal, none);
    assert(one + none =~= one);
    assert(dst + none =~= dst);
    assert(both =~= a.source_operand(bits));
    let read = accesses(one);
    assert(read.len() == 1 && read[0].0 == bits);
    let missing = a.missing_operands(read);
    if a.dst_physical || a.src_physical {
        assert(missing == both);
        lemma_words_in_use(dst, both);
    } else {
        assert(missing =~= none);
        lemma_words_in_use(dst, none);
        lemma_empty_words(dst);
    }
}

proof fn lemma_copy_with_two(a: Access, bits: u32, literal: Imm, bits2: u32, literal2: Imm)
    requires
        a.is_copy,
    ensures
        ({
            let two = given_words(bits, literal) + given_words(bits2, literal2);
            let dst = wanted_words(a.dst_physical, bits, literal, a.dst_align);
            let src = wanted_words(a.src_physical, bits2, literal2, a.src_align);
            if a.dst_physical || a.src_physical || bits & !0x2u32 != 0 || bits2 & !0x2u32 != 0 {
                a.fixed(two) == dst + src
            } else {
                a.fixed(two) == Seq::<Imm>::empty()
            }
        }),
{
    let none = Seq::<Imm>::empty();
    let one = given_words(bits, literal);
    let words2 = given_words(bits2, literal2);
    let dst = wanted_words(a.dst_physical, bits, literal, a.dst_align);
    let src = wanted_words(a.src_physical, bits2, literal2, a.src_align);
    lemma_no_words(a, 2);
    lemma_bits(bits);
    lemma_bits(bits2);
    lemma_given_words(a, 1, bits2, literal2, none);
    lemma_given_words(a, 0, bits, literal, words2);
    assert(words2 + none =~= words2);
    assert(src + none =~= src);
    let read = accesses(one + words2);
    assert(read.len() == 2);
    assert(a.missing_operands(read) =~= none);
    assert(dst + src + none =~= dst + src);
    lemma_words_in_use(dst, src);
    if !a.dst_physical && !a.src_physical && bits & !0x2u32 == 0 && bits2 & !0x2u32 == 0 {
        assert((dst + src)[0] == dst[0]);
        assert((dst + src)[1] == src[0]);
        lemma_empty_words(dst + src);
    }
}

/// Where every word is an empty `MemoryAccess` word, all are dropped.
proof fn lemma_empty_words(imms: Seq<Imm>)
    ensures
        (forall|i: int| 0 <= i < imms.len() ==> #[trigger] imms[i] == access_word(0)) ==> {
            &&& all_accesses_empty(imms)
            &&& imms.filter(|imm: Imm| !is_access(imm)) == Seq::<Imm>::empty()
        },
    decreases imms.len(),
{
    let keep = |imm: Imm| !is_access(imm);
    if forall|i: int| 0 <= i < imms.len() ==> #[trigger] imms[i] == access_word(0) {
        if imms.len() > 0 {
            lemma_filter_first(imms, keep);
            let rest = imms.skip(1);
            assert forall|i: int| 0 <= i < rest.len() implies #[trigger] rest[i] == access_word(
                0,
            ) by {
                assert(rest[i] == imms[i + 1]);
            }
            lemma_empty_words(rest);
            assert(imms[0] == access_word(0));
            assert(imms.filter(keep) =~= Seq::<Imm>::empty());
        } else {
            lemma_filter_all(imms, keep);
        }
    }
}

/// Words that say something are not dropped.
proof fn lemma_words_in_use(first: Seq<Imm>, second: Seq<Imm>)
    ensures
        first.len() > 0 && is_access(first[0]) && access_bits(first[0]) != 0
            ==> !all_accesses_empty(first + second),
        second.len() > 0 && is_access(second[0]) && access_bits(second[0]) != 0
            ==> !all_accesses_empty(first + second),
{
    let all = first + second;
    if first.len() > 0 {
        assert(all[0] == first[0]);
    }
    if second.len() > 0 {
        assert(all[first.len() as int] == second[0]);
    }
}

} // verus!
