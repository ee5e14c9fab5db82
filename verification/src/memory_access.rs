//! The `MemoryAccess` operands of loads, stores and copies, and the alignment
//! that they give.
//!
//! A `MemoryAccess` operand is a word of bits. Where its `Aligned` bit is set, a
//! literal follows it. A load or store has at most one such operand. A copy has
//! up to two, the first of which is about the destination and the second about
//! the source; where it has only one, that one is about both.

use crate::collections::{imms_in, is_short_of, ImmVec};
use crate::spirv::Imm;
use crate::well_known::{spv, WellKnown};
use vstd::prelude::*;

verus! {

/// The `Aligned` bit of a `MemoryAccess` operand.
pub const MEMORY_ACCESS_ALIGNED_BIT: u32 = 0x2;

/// What there is to know of the pointers of a load, store or copy. A load or
/// store has one pointer only, and it is its destination here.
#[derive(Clone, Copy, PartialEq, Eq, Debug, Structural)]
pub struct Access {
    pub is_copy: bool,
    pub dst_physical: bool,
    pub src_physical: bool,
    pub dst_align: u32,
    pub src_align: u32,
}

/// The bits have the `Aligned` bit.
pub open spec fn is_aligned(bits: u32) -> bool {
    bits & MEMORY_ACCESS_ALIGNED_BIT != 0
}

/// A `MemoryAccess` operand without its literal.
pub open spec fn access_word(bits: u32) -> Imm {
    Imm::Short(spv().memory_access, bits)
}

/// The literal that gives an alignment.
pub open spec fn align_word(align: u32) -> Imm {
    Imm::Short(spv().literal_integer, align)
}

/// The immediate is a `MemoryAccess` word.
pub open spec fn is_access(imm: Imm) -> bool {
    is_short_of(imm, spv().memory_access)
}

/// The bits of a `MemoryAccess` word.
pub open spec fn access_bits(imm: Imm) -> u32 {
    match imm {
        Imm::Short(_, bits) => bits,
        Imm::LongStart(_, bits) => bits,
        Imm::LongCont(_, bits) => bits,
    }
}

/// How many words the first operand of `imms` takes: two where it is an aligned
/// `MemoryAccess` with its literal, and else one.
pub open spec fn first_len(imms: Seq<Imm>) -> int {
    if imms.len() > 1 && is_access(imms[0]) && is_aligned(access_bits(imms[0])) {
        2
    } else {
        1
    }
}

/// The `MemoryAccess` operands of `imms`, each as its bits and the literal that
/// follows it, which only aligned ones have.
pub open spec fn accesses(imms: Seq<Imm>) -> Seq<(u32, Option<Imm>)>
    decreases imms.len(),
{
    if imms.len() == 0 {
        Seq::empty()
    } else if is_access(imms[0]) {
        let literal = if first_len(imms) == 2 {
            Some(imms[1])
        } else {
            None
        };
        seq![(access_bits(imms[0]), literal)] + accesses(imms.skip(first_len(imms)))
    } else {
        accesses(imms.skip(1))
    }
}

impl Access {
    /// Whether the pointer that the `i`-th `MemoryAccess` operand is about is
    /// physical.
    pub open spec fn physical(self, i: int) -> bool {
        if self.is_copy && i > 0 {
            self.src_physical
        } else {
            self.dst_physical
        }
    }

    /// The alignment of the pointer that the `i`-th `MemoryAccess` operand is
    /// about.
    pub open spec fn align(self, i: int) -> u32 {
        if self.is_copy && i > 0 {
            self.src_align
        } else {
            self.dst_align
        }
    }

    /// What becomes of the `i`-th `MemoryAccess` operand: of a physical pointer
    /// it is aligned, and keeps its literal where it has one; of another it is
    /// not aligned. (Where it lacks the literal that its bits call for, the alignment
    /// stands in a word of its own kind.)
    pub open spec fn fixed_operand(self, i: int, bits: u32, literal: Option<Imm>) -> Seq<Imm> {
        if self.physical(i) {
            let literal = match literal {
                Some(literal) => literal,
                None => if is_aligned(bits) {
                    access_word(self.align(i))
                } else {
                    align_word(self.align(i))
                },
            };
            seq![access_word(bits | MEMORY_ACCESS_ALIGNED_BIT), literal]
        } else {
            seq![access_word(bits & !MEMORY_ACCESS_ALIGNED_BIT)]
        }
    }

    /// The immediates with each `MemoryAccess` operand fixed, where `i` such
    /// operands came before.
    pub open spec fn fixed_operands(self, imms: Seq<Imm>, i: int) -> Seq<Imm>
        decreases imms.len(),
    {
        if imms.len() == 0 {
            Seq::empty()
        } else if is_access(imms[0]) {
            let literal = if first_len(imms) == 2 {
                Some(imms[1])
            } else {
                None
            };
            self.fixed_operand(i, access_bits(imms[0]), literal) + self.fixed_operands(
                imms.skip(first_len(imms)),
                i + 1,
            )
        } else {
            seq![imms[0]] + self.fixed_operands(imms.skip(1), i)
        }
    }

    /// The `MemoryAccess` operand of a pointer that has none.
    pub open spec fn new_operand(physical: bool, align: u32) -> Seq<Imm> {
        if physical {
            seq![access_word(MEMORY_ACCESS_ALIGNED_BIT), align_word(align)]
        } else {
            seq![access_word(0)]
        }
    }

    /// The `MemoryAccess` operand of the source of a copy that came with one operand, which
    /// was about both sides: it has the bits of that one, and the alignment of the source.
    pub open spec fn source_operand(self, bits: u32) -> Seq<Imm> {
        if self.src_physical {
            seq![access_word(bits | MEMORY_ACCESS_ALIGNED_BIT), align_word(self.src_align)]
        } else {
            seq![access_word(bits & !MEMORY_ACCESS_ALIGNED_BIT)]
        }
    }

    /// The `MemoryAccess` operands that are missing after `operands`: where a pointer is
    /// physical and there are none, those of all pointers; and where one is about both
    /// sides of a copy, that of the source.
    pub open spec fn missing_operands(self, operands: Seq<(u32, Option<Imm>)>) -> Seq<Imm> {
        if !self.is_copy {
            if operands.len() == 0 && self.dst_physical {
                Self::new_operand(true, self.dst_align)
            } else {
                Seq::empty()
            }
        } else if !self.dst_physical && !self.src_physical {
            Seq::empty()
        } else if operands.len() == 0 {
            Self::new_operand(self.dst_physical, self.dst_align) + Self::new_operand(
                self.src_physical,
                self.src_align,
            )
        } else if operands.len() == 1 {
            self.source_operand(operands[0].0)
        } else {
            Seq::empty()
        }
    }

    /// The immediates after all is fixed: those of a load or store without empty
    /// `MemoryAccess` words at the end, and those of a copy without `MemoryAccess` words
    /// where these are all empty.
    pub open spec fn fixed(self, imms: Seq<Imm>) -> Seq<Imm> {
        let all = self.fixed_operands(imms, 0) + self.missing_operands(accesses(imms));
        if !self.is_copy {
            without_empty_end(all)
        } else if all_accesses_empty(all) {
            all.filter(|imm: Imm| !is_access(imm))
        } else {
            all
        }
    }
}

/// The immediates without the empty `MemoryAccess` words at their end.
pub open spec fn without_empty_end(imms: Seq<Imm>) -> Seq<Imm>
    decreases imms.len(),
{
    if imms.len() > 0 && imms.last() == access_word(0) {
        without_empty_end(imms.drop_last())
    } else {
        imms
    }
}

/// Every `MemoryAccess` word is empty.
pub open spec fn all_accesses_empty(imms: Seq<Imm>) -> bool {
    forall|i: int| 0 <= i < imms.len() && is_access(imms[i]) ==> #[trigger] imms[i] == access_word(0)
}

/// Whether every `MemoryAccess` word is empty.
fn are_all_accesses_empty(imms: &[Imm], wk: &WellKnown) -> (empty: bool)
    requires
        *wk == spv(),
    ensures
        empty == all_accesses_empty(imms@),
{
    let mut i: usize = 0;
    while i < imms.len()
        invariant
            *wk == spv(),
            i <= imms@.len(),
            forall|j: int|
                0 <= j < i && is_access(imms@[j]) ==> #[trigger] imms@[j] == access_word(0),
        decreases imms@.len() - i,
    {
        if let Imm::Short(kind, bits) = imms[i] {
            if kind == wk.memory_access && bits != 0 {
                assert(is_access(imms@[i as int]));
                return false;
            }
        }
        i = i + 1;
    }
    true
}

/// Appends what becomes of a `MemoryAccess` operand about one pointer.
fn push_operand(
    new_imms: &mut ImmVec,
    wk: &WellKnown,
    access: &Access,
    slot: usize,
    bits: u32,
    literal: Option<Imm>,
)
    requires
        *wk == spv(),
        slot <= 1,
        slot == 1 ==> access.is_copy,
    ensures
        imms_in(*final(new_imms)) == imms_in(*old(new_imms)) + access.fixed_operand(
            slot as int,
            bits,
            literal,
        ),
{
    let target_physical = if slot == 0 {
        access.dst_physical
    } else {
        access.src_physical
    };
    let align: u32 = if slot == 0 {
        access.dst_align
    } else {
        access.src_align
    };
    let ghost before = imms_in(*new_imms);
    if target_physical {
        new_imms.push(Imm::Short(wk.memory_access, bits | MEMORY_ACCESS_ALIGNED_BIT));
        new_imms.push(
            match literal {
                Some(literal) => literal,
                None => {
                    let kind = if (bits & MEMORY_ACCESS_ALIGNED_BIT) != 0 {
                        wk.memory_access
                    } else {
                        wk.literal_integer
                    };
                    Imm::Short(kind, align)
                },
            },
        );
    } else {
        new_imms.push(Imm::Short(wk.memory_access, bits & !MEMORY_ACCESS_ALIGNED_BIT));
    }
    assert(imms_in(*new_imms) =~= before + access.fixed_operand(slot as int, bits, literal));
}

/// Appends the `MemoryAccess` operand of a pointer that has none.
fn push_new_operand(new_imms: &mut ImmVec, wk: &WellKnown, physical: bool, align: u32)
    requires
        *wk == spv(),
    ensures
        imms_in(*final(new_imms)) == imms_in(*old(new_imms)) + Access::new_operand(
            physical,
            align,
        ),
{
    let ghost before = imms_in(*new_imms);
    if physical {
        new_imms.push(Imm::Short(wk.memory_access, MEMORY_ACCESS_ALIGNED_BIT));
        new_imms.push(Imm::Short(wk.literal_integer, align));
    } else {
        new_imms.push(Imm::Short(wk.memory_access, 0));
    }
    assert(imms_in(*new_imms) =~= before + Access::new_operand(physical, align));
}

/// Appends the `MemoryAccess` operand of the source of a copy that came with one operand.
fn push_source_operand(new_imms: &mut ImmVec, wk: &WellKnown, access: &Access, bits: u32)
    requires
        *wk == spv(),
    ensures
        imms_in(*final(new_imms)) == imms_in(*old(new_imms)) + access.source_operand(bits),
{
    let ghost before = imms_in(*new_imms);
    if access.src_physical {
        new_imms.push(Imm::Short(wk.memory_access, bits | MEMORY_ACCESS_ALIGNED_BIT));
        new_imms.push(Imm::Short(wk.literal_integer, access.src_align));
    } else {
        new_imms.push(Imm::Short(wk.memory_access, bits & !MEMORY_ACCESS_ALIGNED_BIT));
    }
    assert(imms_in(*new_imms) =~= before + access.source_operand(bits));
}

/// One operand further: what was read before `rest`, and what was fixed of it, with the
/// first operand of `rest` added.
proof fn lemma_operand_step(
    access: Access,
    imms: Seq<Imm>,
    rest: Seq<Imm>,
    seen: Seq<(u32, Option<Imm>)>,
    done: Seq<Imm>,
    literal: Option<Imm>,
)
    requires
        rest.len() > 0,
        is_access(rest[0]),
        literal == (if first_len(rest) == 2 {
            Some(rest[1])
        } else {
            None
        }),
        done + access.fixed_operands(rest, seen.len() as int) == access.fixed_operands(imms, 0),
        seen + accesses(rest) == accesses(imms),
    ensures
        ({
            let bits = access_bits(rest[0]);
            let tail = rest.skip(first_len(rest));
            &&& (done + access.fixed_operand(seen.len() as int, bits, literal))
                + access.fixed_operands(tail, seen.len() as int + 1) == access.fixed_operands(imms, 0)
            &&& seen.push((bits, literal)) + accesses(tail) == accesses(imms)
        }),
{
    let bits = access_bits(rest[0]);
    let tail = rest.skip(first_len(rest));
    let operand = access.fixed_operand(seen.len() as int, bits, literal);
    let fixed = access.fixed_operands(tail, seen.len() as int + 1);
    assert(done + (operand + fixed) =~= (done + operand) + fixed);
    assert(seen + (seq![(bits, literal)] + accesses(tail)) =~= seen.push((bits, literal))
        + accesses(tail));
}

/// One immediate further that is no `MemoryAccess` word.
proof fn lemma_other_step(
    access: Access,
    imms: Seq<Imm>,
    rest: Seq<Imm>,
    seen: Seq<(u32, Option<Imm>)>,
    done: Seq<Imm>,
)
    requires
        rest.len() > 0,
        !is_access(rest[0]),
        done + access.fixed_operands(rest, seen.len() as int) == access.fixed_operands(imms, 0),
        seen + accesses(rest) == accesses(imms),
    ensures
        done.push(rest[0]) + access.fixed_operands(rest.skip(1), seen.len() as int)
            == access.fixed_operands(imms, 0),
        seen + accesses(rest.skip(1)) == accesses(imms),
{
    let fixed = access.fixed_operands(rest.skip(1), seen.len() as int);
    assert(done + (seq![rest[0]] + fixed) =~= done.push(rest[0]) + fixed);
}

/// The immediates of a load, store or copy, with its `MemoryAccess` operands
/// fixed to match its pointers.
#[verifier::rlimit(40)]
pub fn fix_memory_access(wk: &WellKnown, access: &Access, imms: &Vec<Imm>) -> (fixed: Vec<Imm>)
    requires
        *wk == spv(),
    ensures
        fixed@ == access.fixed(imms@),
{
    let mut new_imms = ImmVec::new();
    let mut mem_access_seen: [bool; 2] = [false, false];
    let mut first_bits: u32 = 0;
    let mut i: usize = 0;
    let ghost mut seen: Seq<(u32, Option<Imm>)> = Seq::empty();
    assert(imms@.skip(0) =~= imms@);
    assert(seen + accesses(imms@) =~= accesses(imms@));
    while i < imms.len()
        invariant
            *wk == spv(),
            i <= imms@.len(),
            mem_access_seen[0] == (seen.len() >= 1),
            mem_access_seen[1] == (access.is_copy && seen.len() >= 2),
            seen.len() >= 1 ==> first_bits == seen[0].0,
            imms_in(new_imms) + access.fixed_operands(imms@.skip(i as int), seen.len() as int)
                == access.fixed_operands(imms@, 0),
            seen + accesses(imms@.skip(i as int)) == accesses(imms@),
        decreases imms@.len() - i,
    {
        let imm = imms[i];
        let ghost rest = imms@.skip(i as int);
        let ghost before = imms_in(new_imms);
        let ghost n = seen.len() as int;
        assert(rest[0] == imm);
        assert(rest.skip(1) =~= imms@.skip(i + 1));
        i = i + 1;
        match imm {
            Imm::Short(kind, bits) if kind == wk.memory_access => {
                let slot: usize = if access.is_copy && mem_access_seen[0] {
                    1
                } else {
                    0
                };
                let literal = if (bits & MEMORY_ACCESS_ALIGNED_BIT) != 0 && i < imms.len() {
                    let literal = imms[i];
                    assert(rest[1] == literal);
                    assert(rest.skip(2) =~= imms@.skip(i + 1));
                    i = i + 1;
                    Some(literal)
                } else {
                    None
                };
                if !mem_access_seen[0] {
                    first_bits = bits;
                }
                mem_access_seen[slot] = true;
                push_operand(&mut new_imms, wk, access, slot, bits, literal);
                proof {
                    assert(access.fixed_operand(n, bits, literal) == access.fixed_operand(
                        slot as int,
                        bits,
                        literal,
                    ));
                    lemma_operand_step(*access, imms@, rest, seen, before, literal);
                    seen = seen.push((bits, literal));
                }
            },
            _ => {
                new_imms.push(imm);
                proof {
                    lemma_other_step(*access, imms@, rest, seen, before);
                }
            },
        }
    }
    let ghost fixed = imms_in(new_imms);
    assert(imms@.skip(i as int) =~= Seq::<Imm>::empty());
    assert(fixed =~= access.fixed_operands(imms@, 0));
    assert(seen =~= accesses(imms@));

    // Add operands for the physical pointers that had none.
    if !access.is_copy {
        if access.dst_physical && !mem_access_seen[0] {
            push_new_operand(&mut new_imms, wk, true, access.dst_align);
        }
    } else if access.dst_physical || access.src_physical {
        // A copy gets two operands, so that each side has its own alignment.
        if !mem_access_seen[0] {
            push_new_operand(&mut new_imms, wk, access.dst_physical, access.dst_align);
            push_new_operand(&mut new_imms, wk, access.src_physical, access.src_align);
        } else if !mem_access_seen[1] {
            // The one operand was about both sides.
            push_source_operand(&mut new_imms, wk, access, first_bits);
        }
    }
    let ghost all = imms_in(new_imms);
    assert(all =~= fixed + access.missing_operands(accesses(imms@)));

    // An empty operand is as good as none. The two of a copy go together, since
    // without one the other would be about both sides.
    if !access.is_copy {
        loop
            invariant
                *wk == spv(),
                without_empty_end(imms_in(new_imms)) == without_empty_end(all),
            ensures
                imms_in(new_imms) == without_empty_end(all),
            decreases imms_in(new_imms).len(),
        {
            let slice = new_imms.as_slice();
            if slice.len() == 0 {
                break;
            }
            if slice[slice.len() - 1] != Imm::Short(wk.memory_access, 0) {
                break;
            }
            let _ = new_imms.pop();
        }
    } else if are_all_accesses_empty(new_imms.as_slice(), wk) {
        new_imms.retain_not_short_of(wk.memory_access);
        assert((|imm: Imm| !is_short_of(imm, spv().memory_access)) =~= (|imm: Imm| !is_access(imm)));
    }
    new_imms.into_vec()
}

} // verus!
