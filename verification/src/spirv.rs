//! SPIR-V instructions in their minimal form: an opcode and its immediate
//! operands, one word each.

use vstd::prelude::*;

verus! {

/// The number of a SPIR-V instruction (`OpLoad` is 61, and so on).
#[derive(Clone, Copy, PartialEq, Eq, Hash, Debug, Structural)]
pub struct Opcode(pub u16);

/// The number of an operand kind in the SPIR-V grammar (`MemoryAccess`,
/// `LiteralInteger`, and so on).
#[derive(Clone, Copy, PartialEq, Eq, Hash, Debug, Structural)]
pub struct OperandKind(pub u8);

/// One word of immediate operands. An operand of several words is a
/// `LongStart` followed by `LongCont`s.
#[derive(Clone, Copy, PartialEq, Eq, Hash, Debug, Structural)]
pub enum Imm {
    Short(OperandKind, u32),
    LongStart(OperandKind, u32),
    LongCont(OperandKind, u32),
}

/// A SPIR-V instruction without its ID operands.
#[derive(Debug)]
pub struct Inst {
    pub opcode: Opcode,
    pub imms: Vec<Imm>,
}

/// What an [`Inst`] holds.
#[verifier::ext_equal]
pub struct InstView {
    pub opcode: Opcode,
    pub imms: Seq<Imm>,
}

impl View for Inst {
    type V = InstView;

    open spec fn view(&self) -> InstView {
        InstView { opcode: self.opcode, imms: self.imms@ }
    }
}

/// Whether two lists of immediates are the same.
pub fn same_imms(a: &Vec<Imm>, b: &Vec<Imm>) -> (same: bool)
    ensures
        same == (a@ == b@),
{
    if a.len() != b.len() {
        return false;
    }
    let mut i: usize = 0;
    while i < a.len()
        invariant
            a@.len() == b@.len(),
            i <= a@.len(),
            forall|j: int| 0 <= j < i ==> a@[j] == b@[j],
        decreases a@.len() - i,
    {
        if a[i] != b[i] {
            return false;
        }
        i = i + 1;
    }
    assert(a@ =~= b@);
    true
}

impl Inst {
    /// Whether two instructions have the same opcode and immediates.
    pub fn same_as(&self, other: &Inst) -> (same: bool)
        ensures
            same == (self@ == other@),
    {
        self.opcode == other.opcode && same_imms(&self.imms, &other.imms)
    }

    /// A copy of this instruction.
    pub fn duplicate(&self) -> (copy: Inst)
        ensures
            copy@ == self@,
    {
        let imms = self.imms.clone();
        assert(imms@ =~= self.imms@);
        Inst { opcode: self.opcode, imms }
    }
}

} // verus!
