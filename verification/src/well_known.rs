//! The numbers that SPIR-V gives to the instructions, operand kinds and storage
//! class that the passes deal with, looked up by name in the grammar that `spirt`
//! carries.

use crate::spirv::{Opcode, OperandKind};
use spirt::spv::spec::indexed::FlatIdx;
use spirt::spv::spec::{OperandKindDef, Spec};
use vstd::prelude::*;

verus! {

/// The SPIR-V grammar numbers the instruction called `name` with `number`.
pub open spec fn numbers_opcode(name: Seq<char>, number: u16) -> bool {
    ||| name == "OpTypeInt"@ && number == 21
    ||| name == "OpTypeFloat"@ && number == 22
    ||| name == "OpTypeVector"@ && number == 23
    ||| name == "OpTypeMatrix"@ && number == 24
    ||| name == "OpTypeArray"@ && number == 28
    ||| name == "OpTypeRuntimeArray"@ && number == 29
    ||| name == "OpTypeStruct"@ && number == 30
    ||| name == "OpTypePointer"@ && number == 32
    ||| name == "OpConstant"@ && number == 43
    ||| name == "OpConstantNull"@ && number == 46
    ||| name == "OpLoad"@ && number == 61
    ||| name == "OpStore"@ && number == 62
    ||| name == "OpCopyMemory"@ && number == 63
    ||| name == "OpConvertPtrToU"@ && number == 117
    ||| name == "OpConvertUToPtr"@ && number == 120
    ||| name == "OpIEqual"@ && number == 170
    ||| name == "OpINotEqual"@ && number == 171
    ||| name == "OpUGreaterThan"@ && number == 172
    ||| name == "OpUGreaterThanEqual"@ && number == 174
    ||| name == "OpULessThan"@ && number == 176
    ||| name == "OpULessThanEqual"@ && number == 178
}

/// `spirt` numbers the operand kind called `name` with `number`, which is its
/// place in the grammar's list of operand kinds, composite kinds left out.
pub open spec fn numbers_operand_kind(name: Seq<char>, number: u8) -> bool {
    ||| name == "MemoryAccess"@ && number == 6
    ||| name == "LiteralInteger"@ && number == 54
}

/// The SPIR-V grammar numbers the storage class called `name` with `number`.
pub open spec fn numbers_storage_class(name: Seq<char>, number: u32) -> bool {
    name == "PhysicalStorageBuffer"@ && number == 5349
}

/// Calls `NamedIdxMap::lookup` on the `instructions` of `Spec::get()`, which are
/// read from the grammar file that is part of `spirt`. Claims that the
/// instructions which the passes deal with are found under the numbers that
/// stand in that file.
#[verifier::external_body]
fn lookup_opcode(name: &str) -> (opcode: Option<u16>)
    ensures
        forall|number: u16| #[trigger] numbers_opcode(name@, number) ==> opcode == Some(number),
{
    Spec::get().instructions.lookup(name).map(|opcode| opcode.as_u16())
}

/// Calls `NamedIdxMap::lookup` on the `operand_kinds` of `Spec::get()`. Claims
/// that the operand kinds which the passes deal with are found under their
/// places in the grammar file. `spirt` holds these places in one byte, so the
/// conversion loses nothing.
#[verifier::external_body]
fn lookup_operand_kind(name: &str) -> (kind: Option<u8>)
    ensures
        forall|number: u8| #[trigger] numbers_operand_kind(name@, number) ==> kind == Some(number),
{
    Spec::get().operand_kinds.lookup(name).map(|kind| kind.to_usize() as u8)
}

/// Calls `NamedIdxMap::lookup` on the variants of the operand kind
/// `StorageClass` of `Spec::get()`. Claims that the storage class which the
/// passes deal with is found under the number that stands in the grammar file.
#[verifier::external_body]
fn lookup_storage_class(name: &str) -> (value: Option<u32>)
    ensures
        forall|number: u32| #[trigger] numbers_storage_class(name@, number) ==> value == Some(number),
{
    let kind = Spec::get().well_known.StorageClass;
    match Spec::get().operand_kinds.get(kind)? {
        OperandKindDef::ValueEnum { variants } => variants.lookup(name).map(u32::from),
        OperandKindDef::BitEnum { .. } => None,
        OperandKindDef::Id => None,
        OperandKindDef::Literal { .. } => None,
    }
}

/// The number of an instruction that the passes deal with.
fn opcode(name: &str) -> (opcode: Opcode)
    requires
        exists|number: u16| numbers_opcode(name@, number),
    ensures
        forall|number: u16| #[trigger] numbers_opcode(name@, number) ==> opcode == Opcode(number),
{
    match lookup_opcode(name) {
        Some(number) => Opcode(number),
        None => Opcode(0),
    }
}

/// The number of an operand kind that the passes deal with.
fn operand_kind(name: &str) -> (kind: OperandKind)
    requires
        exists|number: u8| numbers_operand_kind(name@, number),
    ensures
        forall|number: u8| #[trigger]
            numbers_operand_kind(name@, number) ==> kind == OperandKind(number),
{
    match lookup_operand_kind(name) {
        Some(number) => OperandKind(number),
        None => OperandKind(0),
    }
}

/// The number of a storage class that the passes deal with.
fn storage_class(name: &str) -> (value: u32)
    requires
        exists|number: u32| numbers_storage_class(name@, number),
    ensures
        forall|number: u32| #[trigger] numbers_storage_class(name@, number) ==> value == number,
{
    match lookup_storage_class(name) {
        Some(number) => number,
        None => 0,
    }
}

/// The numbers that the passes deal with.
#[derive(Clone, Copy, PartialEq, Eq, Debug, Structural)]
pub struct WellKnown {
    pub op_type_int: Opcode,
    pub op_type_float: Opcode,
    pub op_type_vector: Opcode,
    pub op_type_matrix: Opcode,
    pub op_type_array: Opcode,
    pub op_type_runtime_array: Opcode,
    pub op_type_struct: Opcode,
    pub op_type_pointer: Opcode,
    pub op_constant: Opcode,
    pub op_constant_null: Opcode,
    pub op_load: Opcode,
    pub op_store: Opcode,
    pub op_copy_memory: Opcode,
    pub op_convert_ptr_to_u: Opcode,
    pub op_convert_u_to_ptr: Opcode,
    pub op_i_equal: Opcode,
    pub op_i_not_equal: Opcode,
    pub op_u_greater_than: Opcode,
    pub op_u_greater_than_equal: Opcode,
    pub op_u_less_than: Opcode,
    pub op_u_less_than_equal: Opcode,
    pub memory_access: OperandKind,
    pub literal_integer: OperandKind,
    pub physical_storage_buffer: u32,
}

/// The numbers that SPIR-V gives.
pub open spec fn spv() -> WellKnown {
    WellKnown {
        op_type_int: Opcode(21),
        op_type_float: Opcode(22),
        op_type_vector: Opcode(23),
        op_type_matrix: Opcode(24),
        op_type_array: Opcode(28),
        op_type_runtime_array: Opcode(29),
        op_type_struct: Opcode(30),
        op_type_pointer: Opcode(32),
        op_constant: Opcode(43),
        op_constant_null: Opcode(46),
        op_load: Opcode(61),
        op_store: Opcode(62),
        op_copy_memory: Opcode(63),
        op_convert_ptr_to_u: Opcode(117),
        op_convert_u_to_ptr: Opcode(120),
        op_i_equal: Opcode(170),
        op_i_not_equal: Opcode(171),
        op_u_greater_than: Opcode(172),
        op_u_greater_than_equal: Opcode(174),
        op_u_less_than: Opcode(176),
        op_u_less_than_equal: Opcode(178),
        memory_access: OperandKind(6),
        literal_integer: OperandKind(54),
        physical_storage_buffer: 5349,
    }
}

impl WellKnown {
    /// Looks every number up.
    pub fn get() -> (wk: WellKnown)
        ensures
            wk == spv(),
    {
        proof {
            assert(numbers_opcode("OpTypeInt"@, 21));
            assert(numbers_opcode("OpTypeFloat"@, 22));
            assert(numbers_opcode("OpTypeVector"@, 23));
            assert(numbers_opcode("OpTypeMatrix"@, 24));
            assert(numbers_opcode("OpTypeArray"@, 28));
            assert(numbers_opcode("OpTypeRuntimeArray"@, 29));
            assert(numbers_opcode("OpTypeStruct"@, 30));
            assert(numbers_opcode("OpTypePointer"@, 32));
            assert(numbers_opcode("OpConstant"@, 43));
            assert(numbers_opcode("OpConstantNull"@, 46));
            assert(numbers_opcode("OpLoad"@, 61));
            assert(numbers_opcode("OpStore"@, 62));
            assert(numbers_opcode("OpCopyMemory"@, 63));
            assert(numbers_opcode("OpConvertPtrToU"@, 117));
            assert(numbers_opcode("OpConvertUToPtr"@, 120));
            assert(numbers_opcode("OpIEqual"@, 170));
            assert(numbers_opcode("OpINotEqual"@, 171));
            assert(numbers_opcode("OpUGreaterThan"@, 172));
            assert(numbers_opcode("OpUGreaterThanEqual"@, 174));
            assert(numbers_opcode("OpULessThan"@, 176));
            assert(numbers_opcode("OpULessThanEqual"@, 178));
            assert(numbers_operand_kind("MemoryAccess"@, 6));
            assert(numbers_operand_kind("LiteralInteger"@, 54));
            assert(numbers_storage_class("PhysicalStorageBuffer"@, 5349));
        }
        WellKnown {
            op_type_int: opcode("OpTypeInt"),
            op_type_float: opcode("OpTypeFloat"),
            op_type_vector: opcode("OpTypeVector"),
            op_type_matrix: opcode("OpTypeMatrix"),
            op_type_array: opcode("OpTypeArray"),
            op_type_runtime_array: opcode("OpTypeRuntimeArray"),
            op_type_struct: opcode("OpTypeStruct"),
            op_type_pointer: opcode("OpTypePointer"),
            op_constant: opcode("OpConstant"),
            op_constant_null: opcode("OpConstantNull"),
            op_load: opcode("OpLoad"),
            op_store: opcode("OpStore"),
            op_copy_memory: opcode("OpCopyMemory"),
            op_convert_ptr_to_u: opcode("OpConvertPtrToU"),
            op_convert_u_to_ptr: opcode("OpConvertUToPtr"),
            op_i_equal: opcode("OpIEqual"),
            op_i_not_equal: opcode("OpINotEqual"),
            op_u_greater_than: opcode("OpUGreaterThan"),
            op_u_greater_than_equal: opcode("OpUGreaterThanEqual"),
            op_u_less_than: opcode("OpULessThan"),
            op_u_less_than_equal: opcode("OpULessThanEqual"),
            memory_access: operand_kind("MemoryAccess"),
            literal_integer: operand_kind("LiteralInteger"),
            physical_storage_buffer: storage_class("PhysicalStorageBuffer"),
        }
    }
}

} // verus!
