use spirt::spv::spec::indexed::FlatIdx;
use spirt::spv::spec::Spec;
use spirt_passes::spirv::{Opcode, OperandKind};
use spirt_passes::well_known::WellKnown;

#[test]
fn instructions_have_the_numbers_of_the_grammar() {
    let wk = WellKnown::get();
    let expected = [
        (wk.op_type_int, 21, "OpTypeInt"),
        (wk.op_type_float, 22, "OpTypeFloat"),
        (wk.op_type_vector, 23, "OpTypeVector"),
        (wk.op_type_matrix, 24, "OpTypeMatrix"),
        (wk.op_type_array, 28, "OpTypeArray"),
        (wk.op_type_runtime_array, 29, "OpTypeRuntimeArray"),
        (wk.op_type_struct, 30, "OpTypeStruct"),
        (wk.op_type_pointer, 32, "OpTypePointer"),
        (wk.op_constant, 43, "OpConstant"),
        (wk.op_constant_null, 46, "OpConstantNull"),
        (wk.op_load, 61, "OpLoad"),
        (wk.op_store, 62, "OpStore"),
        (wk.op_copy_memory, 63, "OpCopyMemory"),
        (wk.op_convert_ptr_to_u, 117, "OpConvertPtrToU"),
        (wk.op_convert_u_to_ptr, 120, "OpConvertUToPtr"),
        (wk.op_i_equal, 170, "OpIEqual"),
        (wk.op_i_not_equal, 171, "OpINotEqual"),
        (wk.op_u_greater_than, 172, "OpUGreaterThan"),
        (wk.op_u_greater_than_equal, 174, "OpUGreaterThanEqual"),
        (wk.op_u_less_than, 176, "OpULessThan"),
        (wk.op_u_less_than_equal, 178, "OpULessThanEqual"),
    ];
    for (opcode, number, name) in expected {
        assert_eq!(opcode, Opcode(number));
        assert_eq!(Spec::get().instructions.lookup(name).unwrap().as_u16(), number);
    }
}

#[test]
fn operand_kinds_have_the_numbers_of_the_grammar() {
    let wk = WellKnown::get();
    let kinds = &Spec::get().operand_kinds;
    assert_eq!(wk.memory_access, OperandKind(6));
    assert_eq!(kinds.lookup("MemoryAccess").unwrap().to_usize(), 6);
    assert_eq!(wk.literal_integer, OperandKind(54));
    assert_eq!(kinds.lookup("LiteralInteger").unwrap().to_usize(), 54);
}

#[test]
fn the_storage_class_has_the_number_of_the_grammar() {
    assert_eq!(WellKnown::get().physical_storage_buffer, 5349);
}
