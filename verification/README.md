# spirt_passes

Two passes over SPIR-V shader modules that use physical pointers, that is pointers in
the `PhysicalStorageBuffer` storage class. Both are verified with Verus.

* `lower_physical_nulls` replaces null constants of physical pointer types, wherever a
  function uses them, by `u64` zeros that are converted to pointers. It widens
  `OpConvertPtrToU` of a physical pointer to `u64`, and the integer zeros that such an
  address is compared to.
* `strip_when_invalid` gives the loads, stores and copies of physical pointers an
  alignment, which is the natural one unless they have one already, and takes the
  alignment off those of logical pointers.

Both change the functions that a module can reach from its exports, and no others.

## Layout

* `src/spirv.rs`, `src/ir.rs`, `src/context.rs`: instructions, functions and modules,
  and the mathematical views that the contracts speak of. Types, constants and
  instruction forms are interned and named by index; the order in which a function is
  walked is part of it.
* `src/types.rs`, `src/alignment.rs`, `src/edit.rs`, `src/lists.rs`: types of values,
  natural alignment, small changes to bodies, and what lists contain.
* `src/reach.rs`, `src/rewrite.rs`: which functions a module can reach, and how a pass
  works through them.
* `src/lowering.rs`, `src/lowerer.rs`, `src/lower_physical_nulls.rs`: the first pass, of
  which `src/null_uses.rs` and `src/use_lowerer.rs` are about the nulls that no
  instruction takes. `src/lower_laws.rs`: what holds after it.
* `src/memory_access.rs`, `src/strip_logical_alignment.rs`: the second pass.
  `src/memory_access_laws.rs`, `src/strip_laws.rs`: what holds after it.
* `src/well_formed.rs`, `src/checks.rs`: whether a module is in order and fit for a pass,
  for callers that do not know.
* `src/well_known.rs`, `src/collections.rs`: the functions that call `spirt`, `smallvec`
  and `rustc_data_structures`. Their contracts are trusted.
* `app/`: runs the passes on `spirt` modules.
