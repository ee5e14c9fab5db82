//! The small vectors and hash tables that the passes keep their notes in.
//!
//! The small vectors are `smallvec`'s, and the hash tables are those of
//! `rustc_data_structures`, whose `FxHashSet` and `FxHashMap` are `std`'s with a
//! hasher that is not seeded. The functions here that call them are trusted to do
//! what their contracts say.

use crate::ir::Type;
use crate::spirv::{Imm, OperandKind};
use rustc_data_structures::fx::{FxHashMap, FxHashSet, FxHasher};
use smallvec::SmallVec;
use std::hash::BuildHasherDefault;
use vstd::prelude::*;

verus! {

/// A list of immediates that is usually short.
#[verifier::external_body]
pub struct ImmVec {
    items: SmallVec<[Imm; 4]>,
}

/// The immediates that an [`ImmVec`] holds, in order.
pub uninterp spec fn imms_in(list: ImmVec) -> Seq<Imm>;

/// The immediate is one word of kind `kind`.
pub open spec fn is_short_of(imm: Imm, kind: OperandKind) -> bool {
    imm matches Imm::Short(k, _) && k == kind
}

/// Whether the immediate is one word of another kind than `kind`, or part of
/// several words.
pub fn not_short_of(imm: Imm, kind: OperandKind) -> (keep: bool)
    ensures
        keep == !is_short_of(imm, kind),
{
    match imm {
        Imm::Short(k, _) => k != kind,
        _ => true,
    }
}

impl ImmVec {
    /// Calls `SmallVec::new`, which gives an empty vector.
    #[verifier::external_body]
    pub(crate) fn new() -> (list: ImmVec)
        ensures
            imms_in(list) == Seq::<Imm>::empty(),
    {
        ImmVec { items: SmallVec::new() }
    }

    /// Calls `SmallVec::push`, which appends an item.
    #[verifier::external_body]
    pub(crate) fn push(&mut self, imm: Imm)
        ensures
            imms_in(*final(self)) == imms_in(*old(self)).push(imm),
    {
        self.items.push(imm)
    }

    /// Calls `SmallVec::pop`, which removes the last item and returns it, or
    /// returns nothing where there is none.
    #[verifier::external_body]
    pub(crate) fn pop(&mut self) -> (imm: Option<Imm>)
        ensures
            imms_in(*old(self)).len() == 0 ==> imm is None && imms_in(*final(self)) == imms_in(
                *old(self),
            ),
            imms_in(*old(self)).len() > 0 ==> imm == Some(imms_in(*old(self)).last())
                && imms_in(*final(self)) == imms_in(*old(self)).drop_last(),
    {
        self.items.pop()
    }

    /// Calls `SmallVec::retain`, which keeps the items that the predicate holds
    /// of, in order. Here these are all but the single words of kind `kind`.
    #[verifier::external_body]
    pub(crate) fn retain_not_short_of(&mut self, kind: OperandKind)
        ensures
            imms_in(*final(self)) == imms_in(*old(self)).filter(
                |imm: Imm| !is_short_of(imm, kind),
            ),
    {
        self.items.retain(|imm| not_short_of(*imm, kind))
    }

    /// Calls `SmallVec::as_slice`, which gives the items in order.
    #[verifier::external_body]
    pub(crate) fn as_slice(&self) -> (imms: &[Imm])
        ensures
            imms@ == imms_in(*self),
    {
        self.items.as_slice()
    }

    /// Calls `SmallVec::into_vec`, which gives the items in order.
    #[verifier::external_body]
    pub(crate) fn into_vec(self) -> (imms: Vec<Imm>)
        ensures
            imms@ == imms_in(self),
    {
        self.items.into_vec()
    }
}

/// A list of places that is usually short.
#[verifier::external_body]
pub struct IndexVec {
    items: SmallVec<[usize; 2]>,
}

/// The places that an [`IndexVec`] holds, in order.
pub uninterp spec fn indices_in(list: IndexVec) -> Seq<usize>;

impl IndexVec {
    /// Calls `SmallVec::new`, which gives an empty vector.
    #[verifier::external_body]
    pub(crate) fn new() -> (list: IndexVec)
        ensures
            indices_in(list) == Seq::<usize>::empty(),
    {
        IndexVec { items: SmallVec::new() }
    }

    /// Calls `SmallVec::push`, which appends an item.
    #[verifier::external_body]
    pub(crate) fn push(&mut self, index: usize)
        ensures
            indices_in(*final(self)) == indices_in(*old(self)).push(index),
    {
        self.items.push(index)
    }

    /// Calls `SmallVec::as_slice`, which gives the items in order.
    #[verifier::external_body]
    pub(crate) fn as_slice(&self) -> (indices: &[usize])
        ensures
            indices@ == indices_in(*self),
    {
        self.items.as_slice()
    }
}

/// A list of places, each with a type, that is usually short.
#[verifier::external_body]
pub struct TypedIndexVec {
    items: SmallVec<[(usize, Type); 2]>,
}

/// The places and types that a [`TypedIndexVec`] holds, in order.
pub uninterp spec fn typed_indices_in(list: TypedIndexVec) -> Seq<(usize, Type)>;

impl TypedIndexVec {
    /// Calls `SmallVec::new`, which gives an empty vector.
    #[verifier::external_body]
    pub(crate) fn new() -> (list: TypedIndexVec)
        ensures
            typed_indices_in(list) == Seq::<(usize, Type)>::empty(),
    {
        TypedIndexVec { items: SmallVec::new() }
    }

    /// Calls `SmallVec::push`, which appends an item.
    #[verifier::external_body]
    pub(crate) fn push(&mut self, item: (usize, Type))
        ensures
            typed_indices_in(*final(self)) == typed_indices_in(*old(self)).push(item),
    {
        self.items.push(item)
    }

    /// Calls `SmallVec::as_slice`, which gives the items in order.
    #[verifier::external_body]
    pub(crate) fn as_slice(&self) -> (items: &[(usize, Type)])
        ensures
            items@ == typed_indices_in(*self),
    {
        self.items.as_slice()
    }
}

/// The hasher of `rustc_data_structures`, which is that of `rustc_hash`.
#[verifier::external_type_specification]
#[verifier::external_body]
pub struct ExFxHasher(FxHasher);

/// The `std` type that makes hashers with `Default`.
#[verifier::external_type_specification]
#[verifier::external_body]
#[verifier::reject_recursive_types(H)]
pub struct ExBuildHasherDefault<H>(BuildHasherDefault<H>);

/// Calls `FxHashSet::default`, which gives an empty set.
#[verifier::external_body]
pub(crate) fn new_handle_set() -> (handles: FxHashSet<usize>)
    ensures
        handles@ == Set::<usize>::empty(),
{
    FxHashSet::default()
}

/// Calls `FxHashSet::insert`, which adds an item and returns whether it was not
/// there before.
#[verifier::external_body]
pub(crate) fn add_handle(handles: &mut FxHashSet<usize>, handle: usize) -> (added: bool)
    ensures
        final(handles)@ == old(handles)@.insert(handle),
        added == !old(handles)@.contains(handle),
{
    handles.insert(handle)
}

/// Calls `FxHashSet::contains`, which returns whether an item is there.
#[verifier::external_body]
pub(crate) fn has_handle(handles: &FxHashSet<usize>, handle: usize) -> (found: bool)
    ensures
        found == handles@.contains(handle),
{
    handles.contains(&handle)
}

/// Calls `FxHashMap::default`, which gives an empty map.
#[verifier::external_body]
pub(crate) fn new_const_notes() -> (notes: FxHashMap<usize, Option<Type>>)
    ensures
        notes@.dom() == Set::<usize>::empty(),
{
    FxHashMap::default()
}

/// Calls `FxHashMap::get`, which returns the value of a key, or nothing where the key
/// is not there.
#[verifier::external_body]
pub(crate) fn const_note(notes: &FxHashMap<usize, Option<Type>>, handle: usize) -> (note: Option<
    Option<Type>,
>)
    ensures
        note == (if notes@.dom().contains(handle) {
            Some(notes@[handle])
        } else {
            None
        }),
{
    notes.get(&handle).copied()
}

/// Calls `FxHashMap::insert`, which sets the value of a key.
#[verifier::external_body]
pub(crate) fn set_const_note(
    notes: &mut FxHashMap<usize, Option<Type>>,
    handle: usize,
    note: Option<Type>,
)
    ensures
        final(notes)@ == old(notes)@.insert(handle, note),
{
    notes.insert(handle, note);
}

} // verus!
