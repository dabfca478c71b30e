//! The low-level module into which synthesized entities are emitted, as
//! provided by the `llhd` crate.

use vstd::prelude::*;
use llhd::ir::{Module, Signature, UnitData, UnitKind, UnitName};
use llhd::table::TableKey;

verus! {

#[verifier::external_type_specification]
#[verifier::external_body]
pub struct ExModule(Module);

/// The units of a module: the global name of each, under the index of its
/// unit identifier.
pub uninterp spec fn module_units(m: Module) -> Map<usize, Seq<char>>;

/// Relies on llhd's `Module::new`: a new module holds no units.
#[verifier::external_body]
pub(crate) fn new_module() -> (r: Module)
    ensures
        module_units(r) =~= Map::empty(),
{
    Module::new()
}

/// Relies on llhd's `UnitData::new` and `Module::add_unit`: an entity with an
/// empty signature and the global name `name` is stored in the module under
/// a new unit identifier, whose index is returned. The module's unit table
/// hands out indices from a counter that only grows, so the index was free.
#[verifier::external_body]
pub(crate) fn add_entity(m: &mut Module, name: &String) -> (r: usize)
    ensures
        !module_units(*old(m)).contains_key(r),
        module_units(*final(m)) == module_units(*old(m)).insert(r, name@),
{
    let data = UnitData::new(UnitKind::Entity, UnitName::global(name.clone()), Signature::new());
    m.add_unit(data).index()
}

} // verus!
