//! Typed references to the nodes of a design. Each wraps a [`NodeId`] with a
//! tag for the kind of node it denotes, so that references of different kinds
//! cannot be mixed up.

use vstd::prelude::*;
use crate::id::NodeId;

verus! {

#[derive(Clone, Copy, PartialEq, Eq, Structural, Hash, Debug)]
pub struct ArchRef(pub NodeId);

#[derive(Clone, Copy, PartialEq, Eq, Structural, Hash, Debug)]
pub struct CfgRef(pub NodeId);

#[derive(Clone, Copy, PartialEq, Eq, Structural, Hash, Debug)]
pub struct CtxRef(pub NodeId);

#[derive(Clone, Copy, PartialEq, Eq, Structural, Hash, Debug)]
pub struct DesignUnitRef(pub NodeId);

#[derive(Clone, Copy, PartialEq, Eq, Structural, Hash, Debug)]
pub struct EntityRef(pub NodeId);

#[derive(Clone, Copy, PartialEq, Eq, Structural, Hash, Debug)]
pub struct LibRef(pub NodeId);

#[derive(Clone, Copy, PartialEq, Eq, Structural, Hash, Debug)]
pub struct PkgBodyRef(pub NodeId);

#[derive(Clone, Copy, PartialEq, Eq, Structural, Hash, Debug)]
pub struct PkgDeclRef(pub NodeId);

#[derive(Clone, Copy, PartialEq, Eq, Structural, Hash, Debug)]
pub struct PkgInstRef(pub NodeId);

#[derive(Clone, Copy, PartialEq, Eq, Structural, Hash, Debug)]
pub struct GenericRef(pub NodeId);

#[derive(Clone, Copy, PartialEq, Eq, Structural, Hash, Debug)]
pub struct IntfSignalRef(pub NodeId);

#[derive(Clone, Copy, PartialEq, Eq, Structural, Hash, Debug)]
pub struct SubtypeIndRef(pub NodeId);

#[derive(Clone, Copy, PartialEq, Eq, Structural, Hash, Debug)]
pub struct TypeMarkRef(pub NodeId);

#[derive(Clone, Copy, PartialEq, Eq, Structural, Hash, Debug)]
pub struct DeclInPkgRef(pub NodeId);

#[derive(Clone, Copy, PartialEq, Eq, Structural, Hash, Debug)]
pub struct ExprRef(pub NodeId);

/// A definition that a name can be bound to in a scope.
#[derive(Clone, Copy, PartialEq, Eq, Structural, Hash, Debug)]
pub enum Def {
    Arch(ArchRef),
    Cfg(CfgRef),
    Ctx(CtxRef),
    Entity(EntityRef),
    Lib(LibRef),
    Pkg(PkgDeclRef),
    PkgInst(PkgInstRef),
}

/// A node that introduces a scope of definitions.
#[derive(Clone, Copy, PartialEq, Eq, Structural, Hash, Debug)]
pub enum ScopeRef {
    Lib(LibRef),
}

} // verus!
