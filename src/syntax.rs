//! The parsed design units that the scoreboard consumes. Parsing itself
//! happens elsewhere; these types hold what the lowering reads.

use vstd::prelude::*;

verus! {

/// A range of bytes in a source file.
#[derive(Clone, Copy, PartialEq, Eq, Structural, Hash, Debug)]
pub struct Span {
    pub begin: usize,
    pub end: usize,
}

/// A context item (a library or use clause) preceding a design unit.
#[derive(Clone, Copy, PartialEq, Eq, Structural, Hash, Debug)]
pub struct CtxItem {
    pub span: Span,
}

/// The name of the entity that an architecture body is declared for.
#[derive(Clone, Debug)]
pub struct ArchTarget {
    /// Where the name stands in the source.
    pub span: Span,
    /// The name as written.
    pub text: String,
    /// The identifier, where the name is a plain identifier without any
    /// selected, indexed or attribute suffix.
    pub ident: Option<String>,
}

/// The kind of a design unit, with what is specific to it.
#[derive(Clone, Debug)]
pub enum UnitData {
    EntityDecl,
    CfgDecl,
    PkgDecl,
    PkgInst,
    CtxDecl,
    ArchBody(ArchTarget),
    PkgBody,
}

/// A design unit: the context items before it, its name and its kind.
#[derive(Clone, Debug)]
pub struct DesignUnit {
    pub ctx: Vec<CtxItem>,
    pub name: String,
    pub name_span: Span,
    pub data: UnitData,
}

} // verus!
