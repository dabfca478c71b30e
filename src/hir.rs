//! The high-level representation of a library.

use vstd::prelude::*;
use crate::refs::{
    ArchRef, CfgRef, CtxRef, DeclInPkgRef, EntityRef, ExprRef, GenericRef, IntfSignalRef, LibRef, PkgBodyRef, PkgDeclRef,
    PkgInstRef, ScopeRef, SubtypeIndRef, TypeMarkRef,
};
use crate::syntax::Span;

verus! {

/// The design units of a library, grouped by kind. Each sequence keeps the
/// order in which the units appear in the source.
#[derive(Debug)]
pub struct Lib {
    pub entities: Vec<EntityRef>,
    pub cfgs: Vec<CfgRef>,
    pub pkg_decls: Vec<PkgDeclRef>,
    pub pkg_insts: Vec<PkgInstRef>,
    pub ctxs: Vec<CtxRef>,
    pub archs: Vec<ArchRef>,
    pub pkg_bodies: Vec<PkgBodyRef>,
}

impl Lib {
    /// Whether every sequence is empty.
    pub open spec fn is_empty(self) -> bool {
        &&& self.entities@.len() == 0
        &&& self.cfgs@.len() == 0
        &&& self.pkg_decls@.len() == 0
        &&& self.pkg_insts@.len() == 0
        &&& self.ctxs@.len() == 0
        &&& self.archs@.len() == 0
        &&& self.pkg_bodies@.len() == 0
    }

    pub fn new() -> (r: Lib)
        ensures
            r.is_empty(),
    {
        Lib {
            entities: Vec::new(),
            cfgs: Vec::new(),
            pkg_decls: Vec::new(),
            pkg_insts: Vec::new(),
            ctxs: Vec::new(),
            archs: Vec::new(),
            pkg_bodies: Vec::new(),
        }
    }
}


/// An entity declaration.
#[derive(Debug)]
pub struct Entity {
    /// The parent scope.
    pub parent: ScopeRef,
    /// The library in which the entity is defined.
    pub lib: LibRef,
    /// The entity name, and where it stands.
    pub name: String,
    pub name_span: Span,
    /// The generics that the entity declares.
    pub generics: Vec<GenericRef>,
    /// The ports that the entity declares.
    pub ports: Vec<IntfSignalRef>,
}

/// A signal in the interface of an entity.
#[derive(Debug)]
pub struct IntfSignal {
    pub name: String,
    pub name_span: Span,
    pub mode: IntfSignalMode,
    pub ty: SubtypeIndRef,
    /// Whether the signal was declared with the `bus` keyword.
    pub bus: bool,
    /// The expression giving the signal's initial value.
    pub init: Option<ExprRef>,
}

#[derive(Clone, Copy, PartialEq, Eq, Structural, Debug)]
pub enum IntfSignalMode {
    In,
    Out,
    Inout,
    Buffer,
    Linkage,
}

/// A subtype indication.
#[derive(Clone, Copy, PartialEq, Eq, Structural, Debug)]
pub struct SubtypeInd {
    pub span: Span,
    pub type_mark: TypeMarkRef,
    pub type_mark_span: Span,
}

/// A package declaration.
#[derive(Debug)]
pub struct Package {
    pub parent: ScopeRef,
    pub name: String,
    pub name_span: Span,
    pub generics: Vec<GenericRef>,
    /// The declarations in the package.
    pub decls: Vec<DeclInPkgRef>,
}

/// A type declaration.
#[derive(Debug)]
pub struct TypeDecl {
    pub parent: ScopeRef,
    pub name: String,
    pub name_span: Span,
    pub data: Option<TypeData>,
}

/// The direction of a range.
#[derive(Clone, Copy, PartialEq, Eq, Structural, Debug)]
pub enum Dir {
    To,
    Downto,
}

#[derive(Clone, Copy, PartialEq, Eq, Structural, Debug)]
pub enum TypeData {
    /// An integer or physical type given by a range.
    Range(Span, Dir, ExprRef, ExprRef),
}

/// An expression.
#[derive(Clone, Copy, PartialEq, Eq, Structural, Debug)]
pub struct Expr {
    pub parent: ScopeRef,
    /// The source range that the expression covers.
    pub span: Span,
    pub data: ExprData,
}

#[derive(Clone, Copy, PartialEq, Eq, Structural, Debug)]
pub enum ExprData {
    IntegerLiteral(i128),
    Unary(UnaryOp, ExprRef),
    Binary(BinaryOp, ExprRef, ExprRef),
}

#[derive(Clone, Copy, PartialEq, Eq, Structural, Debug)]
pub enum LogicalOp {
    And,
    Or,
    Nand,
    Nor,
    Xor,
    Xnor,
}

#[derive(Clone, Copy, PartialEq, Eq, Structural, Debug)]
pub enum UnaryOp {
    Not,
    Abs,
    Pos,
    Neg,
    Logical(LogicalOp),
}

#[derive(Clone, Copy, PartialEq, Eq, Structural, Debug)]
pub enum BinaryOp {
    Logical(LogicalOp),
    Eq,
    Neq,
    Lt,
    Leq,
    Gt,
    Geq,
    Add,
    Sub,
    Concat,
    Mul,
    Div,
    Mod,
    Rem,
    Pow,
}

/// The stores of the high-level nodes of a session. Nodes are only ever
/// appended.
#[derive(Debug)]
pub struct Arenas {
    pub lib: Vec<Lib>,
    pub entity: Vec<Entity>,
    pub intf_sig: Vec<IntfSignal>,
    pub subtype_ind: Vec<SubtypeInd>,
    pub package: Vec<Package>,
    pub type_decl: Vec<TypeDecl>,
    pub expr: Vec<Expr>,
}

impl Arenas {
    pub fn new() -> (r: Arenas)
        ensures
            r.lib@.len() == 0,
            r.entity@.len() == 0,
            r.intf_sig@.len() == 0,
            r.subtype_ind@.len() == 0,
            r.package@.len() == 0,
            r.type_decl@.len() == 0,
            r.expr@.len() == 0,
    {
        Arenas {
            lib: Vec::new(),
            entity: Vec::new(),
            intf_sig: Vec::new(),
            subtype_ind: Vec::new(),
            package: Vec::new(),
            type_decl: Vec::new(),
            expr: Vec::new(),
        }
    }
}

} // verus!
