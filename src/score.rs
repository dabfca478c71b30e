//! The scoreboard: a demand-driven cache over node references that lowers
//! libraries, builds their scopes, binds their architectures and synthesizes
//! low-level entities, computing each result at most once.

use vstd::prelude::*;
use vstd::string::*;
use crate::arch::{
    bind_archs, bound_pairs, is_arch_table, is_binding_report, lemma_all_bound, lemma_bound_pair_origin, resolve, unbound,
    ArchDecl, ArchTable,
};
use crate::diag::{Diag, Session};
use crate::hir::Lib;
use crate::id::{lemma_raw_injective, NodeId, NodeIdGen};
use crate::llmod::{add_entity, module_units, new_module};
use crate::refs::{ArchRef, CfgRef, CtxRef, Def, EntityRef, LibRef, PkgBodyRef, PkgDeclRef, PkgInstRef, ScopeRef};
use crate::scope::{
    build_scope, collisions, lemma_lookup_found, lemma_lookup_last, lemma_one_report_per_collision, lemma_two_make_collision, lookup,
    reports_collisions, spans_named, Scope, ScopeEntry,
};
use crate::syntax::{ArchTarget, DesignUnit, Span, UnitData};
use crate::table::MemoTable;
use llhd::ir::Module;

verus! {

/// A library as handed to the scoreboard: its reference and its design units.
#[derive(Debug)]
pub struct LibSource {
    pub id: LibRef,
    pub units: Vec<DesignUnit>,
}

/// What the scoreboard knows of a node identifier it handed out.
#[derive(Clone, Copy, PartialEq, Eq, Structural, Debug)]
pub enum NodeRecord {
    /// A library, at position `pos` among the added libraries.
    Lib { pos: usize },
    /// A design unit of library `lib` (at position `pos` among the added
    /// libraries): the unit at index `unit` of its sources.
    Unit { lib: LibRef, pos: usize, unit: usize },
}

/// The stores that own the nodes the scoreboard computes. Nodes are only
/// ever appended; a node's index stays valid for the whole session.
#[derive(Debug)]
pub struct Arenas {
    pub hir: crate::hir::Arenas,
    pub scopes: Vec<Scope>,
    pub archs: Vec<ArchTable>,
}

impl Arenas {
    pub fn new() -> (r: Arenas)
        ensures
            r.hir.lib@.len() == 0,
            r.scopes@.len() == 0,
            r.archs@.len() == 0,
    {
        Arenas { hir: crate::hir::Arenas::new(), scopes: Vec::new(), archs: Vec::new() }
    }
}

/// How many times each kind of result has been computed.
#[derive(Clone, Copy, PartialEq, Eq, Structural, Debug)]
pub struct MakeCounts {
    pub hir: u64,
    pub defs: u64,
    pub archs: u64,
    pub lldef: u64,
}

/// A count raised by one, saturating at the maximum.
pub open spec fn bump(c: u64) -> u64 {
    if c < u64::MAX {
        (c + 1) as u64
    } else {
        c
    }
}

fn bumped(c: u64) -> (r: u64)
    ensures
        r == bump(c),
{
    if c < u64::MAX {
        c + 1
    } else {
        c
    }
}

/// The prototype of a node in the low-level module: a unit index.
#[derive(Clone, Copy, PartialEq, Eq, Structural, Debug)]
pub struct DeclValueRef(pub usize);

/// The definition of a node in the low-level module: a unit index.
#[derive(Clone, Copy, PartialEq, Eq, Structural, Debug)]
pub struct DefValueRef(pub usize);

/// The kind of a design unit as a number, in the order of the sequences of
/// [`Lib`].
pub open spec fn kind_code(d: UnitData) -> int {
    match d {
        UnitData::EntityDecl => 0,
        UnitData::CfgDecl => 1,
        UnitData::PkgDecl => 2,
        UnitData::PkgInst => 3,
        UnitData::CtxDecl => 4,
        UnitData::ArchBody(_) => 5,
        UnitData::PkgBody => 6,
    }
}

fn unit_kind(d: &UnitData) -> (r: u8)
    ensures
        r == kind_code(*d),
{
    match d {
        UnitData::EntityDecl => 0,
        UnitData::CfgDecl => 1,
        UnitData::PkgDecl => 2,
        UnitData::PkgInst => 3,
        UnitData::CtxDecl => 4,
        UnitData::ArchBody(_) => 5,
        UnitData::PkgBody => 6,
    }
}

/// The indices of the units of kind `k`, in order.
pub open spec fn positions(units: Seq<DesignUnit>, k: int) -> Seq<int>
    decreases units.len(),
{
    if units.len() == 0 {
        Seq::empty()
    } else {
        positions(units.drop_last(), k) + if kind_code(units.last().data) == k {
            seq![units.len() - 1]
        } else {
            Seq::empty()
        }
    }
}

/// The identifiers in the sequence of `l` for units of kind `k`.
pub open spec fn lib_ids(l: Lib, k: int) -> Seq<NodeId> {
    if k == 0 {
        l.entities@.map_values(|r: EntityRef| r.0)
    } else if k == 1 {
        l.cfgs@.map_values(|r: CfgRef| r.0)
    } else if k == 2 {
        l.pkg_decls@.map_values(|r: PkgDeclRef| r.0)
    } else if k == 3 {
        l.pkg_insts@.map_values(|r: PkgInstRef| r.0)
    } else if k == 4 {
        l.ctxs@.map_values(|r: CtxRef| r.0)
    } else if k == 5 {
        l.archs@.map_values(|r: ArchRef| r.0)
    } else {
        l.pkg_bodies@.map_values(|r: PkgBodyRef| r.0)
    }
}

/// Whether each reference in `l` has the raw value `base` plus the index of
/// its unit among `units`: the references are fresh from `base` on, and
/// increase in the order of the units.
pub open spec fn numbered_from(l: Lib, units: Seq<DesignUnit>, base: nat) -> bool {
    forall|k: int, i: int|
        0 <= k < 7 && 0 <= i < lib_ids(l, k).len() ==> #[trigger] lib_ids(l, k)[i].raw() == base + positions(units, k)[i]
}

/// The indices of the units of kind `k` lie among the units.
pub proof fn lemma_positions_bound(units: Seq<DesignUnit>, k: int)
    ensures
        forall|i: int| 0 <= i < positions(units, k).len() ==> 0 <= #[trigger] positions(units, k)[i] < units.len(),
    decreases units.len(),
{
    if units.len() > 0 {
        lemma_positions_bound(units.drop_last(), k);
        let p0 = positions(units.drop_last(), k);
        assert forall|i: int| 0 <= i < positions(units, k).len() implies 0 <= #[trigger] positions(units, k)[i] < units.len() by {
            if i < p0.len() {
                assert(positions(units, k)[i] == p0[i]);
            }
        }
    }
}

/// Appends the reference `n`, of a unit of kind `k`, to its sequence.
fn push_ref(l: &mut Lib, k: u8, n: NodeId)
    requires
        k < 7,
    ensures
        forall|q: int| 0 <= q < 7 ==> #[trigger] lib_ids(*final(l), q) == if q == k {
            lib_ids(*old(l), q).push(n)
        } else {
            lib_ids(*old(l), q)
        },
{
    if k == 0 {
        l.entities.push(EntityRef(n));
    } else if k == 1 {
        l.cfgs.push(CfgRef(n));
    } else if k == 2 {
        l.pkg_decls.push(PkgDeclRef(n));
    } else if k == 3 {
        l.pkg_insts.push(PkgInstRef(n));
    } else if k == 4 {
        l.ctxs.push(CtxRef(n));
    } else if k == 5 {
        l.archs.push(ArchRef(n));
    } else {
        l.pkg_bodies.push(PkgBodyRef(n));
    }
    proof {
        assert forall|q: int| 0 <= q < 7 implies #[trigger] lib_ids(*l, q) == if q == k {
            lib_ids(*old(l), q).push(n)
        } else {
            lib_ids(*old(l), q)
        } by {
            assert(lib_ids(*l, q) =~= if q == k {
                lib_ids(*old(l), q).push(n)
            } else {
                lib_ids(*old(l), q)
            });
        }
    }
}

/// The identifier that a definition refers to.
pub open spec fn def_id(d: Def) -> NodeId {
    match d {
        Def::Arch(r) => r.0,
        Def::Cfg(r) => r.0,
        Def::Ctx(r) => r.0,
        Def::Entity(r) => r.0,
        Def::Lib(r) => r.0,
        Def::Pkg(r) => r.0,
        Def::PkgInst(r) => r.0,
    }
}

fn def_node(d: Def) -> (r: NodeId)
    ensures
        r == def_id(d),
{
    match d {
        Def::Arch(r) => r.0,
        Def::Cfg(r) => r.0,
        Def::Ctx(r) => r.0,
        Def::Entity(r) => r.0,
        Def::Lib(r) => r.0,
        Def::Pkg(r) => r.0,
        Def::PkgInst(r) => r.0,
    }
}

/// The definitions that library `l` introduces at its scope, in order:
/// entities, configurations, package declarations, package instantiations
/// and contexts. Architectures and package bodies extend a primary unit and
/// introduce no name.
pub open spec fn lib_defs(l: Lib) -> Seq<Def> {
    l.entities@.map_values(|r: EntityRef| Def::Entity(r)) + l.cfgs@.map_values(|r: CfgRef| Def::Cfg(r))
        + l.pkg_decls@.map_values(|r: PkgDeclRef| Def::Pkg(r)) + l.pkg_insts@.map_values(|r: PkgInstRef| Def::PkgInst(r))
        + l.ctxs@.map_values(|r: CtxRef| Def::Ctx(r))
}

/// Whether `d` refers to one of the primary units of `l`.
pub open spec fn is_def_of(l: Lib, d: Def) -> bool {
    match d {
        Def::Entity(r) => l.entities@.contains(r),
        Def::Cfg(r) => l.cfgs@.contains(r),
        Def::Pkg(r) => l.pkg_decls@.contains(r),
        Def::PkgInst(r) => l.pkg_insts@.contains(r),
        Def::Ctx(r) => l.ctxs@.contains(r),
        _ => false,
    }
}

/// The definitions that library `l` introduces at its scope.
fn lib_def_list(l: &Lib) -> (r: Vec<Def>)
    ensures
        r@ == lib_defs(*l),
        forall|i: int| 0 <= i < r@.len() ==> is_def_of(*l, #[trigger] r@[i]),
{
    let mut r: Vec<Def> = Vec::new();
    let ghost a = Seq::<Def>::empty();
    let ghost b = l.entities@.map_values(|r: EntityRef| Def::Entity(r));
    let mut i: usize = 0;
    while i < l.entities.len()
        invariant
            0 <= i <= l.entities@.len(),
            b == l.entities@.map_values(|r: EntityRef| Def::Entity(r)),
            r@ == a + b.take(i as int),
            forall|q: int| 0 <= q < r@.len() ==> is_def_of(*l, #[trigger] r@[q]),
        decreases l.entities@.len() - i,
    {
        r.push(Def::Entity(l.entities[i]));
        proof {
            assert(r@ =~= a + b.take(i + 1));
            assert(l.entities@[i as int] == l.entities@[i as int]);
            assert(l.entities@.contains(l.entities@[i as int]));
        }
        i = i + 1;
    }
    let ghost a = a + b;
    assert(r@ =~= a) by {
        assert(b.take(b.len() as int) =~= b);
    }
    let ghost b = l.cfgs@.map_values(|r: CfgRef| Def::Cfg(r));
    let mut i: usize = 0;
    while i < l.cfgs.len()
        invariant
            0 <= i <= l.cfgs@.len(),
            b == l.cfgs@.map_values(|r: CfgRef| Def::Cfg(r)),
            r@ == a + b.take(i as int),
            forall|q: int| 0 <= q < r@.len() ==> is_def_of(*l, #[trigger] r@[q]),
        decreases l.cfgs@.len() - i,
    {
        r.push(Def::Cfg(l.cfgs[i]));
        proof {
            assert(r@ =~= a + b.take(i + 1));
            assert(l.cfgs@.contains(l.cfgs@[i as int]));
        }
        i = i + 1;
    }
    let ghost a = a + b;
    assert(r@ =~= a) by {
        assert(b.take(b.len() as int) =~= b);
    }
    let ghost b = l.pkg_decls@.map_values(|r: PkgDeclRef| Def::Pkg(r));
    let mut i: usize = 0;
    while i < l.pkg_decls.len()
        invariant
            0 <= i <= l.pkg_decls@.len(),
            b == l.pkg_decls@.map_values(|r: PkgDeclRef| Def::Pkg(r)),
            r@ == a + b.take(i as int),
            forall|q: int| 0 <= q < r@.len() ==> is_def_of(*l, #[trigger] r@[q]),
        decreases l.pkg_decls@.len() - i,
    {
        r.push(Def::Pkg(l.pkg_decls[i]));
        proof {
            assert(r@ =~= a + b.take(i + 1));
            assert(l.pkg_decls@.contains(l.pkg_decls@[i as int]));
        }
        i = i + 1;
    }
    let ghost a = a + b;
    assert(r@ =~= a) by {
        assert(b.take(b.len() as int) =~= b);
    }
    let ghost b = l.pkg_insts@.map_values(|r: PkgInstRef| Def::PkgInst(r));
    let mut i: usize = 0;
    while i < l.pkg_insts.len()
        invariant
            0 <= i <= l.pkg_insts@.len(),
            b == l.pkg_insts@.map_values(|r: PkgInstRef| Def::PkgInst(r)),
            r@ == a + b.take(i as int),
            forall|q: int| 0 <= q < r@.len() ==> is_def_of(*l, #[trigger] r@[q]),
        decreases l.pkg_insts@.len() - i,
    {
        r.push(Def::PkgInst(l.pkg_insts[i]));
        proof {
            assert(r@ =~= a + b.take(i + 1));
            assert(l.pkg_insts@.contains(l.pkg_insts@[i as int]));
        }
        i = i + 1;
    }
    let ghost a = a + b;
    assert(r@ =~= a) by {
        assert(b.take(b.len() as int) =~= b);
    }
    let ghost b = l.ctxs@.map_values(|r: CtxRef| Def::Ctx(r));
    let mut i: usize = 0;
    while i < l.ctxs.len()
        invariant
            0 <= i <= l.ctxs@.len(),
            b == l.ctxs@.map_values(|r: CtxRef| Def::Ctx(r)),
            r@ == a + b.take(i as int),
            forall|q: int| 0 <= q < r@.len() ==> is_def_of(*l, #[trigger] r@[q]),
        decreases l.ctxs@.len() - i,
    {
        r.push(Def::Ctx(l.ctxs[i]));
        proof {
            assert(r@ =~= a + b.take(i + 1));
            assert(l.ctxs@.contains(l.ctxs@[i as int]));
        }
        i = i + 1;
    }
    assert(r@ =~= lib_defs(*l)) by {
        assert(b.take(b.len() as int) =~= b);
    }
    r
}

/// Lowered libraries stay linked while identifiers are added and libraries
/// stay as they are.
proof fn lemma_linked_grows(a: Scoreboard, b: Scoreboard, l: Lib)
    requires
        a.is_linked(l),
        b.libs@.len() >= a.libs@.len(),
        forall|p: int| 0 <= p < a.libs@.len() ==> b.libs@[p] == #[trigger] a.libs@[p],
        b.records@.len() >= a.records@.len(),
        forall|k: int| 0 <= k < a.records@.len() && (#[trigger] a.records@[k]) is Some ==> b.records@[k] == a.records@[k],
    ensures
        b.is_linked(l),
        forall|n: NodeId| #[trigger] a.record(n) is Some ==> b.record(n) == a.record(n),
        forall|n: NodeId, k: int| #[trigger] a.is_unit_of_kind(n, k) ==> b.is_unit_of_kind(n, k) && b.unit(n) == a.unit(n),
{
    assert forall|n: NodeId| #[trigger] a.record(n) is Some implies b.record(n) == a.record(n) by {}
    assert forall|n: NodeId, k: int| #[trigger] a.is_unit_of_kind(n, k) implies b.is_unit_of_kind(n, k) && b.unit(n) == a.unit(n) by {
        assert(a.record(n) is Some);
    }
    assert forall|k: int, i: int| 0 <= k < 7 && 0 <= i < lib_ids(l, k).len() implies #[trigger] b.is_unit_of_kind(
        lib_ids(l, k)[i],
        k,
    ) by {
        assert(a.is_unit_of_kind(lib_ids(l, k)[i], k));
    }
}

/// Whether `b` keeps every cache entry and node of `a`.
pub open spec fn caches_grow(a: Scoreboard, b: Scoreboard) -> bool {
    &&& nodes_grow(a, b)
    &&& b.sess.opts == a.sess.opts
    &&& b.arenas.hir.lib@.len() >= a.arenas.hir.lib@.len()
    &&& forall|h: int| 0 <= h < a.arenas.hir.lib@.len() ==> b.arenas.hir.lib@[h] == #[trigger] a.arenas.hir.lib@[h]
    &&& b.arenas.scopes@.len() >= a.arenas.scopes@.len()
    &&& forall|h: int| 0 <= h < a.arenas.scopes@.len() ==> b.arenas.scopes@[h] == #[trigger] a.arenas.scopes@[h]
    &&& b.arenas.archs@.len() >= a.arenas.archs@.len()
    &&& forall|h: int| 0 <= h < a.arenas.archs@.len() ==> b.arenas.archs@[h] == #[trigger] a.arenas.archs@[h]
    &&& keeps(a.hir_table@, b.hir_table@)
    &&& keeps(a.def_table@, b.def_table@)
    &&& keeps(a.arch_table@, b.arch_table@)
}

/// Growth is transitive.
proof fn lemma_grows_trans(a: Scoreboard, b: Scoreboard, c: Scoreboard)
    requires
        a.grows_to(b),
        b.grows_to(c),
    ensures
        a.grows_to(c),
{
    assert(a.sess.emitted().is_prefix_of(c.sess.emitted())) by {
        assert(b.sess.emitted().is_prefix_of(c.sess.emitted()));
        assert forall|i: int| 0 <= i < a.sess.emitted().len() implies a.sess.emitted()[i] == c.sess.emitted()[i] by {
            assert(a.sess.emitted()[i] == b.sess.emitted()[i]);
        }
    }
    assert forall|k: NodeId| a.hir_table@.dom().contains(k) implies #[trigger] c.hir_table@.dom().contains(k)
        && a.hir_table@[k] == c.hir_table@[k] by {
        assert(keeps(a.hir_table@, b.hir_table@));
        assert(a.hir_table@.dom().contains(k) ==> b.hir_table@.dom().contains(k) && a.hir_table@[k] == b.hir_table@[k]);
        assert(b.hir_table@.dom().contains(k) ==> c.hir_table@.dom().contains(k) && b.hir_table@[k] == c.hir_table@[k]);
    }
    assert forall|k: NodeId| a.def_table@.dom().contains(k) implies #[trigger] c.def_table@.dom().contains(k)
        && a.def_table@[k] == c.def_table@[k] by {
        assert(keeps(a.def_table@, b.def_table@));
        assert(a.def_table@.dom().contains(k) ==> b.def_table@.dom().contains(k) && a.def_table@[k] == b.def_table@[k]);
        assert(b.def_table@.dom().contains(k) ==> c.def_table@.dom().contains(k) && b.def_table@[k] == c.def_table@[k]);
    }
    assert forall|k: NodeId| a.arch_table@.dom().contains(k) implies #[trigger] c.arch_table@.dom().contains(k)
        && a.arch_table@[k] == c.arch_table@[k] by {
        assert(keeps(a.arch_table@, b.arch_table@));
        assert(a.arch_table@.dom().contains(k) ==> b.arch_table@.dom().contains(k) && a.arch_table@[k] == b.arch_table@[k]);
        assert(b.arch_table@.dom().contains(k) ==> c.arch_table@.dom().contains(k) && b.arch_table@[k] == c.arch_table@[k]);
    }
    assert forall|k: NodeId| a.lldef_table@.dom().contains(k) implies #[trigger] c.lldef_table@.dom().contains(k)
        && a.lldef_table@[k] == c.lldef_table@[k] by {
        assert(keeps(a.lldef_table@, b.lldef_table@));
        assert(a.lldef_table@.dom().contains(k) ==> b.lldef_table@.dom().contains(k) && a.lldef_table@[k] == b.lldef_table@[k]);
        assert(b.lldef_table@.dom().contains(k) ==> c.lldef_table@.dom().contains(k) && b.lldef_table@[k] == c.lldef_table@[k]);
    }
    assert forall|k: int| 0 <= k < a.records@.len() implies c.records@[k] == #[trigger] a.records@[k] by {
        assert(b.records@[k] == a.records@[k]);
    }
    assert forall|k: int| 0 <= k < a.arenas.hir.lib@.len() implies c.arenas.hir.lib@[k] == #[trigger] a.arenas.hir.lib@[k] by {
        assert(b.arenas.hir.lib@[k] == a.arenas.hir.lib@[k]);
    }
    assert forall|k: int| 0 <= k < a.arenas.scopes@.len() implies c.arenas.scopes@[k] == #[trigger] a.arenas.scopes@[k] by {
        assert(b.arenas.scopes@[k] == a.arenas.scopes@[k]);
    }
    assert forall|k: int| 0 <= k < a.arenas.archs@.len() implies c.arenas.archs@[k] == #[trigger] a.arenas.archs@[k] by {
        assert(b.arenas.archs@[k] == a.arenas.archs@[k]);
    }
}

/// A cached lowering of `a` stays valid in `b`.
proof fn lemma_hir_kept(a: Scoreboard, b: Scoreboard, n: NodeId)
    requires
        a.wf(),
        caches_grow(a, b),
        a.hir_table@.contains_key(n),
    ensures
        b.hir_table@.contains_key(n),
        b.has_lib(LibRef(n)),
        b.hir_of(LibRef(n)) == a.hir_of(LibRef(n)),
        b.is_lowering(LibRef(n), b.arenas.hir.lib@[b.hir_table@[n] as int]),
{
    lemma_nodes_grow(a, b);
    assert(a.hir_table@.dom().contains(n));
    assert(b.hir_table@.dom().contains(n));
    assert(b.hir_table@[n] == a.hir_table@[n]);
    assert(a.has_lib(LibRef(n)));
}

/// A cached scope of `a` stays valid in `b`.
proof fn lemma_defs_kept(a: Scoreboard, b: Scoreboard, n: NodeId)
    requires
        a.wf(),
        caches_grow(a, b),
        a.def_table@.contains_key(n),
    ensures
        b.def_table@.contains_key(n),
        b.def_table@[n] == a.def_table@[n],
        b.scope_entries_of(LibRef(n)) == a.scope_entries_of(LibRef(n)),
        b.is_scope_of(LibRef(n), b.arenas.scopes@[b.def_table@[n] as int]),
{
    assert(a.def_table@.dom().contains(n));
    assert(b.def_table@.dom().contains(n));
    assert(b.def_table@[n] == a.def_table@[n]);
    let sc = a.arenas.scopes@[a.def_table@[n] as int];
    assert(a.is_scope_of(LibRef(n), sc));
    lemma_hir_kept(a, b, n);
    lemma_linked_grows(a, b, a.arenas.hir.lib@[0]);
    let defs = lib_defs(a.hir_of(LibRef(n)));
    assert forall|i: int| 0 <= i < sc.entries@.len() implies {
        &&& b.record(def_id(defs[i])) matches Some(NodeRecord::Unit { .. })
        &&& (#[trigger] sc.entries@[i]).def == defs[i]
        &&& sc.entries@[i].name@ == b.unit(def_id(defs[i])).name@
        &&& sc.entries@[i].span == b.unit(def_id(defs[i])).name_span
    } by {
        assert(a.record(def_id(defs[i])) is Some);
    }
}

/// A cached architecture table of `a` stays valid in `b`.
proof fn lemma_archs_kept(a: Scoreboard, b: Scoreboard, n: NodeId)
    requires
        a.wf(),
        caches_grow(a, b),
        a.arch_table@.contains_key(n),
    ensures
        b.arch_table@.contains_key(n),
        b.is_archs_of(LibRef(n), b.arenas.archs@[b.arch_table@[n] as int]),
{
    assert(a.arch_table@.dom().contains(n));
    assert(b.arch_table@.dom().contains(n));
    assert(b.arch_table@[n] == a.arch_table@[n]);
    assert(a.is_archs_of(LibRef(n), a.arenas.archs@[a.arch_table@[n] as int]));
    lemma_hir_kept(a, b, n);
    lemma_defs_kept(a, b, n);
    let l = a.hir_of(LibRef(n));
    assert forall|i: int| 0 <= i < l.archs@.len() implies b.is_unit_of_kind((#[trigger] l.archs@[i]).0, 5)
        && b.arch_decl(l.archs@[i]) == a.arch_decl(l.archs@[i]) by {
        assert(a.is_unit_of_kind(l.archs@[i].0, 5));
        assert(a.record(l.archs@[i].0) is Some);
    }
    assert(b.arch_decls(l.archs@) =~= a.arch_decls(l.archs@));
}

/// The cache entries of `a` stay valid in `b`.
proof fn lemma_entries_kept(a: Scoreboard, b: Scoreboard)
    requires
        a.wf(),
        caches_grow(a, b),
    ensures
        forall|n: NodeId| #[trigger] a.hir_table@.contains_key(n) ==> b.has_lib(LibRef(n))
            && b.is_lowering(LibRef(n), b.arenas.hir.lib@[b.hir_table@[n] as int]),
        forall|n: NodeId| #[trigger] a.def_table@.contains_key(n) ==> b.is_scope_of(
            LibRef(n),
            b.arenas.scopes@[b.def_table@[n] as int],
        ),
        forall|n: NodeId| #[trigger] a.arch_table@.contains_key(n) ==> b.is_archs_of(
            LibRef(n),
            b.arenas.archs@[b.arch_table@[n] as int],
        ),
        forall|n: NodeId| #[trigger] a.lldef_table@.contains_key(n) ==> b.lldef_entry_ok(n),
{
    assert forall|n: NodeId| #[trigger] a.lldef_table@.contains_key(n) implies b.lldef_entry_ok(n) by {
        assert(a.lldef_entry_ok(n));
        assert(a.record(n) is Some);
        assert(b.record(n) == a.record(n));
        assert(a.arch_table@.contains_key(a.owner(n).0));
    }
    assert forall|n: NodeId| #[trigger] a.hir_table@.contains_key(n) implies b.has_lib(LibRef(n))
        && b.is_lowering(LibRef(n), b.arenas.hir.lib@[b.hir_table@[n] as int]) by {
        lemma_hir_kept(a, b, n);
    }
    assert forall|n: NodeId| #[trigger] a.def_table@.contains_key(n) implies b.is_scope_of(
        LibRef(n),
        b.arenas.scopes@[b.def_table@[n] as int],
    ) by {
        lemma_defs_kept(a, b, n);
    }
    assert forall|n: NodeId| #[trigger] a.arch_table@.contains_key(n) implies b.is_archs_of(
        LibRef(n),
        b.arenas.archs@[b.arch_table@[n] as int],
    ) by {
        lemma_archs_kept(a, b, n);
    }
}

/// What the caches hold stays valid as identifiers are added.
proof fn lemma_caches_grow(a: Scoreboard, b: Scoreboard)
    requires
        a.wf(),
        nodes_grow(a, b),
        b.arenas == a.arenas,
        b.sess.opts == a.sess.opts,
        b.hir_table == a.hir_table,
        b.def_table == a.def_table,
        b.arch_table == a.arch_table,
        forall|n: NodeId| #[trigger] b.lldef_table@.contains_key(n) ==> a.lldef_table@.contains_key(n) || b.lldef_entry_ok(n),
    ensures
        b.caches_ok(),
{
    lemma_entries_kept(a, b);
}

/// The well-formedness of a scoreboard depends on its identifiers, libraries,
/// nodes and caches alone.
proof fn lemma_wf_frame(a: Scoreboard, b: Scoreboard)
    requires
        a.wf(),
        b.ids == a.ids,
        b.libs@ == a.libs@,
        b.records@ == a.records@,
        b.arenas == a.arenas,
        b.hir_table == a.hir_table,
        b.def_table == a.def_table,
        b.arch_table == a.arch_table,
        forall|n: NodeId| #[trigger] b.lldef_table@.contains_key(n) ==> a.lldef_table@.contains_key(n) || b.lldef_entry_ok(n),
        b.sess.opts == a.sess.opts,
    ensures
        b.wf(),
{
    lemma_caches_grow(a, b);
    assert forall|h: int| 0 <= h < b.arenas.hir.lib@.len() implies b.is_linked(#[trigger] b.arenas.hir.lib@[h]) by {
        lemma_linked_grows(a, b, a.arenas.hir.lib@[h]);
    }
    assert forall|p: int| 0 <= p < b.libs@.len() implies b.record(#[trigger] b.libs@[p].id.0) == Some(
        NodeRecord::Lib { pos: p as usize },
    ) by {
        assert(a.record(a.libs@[p].id.0) == Some(NodeRecord::Lib { pos: p as usize }));
    }
}

/// The scoreboard of one compilation session. It owns the session's nodes,
/// its caches and the low-level module it emits into.
pub struct Scoreboard {
    /// The session: its options and the diagnostics emitted so far.
    pub sess: Session,
    /// The stores of the computed nodes.
    pub arenas: Arenas,
    /// The low-level module into which entities are synthesized.
    pub llmod: Module,
    /// How many times each kind of result has been computed.
    pub counts: MakeCounts,
    /// The source of fresh node identifiers.
    pub ids: NodeIdGen,
    /// The libraries added, in order.
    pub libs: Vec<LibSource>,
    /// What each identifier handed out stands for, indexed by its raw value.
    pub records: Vec<Option<NodeRecord>>,
    /// Library to the index of its lowered form in `arenas.hir.lib`.
    pub hir_table: MemoTable,
    /// Scope to the index of its definitions in `arenas.scopes`.
    pub def_table: MemoTable,
    /// Library to the index of its architecture table in `arenas.archs`.
    pub arch_table: MemoTable,
    /// Node to its prototype in the low-level module.
    pub lldecl_table: MemoTable,
    /// Node to its definition in the low-level module.
    pub lldef_table: MemoTable,
}

impl Scoreboard {
    /// What identifier `n` stands for, if the scoreboard handed it out.
    pub open spec fn record(self, n: NodeId) -> Option<NodeRecord> {
        if n.raw() < self.records@.len() {
            self.records@[n.raw() as int]
        } else {
            None
        }
    }

    /// Whether `n` names a design unit of kind `k`.
    pub open spec fn is_unit_of_kind(self, n: NodeId, k: int) -> bool {
        match self.record(n) {
            Some(NodeRecord::Unit { pos, unit, .. }) => pos < self.libs@.len() && unit < self.libs@[pos as int].units@.len()
                && kind_code(self.libs@[pos as int].units@[unit as int].data) == k,
            _ => false,
        }
    }

    /// The design unit that `n` names.
    pub open spec fn unit(self, n: NodeId) -> DesignUnit {
        match self.record(n) {
            Some(NodeRecord::Unit { pos, unit, .. }) => self.libs@[pos as int].units@[unit as int],
            _ => arbitrary(),
        }
    }

    /// The library that the design unit `n` belongs to.
    pub open spec fn owner(self, n: NodeId) -> LibRef {
        match self.record(n) {
            Some(NodeRecord::Unit { lib, .. }) => lib,
            _ => arbitrary(),
        }
    }

    /// Whether library `id` has been added.
    pub open spec fn has_lib(self, id: LibRef) -> bool {
        self.record(id.0) matches Some(NodeRecord::Lib { .. })
    }

    /// The position of library `id` among the added ones.
    pub open spec fn lib_pos(self, id: LibRef) -> int {
        match self.record(id.0) {
            Some(NodeRecord::Lib { pos }) => pos as int,
            _ => arbitrary(),
        }
    }

    /// The design units of library `id`.
    pub open spec fn lib_units(self, id: LibRef) -> Seq<DesignUnit> {
        self.libs@[self.lib_pos(id)].units@
    }

    /// Whether every reference in `l` names a design unit of its kind.
    pub open spec fn is_linked(self, l: Lib) -> bool {
        forall|k: int, i: int|
            0 <= k < 7 && 0 <= i < lib_ids(l, k).len() ==> #[trigger] self.is_unit_of_kind(lib_ids(l, k)[i], k)
    }

    /// Whether `l` is the lowered form of library `id`: for each kind, its
    /// sequence names the units of that kind, in source order.
    pub open spec fn is_lowering(self, id: LibRef, l: Lib) -> bool {
        forall|k: int|
            0 <= k < 7 ==> {
                &&& #[trigger] lib_ids(l, k).len() == positions(self.lib_units(id), k).len()
                &&& forall|i: int|
                    0 <= i < lib_ids(l, k).len() ==> self.record(#[trigger] lib_ids(l, k)[i]) == Some(
                        NodeRecord::Unit { lib: id, pos: self.lib_pos(id) as usize, unit: positions(self.lib_units(id), k)[i] as usize },
                    )
            }
    }

    /// Whether `entries` lists `defs` in order, each under the name and at
    /// the span of the design unit it refers to.
    pub open spec fn describes(self, entries: Seq<ScopeEntry>, defs: Seq<Def>) -> bool {
        &&& entries.len() == defs.len()
        &&& forall|i: int|
            0 <= i < entries.len() ==> {
                &&& self.record(def_id(defs[i])) matches Some(NodeRecord::Unit { .. })
                &&& (#[trigger] entries[i]).def == defs[i]
                &&& entries[i].name@ == self.unit(def_id(defs[i])).name@
                &&& entries[i].span == self.unit(def_id(defs[i])).name_span
            }
    }

    /// The lowered form of library `id`, where it has been computed.
    pub open spec fn hir_of(self, id: LibRef) -> Lib {
        self.arenas.hir.lib@[self.hir_table@[id.0] as int]
    }

    /// Whether `sc` is the scope of library `id`: its entries are the
    /// library's definitions, and no name collides unless the session
    /// tolerates duplicates.
    pub open spec fn is_scope_of(self, id: LibRef, sc: Scope) -> bool {
        &&& self.hir_table@.contains_key(id.0)
        &&& self.describes(sc.entries@, lib_defs(self.hir_of(id)))
        &&& (self.sess.opts.ignore_duplicate_defs || collisions(sc.entries@).len() == 0)
    }

    /// The invariant of the caches: each entry is a handle into its arena,
    /// to the result computed for its key.
    pub open spec fn caches_ok(self) -> bool {
        &&& forall|n: NodeId| #[trigger] self.hir_table@.contains_key(n) ==> self.hir_table@[n] < self.arenas.hir.lib@.len()
        &&& forall|n: NodeId| #[trigger] self.hir_table@.contains_key(n) ==> self.has_lib(LibRef(n))
            && self.is_lowering(LibRef(n), self.arenas.hir.lib@[self.hir_table@[n] as int])
        &&& forall|n: NodeId| #[trigger] self.def_table@.contains_key(n) ==> self.def_table@[n] < self.arenas.scopes@.len()
            && self.is_scope_of(LibRef(n), self.arenas.scopes@[self.def_table@[n] as int])
        &&& forall|n: NodeId| #[trigger] self.arch_table@.contains_key(n) ==> self.arch_table@[n] < self.arenas.archs@.len()
            && self.is_archs_of(LibRef(n), self.arenas.archs@[self.arch_table@[n] as int])
        &&& forall|n: NodeId| #[trigger] self.lldef_table@.contains_key(n) ==> self.lldef_entry_ok(n)
    }

    /// Whether node `n` may have a definition: it is a design unit whose
    /// library's architecture table is built.
    pub open spec fn lldef_entry_ok(self, n: NodeId) -> bool {
        &&& self.record(n) matches Some(NodeRecord::Unit { .. })
        &&& self.arch_table@.contains_key(self.owner(n).0)
    }

    /// Architecture `a` as the binding reads it, from its design unit.
    pub open spec fn arch_decl(self, a: ArchRef) -> ArchDecl {
        let u = self.unit(a.0);
        ArchDecl {
            arch: a,
            name: u.name,
            target: match u.data {
                UnitData::ArchBody(t) => t,
                _ => arbitrary(),
            },
        }
    }

    /// The architectures of `archs` as the binding reads them.
    pub open spec fn arch_decls(self, archs: Seq<ArchRef>) -> Seq<ArchDecl> {
        archs.map_values(|a: ArchRef| self.arch_decl(a))
    }

    /// The scope entries of library `id`, where its scope has been built.
    pub open spec fn scope_entries_of(self, id: LibRef) -> Seq<ScopeEntry> {
        self.arenas.scopes@[self.def_table@[id.0] as int].entries@
    }

    /// Whether `t` is the architecture table of library `id`: every
    /// architecture of the library binds, and `t` relates them to the
    /// library's entities.
    pub open spec fn is_archs_of(self, id: LibRef, t: ArchTable) -> bool {
        let l = self.hir_of(id);
        let decls = self.arch_decls(l.archs@);
        &&& self.hir_table@.contains_key(id.0)
        &&& self.def_table@.contains_key(id.0)
        &&& forall|i: int| 0 <= i < l.archs@.len() ==> self.is_unit_of_kind((#[trigger] l.archs@[i]).0, 5)
        &&& is_arch_table(t, self.scope_entries_of(id), l.entities@, decls)
        &&& unbound(self.scope_entries_of(id), decls).len() == 0
    }

    pub open spec fn wf(self) -> bool {
        &&& self.records@.len() == self.ids.next()
        &&& forall|k: int| 0 <= k < self.records@.len() ==> match #[trigger] self.records@[k] {
            Some(NodeRecord::Lib { pos }) => pos < self.libs@.len() && self.libs@[pos as int].id.0.raw() == k,
            Some(NodeRecord::Unit { lib, pos, unit }) => pos < self.libs@.len() && self.libs@[pos as int].id == lib
                && unit < self.libs@[pos as int].units@.len(),
            None => true,
        }
        &&& forall|p: int| 0 <= p < self.libs@.len() ==> self.record(#[trigger] self.libs@[p].id.0) == Some(
            NodeRecord::Lib { pos: p as usize },
        )
        &&& forall|h: int| 0 <= h < self.arenas.hir.lib@.len() ==> self.is_linked(#[trigger] self.arenas.hir.lib@[h])
        &&& self.caches_ok()
    }

    /// Creates an empty scoreboard for a session.
    pub fn new(sess: Session) -> (r: Scoreboard)
        ensures
            r.wf(),
            r.sess == sess,
            r.libs@.len() == 0,
            r.arenas.hir.lib@.len() == 0,
            r.arenas.scopes@.len() == 0,
            r.arenas.archs@.len() == 0,
            r.counts == (MakeCounts { hir: 0, defs: 0, archs: 0, lldef: 0 }),
            r.ids.next() == 1,
            forall|n: NodeId| #[trigger] r.record(n) is None,
            r.hir_table@ == Map::<NodeId, usize>::empty(),
            r.def_table@ == Map::<NodeId, usize>::empty(),
            r.arch_table@ == Map::<NodeId, usize>::empty(),
            r.lldecl_table@ == Map::<NodeId, usize>::empty(),
            r.lldef_table@ == Map::<NodeId, usize>::empty(),
            module_units(r.llmod) == Map::<usize, Seq<char>>::empty(),
    {
        let ids = NodeIdGen::new();
        let mut records: Vec<Option<NodeRecord>> = Vec::new();
        records.push(None);
        Scoreboard {
            sess,
            arenas: Arenas::new(),
            llmod: new_module(),
            counts: MakeCounts { hir: 0, defs: 0, archs: 0, lldef: 0 },
            ids,
            libs: Vec::new(),
            records,
            hir_table: MemoTable::new(),
            def_table: MemoTable::new(),
            arch_table: MemoTable::new(),
            lldecl_table: MemoTable::new(),
            lldef_table: MemoTable::new(),
        }
    }

    /// Whether another node identifier can be handed out.
    pub fn has_room(&self, n: usize) -> (r: bool)
        ensures
            r == (n <= self.ids.remaining()),
    {
        self.ids.has_room(n)
    }

    /// Hands out a fresh node identifier of the session, which stands for
    /// nothing yet. A driver takes the reference of a library from here.
    pub fn new_node_id(&mut self) -> (r: NodeId)
        requires
            old(self).wf(),
            old(self).ids.remaining() > 0,
        ensures
            final(self).wf(),
            r.raw() == old(self).ids.next(),
            final(self).ids.next() == old(self).ids.next() + 1,
            final(self).record(r) is None,
            final(self).records@ == old(self).records@.push(None),
            final(self).libs@ == old(self).libs@,
            final(self).arenas == old(self).arenas,
            final(self).sess == old(self).sess,
            final(self).counts == old(self).counts,
            final(self).llmod == old(self).llmod,
            final(self).hir_table == old(self).hir_table,
            final(self).def_table == old(self).def_table,
            final(self).arch_table == old(self).arch_table,
            final(self).lldecl_table == old(self).lldecl_table,
            final(self).lldef_table == old(self).lldef_table,
    {
        let n = self.ids.allocate();
        self.records.push(None);
        proof {
            lemma_entries_kept(*old(self), *self);
            lemma_links_kept(*old(self), *self);
        }
        n
    }

    /// Adds library `id` with its design units. The reference must be one
    /// the session handed out that stands for nothing yet.
    pub fn add_library(&mut self, id: LibRef, units: Vec<DesignUnit>)
        requires
            old(self).wf(),
            id.0.raw() < old(self).ids.next(),
            old(self).record(id.0) is None,
        ensures
            final(self).wf(),
            final(self).has_lib(id),
            final(self).lib_units(id) == units@,
            final(self).libs@ == old(self).libs@.push(LibSource { id, units }),
            final(self).records@ == old(self).records@.update(
                id.0.raw() as int,
                Some(NodeRecord::Lib { pos: old(self).libs@.len() as usize }),
            ),
            final(self).ids == old(self).ids,
            final(self).arenas == old(self).arenas,
            final(self).sess == old(self).sess,
            final(self).counts == old(self).counts,
            final(self).llmod == old(self).llmod,
            final(self).hir_table == old(self).hir_table,
            final(self).def_table == old(self).def_table,
            final(self).arch_table == old(self).arch_table,
            final(self).lldecl_table == old(self).lldecl_table,
            final(self).lldef_table == old(self).lldef_table,
    {
        let pos = self.libs.len();
        self.records.set(id.0.as_usize(), Some(NodeRecord::Lib { pos }));
        self.libs.push(LibSource { id, units });
        proof {
            assert(self.record(id.0) == Some(NodeRecord::Lib { pos }));
            lemma_entries_kept(*old(self), *self);
            lemma_links_kept(*old(self), *self);
            assert forall|p: int| 0 <= p < self.libs@.len() implies self.record(#[trigger] self.libs@[p].id.0) == Some(
                NodeRecord::Lib { pos: p as usize },
            ) by {
                if p < pos {
                    assert(old(self).record(old(self).libs@[p].id.0) == Some(NodeRecord::Lib { pos: p as usize }));
                    assert(old(self).record(old(self).libs@[p].id.0) is Some);
                }
            }
            assert forall|k: int| 0 <= k < self.records@.len() implies match #[trigger] self.records@[k] {
                Some(NodeRecord::Lib { pos }) => pos < self.libs@.len() && self.libs@[pos as int].id.0.raw() == k,
                Some(NodeRecord::Unit { lib, pos, unit }) => pos < self.libs@.len() && self.libs@[pos as int].id == lib
                    && unit < self.libs@[pos as int].units@.len(),
                None => true,
            } by {
                if k != id.0.raw() {
                    assert(self.records@[k] == old(self).records@[k]);
                }
            }
        }
    }
}

/// The records of `a` stay well formed in `b`, which has the same
/// identifiers and libraries, and whose lowered libraries extend those of
/// `a` by linked ones.
proof fn lemma_nodes_kept(a: Scoreboard, b: Scoreboard)
    requires
        a.wf(),
        b.records@ == a.records@,
        b.libs@ == a.libs@,
        b.arenas.hir.lib@.len() >= a.arenas.hir.lib@.len(),
        forall|q: int|
            0 <= q < b.arenas.hir.lib@.len() ==> if q < a.arenas.hir.lib@.len() {
                b.arenas.hir.lib@[q] == a.arenas.hir.lib@[q]
            } else {
                b.is_linked(b.arenas.hir.lib@[q])
            },
    ensures
        forall|q: int| 0 <= q < b.arenas.hir.lib@.len() ==> b.is_linked(#[trigger] b.arenas.hir.lib@[q]),
        forall|p: int| 0 <= p < b.libs@.len() ==> b.record(#[trigger] b.libs@[p].id.0) == Some(NodeRecord::Lib { pos: p as usize }),
{
    assert forall|q: int| 0 <= q < b.arenas.hir.lib@.len() implies b.is_linked(#[trigger] b.arenas.hir.lib@[q]) by {
        if q < a.arenas.hir.lib@.len() {
            lemma_linked_grows(a, b, a.arenas.hir.lib@[q]);
        }
    }
    assert forall|p: int| 0 <= p < b.libs@.len() implies b.record(#[trigger] b.libs@[p].id.0) == Some(
        NodeRecord::Lib { pos: p as usize },
    ) by {
        assert(a.record(a.libs@[p].id.0) == Some(NodeRecord::Lib { pos: p as usize }));
    }
}

/// The lowered libraries of `a` stay linked in `b`, which knows the same
/// identifiers at least, and the same libraries at least.
proof fn lemma_links_kept(a: Scoreboard, b: Scoreboard)
    requires
        a.wf(),
        nodes_grow(a, b),
        b.arenas.hir.lib@ == a.arenas.hir.lib@,
    ensures
        forall|h: int| 0 <= h < b.arenas.hir.lib@.len() ==> b.is_linked(#[trigger] b.arenas.hir.lib@[h]),
{
    assert forall|h: int| 0 <= h < b.arenas.hir.lib@.len() implies b.is_linked(#[trigger] b.arenas.hir.lib@[h]) by {
        lemma_linked_grows(a, b, a.arenas.hir.lib@[h]);
    }
}

impl Scoreboard {
    /// Whether `new` extends `self` as the queries do: identifiers, nodes,
    /// cache entries and diagnostics are only ever added, and the libraries
    /// and options stay as they are.
    pub open spec fn grows_to(self, new: Scoreboard) -> bool {
        &&& new.libs@ == self.libs@
        &&& new.sess.opts == self.sess.opts
        &&& new.records@.len() >= self.records@.len()
        &&& forall|k: int| 0 <= k < self.records@.len() ==> new.records@[k] == #[trigger] self.records@[k]
        &&& new.arenas.hir.lib@.len() >= self.arenas.hir.lib@.len()
        &&& forall|h: int| 0 <= h < self.arenas.hir.lib@.len() ==> new.arenas.hir.lib@[h] == #[trigger] self.arenas.hir.lib@[h]
        &&& new.arenas.scopes@.len() >= self.arenas.scopes@.len()
        &&& forall|h: int| 0 <= h < self.arenas.scopes@.len() ==> new.arenas.scopes@[h] == #[trigger] self.arenas.scopes@[h]
        &&& new.arenas.archs@.len() >= self.arenas.archs@.len()
        &&& forall|h: int| 0 <= h < self.arenas.archs@.len() ==> new.arenas.archs@[h] == #[trigger] self.arenas.archs@[h]
        &&& keeps(self.hir_table@, new.hir_table@)
        &&& keeps(self.def_table@, new.def_table@)
        &&& keeps(self.arch_table@, new.arch_table@)
        &&& keeps(self.lldef_table@, new.lldef_table@)
        &&& new.lldecl_table@ == self.lldecl_table@
        &&& self.sess.emitted().is_prefix_of(new.sess.emitted())
    }

    /// What `hir` guarantees, from the scoreboard `s0` before the call to the
    /// scoreboard `s1` after it.
    pub open spec fn hir_post(s0: Scoreboard, s1: Scoreboard, id: LibRef, r: Result<usize, ()>) -> bool {
        &&& s1.wf()
        &&& s0.grows_to(s1)
        &&& s0.hir_table@.contains_key(id.0) ==> r == Ok::<usize, ()>(s0.hir_table@[id.0]) && s1 == s0
        &&& !s0.hir_table@.contains_key(id.0) ==> s1.counts == (MakeCounts { hir: bump(s0.counts.hir), ..s0.counts })
        &&& s1.def_table@ == s0.def_table@
        &&& s1.arch_table@ == s0.arch_table@
        &&& s1.lldef_table@ == s0.lldef_table@
        &&& s1.arenas.scopes@ == s0.arenas.scopes@
        &&& s1.arenas.archs@ == s0.arenas.archs@
        &&& s1.llmod == s0.llmod
        &&& match r {
            Ok(h) => {
                &&& s1.hir_table@.contains_key(id.0)
                &&& s1.hir_table@[id.0] == h
                &&& h < s1.arenas.hir.lib@.len()
                &&& s1.is_lowering(id, s1.arenas.hir.lib@[h as int])
                &&& s1.sess.emitted() == s0.sess.emitted()
                &&& !s0.hir_table@.contains_key(id.0) ==> {
                    &&& s1.ids.next() == s0.ids.next() + s0.lib_units(id).len()
                    &&& numbered_from(s1.arenas.hir.lib@[h as int], s0.lib_units(id), s0.ids.next())
                }
            },
            Err(_) => false,
        }
    }

    /// Whether library `id` is lowered, or there are identifiers enough left
    /// to lower it.
    pub open spec fn can_lower(self, id: LibRef) -> bool {
        self.hir_table@.contains_key(id.0) || self.lib_units(id).len() <= self.ids.remaining()
    }

    /// Lowers library `id`: each design unit gets a fresh reference, recorded
    /// with its library and unit, and is listed under its kind in source
    /// order.
    fn make_lib(&mut self, id: LibRef) -> (r: Lib)
        requires
            old(self).wf(),
            old(self).has_lib(id),
            old(self).lib_units(id).len() <= old(self).ids.remaining(),
        ensures
            final(self).wf(),
            old(self).grows_to(*final(self)),
            final(self).arenas == old(self).arenas,
            final(self).counts == old(self).counts,
            final(self).llmod == old(self).llmod,
            final(self).hir_table@ == old(self).hir_table@,
            final(self).def_table@ == old(self).def_table@,
            final(self).arch_table@ == old(self).arch_table@,
            final(self).lldef_table@ == old(self).lldef_table@,
            final(self).is_linked(r),
            final(self).is_lowering(id, r),
            final(self).sess == old(self).sess,
            final(self).ids.next() == old(self).ids.next() + old(self).lib_units(id).len(),
            numbered_from(r, old(self).lib_units(id), old(self).ids.next()),
    {
        let pos = self.lib_position(id);
        let count = self.libs[pos].units.len();
        let ghost units = self.libs@[pos as int].units@;
        let ghost s0 = *self;
        let mut lib = Lib::new();
        let mut j: usize = 0;
        while j < count
            invariant
                s0.wf(),
                s0.has_lib(id),
                pos == s0.lib_pos(id),
                units == s0.lib_units(id),
                count == units.len(),
                0 <= j <= count,
                self.wf(),
                s0.grows_to(*self),
                self.ids.remaining() >= count - j,
                self.ids.next() == s0.ids.next() + j,
                numbered_from(lib, units.take(j as int), s0.ids.next()),
                self.arenas == s0.arenas,
                self.counts == s0.counts,
                self.llmod == s0.llmod,
                self.sess == s0.sess,
                self.hir_table@ == s0.hir_table@,
                self.def_table@ == s0.def_table@,
                self.arch_table@ == s0.arch_table@,
                self.lldef_table@ == s0.lldef_table@,
                self.is_linked(lib),
                forall|k: int|
                    0 <= k < 7 ==> {
                        &&& #[trigger] lib_ids(lib, k).len() == positions(units.take(j as int), k).len()
                        &&& forall|i: int|
                            0 <= i < lib_ids(lib, k).len() ==> self.record(#[trigger] lib_ids(lib, k)[i]) == Some(
                                NodeRecord::Unit { lib: id, pos: pos, unit: positions(units.take(j as int), k)[i] as usize },
                            )
                    },
            decreases count - j,
        {
            let k = unit_kind(&self.libs[pos].units[j].data);
            let ghost top = *self;
            let n = self.ids.allocate();

            let ghost lib0 = lib;
            self.records.push(Some(NodeRecord::Unit { lib: id, pos, unit: j }));
            push_ref(&mut lib, k, n);
            proof {
                assert(units.take(j + 1).drop_last() =~= units.take(j as int));
                assert(units.take(j + 1).last() == units[j as int]);
                assert(self.record(n) == Some(NodeRecord::Unit { lib: id, pos, unit: j }));
                top.ids.lemma_next_bounded();
                self.ids.lemma_next_bounded();
                lemma_raw_injective(self.libs@[pos as int].id.0, id.0);
                assert(self.records@[n.raw() as int] == Some(NodeRecord::Unit { lib: id, pos, unit: j }));
                lemma_linked_grows(top, *self, lib0);
                lemma_entries_kept(top, *self);
                assert forall|h: int| 0 <= h < self.arenas.hir.lib@.len() implies self.is_linked(#[trigger] self.arenas.hir.lib@[h]) by {
                    lemma_linked_grows(top, *self, top.arenas.hir.lib@[h]);
                }
                assert(self.is_unit_of_kind(n, k as int));
                assert forall|kk: int, i: int| 0 <= kk < 7 && 0 <= i < lib_ids(lib, kk).len() implies #[trigger] self.is_unit_of_kind(
                    lib_ids(lib, kk)[i],
                    kk,
                ) by {
                    if kk != k || i < lib_ids(lib0, kk).len() {
                        assert(lib_ids(lib, kk)[i] == lib_ids(lib0, kk)[i]);
                        assert(self.is_unit_of_kind(lib_ids(lib0, kk)[i], kk));
                    }
                }
                assert forall|p: int| 0 <= p < self.libs@.len() implies self.record(#[trigger] self.libs@[p].id.0) == Some(
                    NodeRecord::Lib { pos: p as usize },
                ) by {
                    assert(top.record(top.libs@[p].id.0) == Some(NodeRecord::Lib { pos: p as usize }));
                    assert(top.record(top.libs@[p].id.0) is Some);
                }
                assert forall|kk: int|
                    0 <= kk < 7 implies {
                        &&& #[trigger] lib_ids(lib, kk).len() == positions(units.take(j + 1), kk).len()
                        &&& forall|i: int|
                            0 <= i < lib_ids(lib, kk).len() ==> self.record(#[trigger] lib_ids(lib, kk)[i]) == Some(
                                NodeRecord::Unit { lib: id, pos: pos, unit: positions(units.take(j + 1), kk)[i] as usize },
                            )
                    } by {
                    let p0 = positions(units.take(j as int), kk);
                    let p1 = positions(units.take(j + 1), kk);
                    if kk == k {
                        assert(p1 == p0.push(j as int));
                    } else {
                        assert(p1 == p0);
                    }
                    assert forall|i: int|
                        0 <= i < lib_ids(lib, kk).len() implies self.record(#[trigger] lib_ids(lib, kk)[i]) == Some(
                            NodeRecord::Unit { lib: id, pos: pos, unit: p1[i] as usize },
                        ) by {
                        if kk != k || i < lib_ids(lib0, kk).len() {
                            assert(lib_ids(lib, kk)[i] == lib_ids(lib0, kk)[i]);
                            assert(top.record(lib_ids(lib0, kk)[i]) is Some);
                        }
                    }
                }
                assert forall|kk: int, i: int| 0 <= kk < 7 && 0 <= i < lib_ids(lib, kk).len() implies #[trigger] lib_ids(lib, kk)[i].raw()
                    == s0.ids.next() + positions(units.take(j + 1), kk)[i] by {
                    let p0 = positions(units.take(j as int), kk);
                    let p1 = positions(units.take(j + 1), kk);
                    if kk == k {
                        assert(p1 == p0.push(j as int));
                    } else {
                        assert(p1 == p0);
                    }
                    if kk != k || i < lib_ids(lib0, kk).len() {
                        assert(lib_ids(lib, kk)[i] == lib_ids(lib0, kk)[i]);
                    }
                }
            }
            j = j + 1;
        }
        proof {
            assert(units.take(count as int) =~= units);
        }
        lib
    }

    /// The position of library `id` among the added ones.
    fn lib_position(&self, id: LibRef) -> (r: usize)
        requires
            self.wf(),
            self.has_lib(id),
        ensures
            r == self.lib_pos(id),
            r < self.libs@.len(),
    {
        match self.records[id.0.as_usize()] {
            Some(NodeRecord::Lib { pos }) => pos,
            _ => 0,
        }
    }
}


/// Whether `b` holds every entry of `a`.
pub open spec fn keeps(a: Map<NodeId, usize>, b: Map<NodeId, usize>) -> bool {
    forall|k: NodeId| #[trigger] a.contains_key(k) ==> b.contains_key(k) && b[k] == a[k]
}

/// Whether `b` knows every identifier that `a` knows, as `a` knows it, and
/// the same libraries.
pub open spec fn nodes_grow(a: Scoreboard, b: Scoreboard) -> bool {
    &&& b.libs@.len() >= a.libs@.len()
    &&& forall|p: int| 0 <= p < a.libs@.len() ==> b.libs@[p] == #[trigger] a.libs@[p]
    &&& b.records@.len() >= a.records@.len()
    &&& forall|k: int| 0 <= k < a.records@.len() && (#[trigger] a.records@[k]) is Some ==> b.records@[k] == a.records@[k]
}

/// Lowering results and links are kept as identifiers are added.
proof fn lemma_nodes_grow(a: Scoreboard, b: Scoreboard)
    requires
        a.wf(),
        nodes_grow(a, b),
    ensures
        forall|id: LibRef, l: Lib| a.has_lib(id) && a.is_lowering(id, l) ==> #[trigger] b.is_lowering(id, l) && b.has_lib(id),
        forall|l: Lib| a.is_linked(l) ==> #[trigger] b.is_linked(l),
{
    assert forall|id: LibRef, l: Lib| a.has_lib(id) && a.is_lowering(id, l) implies #[trigger] b.is_lowering(id, l) && b.has_lib(id) by {
        assert(b.record(id.0) == a.record(id.0));
        assert(a.lib_pos(id) < a.libs@.len());
        assert(b.lib_units(id) == a.lib_units(id));
        assert forall|k: int| 0 <= k < 7 implies {
            &&& #[trigger] lib_ids(l, k).len() == positions(b.lib_units(id), k).len()
            &&& forall|i: int|
                0 <= i < lib_ids(l, k).len() ==> b.record(#[trigger] lib_ids(l, k)[i]) == Some(
                    NodeRecord::Unit { lib: id, pos: b.lib_pos(id) as usize, unit: positions(b.lib_units(id), k)[i] as usize },
                )
        } by {
            assert(lib_ids(l, k).len() == positions(a.lib_units(id), k).len());
            assert forall|i: int| 0 <= i < lib_ids(l, k).len() implies b.record(#[trigger] lib_ids(l, k)[i]) == Some(
                NodeRecord::Unit { lib: id, pos: b.lib_pos(id) as usize, unit: positions(b.lib_units(id), k)[i] as usize },
            ) by {
                assert(a.record(lib_ids(l, k)[i]) is Some);
            }
        }
    }
    assert forall|l: Lib| a.is_linked(l) implies #[trigger] b.is_linked(l) by {
        lemma_linked_grows(a, b, l);
    }
}

impl Scoreboard {
    /// The lowered form of library `id`, computed once: a handle into
    /// `arenas.hir.lib`.
    pub fn hir(&mut self, id: LibRef) -> (r: Result<usize, ()>)
        requires
            old(self).wf(),
            old(self).has_lib(id),
            old(self).can_lower(id),
        ensures
            Scoreboard::hir_post(*old(self), *final(self), id, r),
    {
        if let Some(h) = self.hir_table.get(id.0) {
            proof {
                assert(old(self).sess.emitted().is_prefix_of(self.sess.emitted()));
            }
            return Ok(h);
        }
        let ghost s0 = *self;
        self.counts.hir = bumped(self.counts.hir);
        proof {
            lemma_wf_frame(s0, *self);
        }
        match self.make_lib(id) {
            lib => {
                let ghost s1 = *self;
                let h = self.arenas.hir.lib.len();
                self.arenas.hir.lib.push(lib);
                self.hir_table.insert(id.0, h);
                proof {
                    lemma_nodes_grow(s1, *self);
                    lemma_nodes_grow(s0, s1);
                    lemma_entries_kept(s1, *self);
                    assert(self.arenas.hir.lib@[h as int] == lib);
                    assert forall|n: NodeId| #[trigger] self.hir_table@.contains_key(n) implies self.has_lib(LibRef(n))
                        && self.is_lowering(LibRef(n), self.arenas.hir.lib@[self.hir_table@[n] as int]) by {
                        if n != id.0 {
                            assert(s0.hir_table@.contains_key(n));
                            assert(s1.arenas.hir.lib@[s0.hir_table@[n] as int] == self.arenas.hir.lib@[s0.hir_table@[n] as int]);
                        }
                    }
                    assert(self.is_linked(lib));
                    lemma_nodes_kept(s1, *self);
                }
                Ok(h)
            },
        }
    }
}

/// Asking for the lowered form of a library a second time gives the same
/// handle and computes nothing: the scoreboard is left as it was.
pub proof fn lemma_hir_once(s0: Scoreboard, s1: Scoreboard, s2: Scoreboard, id: LibRef, h: usize, r: Result<usize, ()>)
    requires
        Scoreboard::hir_post(s0, s1, id, Ok(h)),
        Scoreboard::hir_post(s1, s2, id, r),
    ensures
        r == Ok::<usize, ()>(h),
        s2 == s1,
        s2.counts == s1.counts,
{
}


/// The library whose scope `id` is.
pub open spec fn scope_lib(id: ScopeRef) -> LibRef {
    match id {
        ScopeRef::Lib(l) => l,
    }
}

/// A primary unit of a lowered library is a design unit.
proof fn lemma_def_is_unit(sb: Scoreboard, l: Lib, d: Def)
    requires
        sb.is_linked(l),
        is_def_of(l, d),
    ensures
        sb.record(def_id(d)) matches Some(NodeRecord::Unit { .. }),
{
    match d {
        Def::Entity(r) => {
            let j = choose|j: int| 0 <= j < l.entities@.len() && l.entities@[j] == r;
            assert(lib_ids(l, 0)[j] == r.0);
            assert(sb.is_unit_of_kind(lib_ids(l, 0)[j], 0));
        },
        Def::Cfg(r) => {
            let j = choose|j: int| 0 <= j < l.cfgs@.len() && l.cfgs@[j] == r;
            assert(lib_ids(l, 1)[j] == r.0);
            assert(sb.is_unit_of_kind(lib_ids(l, 1)[j], 1));
        },
        Def::Pkg(r) => {
            let j = choose|j: int| 0 <= j < l.pkg_decls@.len() && l.pkg_decls@[j] == r;
            assert(lib_ids(l, 2)[j] == r.0);
            assert(sb.is_unit_of_kind(lib_ids(l, 2)[j], 2));
        },
        Def::PkgInst(r) => {
            let j = choose|j: int| 0 <= j < l.pkg_insts@.len() && l.pkg_insts@[j] == r;
            assert(lib_ids(l, 3)[j] == r.0);
            assert(sb.is_unit_of_kind(lib_ids(l, 3)[j], 3));
        },
        Def::Ctx(r) => {
            let j = choose|j: int| 0 <= j < l.ctxs@.len() && l.ctxs@[j] == r;
            assert(lib_ids(l, 4)[j] == r.0);
            assert(sb.is_unit_of_kind(lib_ids(l, 4)[j], 4));
        },
        _ => {},
    }
}

impl Scoreboard {
    /// What `defs` guarantees, from the scoreboard `s0` before the call to
    /// the scoreboard `s1` after it.
    /// Whether the diagnostics emitted since `s0` are exactly the reports of
    /// the names that collide in the scope of library `lib`, of which there
    /// is at least one.
    pub open spec fn reports_scope_failure(self, s0: Scoreboard, lib: LibRef) -> bool {
        exists|entries: Seq<ScopeEntry>|
            {
                &&& #[trigger] self.describes(entries, lib_defs(self.hir_of(lib)))
                &&& collisions(entries).len() > 0
                &&& reports_collisions(self.sess.emitted().skip(s0.sess.emitted().len() as int), entries, collisions(entries))
            }
    }

    pub open spec fn defs_post(s0: Scoreboard, s1: Scoreboard, id: ScopeRef, r: Result<usize, ()>) -> bool {
        let lib = scope_lib(id);
        &&& s1.wf()
        &&& s0.grows_to(s1)
        &&& s1.hir_table@.contains_key(lib.0)
        &&& s0.def_table@.contains_key(lib.0) ==> r == Ok::<usize, ()>(s0.def_table@[lib.0]) && s1 == s0
        &&& !s0.def_table@.contains_key(lib.0) ==> s1.counts.defs == bump(s0.counts.defs)
        &&& s1.counts.archs == s0.counts.archs
        &&& s1.counts.lldef == s0.counts.lldef
        &&& s1.arch_table@ == s0.arch_table@
        &&& s1.lldef_table@ == s0.lldef_table@
        &&& s1.arenas.archs@ == s0.arenas.archs@
        &&& s1.llmod == s0.llmod
        &&& match r {
            Ok(h) => {
                &&& s1.def_table@.contains_key(lib.0)
                &&& s1.def_table@[lib.0] == h
                &&& h < s1.arenas.scopes@.len()
                &&& s1.is_scope_of(lib, s1.arenas.scopes@[h as int])
                &&& s1.sess.emitted() == s0.sess.emitted()
            },
            Err(_) => {
                &&& s1.def_table@ == s0.def_table@
                &&& !s1.def_table@.contains_key(lib.0)
                &&& s1.sess.emitted().len() > s0.sess.emitted().len()
                &&& !s1.sess.opts.ignore_duplicate_defs
                &&& s1.reports_scope_failure(s0, lib)
            },
        }
    }

    /// Where design unit `n` stands: its library's position and its index.
    fn unit_place(&self, n: NodeId) -> (r: (usize, usize))
        requires
            self.wf(),
            self.record(n) matches Some(NodeRecord::Unit { .. }),
        ensures
            r.0 < self.libs@.len(),
            r.1 < self.libs@[r.0 as int].units@.len(),
            self.unit(n) == self.libs@[r.0 as int].units@[r.1 as int],
    {
        match self.records[n.as_usize()] {
            Some(NodeRecord::Unit { pos, unit, .. }) => (pos, unit),
            _ => (0, 0),
        }
    }

    /// The scope entries of the definitions `defs`, each under the name and
    /// at the span of its design unit.
    fn scope_entries(&self, defs: &Vec<Def>, l: Ghost<Lib>) -> (r: Vec<ScopeEntry>)
        requires
            self.wf(),
            self.is_linked(l@),
            forall|i: int| 0 <= i < defs@.len() ==> is_def_of(l@, #[trigger] defs@[i]),
        ensures
            self.describes(r@, defs@),
    {
        let mut entries: Vec<ScopeEntry> = Vec::new();
        let mut i: usize = 0;
        while i < defs.len()
            invariant
                self.wf(),
                self.is_linked(l@),
                forall|i: int| 0 <= i < defs@.len() ==> is_def_of(l@, #[trigger] defs@[i]),
                0 <= i <= defs@.len(),
                self.describes(entries@, defs@.take(i as int)),
            decreases defs@.len() - i,
        {
            let d = defs[i];
            let n = def_node(d);
            proof {
                lemma_def_is_unit(*self, l@, d);
            }
            let (p, u) = self.unit_place(n);
            let unit = &self.libs[p].units[u];
            let ghost e0 = entries@;
            entries.push(ScopeEntry { name: unit.name.clone(), def: d, span: unit.name_span });
            proof {
                let t = defs@.take(i + 1);
                assert forall|q: int| 0 <= q < entries@.len() implies {
                    &&& self.record(def_id(t[q])) matches Some(NodeRecord::Unit { .. })
                    &&& (#[trigger] entries@[q]).def == t[q]
                    &&& entries@[q].name@ == self.unit(def_id(t[q])).name@
                    &&& entries@[q].span == self.unit(def_id(t[q])).name_span
                } by {
                    if q < i {
                        assert(entries@[q] == e0[q]);
                        assert(t[q] == defs@.take(i as int)[q]);
                    }
                }
            }
            i = i + 1;
        }
        proof {
            assert(defs@.take(defs@.len() as int) =~= defs@);
        }
        entries
    }

    /// The definitions at the scope `id`, computed once: a handle into
    /// `arenas.scopes`. Fails, with one report for each name declared more
    /// than once, unless the session tolerates duplicates.
    pub fn defs(&mut self, id: ScopeRef) -> (r: Result<usize, ()>)
        requires
            old(self).wf(),
            old(self).has_lib(scope_lib(id)),
            old(self).can_lower(scope_lib(id)),
        ensures
            Scoreboard::defs_post(*old(self), *final(self), id, r),
    {
        let lib = match id {
            ScopeRef::Lib(l) => l,
        };
        if let Some(h) = self.def_table.get(lib.0) {
            proof {
                assert(old(self).sess.emitted().is_prefix_of(self.sess.emitted()));
            }
            return Ok(h);
        }
        let ghost s0 = *self;
        self.counts.defs = bumped(self.counts.defs);
        proof {
            lemma_wf_frame(s0, *self);
        }
        let ghost s1 = *self;
        let h = match self.hir(lib) {
            Ok(h) => h,
            Err(e) => {
                return Err(e);
            },
        };
        let ghost s2 = *self;
        let defs = lib_def_list(&self.arenas.hir.lib[h]);
        let entries = self.scope_entries(&defs, Ghost(self.arenas.hir.lib@[h as int]));
        let ghost es = entries@;
        match build_scope(entries, self.sess.opts.ignore_duplicate_defs) {
            Err(ds) => {
                self.sess.emit_all(ds);
                proof {
                    lemma_wf_frame(s2, *self);
                    assert(self.sess.emitted().skip(s0.sess.emitted().len() as int) =~= ds@);
                    assert(s0.sess.emitted().is_prefix_of(self.sess.emitted()));
                    assert(self.describes(es, lib_defs(self.hir_of(lib))));
                }
                Err(())
            },
            Ok(scope) => {
                let k = self.arenas.scopes.len();
                self.arenas.scopes.push(scope);
                self.def_table.insert(lib.0, k);
                proof {
                    lemma_entries_kept(s2, *self);
                    assert(self.is_scope_of(lib, self.arenas.scopes@[k as int]));
                    assert forall|n: NodeId| #[trigger] self.def_table@.contains_key(n) implies self.def_table@[n]
                        < self.arenas.scopes@.len() && self.is_scope_of(LibRef(n), self.arenas.scopes@[self.def_table@[n] as int]) by {
                        if n != lib.0 {
                            assert(s2.def_table@.contains_key(n));
                            assert(s2.is_scope_of(LibRef(n), s2.arenas.scopes@[s2.def_table@[n] as int]));
                        }
                    }
                    lemma_nodes_grow(s2, *self);
                    lemma_nodes_kept(s2, *self);
                }
                Ok(k)
            },
        }
    }
}


/// When two primary units of a library share a name, and duplicates are not
/// tolerated, building its scope fails and caches nothing; the diagnostics
/// emitted report each name declared more than once exactly once, and no
/// other name.
pub proof fn lemma_duplicates_fail(s0: Scoreboard, s1: Scoreboard, id: ScopeRef, r: Result<usize, ()>, i: int, j: int)
    requires
        Scoreboard::defs_post(s0, s1, id, r),
        !s0.sess.opts.ignore_duplicate_defs,
        0 <= i < j < lib_defs(s1.hir_of(scope_lib(id))).len(),
        s1.unit(def_id(lib_defs(s1.hir_of(scope_lib(id)))[i])).name@ == s1.unit(
            def_id(lib_defs(s1.hir_of(scope_lib(id)))[j]),
        ).name@,
    ensures
        r is Err,
        s1.def_table@ == s0.def_table@,
        !s1.def_table@.contains_key(scope_lib(id).0),
        exists|entries: Seq<ScopeEntry>|
            {
                &&& #[trigger] s1.describes(entries, lib_defs(s1.hir_of(scope_lib(id))))
                &&& reports_collisions(
                    s1.sess.emitted().skip(s0.sess.emitted().len() as int),
                    entries,
                    collisions(entries),
                )
                &&& collisions(entries).no_duplicates()
                &&& forall|n: Seq<char>| #[trigger] collisions(entries).contains(n) == (spans_named(entries, n).len() > 1)
                &&& collisions(entries).contains(entries[j].name@)
            },
{
    let lib = scope_lib(id);
    let defs = lib_defs(s1.hir_of(lib));
    if let Ok(h) = r {
        let es = s1.arenas.scopes@[h as int].entries@;
        assert(es[i].def == defs[i] && es[j].def == defs[j]);
        lemma_two_make_collision(es, i, j);
    }
    let entries = choose|entries: Seq<ScopeEntry>|
        {
            &&& #[trigger] s1.describes(entries, defs)
            &&& collisions(entries).len() > 0
            &&& reports_collisions(s1.sess.emitted().skip(s0.sess.emitted().len() as int), entries, collisions(entries))
        };
    assert(entries[i].def == defs[i] && entries[j].def == defs[j]);
    lemma_two_make_collision(entries, i, j);
    assert forall|n: Seq<char>| #[trigger] collisions(entries).contains(n) == (spans_named(entries, n).len() > 1) by {
        lemma_one_report_per_collision(entries, n);
    }
    lemma_one_report_per_collision(entries, entries[j].name@);
}

/// When the session tolerates duplicates, building the scope of a lowered
/// library succeeds without a diagnostic, and each name resolves to the last
/// definition declared under it.
pub proof fn lemma_tolerated_duplicates(s0: Scoreboard, s1: Scoreboard, id: ScopeRef, r: Result<usize, ()>, j: int)
    requires
        Scoreboard::defs_post(s0, s1, id, r),
        s0.sess.opts.ignore_duplicate_defs,
        0 <= j < lib_defs(s1.hir_of(scope_lib(id))).len(),
        forall|k: int|
            j < k < lib_defs(s1.hir_of(scope_lib(id))).len() ==> s1.unit(
                def_id(#[trigger] lib_defs(s1.hir_of(scope_lib(id)))[k]),
            ).name@ != s1.unit(def_id(lib_defs(s1.hir_of(scope_lib(id)))[j])).name@,
    ensures
        r is Ok,
        s1.sess.emitted() == s0.sess.emitted(),
        lookup(s1.arenas.scopes@[r->Ok_0 as int].entries@, s1.unit(def_id(lib_defs(s1.hir_of(scope_lib(id)))[j])).name@)
            matches Some(e) && e.def == lib_defs(s1.hir_of(scope_lib(id)))[j],
{
    let defs = lib_defs(s1.hir_of(scope_lib(id)));
    let h = r->Ok_0;
    let es = s1.arenas.scopes@[h as int].entries@;
    assert forall|k: int| j < k < es.len() implies (#[trigger] es[k]).name@ != es[j].name@ by {
        assert(es[k].def == defs[k]);
    }
    assert(es[j].def == defs[j]);
    lemma_lookup_last(es, j);
}


fn clone_target(t: &ArchTarget) -> (r: ArchTarget)
    ensures
        r == *t,
{
    let ident = match &t.ident {
        Some(n) => Some(n.clone()),
        None => None,
    };
    ArchTarget { span: t.span, text: t.text.clone(), ident }
}

impl Scoreboard {
    /// Why the architectures of library `id` cannot be bound: a name is
    /// declared more than once where that is not tolerated, or an
    /// architecture does not bind.
    pub open spec fn lib_fails(self, id: LibRef) -> bool {
        if !self.def_table@.contains_key(id.0) {
            &&& !self.sess.opts.ignore_duplicate_defs
            &&& exists|entries: Seq<ScopeEntry>|
                #[trigger] self.describes(entries, lib_defs(self.hir_of(id))) && collisions(entries).len() > 0
        } else {
            unbound(self.scope_entries_of(id), self.arch_decls(self.hir_of(id).archs@)).len() > 0
        }
    }

    /// What `archs` guarantees, from the scoreboard `s0` before the call to
    /// the scoreboard `s1` after it.
    pub open spec fn archs_post(s0: Scoreboard, s1: Scoreboard, id: LibRef, r: Result<usize, ()>) -> bool {
        &&& s1.wf()
        &&& s0.grows_to(s1)
        &&& s0.arch_table@.contains_key(id.0) ==> r == Ok::<usize, ()>(s0.arch_table@[id.0]) && s1 == s0
        &&& !s0.arch_table@.contains_key(id.0) ==> s1.counts.archs == bump(s0.counts.archs)
        &&& s1.counts.lldef == s0.counts.lldef
        &&& s1.lldef_table@ == s0.lldef_table@
        &&& s1.llmod == s0.llmod
        &&& match r {
            Ok(h) => {
                &&& s1.arch_table@.contains_key(id.0)
                &&& s1.arch_table@[id.0] == h
                &&& h < s1.arenas.archs@.len()
                &&& s1.is_archs_of(id, s1.arenas.archs@[h as int])
                &&& s1.sess.emitted() == s0.sess.emitted()
            },
            Err(_) => {
                &&& s1.arch_table@ == s0.arch_table@
                &&& !s1.arch_table@.contains_key(id.0)
                &&& s1.hir_table@.contains_key(id.0)
                &&& s1.lib_fails(id)
                &&& s1.sess.emitted().len() > s0.sess.emitted().len()
                &&& !s1.def_table@.contains_key(id.0) ==> s1.reports_scope_failure(s0, id)
                &&& s1.def_table@.contains_key(id.0) ==> {
                    let sc = s1.scope_entries_of(id);
                    let failed = unbound(sc, s1.arch_decls(s1.hir_of(id).archs@));
                    let ds = s1.sess.emitted().skip(s0.sess.emitted().len() as int);
                    &&& failed.len() > 0
                    &&& ds.len() == failed.len()
                    &&& forall|i: int| 0 <= i < ds.len() ==> is_binding_report(#[trigger] ds[i], sc, failed[i])
                }
            },
        }
    }

    /// The architectures of lowered library `l` as the binding reads them.
    fn arch_decl_list(&self, l: &Lib) -> (r: Vec<ArchDecl>)
        requires
            self.wf(),
            self.is_linked(*l),
        ensures
            r@ == self.arch_decls(l.archs@),
    {
        let mut decls: Vec<ArchDecl> = Vec::new();
        let mut i: usize = 0;
        while i < l.archs.len()
            invariant
                self.wf(),
                self.is_linked(*l),
                0 <= i <= l.archs@.len(),
                decls@ == self.arch_decls(l.archs@.take(i as int)),
            decreases l.archs@.len() - i,
        {
            let a = l.archs[i];
            proof {
                assert(lib_ids(*l, 5)[i as int] == a.0);
                assert(self.is_unit_of_kind(lib_ids(*l, 5)[i as int], 5));
            }
            let (p, u) = self.unit_place(a.0);
            let unit = &self.libs[p].units[u];
            let target = match &unit.data {
                UnitData::ArchBody(t) => clone_target(t),
                _ => ArchTarget { span: Span { begin: 0, end: 0 }, text: String::new(), ident: None },
            };
            decls.push(ArchDecl { arch: a, name: unit.name.clone(), target });
            proof {
                assert(decls@ =~= self.arch_decls(l.archs@.take(i + 1)));
            }
            i = i + 1;
        }
        proof {
            assert(l.archs@.take(l.archs@.len() as int) =~= l.archs@);
        }
        decls
    }

    /// The architecture table of library `id`, computed once: a handle into
    /// `arenas.archs`. Every architecture is tried; if any does not bind to
    /// an entity, each such one is reported and the table is not built.
    pub fn archs(&mut self, id: LibRef) -> (r: Result<usize, ()>)
        requires
            old(self).wf(),
            old(self).has_lib(id),
            old(self).can_lower(id),
        ensures
            Scoreboard::archs_post(*old(self), *final(self), id, r),
    {
        if let Some(h) = self.arch_table.get(id.0) {
            proof {
                assert(old(self).sess.emitted().is_prefix_of(self.sess.emitted()));
            }
            return Ok(h);
        }
        let ghost s0 = *self;
        self.counts.archs = bumped(self.counts.archs);
        proof {
            lemma_wf_frame(s0, *self);
        }
        let h = match self.hir(id) {
            Ok(h) => h,
            Err(e) => {
                return Err(e);
            },
        };
        let ghost s1 = *self;
        let sc = match self.defs(ScopeRef::Lib(id)) {
            Ok(sc) => sc,
            Err(e) => {
                proof {
                    lemma_grows_trans(s0, s1, *self);
                    assert(s1.hir_table@.dom().contains(id.0));
                    assert(self.hir_table@.dom().contains(id.0));
                    assert(!self.def_table@.contains_key(id.0)) by {
                        if self.def_table@.contains_key(id.0) {
                            assert(self.hir_table@.contains_key(id.0));
                        }
                    }
                }
                return Err(e);
            },
        };
        let ghost s2 = *self;
        proof {
            assert(s1.hir_table@.dom().contains(id.0));
            assert(self.hir_table@.dom().contains(id.0));
            assert(self.hir_table@[id.0] == h);
            assert(self.is_linked(self.arenas.hir.lib@[h as int]));
        }
        let decls = self.arch_decl_list(&self.arenas.hir.lib[h]);
        let (table, ds) = bind_archs(&self.arenas.hir.lib[h].entities, &decls, &self.arenas.scopes[sc]);
        if ds.len() > 0 {
            self.sess.emit_all(ds);
            proof {
                lemma_wf_frame(s2, *self);
                lemma_grows_trans(s0, s1, s2);
                assert(s2.grows_to(*self));
                lemma_grows_trans(s0, s2, *self);
                assert(self.sess.emitted().skip(s0.sess.emitted().len() as int) =~= ds@);
                assert(self.def_table@.contains_key(id.0));
                assert(self.def_table@[id.0] == sc);
                assert(self.hir_of(id) == self.arenas.hir.lib@[h as int]);
                assert(self.scope_entries_of(id) == self.arenas.scopes@[sc as int].entries@);
                assert(self.arch_decls(self.hir_of(id).archs@) =~= decls@);
            }
            return Err(());
        }
        let k = self.arenas.archs.len();
        self.arenas.archs.push(table);
        self.arch_table.insert(id.0, k);
        proof {
            lemma_entries_kept(s2, *self);
            lemma_nodes_grow(s2, *self);
            let l = self.hir_of(id);
            assert forall|i: int| 0 <= i < l.archs@.len() implies self.is_unit_of_kind((#[trigger] l.archs@[i]).0, 5) by {
                assert(lib_ids(l, 5)[i] == l.archs@[i].0);
                assert(s2.is_linked(l));
                assert(s2.is_unit_of_kind(lib_ids(l, 5)[i], 5));
            }
            assert(self.hir_table@.contains_key(id.0) && self.hir_table@[id.0] == h);
            assert(self.def_table@.contains_key(id.0) && self.def_table@[id.0] == sc);
            assert(self.scope_entries_of(id) == self.arenas.scopes@[sc as int].entries@);
            assert(self.arch_decls(l.archs@) =~= decls@);
            assert(self.is_archs_of(id, self.arenas.archs@[k as int]));
            assert forall|n: NodeId| #[trigger] self.arch_table@.contains_key(n) implies self.arch_table@[n]
                < self.arenas.archs@.len() && self.is_archs_of(LibRef(n), self.arenas.archs@[self.arch_table@[n] as int]) by {
                if n != id.0 {
                    assert(s2.arch_table@.contains_key(n));
                }
            }
            lemma_nodes_kept(s2, *self);
            assert(s0.sess.emitted().is_prefix_of(self.sess.emitted()));
        }
        Ok(k)
    }
}


impl Scoreboard {
    /// Whether `id` is an architecture of a lowered library.
    pub open spec fn is_lowered_arch(self, id: ArchRef) -> bool {
        let lib = self.owner(id.0);
        &&& self.hir_table@.contains_key(lib.0)
        &&& self.hir_of(lib).archs@.contains(id)
    }

    /// The entity that architecture `id` binds to, once its library's
    /// architecture table is built.
    pub open spec fn entity_of(self, id: ArchRef) -> EntityRef {
        resolve(self.scope_entries_of(self.owner(id.0)), self.arch_decl(id))->Some_0
    }

    /// The name of the low-level entity synthesized for architecture `id`:
    /// its entity's name, an underscore, and its own name.
    pub open spec fn lldef_name(self, id: ArchRef) -> Seq<char> {
        self.unit(self.entity_of(id).0).name@ + seq!['_'] + self.unit(id.0).name@
    }

    /// What `lldef` guarantees, from the scoreboard `s0` before the call to
    /// the scoreboard `s1` after it.
    pub open spec fn lldef_post(s0: Scoreboard, s1: Scoreboard, id: ArchRef, r: Result<DefValueRef, ()>) -> bool {
        let lib = s0.owner(id.0);
        &&& s1.wf()
        &&& s0.grows_to(s1)
        &&& s0.lldef_table@.contains_key(id.0) ==> r == Ok::<DefValueRef, ()>(DefValueRef(s0.lldef_table@[id.0])) && s1 == s0
        &&& !s0.lldef_table@.contains_key(id.0) ==> s1.counts.lldef == bump(s0.counts.lldef)
        &&& match r {
            Ok(v) => {
                &&& s1.lldef_table@.contains_key(id.0)
                &&& s1.lldef_table@[id.0] == v.0
                &&& s1.arch_table@.contains_key(lib.0)
                &&& !s0.lldef_table@.contains_key(id.0) ==> {
                    &&& !module_units(s0.llmod).contains_key(v.0)
                    &&& module_units(s1.llmod) == module_units(s0.llmod).insert(v.0, s1.lldef_name(id))
                    &&& s1.lldef_table@ == s0.lldef_table@.insert(id.0, v.0)
                    &&& s1.sess.emitted() == s0.sess.emitted()
                }
            },
            Err(_) => {
                // The failure is that of binding the library's architectures,
                // with nothing added by this call.
                &&& Scoreboard::archs_post(
                    Scoreboard { counts: MakeCounts { lldef: bump(s0.counts.lldef), ..s0.counts }, ..s0 },
                    s1,
                    lib,
                    Err(()),
                )
                &&& !s1.lldef_table@.contains_key(id.0)
                &&& s1.llmod == s0.llmod
            },
        }
    }

    /// The library that design unit `n` belongs to.
    fn owner_lib(&self, n: NodeId) -> (r: LibRef)
        requires
            self.wf(),
            self.record(n) matches Some(NodeRecord::Unit { .. }),
        ensures
            r == self.owner(n),
            self.has_lib(r),
    {
        match self.records[n.as_usize()] {
            Some(NodeRecord::Unit { lib, pos, .. }) => {
                proof {
                    assert(self.record(self.libs@[pos as int].id.0) == Some(NodeRecord::Lib { pos }));
                }
                lib
            },
            _ => LibRef(n),
        }
    }

    /// The entity that architecture `id` is bound to in table `t`.
    fn bound_entity(&self, t: usize, id: ArchRef) -> (r: EntityRef)
        requires
            self.wf(),
            self.is_lowered_arch(id),
            self.arch_table@.contains_key(self.owner(id.0).0),
            self.arch_table@[self.owner(id.0).0] == t,
        ensures
            r == self.entity_of(id),
            resolve(self.scope_entries_of(self.owner(id.0)), self.arch_decl(id)) == Some(r),
    {
        let ghost lib = self.owner(id.0);
        let ghost l = self.hir_of(lib);
        let ghost sc = self.scope_entries_of(lib);
        let ghost decls = self.arch_decls(l.archs@);
        proof {
            assert(self.is_archs_of(lib, self.arenas.archs@[t as int]));
            let j0 = choose|j: int| 0 <= j < l.archs@.len() && l.archs@[j] == id;
            assert(decls[j0] == self.arch_decl(id));
            lemma_all_bound(sc, decls, j0);
        }
        let table = &self.arenas.archs[t];
        let mut k: usize = 0;
        while k < table.by_arch.len()
            invariant
                self.wf(),
                table == self.arenas.archs@[t as int],
                table.by_arch@ == bound_pairs(sc, decls),
                bound_pairs(sc, decls).contains((id, resolve(sc, self.arch_decl(id))->Some_0)),
                decls == self.arch_decls(l.archs@),
                lib == self.owner(id.0),
                sc == self.scope_entries_of(lib),
                l == self.hir_of(lib),
                l.archs@.contains(id),
                0 <= k <= table.by_arch@.len(),
                forall|q: int| 0 <= q < k ==> (#[trigger] table.by_arch@[q]).0 != id,
            decreases table.by_arch@.len() - k,
        {
            let (a, e) = table.by_arch[k];
            if a == id {
                proof {
                    assert(table.by_arch@[k as int] == (a, e));
                    lemma_bound_pair_origin(sc, decls, k as int);
                    let j = choose|j: int|
                        0 <= j < decls.len() && resolve(sc, #[trigger] decls[j]) == Some(bound_pairs(sc, decls)[k as int].1)
                            && decls[j].arch == bound_pairs(sc, decls)[k as int].0;
                    assert(bound_pairs(sc, decls)[k as int] == (a, e));
                    assert(decls[j] == self.arch_decl(l.archs@[j]));
                    assert(decls[j].arch == l.archs@[j]);
                    assert(l.archs@[j] == id);
                    assert(decls[j] == self.arch_decl(id));
                    assert(resolve(sc, self.arch_decl(id)) == Some(e));
                    assert(sc == self.scope_entries_of(self.owner(id.0)));
                }
                return e;
            }
            k = k + 1;
        }
        proof {
            let q = choose|q: int| 0 <= q < bound_pairs(sc, decls).len() && bound_pairs(sc, decls)[q] == (id, resolve(sc, self.arch_decl(id))->Some_0);
            assert(table.by_arch@[q].0 == id);
        }
        EntityRef(id.0)
    }

    /// The low-level entity that architecture `id` is synthesized into,
    /// computed once: an entity named after the architecture's entity and
    /// the architecture, joined by an underscore, added to `llmod`. Fails
    /// exactly when the architectures of its library cannot be bound.
    pub fn lldef(&mut self, id: ArchRef) -> (r: Result<DefValueRef, ()>)
        requires
            old(self).wf(),
            old(self).is_lowered_arch(id),
        ensures
            Scoreboard::lldef_post(*old(self), *final(self), id, r),
    {
        if let Some(v) = self.lldef_table.get(id.0) {
            proof {
                assert(old(self).sess.emitted().is_prefix_of(self.sess.emitted()));
            }
            return Ok(DefValueRef(v));
        }
        let ghost s0 = *self;
        self.counts.lldef = bumped(self.counts.lldef);
        proof {
            lemma_wf_frame(s0, *self);
            let l = self.hir_of(self.owner(id.0));
            let j = choose|j: int| 0 <= j < l.archs@.len() && l.archs@[j] == id;
            assert(lib_ids(l, 5)[j] == id.0);
            assert(self.is_linked(l));
            assert(self.is_unit_of_kind(lib_ids(l, 5)[j], 5));
        }
        let lib = self.owner_lib(id.0);
        let ghost s1 = *self;
        let t = match self.archs(lib) {
            Ok(t) => t,
            Err(e) => {
                proof {
                    lemma_grows_trans(s0, s1, *self);
                }
                return Err(e);
            },
        };
        let ghost s2 = *self;
        proof {
            lemma_entries_kept(s1, s2);
            lemma_nodes_grow(s1, s2);
            let n = lib.0;
            assert(s1.hir_table@.contains_key(n));
            assert(s2.hir_table@.contains_key(n));
            assert(s2.hir_of(lib) == s1.hir_of(lib));
            assert(s1.record(id.0) is Some);
            assert(s2.owner(id.0) == lib);
        }
        let e = self.bound_entity(t, id);
        proof {
            let sc = self.scope_entries_of(lib);
            let n = self.arch_decl(id).target.ident->Some_0;
            lemma_lookup_found(sc, n@);
            let i = choose|i: int| 0 <= i < sc.len() && sc[i] == lookup(sc, n@)->Some_0;
            let defs = lib_defs(self.hir_of(lib));
            assert(self.is_scope_of(lib, self.arenas.scopes@[self.def_table@[lib.0] as int]));
            assert(sc[i].def == defs[i]);
            assert(def_id(defs[i]) == e.0);
        }
        let (ep, eu) = self.unit_place(e.0);
        let (ap, au) = self.unit_place(id.0);
        let mut name = self.libs[ep].units[eu].name.clone();
        name.append("_");
        name.append(self.libs[ap].units[au].name.as_str());
        proof {
            reveal_strlit("_");
        }
        let v = add_entity(&mut self.llmod, &name);
        let ghost s3 = *self;
        self.lldef_table.insert(id.0, v);
        proof {
            lemma_wf_frame(s2, s3);
            lemma_wf_frame(s3, *self);
            lemma_grows_trans(s0, s1, s2);
            assert(s2.grows_to(*self));
            lemma_grows_trans(s0, s2, *self);
            assert(self.lldef_name(id) == name@);
        }
        Ok(DefValueRef(v))
    }
}


impl Scoreboard {
    /// The design unit that `n` names, with the library it belongs to.
    pub fn ast(&self, n: NodeId) -> (r: (LibRef, &DesignUnit))
        requires
            self.wf(),
            self.record(n) matches Some(NodeRecord::Unit { .. }),
        ensures
            r.0 == self.owner(n),
            *r.1 == self.unit(n),
    {
        let (p, u) = self.unit_place(n);
        let lib = self.owner_lib(n);
        (lib, &self.libs[p].units[u])
    }

    /// The prototype of node `id` in the low-level module: the one recorded
    /// for it, or else its definition. Synthesizing a prototype from an
    /// interface is not supported, so the node must have one of the two.
    pub fn lldecl(&mut self, id: NodeId) -> (r: Result<DeclValueRef, ()>)
        requires
            old(self).wf(),
            old(self).lldecl_table@.contains_key(id) || old(self).lldef_table@.contains_key(id),
        ensures
            *final(self) == *old(self),
            r == Ok::<DeclValueRef, ()>(
                DeclValueRef(
                    if old(self).lldecl_table@.contains_key(id) {
                        old(self).lldecl_table@[id]
                    } else {
                        old(self).lldef_table@[id]
                    },
                ),
            ),
    {
        if let Some(v) = self.lldecl_table.get(id) {
            return Ok(DeclValueRef(v));
        }
        match self.lldef_table.get(id) {
            Some(v) => Ok(DeclValueRef(v)),
            None => Err(()),
        }
    }
}

/// Asking for the scope of a library a second time gives the same handle and
/// computes nothing.
pub proof fn lemma_defs_once(s0: Scoreboard, s1: Scoreboard, s2: Scoreboard, id: ScopeRef, h: usize, r: Result<usize, ()>)
    requires
        Scoreboard::defs_post(s0, s1, id, Ok(h)),
        Scoreboard::defs_post(s1, s2, id, r),
    ensures
        r == Ok::<usize, ()>(h),
        s2 == s1,
{
}

/// Asking for the architecture table of a library a second time gives the
/// same handle and computes nothing.
pub proof fn lemma_archs_once(s0: Scoreboard, s1: Scoreboard, s2: Scoreboard, id: LibRef, h: usize, r: Result<usize, ()>)
    requires
        Scoreboard::archs_post(s0, s1, id, Ok(h)),
        Scoreboard::archs_post(s1, s2, id, r),
    ensures
        r == Ok::<usize, ()>(h),
        s2 == s1,
{
}

/// Asking for the definition of an architecture a second time gives the same
/// unit and synthesizes nothing more.
pub proof fn lemma_lldef_once(s0: Scoreboard, s1: Scoreboard, s2: Scoreboard, id: ArchRef, v: DefValueRef, r: Result<DefValueRef, ()>)
    requires
        Scoreboard::lldef_post(s0, s1, id, Ok(v)),
        Scoreboard::lldef_post(s1, s2, id, r),
    ensures
        r == Ok::<DefValueRef, ()>(v),
        s2 == s1,
        module_units(s2.llmod) == module_units(s1.llmod),
{
}

/// A built architecture table has exactly one entry for each entity of the
/// library, in order, however many architectures there are.
pub proof fn lemma_one_entry_per_entity(s0: Scoreboard, s1: Scoreboard, id: LibRef, h: usize)
    requires
        Scoreboard::archs_post(s0, s1, id, Ok(h)),
    ensures
        s1.arenas.archs@[h as int].by_entity@.len() == s1.hir_of(id).entities@.len(),
        forall|i: int|
            0 <= i < s1.hir_of(id).entities@.len() ==> (#[trigger] s1.arenas.archs@[h as int].by_entity@[i]).entity
                == s1.hir_of(id).entities@[i],
{
    let t = s1.arenas.archs@[h as int];
    assert forall|i: int| 0 <= i < s1.hir_of(id).entities@.len() implies (#[trigger] t.by_entity@[i]).entity
        == s1.hir_of(id).entities@[i] by {
        assert(crate::arch::is_entity_table(
            t.by_entity@[i],
            s1.scope_entries_of(id),
            s1.arch_decls(s1.hir_of(id).archs@),
            s1.hir_of(id).entities@[i],
        ));
    }
}


/// Lowering two libraries one after the other: every reference of the
/// second is greater than every reference of the first.
pub proof fn lemma_lowerings_increase(
    s0: Scoreboard,
    s1: Scoreboard,
    s2: Scoreboard,
    a: LibRef,
    b: LibRef,
    ha: usize,
    hb: usize,
    k1: int,
    i1: int,
    k2: int,
    i2: int,
)
    requires
        s0.has_lib(a),
        !s0.hir_table@.contains_key(a.0),
        Scoreboard::hir_post(s0, s1, a, Ok(ha)),
        !s1.hir_table@.contains_key(b.0),
        Scoreboard::hir_post(s1, s2, b, Ok(hb)),
        0 <= k1 < 7,
        0 <= i1 < lib_ids(s1.arenas.hir.lib@[ha as int], k1).len(),
        0 <= k2 < 7,
        0 <= i2 < lib_ids(s2.arenas.hir.lib@[hb as int], k2).len(),
    ensures
        lib_ids(s1.arenas.hir.lib@[ha as int], k1)[i1].raw() < lib_ids(s2.arenas.hir.lib@[hb as int], k2)[i2].raw(),
{
    let la = s1.arenas.hir.lib@[ha as int];
    let lb = s2.arenas.hir.lib@[hb as int];
    lemma_positions_bound(s0.lib_units(a), k1);
    lemma_positions_bound(s1.lib_units(b), k2);
    assert(lib_ids(la, k1)[i1].raw() == s0.ids.next() + positions(s0.lib_units(a), k1)[i1]);
    assert(lib_ids(la, k1).len() == positions(s1.lib_units(a), k1).len());
    assert(s1.record(a.0) == s0.record(a.0));
    assert(s1.lib_units(a) == s0.lib_units(a));
    assert(lib_ids(lb, k2)[i2].raw() == s1.ids.next() + positions(s1.lib_units(b), k2)[i2]);
}


/// Synthesizing two architectures one after the other keeps both entities:
/// they stand under distinct units, each with its own name.
pub proof fn lemma_definitions_kept(
    s0: Scoreboard,
    s1: Scoreboard,
    s2: Scoreboard,
    a: ArchRef,
    b: ArchRef,
    va: DefValueRef,
    vb: DefValueRef,
)
    requires
        !s0.lldef_table@.contains_key(a.0),
        Scoreboard::lldef_post(s0, s1, a, Ok(va)),
        !s1.lldef_table@.contains_key(b.0),
        Scoreboard::lldef_post(s1, s2, b, Ok(vb)),
    ensures
        va != vb,
        module_units(s2.llmod) == module_units(s0.llmod).insert(va.0, s1.lldef_name(a)).insert(vb.0, s2.lldef_name(b)),
        module_units(s2.llmod)[va.0] == s1.lldef_name(a),
        module_units(s2.llmod)[vb.0] == s2.lldef_name(b),
{
    assert(module_units(s1.llmod).contains_key(va.0));
}

} // verus!
