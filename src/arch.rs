//! Binding the architectures of a library to their entities.

use vstd::prelude::*;
use crate::diag::{defined_here_message, invalid_entity_name_message, not_an_entity_message, unknown_entity_message, Diag, Severity};
use crate::refs::{ArchRef, Def, EntityRef};
use crate::scope::{lemma_take_last, lookup, Scope, ScopeEntry};
use crate::syntax::ArchTarget;

verus! {

/// An architecture body as the binding reads it: its reference, its name and
/// the name of the entity it is declared for.
#[derive(Debug)]
pub struct ArchDecl {
    pub arch: ArchRef,
    pub name: String,
    pub target: ArchTarget,
}

/// An architecture under its name.
#[derive(Debug)]
pub struct NamedArch {
    pub name: String,
    pub arch: ArchRef,
}

/// The architectures bound to one entity.
#[derive(Debug)]
pub struct EntityArchTable {
    pub entity: EntityRef,
    /// The architectures, in the order of declaration.
    pub ordered: Vec<ArchRef>,
    /// The architectures under their names, in the order of declaration. A
    /// name resolves to the last architecture declared under it.
    pub by_name: Vec<NamedArch>,
}

/// The architectures of a library and how they relate to its entities.
#[derive(Debug)]
pub struct ArchTable {
    /// Each bound architecture with its entity, in the order of declaration.
    pub by_arch: Vec<(ArchRef, EntityRef)>,
    /// One table for each entity of the library, in the order of declaration.
    pub by_entity: Vec<EntityArchTable>,
}

/// The entity that an architecture binds to in scope `s`, if any: its target
/// must be a plain identifier that resolves to an entity.
pub open spec fn resolve(s: Seq<ScopeEntry>, a: ArchDecl) -> Option<EntityRef> {
    match a.target.ident {
        None => None,
        Some(n) => match lookup(s, n@) {
            Some(e) => match e.def {
                Def::Entity(x) => Some(x),
                _ => None,
            },
            None => None,
        },
    }
}

/// Whether `d` is the report for an architecture that does not bind.
pub open spec fn is_binding_report(d: Diag, s: Seq<ScopeEntry>, a: ArchDecl) -> bool {
    let t = a.target;
    match t.ident {
        None => d.is_error_at(invalid_entity_name_message(t.text@), t.span),
        Some(n) => match lookup(s, n@) {
            None => d.is_error_at(unknown_entity_message(n@), t.span),
            Some(e) => {
                &&& d.severity == Severity::Error
                &&& d.message@ == not_an_entity_message(n@)
                &&& d.spans@ == seq![t.span]
                &&& d.notes@.len() == 1
                &&& d.notes@[0].message@ == defined_here_message(n@)
                &&& d.notes@[0].span == e.span
            },
        },
    }
}

/// The architectures among `archs` that do not bind, in order.
pub open spec fn unbound(s: Seq<ScopeEntry>, archs: Seq<ArchDecl>) -> Seq<ArchDecl>
    decreases archs.len(),
{
    if archs.len() == 0 {
        Seq::empty()
    } else {
        unbound(s, archs.drop_last()) + if resolve(s, archs.last()) is None {
            seq![archs.last()]
        } else {
            Seq::empty()
        }
    }
}

/// Each architecture among `archs` that binds, with its entity, in order.
pub open spec fn bound_pairs(s: Seq<ScopeEntry>, archs: Seq<ArchDecl>) -> Seq<(ArchRef, EntityRef)>
    decreases archs.len(),
{
    if archs.len() == 0 {
        Seq::empty()
    } else {
        bound_pairs(s, archs.drop_last()) + match resolve(s, archs.last()) {
            Some(e) => seq![(archs.last().arch, e)],
            None => Seq::empty(),
        }
    }
}

/// The architectures among `archs` that bind to entity `e`, in order.
pub open spec fn bound_to(s: Seq<ScopeEntry>, archs: Seq<ArchDecl>, e: EntityRef) -> Seq<ArchDecl>
    decreases archs.len(),
{
    if archs.len() == 0 {
        Seq::empty()
    } else {
        bound_to(s, archs.drop_last(), e) + if resolve(s, archs.last()) == Some(e) {
            seq![archs.last()]
        } else {
            Seq::empty()
        }
    }
}

/// Whether `v` lists the architectures of `decls`, in order.
pub open spec fn lists_archs(v: Seq<ArchRef>, decls: Seq<ArchDecl>) -> bool {
    &&& v.len() == decls.len()
    &&& forall|i: int| 0 <= i < v.len() ==> v[i] == #[trigger] decls[i].arch
}

/// Whether `v` lists the architectures of `decls` under their names, in order.
pub open spec fn names_archs(v: Seq<NamedArch>, decls: Seq<ArchDecl>) -> bool {
    &&& v.len() == decls.len()
    &&& forall|i: int| 0 <= i < v.len() ==> v[i].arch == (#[trigger] decls[i]).arch && v[i].name@ == decls[i].name@
}

/// The architecture that `n` names among `v`: the last one declared under it.
pub open spec fn arch_named(v: Seq<NamedArch>, n: Seq<char>) -> Option<ArchRef>
    decreases v.len(),
{
    if v.len() == 0 {
        None
    } else if v.last().name@ == n {
        Some(v.last().arch)
    } else {
        arch_named(v.drop_last(), n)
    }
}

/// Whether `t` is the table of entity `e` for `archs` in scope `s`.
pub open spec fn is_entity_table(t: EntityArchTable, s: Seq<ScopeEntry>, archs: Seq<ArchDecl>, e: EntityRef) -> bool {
    &&& t.entity == e
    &&& lists_archs(t.ordered@, bound_to(s, archs, e))
    &&& names_archs(t.by_name@, bound_to(s, archs, e))
}

/// Whether `t` is the architecture table of a library with `entities` and
/// `archs`, in scope `s`: one entry for each entity, whether or not any
/// architecture binds to it.
pub open spec fn is_arch_table(t: ArchTable, s: Seq<ScopeEntry>, entities: Seq<EntityRef>, archs: Seq<ArchDecl>) -> bool {
    &&& t.by_arch@ == bound_pairs(s, archs)
    &&& t.by_entity@.len() == entities.len()
    &&& forall|i: int| 0 <= i < entities.len() ==> is_entity_table(#[trigger] t.by_entity@[i], s, archs, entities[i])
}

/// Each bound pair comes from an architecture that binds to its entity.
pub proof fn lemma_bound_pair_origin(s: Seq<ScopeEntry>, archs: Seq<ArchDecl>, k: int)
    requires
        0 <= k < bound_pairs(s, archs).len(),
    ensures
        exists|j: int|
            0 <= j < archs.len() && resolve(s, #[trigger] archs[j]) == Some(bound_pairs(s, archs)[k].1)
                && archs[j].arch == bound_pairs(s, archs)[k].0,
    decreases archs.len(),
{
    let b0 = bound_pairs(s, archs.drop_last());
    if k < b0.len() {
        lemma_bound_pair_origin(s, archs.drop_last(), k);
        let j = choose|j: int|
            0 <= j < archs.drop_last().len() && resolve(s, #[trigger] archs.drop_last()[j]) == Some(b0[k].1)
                && archs.drop_last()[j].arch == b0[k].0;
        assert(archs[j] == archs.drop_last()[j]);
    } else {
        assert(archs[archs.len() - 1] == archs.last());
    }
}

/// An architecture that binds is among the bound pairs, with its entity.
pub proof fn lemma_bound_contains(s: Seq<ScopeEntry>, archs: Seq<ArchDecl>, j: int)
    requires
        0 <= j < archs.len(),
        resolve(s, archs[j]) is Some,
    ensures
        bound_pairs(s, archs).contains((archs[j].arch, resolve(s, archs[j])->Some_0)),
    decreases archs.len(),
{
    let b0 = bound_pairs(s, archs.drop_last());
    let b = bound_pairs(s, archs);
    if j == archs.len() - 1 {
        assert(b == b0.push((archs.last().arch, resolve(s, archs.last())->Some_0)));
        assert(b[b.len() - 1] == (archs[j].arch, resolve(s, archs[j])->Some_0));
    } else {
        assert(archs.drop_last()[j] == archs[j]);
        lemma_bound_contains(s, archs.drop_last(), j);
        let k = choose|k: int| 0 <= k < b0.len() && b0[k] == (archs[j].arch, resolve(s, archs[j])->Some_0);
        assert(b[k] == b0[k]);
    }
}

/// An architecture that does not bind is among the unbound ones.
pub proof fn lemma_unbound_contains(s: Seq<ScopeEntry>, archs: Seq<ArchDecl>, j: int)
    requires
        0 <= j < archs.len(),
        resolve(s, archs[j]) is None,
    ensures
        unbound(s, archs).contains(archs[j]),
    decreases archs.len(),
{
    let u0 = unbound(s, archs.drop_last());
    let u = unbound(s, archs);
    if j == archs.len() - 1 {
        assert(u == u0.push(archs.last()));
        assert(u[u.len() - 1] == archs[j]);
    } else {
        assert(archs.drop_last()[j] == archs[j]);
        lemma_unbound_contains(s, archs.drop_last(), j);
        let k = choose|k: int| 0 <= k < u0.len() && u0[k] == archs[j];
        assert(u[k] == u0[k]);
    }
}

/// When no architecture fails to bind, each one is bound, with the entity it
/// resolves to.
pub proof fn lemma_all_bound(s: Seq<ScopeEntry>, archs: Seq<ArchDecl>, j: int)
    requires
        unbound(s, archs).len() == 0,
        0 <= j < archs.len(),
    ensures
        resolve(s, archs[j]) is Some,
        bound_pairs(s, archs).contains((archs[j].arch, resolve(s, archs[j])->Some_0)),
{
    if resolve(s, archs[j]) is None {
        lemma_unbound_contains(s, archs, j);
    }
    lemma_bound_contains(s, archs, j);
}

/// Binding goes on past failures. An architecture whose target names
/// nothing in scope is reported and left out of the table, while every
/// architecture that resolves is bound to its entity.
pub proof fn lemma_fail_slow(s: Seq<ScopeEntry>, archs: Seq<ArchDecl>, j: int)
    requires
        0 <= j < archs.len(),
        archs[j].target.ident is Some,
        lookup(s, archs[j].target.ident->Some_0@) is None,
        forall|a: int, b: int| 0 <= a < b < archs.len() ==> archs[a].arch != archs[b].arch,
    ensures
        unbound(s, archs).contains(archs[j]),
        forall|k: int| 0 <= k < bound_pairs(s, archs).len() ==> (#[trigger] bound_pairs(s, archs)[k]).0 != archs[j].arch,
        forall|k: int|
            0 <= k < archs.len() && resolve(s, #[trigger] archs[k]) is Some ==> bound_pairs(s, archs).contains(
                (archs[k].arch, resolve(s, archs[k])->Some_0),
            ),
{
    lemma_unbound_contains(s, archs, j);
    assert forall|k: int| 0 <= k < bound_pairs(s, archs).len() implies (#[trigger] bound_pairs(s, archs)[k]).0 != archs[j].arch by {
        lemma_bound_pair_origin(s, archs, k);
        let q = choose|q: int|
            0 <= q < archs.len() && resolve(s, #[trigger] archs[q]) == Some(bound_pairs(s, archs)[k].1)
                && archs[q].arch == bound_pairs(s, archs)[k].0;
        if q != j {
            if q < j {
                assert(archs[q].arch != archs[j].arch);
            } else {
                assert(archs[j].arch != archs[q].arch);
            }
        }
    }
    assert forall|k: int|
        0 <= k < archs.len() && resolve(s, #[trigger] archs[k]) is Some implies bound_pairs(s, archs).contains(
            (archs[k].arch, resolve(s, archs[k])->Some_0),
        ) by {
        lemma_bound_contains(s, archs, k);
    }
}

/// Resolves the target of `a` in `scope`: the entity it binds to, or the
/// report of why it does not.
fn resolve_arch(scope: &Scope, a: &ArchDecl) -> (r: Result<EntityRef, Diag>)
    ensures
        match r {
            Ok(e) => resolve(scope.entries@, *a) == Some(e),
            Err(d) => resolve(scope.entries@, *a) is None && is_binding_report(d, scope.entries@, *a),
        },
{
    match &a.target.ident {
        None => Err(Diag::invalid_entity_name(&a.target.text, a.target.span)),
        Some(n) => match scope.find(n) {
            None => Err(Diag::unknown_entity(n, a.target.span)),
            Some(k) => match scope.entries[k].def {
                Def::Entity(x) => Ok(x),
                _ => Err(Diag::not_an_entity(n, a.target.span, scope.entries[k].span)),
            },
        },
    }
}

impl EntityArchTable {
    pub fn new(entity: EntityRef) -> (r: EntityArchTable)
        ensures
            r.entity == entity,
            r.ordered@.len() == 0,
            r.by_name@.len() == 0,
    {
        EntityArchTable { entity, ordered: Vec::new(), by_name: Vec::new() }
    }

    /// The architecture declared last under `name`.
    pub fn get_by_name(&self, name: &String) -> (r: Option<ArchRef>)
        ensures
            r == arch_named(self.by_name@, name@),
    {
        let mut i: usize = self.by_name.len();
        proof {
            assert(self.by_name@.take(i as int) =~= self.by_name@);
        }
        while i > 0
            invariant
                0 <= i <= self.by_name@.len(),
                arch_named(self.by_name@, name@) == arch_named(self.by_name@.take(i as int), name@),
            decreases i,
        {
            proof {
                lemma_take_last(self.by_name@, i - 1);
            }
            if self.by_name[i - 1].name == *name {
                return Some(self.by_name[i - 1].arch);
            }
            i = i - 1;
        }
        None
    }
}

impl ArchTable {
    pub fn new() -> (r: ArchTable)
        ensures
            r.by_arch@.len() == 0,
            r.by_entity@.len() == 0,
    {
        ArchTable { by_arch: Vec::new(), by_entity: Vec::new() }
    }
}

/// The table of entity `e`: the architectures among `archs` whose
/// resolution, given in `results`, is `e`.
fn entity_table(archs: &Vec<ArchDecl>, results: &Vec<Option<EntityRef>>, e: EntityRef, s: Ghost<Seq<ScopeEntry>>) -> (r: EntityArchTable)
    requires
        results@.len() == archs@.len(),
        forall|j: int| 0 <= j < archs@.len() ==> results@[j] == resolve(s@, #[trigger] archs@[j]),
    ensures
        is_entity_table(r, s@, archs@, e),
{
    let mut t = EntityArchTable::new(e);
    let mut j: usize = 0;
    while j < archs.len()
        invariant
            results@.len() == archs@.len(),
            forall|j: int| 0 <= j < archs@.len() ==> results@[j] == resolve(s@, #[trigger] archs@[j]),
            0 <= j <= archs@.len(),
            is_entity_table(t, s@, archs@.take(j as int), e),
        decreases archs@.len() - j,
    {
        proof {
            lemma_take_last(archs@, j as int);
        }
        let hit = match results[j] {
            Some(x) => x == e,
            None => false,
        };
        if hit {
            t.ordered.push(archs[j].arch);
            t.by_name.push(NamedArch { name: archs[j].name.clone(), arch: archs[j].arch });
        }
        proof {
            let b = bound_to(s@, archs@.take(j + 1), e);
            let b0 = bound_to(s@, archs@.take(j as int), e);
            if hit {
                assert(b == b0.push(archs@[j as int]));
                assert forall|i: int| 0 <= i < t.ordered@.len() implies t.ordered@[i] == #[trigger] b[i].arch by {
                    if i < b0.len() {
                        assert(b[i] == b0[i]);
                    }
                }
                assert forall|i: int| 0 <= i < t.by_name@.len() implies t.by_name@[i].arch == (#[trigger] b[i]).arch
                    && t.by_name@[i].name@ == b[i].name@ by {
                    if i < b0.len() {
                        assert(b[i] == b0[i]);
                    }
                }
            } else {
                assert(b =~= b0);
            }
        }
        j = j + 1;
    }
    proof {
        assert(archs@.take(archs@.len() as int) =~= archs@);
    }
    t
}

/// Binds each architecture of `archs` to its entity in `scope`, trying every
/// one of them. Returns the table of those that bind, with one entry for
/// each of `entities`, and a report for each that does not, in order.
pub fn bind_archs(entities: &Vec<EntityRef>, archs: &Vec<ArchDecl>, scope: &Scope) -> (r: (ArchTable, Vec<Diag>))
    ensures
        is_arch_table(r.0, scope.entries@, entities@, archs@),
        r.1@.len() == unbound(scope.entries@, archs@).len(),
        forall|i: int| 0 <= i < r.1@.len() ==> is_binding_report(
            #[trigger] r.1@[i],
            scope.entries@,
            unbound(scope.entries@, archs@)[i],
        ),
{
    let ghost s = scope.entries@;
    let mut table = ArchTable::new();
    let mut diags: Vec<Diag> = Vec::new();
    let mut results: Vec<Option<EntityRef>> = Vec::new();
    let mut j: usize = 0;
    while j < archs.len()
        invariant
            s == scope.entries@,
            0 <= j <= archs@.len(),
            results@.len() == j,
            forall|k: int| 0 <= k < j ==> results@[k] == resolve(s, #[trigger] archs@[k]),
            table.by_arch@ == bound_pairs(s, archs@.take(j as int)),
            table.by_entity@.len() == 0,
            diags@.len() == unbound(s, archs@.take(j as int)).len(),
            forall|i: int| 0 <= i < diags@.len() ==> is_binding_report(
                #[trigger] diags@[i],
                s,
                unbound(s, archs@.take(j as int))[i],
            ),
        decreases archs@.len() - j,
    {
        proof {
            lemma_take_last(archs@, j as int);
        }
        let ghost u0 = unbound(s, archs@.take(j as int));
        let ghost d0 = diags@;
        match resolve_arch(scope, &archs[j]) {
            Ok(e) => {
                table.by_arch.push((archs[j].arch, e));
                results.push(Some(e));
                proof {
                    assert(unbound(s, archs@.take(j + 1)) =~= u0);
                }
            },
            Err(d) => {
                diags.push(d);
                results.push(None);
                proof {
                    let u = unbound(s, archs@.take(j + 1));
                    assert(u == u0.push(archs@[j as int]));
                    assert forall|i: int| 0 <= i < diags@.len() implies is_binding_report(
                        #[trigger] diags@[i],
                        s,
                        u[i],
                    ) by {
                        if i < d0.len() {
                            assert(diags@[i] == d0[i]);
                            assert(u[i] == u0[i]);
                        }
                    }
                    assert(bound_pairs(s, archs@.take(j + 1)) =~= bound_pairs(s, archs@.take(j as int)));
                }
            },
        }
        j = j + 1;
    }
    proof {
        assert(archs@.take(archs@.len() as int) =~= archs@);
    }
    let mut i: usize = 0;
    while i < entities.len()
        invariant
            s == scope.entries@,
            results@.len() == archs@.len(),
            forall|k: int| 0 <= k < archs@.len() ==> results@[k] == resolve(s, #[trigger] archs@[k]),
            table.by_arch@ == bound_pairs(s, archs@),
            0 <= i <= entities@.len(),
            table.by_entity@.len() == i,
            forall|k: int| 0 <= k < i ==> is_entity_table(#[trigger] table.by_entity@[k], s, archs@, entities@[k]),
        decreases entities@.len() - i,
    {
        let t = entity_table(archs, &results, entities[i], Ghost(s));
        table.by_entity.push(t);
        i = i + 1;
    }
    (table, diags)
}

} // verus!
