use llhd::ir::UnitName;
use moore_vhdl::arch::{bind_archs, ArchDecl};
use moore_vhdl::diag::{Session, SessionOptions};
use moore_vhdl::id::{NodeId, NodeIdGen};
use moore_vhdl::refs::{ArchRef, Def, EntityRef, LibRef, ScopeRef};
use moore_vhdl::scope::{build_scope, collision_reports, ScopeEntry};
use moore_vhdl::score::{DefValueRef, Scoreboard};
use moore_vhdl::syntax::{ArchTarget, CtxItem, DesignUnit, Span, UnitData};

fn span(b: usize, e: usize) -> Span {
    Span { begin: b, end: e }
}

fn unit(name: &str, at: usize, data: UnitData) -> DesignUnit {
    DesignUnit { ctx: vec![], name: name.to_string(), name_span: span(at, at + name.len()), data }
}

fn entity(name: &str, at: usize) -> DesignUnit {
    unit(name, at, UnitData::EntityDecl)
}

fn arch(name: &str, target: &str, at: usize) -> DesignUnit {
    let t = ArchTarget { span: span(at + 100, at + 100 + target.len()), text: target.to_string(), ident: Some(target.to_string()) };
    unit(name, at, UnitData::ArchBody(t))
}

fn board(ignore_duplicate_defs: bool) -> Scoreboard {
    Scoreboard::new(Session::new(SessionOptions { ignore_duplicate_defs, trace_scoreboard: false }))
}

fn add(sb: &mut Scoreboard, units: Vec<DesignUnit>) -> LibRef {
    let id = LibRef(sb.new_node_id());
    sb.add_library(id, units);
    id
}

fn messages(sb: &Scoreboard) -> Vec<String> {
    sb.sess.diagnostics().iter().map(|d| d.message.clone()).collect()
}

fn global_names(sb: &Scoreboard) -> Vec<String> {
    sb.llmod
        .units()
        .map(|u| match u.name() {
            UnitName::Global(s) => s.clone(),
            other => format!("{:?}", other),
        })
        .collect()
}

#[test]
fn node_id_conversions() {
    assert_eq!(NodeId::new(5).as_usize(), 5);
    assert_eq!(NodeId::new(5).as_u32(), 5);
    assert_eq!(NodeId::from_u32(7).as_usize(), 7);
    assert_eq!(NodeId::from_u32(u32::MAX - 1).as_u32(), u32::MAX - 1);
}

#[test]
fn allocation_is_strictly_increasing() {
    let mut g = NodeIdGen::new();
    let mut last = g.allocate();
    for _ in 0..100 {
        let next = g.allocate();
        assert!(next.as_u32() > last.as_u32());
        last = next;
    }
}

#[test]
fn lowering_refs_increase_in_source_order() {
    let mut sb = board(false);
    let lib = add(&mut sb, vec![entity("a", 0), entity("b", 10), arch("rtl", "a", 20), entity("c", 30)]);
    let h = sb.hir(lib).unwrap();
    let l = &sb.arenas.hir.lib[h];
    let ids: Vec<u32> = l.entities.iter().map(|e| e.0.as_u32()).collect();
    assert_eq!(ids.len(), 3);
    assert!(ids[0] < ids[1] && ids[1] < ids[2]);
    assert!(lib.0.as_u32() < ids[0]);
    // Units are numbered in source order, whatever their kind.
    assert_eq!(l.archs[0].0.as_u32(), ids[1] + 1);
    assert_eq!(ids[2], ids[0] + 3);
}

#[test]
fn later_libraries_get_greater_references() {
    let mut sb = board(false);
    let first = add(&mut sb, vec![entity("a", 0), entity("b", 10)]);
    let second = add(&mut sb, vec![entity("c", 0)]);
    let h1 = sb.hir(first).unwrap();
    let h2 = sb.hir(second).unwrap();
    let max1 = sb.arenas.hir.lib[h1].entities.iter().map(|e| e.0.as_u32()).max().unwrap();
    let min2 = sb.arenas.hir.lib[h2].entities.iter().map(|e| e.0.as_u32()).min().unwrap();
    assert!(max1 < min2);
}

#[test]
fn lowering_groups_units_by_kind() {
    let mut sb = board(false);
    let units = vec![
        entity("e1", 0),
        unit("cfg", 10, UnitData::CfgDecl),
        unit("pkg", 20, UnitData::PkgDecl),
        unit("inst", 30, UnitData::PkgInst),
        unit("ctx", 40, UnitData::CtxDecl),
        arch("rtl", "e1", 50),
        unit("pkg", 60, UnitData::PkgBody),
        entity("e2", 70),
    ];
    let lib = add(&mut sb, units);
    let h = sb.hir(lib).unwrap();
    let l = &sb.arenas.hir.lib[h];
    assert_eq!(l.entities.len(), 2);
    assert_eq!(l.cfgs.len(), 1);
    assert_eq!(l.pkg_decls.len(), 1);
    assert_eq!(l.pkg_insts.len(), 1);
    assert_eq!(l.ctxs.len(), 1);
    assert_eq!(l.archs.len(), 1);
    assert_eq!(l.pkg_bodies.len(), 1);
    let e2 = l.entities[1].0;
    let a = l.archs[0].0;
    let (owner, u) = sb.ast(e2);
    assert_eq!(owner, lib);
    assert_eq!(u.name, "e2");
    assert_eq!(sb.ast(a).1.name, "rtl");
}

#[test]
fn context_items_stay_with_their_unit() {
    let mut sb = board(false);
    let mut e = entity("e", 0);
    e.ctx = vec![CtxItem { span: span(1, 2) }, CtxItem { span: span(3, 4) }];
    let lib = add(&mut sb, vec![e]);
    let h = sb.hir(lib).unwrap();
    let id = sb.arenas.hir.lib[h].entities[0].0;
    assert_eq!(sb.ast(id).1.ctx.len(), 2);
    assert_eq!(sb.ast(id).1.ctx[1].span, span(3, 4));
}

#[test]
fn hir_is_computed_once() {
    let mut sb = board(false);
    let lib = add(&mut sb, vec![entity("e", 0), arch("a", "e", 10)]);
    let h1 = sb.hir(lib).unwrap();
    let h2 = sb.hir(lib).unwrap();
    assert_eq!(h1, h2);
    assert_eq!(sb.counts.hir, 1);
    assert_eq!(sb.arenas.hir.lib.len(), 1);
}

#[test]
fn queries_are_computed_once() {
    let mut sb = board(false);
    let lib = add(&mut sb, vec![entity("e", 0), arch("a", "e", 10)]);
    let d1 = sb.defs(ScopeRef::Lib(lib)).unwrap();
    let d2 = sb.defs(ScopeRef::Lib(lib)).unwrap();
    assert_eq!(d1, d2);
    let t1 = sb.archs(lib).unwrap();
    let t2 = sb.archs(lib).unwrap();
    assert_eq!(t1, t2);
    assert_eq!(sb.counts.hir, 1);
    assert_eq!(sb.counts.defs, 1);
    assert_eq!(sb.counts.archs, 1);
}

#[test]
fn duplicate_definitions_fail_with_one_report_per_name() {
    let mut sb = board(false);
    let lib = add(&mut sb, vec![
        entity("foo", 0),
        unit("bar", 10, UnitData::PkgDecl),
        entity("baz", 20),
        unit("foo", 30, UnitData::PkgDecl),
        unit("bar", 40, UnitData::CtxDecl),
        unit("foo", 50, UnitData::CfgDecl),
    ]);
    assert_eq!(sb.defs(ScopeRef::Lib(lib)), Err(()));
    let ds = sb.sess.diagnostics();
    assert_eq!(ds.len(), 2);
    assert_eq!(ds[0].message, "`foo` declared multiple times");
    assert_eq!(ds[0].spans, vec![span(0, 3), span(50, 53), span(30, 33)]);
    assert_eq!(ds[1].message, "`bar` declared multiple times");
    assert_eq!(ds[1].spans, vec![span(10, 13), span(40, 43)]);
    assert!(sb.arenas.scopes.is_empty());
    // Nothing was cached: asking again computes the scope again.
    assert_eq!(sb.defs(ScopeRef::Lib(lib)), Err(()));
    assert_eq!(sb.counts.defs, 2);
}

#[test]
fn tolerated_duplicates_keep_the_last_definition() {
    let mut sb = board(true);
    let lib = add(&mut sb, vec![entity("x", 0), unit("x", 10, UnitData::PkgDecl)]);
    let h = sb.defs(ScopeRef::Lib(lib)).unwrap();
    assert!(sb.sess.diagnostics().is_empty());
    let scope = &sb.arenas.scopes[h];
    let k = scope.find(&"x".to_string()).unwrap();
    assert!(matches!(scope.entries[k].def, Def::Pkg(_)));
    assert_eq!(scope.entries[k].span, span(10, 11));
}

#[test]
fn collision_reports_on_entries() {
    let e = |n: &str, i: u32, at: usize| ScopeEntry {
        name: n.to_string(),
        def: Def::Entity(EntityRef(NodeId::from_u32(i))),
        span: span(at, at + 1),
    };
    let entries = vec![e("a", 1, 0), e("b", 2, 5), e("a", 3, 9), e("c", 4, 12), e("a", 5, 20)];
    let ds = collision_reports(&entries);
    assert_eq!(ds.len(), 1);
    assert_eq!(ds[0].spans, vec![span(0, 1), span(9, 10), span(20, 21)]);
    assert!(build_scope(entries, false).is_err());
    let unique = vec![e("a", 1, 0), e("b", 2, 5)];
    assert!(collision_reports(&unique).is_empty());
    assert_eq!(build_scope(unique, false).unwrap().entries.len(), 2);
}

#[test]
fn every_entity_has_an_entry() {
    let mut sb = board(false);
    let lib = add(&mut sb, vec![entity("a", 0), entity("b", 10), entity("c", 20)]);
    let t = sb.archs(lib).unwrap();
    let table = &sb.arenas.archs[t];
    assert_eq!(table.by_entity.len(), 3);
    assert!(table.by_entity.iter().all(|e| e.ordered.is_empty() && e.by_name.is_empty()));
    assert!(table.by_arch.is_empty());
}

#[test]
fn architectures_bind_to_their_entities() {
    let mut sb = board(false);
    let lib = add(&mut sb, vec![entity("e", 0), entity("f", 5), arch("a", "e", 10), arch("b", "f", 20), arch("c", "e", 30)]);
    let t = sb.archs(lib).unwrap();
    let h = sb.hir(lib).unwrap();
    let l = &sb.arenas.hir.lib[h];
    let table = &sb.arenas.archs[t];
    assert_eq!(table.by_entity[0].entity, l.entities[0]);
    assert_eq!(table.by_entity[0].ordered, vec![l.archs[0], l.archs[2]]);
    assert_eq!(table.by_entity[1].ordered, vec![l.archs[1]]);
    assert_eq!(table.by_arch, vec![(l.archs[0], l.entities[0]), (l.archs[1], l.entities[1]), (l.archs[2], l.entities[0])]);
    assert_eq!(table.by_entity[0].get_by_name(&"c".to_string()), Some(l.archs[2]));
    assert_eq!(table.by_entity[1].get_by_name(&"c".to_string()), None);
}

#[test]
fn duplicate_architecture_names_last_wins() {
    let mut sb = board(false);
    let lib = add(&mut sb, vec![entity("e", 0), arch("a", "e", 10), arch("a", "e", 20)]);
    let t = sb.archs(lib).unwrap();
    let h = sb.hir(lib).unwrap();
    let second = sb.arenas.hir.lib[h].archs[1];
    let table = &sb.arenas.archs[t];
    assert_eq!(table.by_entity[0].ordered.len(), 2);
    assert_eq!(table.by_entity[0].get_by_name(&"a".to_string()), Some(second));
    assert!(sb.sess.diagnostics().is_empty());
}

#[test]
fn unknown_entity_fails_slowly() {
    let mut sb = board(false);
    let lib = add(&mut sb, vec![entity("e", 0), arch("bad", "nope", 10), arch("good", "e", 20), arch("worse", "none", 30)]);
    assert_eq!(sb.archs(lib), Err(()));
    assert_eq!(messages(&sb), vec!["Unknown entity `nope`".to_string(), "Unknown entity `none`".to_string()]);
    assert_eq!(sb.sess.diagnostics()[0].spans, vec![span(110, 114)]);
    assert!(sb.arenas.archs.is_empty());

    // The binding itself still binds the valid architecture.
    let h = sb.hir(lib).unwrap();
    let d = sb.defs(ScopeRef::Lib(lib)).unwrap();
    let l = &sb.arenas.hir.lib[h];
    let decls: Vec<ArchDecl> = vec![
        ArchDecl { arch: l.archs[0], name: "bad".to_string(), target: ArchTarget { span: span(110, 114), text: "nope".to_string(), ident: Some("nope".to_string()) } },
        ArchDecl { arch: l.archs[1], name: "good".to_string(), target: ArchTarget { span: span(120, 121), text: "e".to_string(), ident: Some("e".to_string()) } },
    ];
    let (table, ds) = bind_archs(&l.entities, &decls, &sb.arenas.scopes[d]);
    assert_eq!(ds.len(), 1);
    assert_eq!(table.by_arch, vec![(l.archs[1], l.entities[0])]);
    assert_eq!(table.by_entity[0].ordered, vec![l.archs[1]]);
}

#[test]
fn target_that_is_not_an_entity() {
    let mut sb = board(false);
    let lib = add(&mut sb, vec![unit("p", 0, UnitData::PkgDecl), arch("a", "p", 10)]);
    assert_eq!(sb.archs(lib), Err(()));
    let ds = sb.sess.diagnostics();
    assert_eq!(ds.len(), 1);
    assert_eq!(ds[0].message, "`p` is not an entity");
    assert_eq!(ds[0].notes.len(), 1);
    assert_eq!(ds[0].notes[0].message, "`p` defined here:");
    assert_eq!(ds[0].notes[0].span, span(0, 1));
}

#[test]
fn target_that_is_not_an_identifier() {
    let mut sb = board(false);
    let t = ArchTarget { span: span(7, 12), text: "work.e".to_string(), ident: None };
    let lib = add(&mut sb, vec![entity("e", 0), unit("a", 20, UnitData::ArchBody(t))]);
    assert_eq!(sb.archs(lib), Err(()));
    assert_eq!(messages(&sb), vec!["`work.e` is not a valid entity name".to_string()]);
    assert_eq!(sb.sess.diagnostics()[0].spans, vec![span(7, 12)]);
}

#[test]
fn synthesized_entities_are_named_after_entity_and_architecture() {
    let mut sb = board(false);
    let lib = add(&mut sb, vec![entity("E", 0), arch("A", "E", 10), arch("B", "E", 20)]);
    let h = sb.hir(lib).unwrap();
    let a = sb.arenas.hir.lib[h].archs[0];
    let b = sb.arenas.hir.lib[h].archs[1];
    let va = sb.lldef(a).unwrap();
    let vb = sb.lldef(b).unwrap();
    assert_ne!(va, vb);
    assert_eq!(global_names(&sb), vec!["E_A".to_string(), "E_B".to_string()]);
    assert_eq!(sb.lldef(a).unwrap(), va);
    assert_eq!(sb.counts.lldef, 2);
    assert_eq!(sb.counts.archs, 1);
    assert_eq!(global_names(&sb).len(), 2);
}

#[test]
fn definition_fails_when_binding_fails() {
    let mut sb = board(false);
    let lib = add(&mut sb, vec![entity("E", 0), arch("A", "E", 10), arch("B", "X", 20)]);
    let h = sb.hir(lib).unwrap();
    let a: ArchRef = sb.arenas.hir.lib[h].archs[0];
    assert_eq!(sb.lldef(a), Err(()));
    assert!(global_names(&sb).is_empty());
    assert_eq!(messages(&sb), vec!["Unknown entity `X`".to_string()]);
}

#[test]
fn prototypes_come_from_definitions() {
    let mut sb = board(false);
    let lib = add(&mut sb, vec![entity("E", 0), arch("A", "E", 10), arch("B", "E", 20)]);
    let h = sb.hir(lib).unwrap();
    let a = sb.arenas.hir.lib[h].archs[0];
    let b = sb.arenas.hir.lib[h].archs[1];
    let DefValueRef(v) = sb.lldef(a).unwrap();
    let DefValueRef(w) = sb.lldef(b).unwrap();
    assert_eq!(sb.lldecl(a.0).unwrap().0, v);
    assert_eq!(sb.lldecl(b.0).unwrap().0, w);
    assert!(sb.sess.diagnostics().is_empty());
}
