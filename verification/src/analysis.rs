//! Output collection: walks a module's statements, with the actions decided
//! by the link stage, and collects the bundle's exports, external imports and
//! external star exports.

use vstd::prelude::*;

use crate::emit::{ExportView, export_views};
use crate::exports::{export_origin, external_source, find_external_reexport_source, lemma_external_source_is, reexport_chain_ends, resolve_export_origin, opt_pair_view};
use crate::link_types::{
    ExportedName, ExternalImport, ImportSpecifier, ImportSpecifierKind, ImportView, KindView,
    NamespaceWrapInfo, SpecifierView, StatementAction, import_views, specifier_views, wrap_views,
};
use crate::model::{
    DefaultExportKind, ExportSpecifierSummary, ImportBindingKind, ImportSpecSummary, Module, ModuleIdx,
    ModuleTable, StatementKind, StatementSummary, SymbolId, resolve_internal, root_binding_of,
};
use crate::module_meta::default_name_views;
use crate::namespace::{
    AliasList, CollectState, WrapView, alias_target, collect_module, collect_module_exports, count_false,
    find_alias_target, find_wrap, has_wrap, lemma_count_false_all_pub, lemma_wrap_slot_pub, wrap_slot,
};
use crate::rename::{CanonicalNames, RenameState, contains_name, output_name, str_views};
use crate::text::{str_eq, string_clone};

verus! {

/// An `export * from "src"` of an external module kept in the output.
pub struct ExternalStarExport {
    pub source: String,
    pub is_type_only: bool,
}

/// What the output collection accumulates for one entry.
pub struct GenerateAcc {
    pub exports: Vec<ExportedName>,
    pub imports: Vec<ExternalImport>,
    pub star_exports: Vec<ExternalStarExport>,
    /// Whether any export statement was seen.
    pub has_any_export_statement: bool,
}

/// The accumulator as the contracts see it.
pub struct AccView {
    pub exports: Seq<ExportView>,
    pub imports: Seq<ImportView>,
    pub stars: Seq<(Seq<char>, bool)>,
    pub has_any: bool,
}

impl View for GenerateAcc {
    type V = AccView;

    open spec fn view(&self) -> AccView {
        AccView {
            exports: export_views(self.exports@),
            imports: import_views(self.imports@),
            stars: self.star_exports@.map_values(|s: ExternalStarExport| (s.source@, s.is_type_only)),
            has_any: self.has_any_export_statement,
        }
    }
}

/// The per-entry data the collection reads: namespace-import aliases of the
/// entry and the namespace wrappers.
pub struct EntryNamespaces {
    pub aliases: AliasList,
    pub wraps: Seq<(ModuleIdx, WrapView)>,
}

/// `acc` with export `e` added.
pub open spec fn add_export(acc: AccView, e: ExportView) -> AccView {
    AccView { exports: acc.exports.push(e), imports: acc.imports, stars: acc.stars, has_any: acc.has_any }
}

/// `acc` with import `i` added.
pub open spec fn add_import(acc: AccView, i: ImportView) -> AccView {
    AccView { exports: acc.exports, imports: acc.imports.push(i), stars: acc.stars, has_any: acc.has_any }
}

/// The declared names `names` of module `m` exported under their own names,
/// each pointing at its output name.
pub open spec fn declared_exports(acc: AccView, names: Seq<Seq<char>>, m: Module, cn: RenameState) -> AccView
    decreases names.len(),
{
    if names.len() == 0 {
        acc
    } else {
        add_export(declared_exports(acc, names.drop_last(), m, cn), (output_name(cn, m, names.last()), names.last(), false))
    }
}

/// The import specifiers that bring the re-exported names of
/// `export { .. } from "external"` into scope.
pub open spec fn reexport_import_specs(specs: Seq<ExportSpecifierSummary>) -> Seq<SpecifierView>
    decreases specs.len(),
{
    if specs.len() == 0 {
        Seq::empty()
    } else {
        let sp = specs.last();
        reexport_import_specs(specs.drop_last()).push(SpecifierView {
            local: sp.exported@,
            kind: if sp.local@ == "default"@ { KindView::Default } else { KindView::Named(sp.local@) },
        })
    }
}

/// An import kept for a re-export.
pub open spec fn reexport_import(source: Seq<char>, specifiers: Seq<SpecifierView>) -> ImportView {
    ImportView { source, specifiers, is_type_only: false, side_effect_only: false, from_reexport: true }
}

/// One specifier of the entry's `export { .. } from "src"`: from an internal
/// module the local name is followed to its declaration (or to the external
/// package it passes through, which gets an import), a `default` is replaced
/// by the default export's declaration name, and the output name is taken;
/// from an external module the name is exported as it is.
pub open spec fn entry_reexport_spec(
    acc: AccView,
    sp: ExportSpecifierSummary,
    internal: Option<ModuleIdx>,
    type_only: bool,
    t: Seq<Module>,
    cn: RenameState,
    defaults: Seq<Option<Seq<char>>>,
) -> AccView {
    let is_type = type_only || sp.is_type;
    match internal {
        Some(smi) => {
            let (ln, lm, acc2) = match export_origin(t, smi as int, sp.local@) {
                Some((om, rn)) => (rn, om, acc),
                None => match external_source(t, smi as int, sp.local@) {
                    Some((ext, imported)) => (
                        sp.exported@,
                        smi,
                        add_import(acc, reexport_import(ext, seq![SpecifierView {
                            local: sp.exported@,
                            kind: if imported == "default"@ { KindView::Default } else { KindView::Named(imported) },
                        }])),
                    ),
                    None => (sp.local@, smi, acc),
                },
            };
            let ln2 = if ln == "default"@ && (lm as int) < defaults.len() && defaults[lm as int] is Some {
                defaults[lm as int]->0
            } else {
                ln
            };
            add_export(acc2, (output_name(cn, t[lm as int], ln2), sp.exported@, is_type))
        },
        None => add_export(acc, (sp.exported@, sp.exported@, is_type)),
    }
}

/// The specifiers `specs` of the entry's `export { .. } from`, in order.
pub open spec fn entry_reexports(
    acc: AccView,
    specs: Seq<ExportSpecifierSummary>,
    internal: Option<ModuleIdx>,
    type_only: bool,
    t: Seq<Module>,
    cn: RenameState,
    defaults: Seq<Option<Seq<char>>>,
) -> AccView
    decreases specs.len(),
{
    if specs.len() == 0 {
        acc
    } else {
        entry_reexport_spec(entry_reexports(acc, specs.drop_last(), internal, type_only, t, cn, defaults), specs.last(), internal, type_only, t, cn, defaults)
    }
}

/// One specifier of the entry's `export { X }`: a re-exported namespace
/// import of a wrapped module exports the wrapper's namespace; else the local
/// name's output name.
pub open spec fn entry_local_export_spec(acc: AccView, sp: ExportSpecifierSummary, type_only: bool, m: Module, cn: RenameState, ns: EntryNamespaces) -> AccView {
    let is_type = type_only || sp.is_type;
    let wrapped = match root_binding_of(m.scoping.root_bindings@, sp.local@) {
        Some(sym) => match alias_target(ns.aliases, sym) {
            Some(smi) => if has_wrap(ns.wraps, smi) { Some(ns.wraps[wrap_slot(ns.wraps, smi, 0)].1.0) } else { None },
            None => None,
        },
        None => None,
    };
    match wrapped {
        Some(name) => add_export(acc, (name, sp.exported@, is_type)),
        None => add_export(acc, (output_name(cn, m, sp.local@), sp.exported@, is_type)),
    }
}

/// The specifiers `specs` of the entry's `export { .. }`, in order.
pub open spec fn entry_local_exports(acc: AccView, specs: Seq<ExportSpecifierSummary>, type_only: bool, m: Module, cn: RenameState, ns: EntryNamespaces) -> AccView
    decreases specs.len(),
{
    if specs.len() == 0 {
        acc
    } else {
        entry_local_export_spec(entry_local_exports(acc, specs.drop_last(), type_only, m, cn, ns), specs.last(), type_only, m, cn, ns)
    }
}

/// The exports an internal `export * from` of the entry brings, with each
/// local name replaced by its output name in the source module.
pub open spec fn star_collected(t: Seq<Module>, smi: ModuleIdx) -> CollectState {
    let fresh = CollectState { exports: Seq::empty(), imports: Seq::empty(), visited: Seq::new(t.len(), |i: int| false) };
    collect_module(fresh, t, smi, true, (t.len() + 1) as nat)
}

/// The import specifiers of an `import` statement.
pub open spec fn import_spec_views(specs: Seq<ImportSpecSummary>) -> Seq<SpecifierView>
    decreases specs.len(),
{
    if specs.len() == 0 {
        Seq::empty()
    } else {
        let sp = specs.last();
        import_spec_views(specs.drop_last()).push(SpecifierView {
            local: sp.local@,
            kind: match sp.kind {
                ImportBindingKind::Named(n) => KindView::Named(n@),
                ImportBindingKind::Default => KindView::Default,
                ImportBindingKind::Namespace => KindView::Namespace,
            },
        })
    }
}

/// What one statement of module `m` adds to the accumulator.
pub open spec fn statement_outputs(
    acc: AccView,
    s: StatementSummary,
    action: StatementAction,
    m: Module,
    t: Seq<Module>,
    cn: RenameState,
    ns: EntryNamespaces,
    defaults: Seq<Option<Seq<char>>>,
) -> AccView {
    let marked = AccView { exports: acc.exports, imports: acc.imports, stars: acc.stars, has_any: true };
    if s.kind == StatementKind::ExportNamed {
        if s.has_declaration {
            if action == StatementAction::Skip || !m.is_entry || s.namespace_declaration {
                marked
            } else {
                declared_exports(marked, str_views(s.declared_names@), m, cn)
            }
        } else if s.source is Some {
            let src = s.source->0@;
            let internal = resolve_internal(m, src);
            let with_import = if internal is None && s.specifiers@.len() > 0 {
                add_import(marked, reexport_import(src, reexport_import_specs(s.specifiers@)))
            } else {
                marked
            };
            if m.is_entry {
                entry_reexports(with_import, s.specifiers@, internal, s.type_only, t, cn, defaults)
            } else {
                with_import
            }
        } else if m.is_entry {
            entry_local_exports(marked, s.specifiers@, s.type_only, m, cn, ns)
        } else {
            marked
        }
    } else if s.kind == StatementKind::ExportDefault {
        if action == StatementAction::Skip && !(s.default_kind is Identifier) {
            marked
        } else if !m.is_entry {
            marked
        } else {
            match s.default_kind {
                DefaultExportKind::Function(name, _) => add_export(marked, (match name {
                    Some(n) => n@,
                    None => "export_default"@,
                }, "default"@, false)),
                DefaultExportKind::Class(name, _) => add_export(marked, (match name {
                    Some(n) => n@,
                    None => "export_default"@,
                }, "default"@, false)),
                DefaultExportKind::Interface(name, _) => add_export(marked, (name@, "default"@, false)),
                DefaultExportKind::Identifier(name) => add_export(marked, (name@, "default"@, false)),
                DefaultExportKind::Other => marked,
            }
        }
    } else if s.kind == StatementKind::ExportAll && s.source is Some {
        let src = s.source->0@;
        match s.export_all_alias {
            Some(alias) => match resolve_internal(m, src) {
                Some(smi) => if m.is_entry && has_wrap(ns.wraps, smi) {
                    add_export(marked, (ns.wraps[wrap_slot(ns.wraps, smi, 0)].1.0, alias@, s.type_only))
                } else {
                    marked
                },
                None => {
                    let with_import = add_import(marked, reexport_import(src, seq![SpecifierView { local: alias@, kind: KindView::Namespace }]));
                    if m.is_entry { add_export(with_import, (alias@, alias@, s.type_only)) } else { with_import }
                },
            },
            None => match resolve_internal(m, src) {
                Some(smi) => if m.is_entry {
                    let c = star_collected(t, smi);
                    AccView {
                        exports: marked.exports + c.exports.map_values(|e: ExportView| (output_name(cn, t[smi as int], e.0), e.1, e.2)),
                        imports: marked.imports + c.imports,
                        stars: marked.stars,
                        has_any: true,
                    }
                } else {
                    marked
                },
                None => AccView { exports: marked.exports, imports: marked.imports, stars: marked.stars.push((src, false)), has_any: true },
            },
        }
    } else if s.kind == StatementKind::ExportAll {
        marked
    } else if s.kind == StatementKind::Import && s.source is Some {
        let src = s.source->0@;
        if resolve_internal(m, src) is Some {
            acc
        } else {
            let specs = match s.import_specifiers {
                Some(v) => import_spec_views(v@),
                None => Seq::empty(),
            };
            if specs.len() == 0 && !str_views(m.resolved_external_specifiers@).contains(src) {
                acc
            } else {
                add_import(acc, ImportView { source: src, specifiers: specs, is_type_only: false, side_effect_only: specs.len() == 0, from_reexport: false })
            }
        }
    } else {
        acc
    }
}

/// The re-export chains the entry's `export { .. } from "./internal"`
/// specifiers of `s` follow all end.
pub open spec fn statement_chains_end(t: Seq<Module>, m: Module, s: StatementSummary) -> bool {
    s.kind == StatementKind::ExportNamed && !s.has_declaration && s.source is Some && m.is_entry ==> match resolve_internal(m, s.source->0@) {
        Some(smi) => forall|i: int| 0 <= i < s.specifiers@.len() ==> #[trigger] reexport_chain_ends(t, smi as int, s.specifiers@[i].local@),
        None => true,
    }
}

/// Adds an export to the accumulator.
fn acc_push_export(acc: &mut GenerateAcc, local: String, exported: String, is_type_only: bool)
    ensures
        final(acc)@ == add_export(old(acc)@, (local@, exported@, is_type_only)),
{
    let ghost before = acc.exports@;
    let ghost e = (local@, exported@, is_type_only);
    acc.exports.push(ExportedName { local, exported, is_type_only });
    assert(export_views(acc.exports@) =~= export_views(before).push(e));
}

/// Adds an import to the accumulator.
fn acc_push_import(acc: &mut GenerateAcc, imp: ExternalImport)
    ensures
        final(acc)@ == add_import(old(acc)@, imp@),
{
    let ghost before = acc.imports@;
    let ghost iv = imp@;
    acc.imports.push(imp);
    assert(import_views(acc.imports@) =~= import_views(before).push(iv));
}

/// Exports the declared names of an exported declaration of the entry.
fn collect_declared_exports(acc: &mut GenerateAcc, names: &Vec<String>, module: &Module, canonical_names: &CanonicalNames)
    ensures
        final(acc)@ == declared_exports(old(acc)@, str_views(names@), *module, canonical_names@),
{
    let ghost a0 = acc@;
    let ghost nv = str_views(names@);
    let mut i: usize = 0;
    while i < names.len()
        invariant
            0 <= i <= nv.len(),
            nv == str_views(names@),
            acc@ == declared_exports(a0, nv.take(i as int), *module, canonical_names@),
        decreases nv.len() - i,
    {
        let n = names[i].as_str();
        proof {
            let t = nv.take(i + 1);
            assert(t.drop_last() =~= nv.take(i as int));
            assert(t.last() == n@);
        }
        let local = match canonical_names.resolve_name(module, n) {
            Some(r) => string_clone(r),
            None => string_clone(n),
        };
        acc_push_export(acc, local, string_clone(n), false);
        i += 1;
    }
    assert(nv.take(i as int) =~= nv);
}

/// The import that brings the names of `export { .. } from "external"` into scope.
fn reexport_import_of(source: &str, specs: &Vec<ExportSpecifierSummary>) -> (r: ExternalImport)
    ensures
        r@ == reexport_import(source@, reexport_import_specs(specs@)),
{
    let mut out: Vec<ImportSpecifier> = Vec::new();
    let mut i: usize = 0;
    while i < specs.len()
        invariant
            0 <= i <= specs@.len(),
            specifier_views(out@) == reexport_import_specs(specs@.take(i as int)),
        decreases specs@.len() - i,
    {
        let sp = &specs[i];
        proof {
            let t = specs@.take(i + 1);
            assert(t.drop_last() =~= specs@.take(i as int));
            assert(t.last() == *sp);
        }
        let kind = if str_eq(sp.local.as_str(), "default") {
            ImportSpecifierKind::Default
        } else {
            ImportSpecifierKind::Named(string_clone(sp.local.as_str()))
        };
        let ghost ob = out@;
        out.push(ImportSpecifier { local: string_clone(sp.exported.as_str()), kind });
        assert(specifier_views(out@) =~= specifier_views(ob).push(out@.last()@));
        i += 1;
    }
    assert(specs@.take(i as int) =~= specs@);
    ExternalImport { source: string_clone(source), specifiers: out, is_type_only: false, side_effect_only: false, from_reexport: true }
}

/// Collects the entry's `export { .. } from "src"` specifiers.
fn collect_entry_reexports(
    acc: &mut GenerateAcc,
    specs: &Vec<ExportSpecifierSummary>,
    internal: Option<ModuleIdx>,
    type_only: bool,
    table: &ModuleTable,
    canonical_names: &CanonicalNames,
    default_export_names: &Vec<Option<String>>,
)
    requires
        table.wf(),
        internal matches Some(smi) ==> smi < table.modules@.len() && forall|i: int|
            0 <= i < specs@.len() ==> #[trigger] reexport_chain_ends(table.modules@, smi as int, specs@[i].local@),
    ensures
        final(acc)@ == entry_reexports(old(acc)@, specs@, internal, type_only, table.modules@, canonical_names@, default_name_views(default_export_names@)),
{
    let ghost a0 = acc@;
    let ghost t = table.modules@;
    let ghost dv = default_name_views(default_export_names@);
    let mut i: usize = 0;
    while i < specs.len()
        invariant
            0 <= i <= specs@.len(),
            table.wf(),
            t == table.modules@,
            dv == default_name_views(default_export_names@),
            internal matches Some(smi) ==> smi < t.len() && forall|i: int|
                0 <= i < specs@.len() ==> #[trigger] reexport_chain_ends(t, smi as int, specs@[i].local@),
            acc@ == entry_reexports(a0, specs@.take(i as int), internal, type_only, t, canonical_names@, dv),
        decreases specs@.len() - i,
    {
        let sp = &specs[i];
        proof {
            let tk = specs@.take(i + 1);
            assert(tk.drop_last() =~= specs@.take(i as int));
            assert(tk.last() == *sp);
        }
        let is_type = type_only || sp.is_type;
        match internal {
            Some(smi) => {
                assert(reexport_chain_ends(t, smi as int, specs@[i as int].local@));
                let (ln, lm) = match resolve_export_origin(smi, sp.local.as_str(), table) {
                    Some((om, rn)) => (rn, om),
                    None => {
                        let ext = find_external_reexport_source(smi, sp.local.as_str(), table);
                        proof { lemma_external_source_is(t, smi as int, sp.local@, opt_pair_view(ext)); }
                        match ext {
                            Some((src, imported)) => {
                                let kind = if str_eq(imported.as_str(), "default") {
                                    ImportSpecifierKind::Default
                                } else {
                                    ImportSpecifierKind::Named(string_clone(imported.as_str()))
                                };
                                let mut specifiers: Vec<ImportSpecifier> = Vec::new();
                                specifiers.push(ImportSpecifier { local: string_clone(sp.exported.as_str()), kind });
                                let imp = ExternalImport { source: src, specifiers, is_type_only: false, side_effect_only: false, from_reexport: true };
                                assert(imp@.specifiers =~= seq![SpecifierView {
                                    local: sp.exported@,
                                    kind: if imported@ == "default"@ { KindView::Default } else { KindView::Named(imported@) },
                                }]);
                                acc_push_import(acc, imp);
                                (string_clone(sp.exported.as_str()), smi)
                            },
                            None => (string_clone(sp.local.as_str()), smi),
                        }
                    },
                };
                proof {
                    crate::exports::lemma_origin_below(t, smi as int, sp.local@);
                }
                let mut ln2 = ln;
                if str_eq(ln2.as_str(), "default") && lm < default_export_names.len() {
                    assert(dv[lm as int] == match default_export_names@[lm as int] {
                        Some(s) => Some(s@),
                        None => None,
                    });
                    if let Some(d) = &default_export_names[lm] {
                        ln2 = string_clone(d.as_str());
                    }
                }
                let local = match canonical_names.resolve_name(&table.modules[lm], ln2.as_str()) {
                    Some(r) => string_clone(r),
                    None => ln2,
                };
                acc_push_export(acc, local, string_clone(sp.exported.as_str()), is_type);
            },
            None => {
                acc_push_export(acc, string_clone(sp.exported.as_str()), string_clone(sp.exported.as_str()), is_type);
            },
        }
        i += 1;
    }
    assert(specs@.take(i as int) =~= specs@);
}


/// The output name of `name` in `module`.
fn output_name_of(canonical_names: &CanonicalNames, module: &Module, name: &str) -> (r: String)
    ensures
        r@ == output_name(canonical_names@, *module, name@),
{
    match canonical_names.resolve_name(module, name) {
        Some(x) => string_clone(x),
        None => string_clone(name),
    }
}

/// Collects the entry's `export { .. }` specifiers.
fn collect_entry_local_exports(
    acc: &mut GenerateAcc,
    specs: &Vec<ExportSpecifierSummary>,
    type_only: bool,
    module: &Module,
    canonical_names: &CanonicalNames,
    aliases: &Vec<(SymbolId, ModuleIdx)>,
    wraps: &Vec<(ModuleIdx, NamespaceWrapInfo)>,
)
    ensures
        final(acc)@ == entry_local_exports(
            old(acc)@,
            specs@,
            type_only,
            *module,
            canonical_names@,
            EntryNamespaces { aliases: aliases@, wraps: wrap_views(wraps@) },
        ),
{
    let ghost a0 = acc@;
    let ghost ns = EntryNamespaces { aliases: aliases@, wraps: wrap_views(wraps@) };
    let mut i: usize = 0;
    while i < specs.len()
        invariant
            0 <= i <= specs@.len(),
            ns == (EntryNamespaces { aliases: aliases@, wraps: wrap_views(wraps@) }),
            acc@ == entry_local_exports(a0, specs@.take(i as int), type_only, *module, canonical_names@, ns),
        decreases specs@.len() - i,
    {
        let sp = &specs[i];
        proof {
            let tk = specs@.take(i + 1);
            assert(tk.drop_last() =~= specs@.take(i as int));
            assert(tk.last() == *sp);
        }
        let is_type = type_only || sp.is_type;
        let mut wrapped: Option<String> = None;
        if let Some(sym) = module.scoping.get_root_binding(sp.local.as_str()) {
            if let Some(smi) = find_alias_target(aliases, sym) {
                let p = find_wrap(wraps, smi);
                proof {
                    lemma_wrap_slot_pub(ns.wraps, smi);
                }
                if p < wraps.len() {
                    assert(ns.wraps[p as int].1.0 == wraps@[p as int].1.namespace_name@);
                    wrapped = Some(string_clone(wraps[p].1.namespace_name.as_str()));
                }
            }
        }
        match wrapped {
            Some(name) => {
                acc_push_export(acc, name, string_clone(sp.exported.as_str()), is_type);
            },
            None => {
                let local = output_name_of(canonical_names, module, sp.local.as_str());
                acc_push_export(acc, local, string_clone(sp.exported.as_str()), is_type);
            },
        }
        i += 1;
    }
    assert(specs@.take(i as int) =~= specs@);
}


/// What the entry's `export * from "./internal"` adds: the source module's
/// exports, each local name replaced by its output name in that module, and
/// the imports of the external re-exports among them.
pub open spec fn internal_star_outputs(acc: AccView, t: Seq<Module>, smi: ModuleIdx, cn: RenameState) -> AccView {
    let c = star_collected(t, smi);
    AccView {
        exports: acc.exports + c.exports.map_values(|e: ExportView| (output_name(cn, t[smi as int], e.0), e.1, e.2)),
        imports: acc.imports + c.imports,
        stars: acc.stars,
        has_any: acc.has_any,
    }
}

/// Collects what the entry's `export * from "./internal"` brings.
fn collect_internal_star(acc: &mut GenerateAcc, smi: ModuleIdx, table: &ModuleTable, canonical_names: &CanonicalNames)
    requires
        table.wf(),
        smi < table.modules@.len(),
    ensures
        final(acc)@ == internal_star_outputs(old(acc)@, table.modules@, smi, canonical_names@),
{
    let ghost a0 = acc@;
    let ghost t = table.modules@;
    let n = table.modules.len();
    let mut visited: Vec<bool> = Vec::new();
    let mut k: usize = 0;
    while k < n
        invariant
            0 <= k <= n,
            n == t.len(),
            visited@ =~= Seq::new(k as nat, |i: int| false),
        decreases n - k,
    {
        visited.push(false);
        k += 1;
    }
    let mut exports: Vec<ExportedName> = Vec::new();
    let mut imports: Vec<ExternalImport> = Vec::new();
    proof {
        lemma_count_false_all_pub(n as nat);
        assert(export_views(exports@) =~= Seq::<ExportView>::empty());
        assert(import_views(imports@) =~= Seq::<ImportView>::empty());
    }
    collect_module_exports(smi, &mut exports, table, &mut visited, true, &mut imports);
    let ghost c = star_collected(t, smi);
    assert(export_views(exports@) == c.exports);
    assert(import_views(imports@) == c.imports);
    let ghost f = |e: ExportView| (output_name(canonical_names@, t[smi as int], e.0), e.1, e.2);
    let source = &table.modules[smi];
    let mut i: usize = 0;
    while i < exports.len()
        invariant
            0 <= i <= exports@.len(),
            t == table.modules@,
            smi < t.len(),
            *source == t[smi as int],
            export_views(exports@) == c.exports,
            f == (|e: ExportView| (output_name(canonical_names@, t[smi as int], e.0), e.1, e.2)),
            acc@ == (AccView {
                exports: a0.exports + c.exports.take(i as int).map_values(f),
                imports: a0.imports,
                stars: a0.stars,
                has_any: a0.has_any,
            }),
        decreases exports@.len() - i,
    {
        let e = &exports[i];
        let local = output_name_of(canonical_names, source, e.local.as_str());
        acc_push_export(acc, local, string_clone(e.exported.as_str()), e.is_type_only);
        proof {
            assert(c.exports[i as int] == e@);
            assert(c.exports.take(i + 1).map_values(f) =~= c.exports.take(i as int).map_values(f).push(f(e@)));
            assert(acc@.exports =~= a0.exports + c.exports.take(i + 1).map_values(f));
        }
        i += 1;
    }
    assert(c.exports.take(i as int) =~= c.exports);
    let ghost before = acc.imports@;
    acc.imports.append(&mut imports);
    assert(import_views(acc.imports@) =~= import_views(before) + c.imports);
}

/// The import kept for an `import` statement of an external module.
fn import_of(source: &str, specs: &Option<Vec<ImportSpecSummary>>) -> (r: ExternalImport)
    ensures
        r@ == ({
            let sv = match specs {
                Some(v) => import_spec_views(v@),
                None => Seq::empty(),
            };
            ImportView { source: source@, specifiers: sv, is_type_only: false, side_effect_only: sv.len() == 0, from_reexport: false }
        }),
{
    let mut out: Vec<ImportSpecifier> = Vec::new();
    match specs {
        Some(v) => {
            let mut i: usize = 0;
            while i < v.len()
                invariant
                    0 <= i <= v@.len(),
                    specifier_views(out@) == import_spec_views(v@.take(i as int)),
                decreases v@.len() - i,
            {
                let sp = &v[i];
                proof {
                    let tk = v@.take(i + 1);
                    assert(tk.drop_last() =~= v@.take(i as int));
                    assert(tk.last() == *sp);
                }
                let kind = match &sp.kind {
                    ImportBindingKind::Named(n) => ImportSpecifierKind::Named(string_clone(n.as_str())),
                    ImportBindingKind::Default => ImportSpecifierKind::Default,
                    ImportBindingKind::Namespace => ImportSpecifierKind::Namespace,
                };
                let ghost ob = out@;
                out.push(ImportSpecifier { local: string_clone(sp.local.as_str()), kind });
                assert(specifier_views(out@) =~= specifier_views(ob).push(out@.last()@));
                i += 1;
            }
            assert(v@.take(i as int) =~= v@);
        },
        None => {
            assert(specifier_views(out@) =~= Seq::<SpecifierView>::empty());
        },
    }
    let side_effect_only = out.len() == 0;
    ExternalImport { source: string_clone(source), specifiers: out, is_type_only: false, side_effect_only, from_reexport: false }
}

/// The local name of a default-exported declaration, or `export_default`.
fn default_local(name: &Option<String>) -> (r: String)
    ensures
        r@ == match name {
            Some(n) => n@,
            None => "export_default"@,
        },
{
    match name {
        Some(n) => string_clone(n.as_str()),
        None => "export_default".to_string(),
    }
}


/// Collects the exports, external imports and external star exports of one
/// statement of module `module_idx`, given the action the link stage decided
/// for it: exported declarations and specifiers of the entry under their
/// output names, re-exports of external packages with the imports that bring
/// their names into scope, internal `export * from` of the entry expanded,
/// external `export * from` kept, and `import`s of external modules kept
/// (a bare `import "x"` only when `x` was resolved as external).
pub fn collect_statement_outputs(
    acc: &mut GenerateAcc,
    stmt: &StatementSummary,
    action: StatementAction,
    module_idx: ModuleIdx,
    table: &ModuleTable,
    canonical_names: &CanonicalNames,
    namespace_aliases: &Vec<(SymbolId, ModuleIdx)>,
    namespace_wraps: &Vec<(ModuleIdx, NamespaceWrapInfo)>,
    default_export_names: &Vec<Option<String>>,
)
    requires
        table.wf(),
        module_idx < table.modules@.len(),
        statement_chains_end(table.modules@, table.modules@[module_idx as int], *stmt),
    ensures
        final(acc)@ == statement_outputs(
            old(acc)@,
            *stmt,
            action,
            table.modules@[module_idx as int],
            table.modules@,
            canonical_names@,
            EntryNamespaces { aliases: namespace_aliases@, wraps: wrap_views(namespace_wraps@) },
            default_name_views(default_export_names@),
        ),
{
    let module = &table.modules[module_idx];
    let ghost t = table.modules@;
    let ghost ns = EntryNamespaces { aliases: namespace_aliases@, wraps: wrap_views(namespace_wraps@) };
    proof {
        assert(module.idx == module_idx);
    }
    match stmt.kind {
        StatementKind::ExportNamed => {
            acc.has_any_export_statement = true;
            if stmt.has_declaration {
                if action == StatementAction::Skip || !module.is_entry || stmt.namespace_declaration {
                    return;
                }
                collect_declared_exports(acc, &stmt.declared_names, module, canonical_names);
            } else if let Some(source) = &stmt.source {
                let internal = module.resolve_internal_specifier(source.as_str());
                if internal.is_none() && stmt.specifiers.len() > 0 {
                    let imp = reexport_import_of(source.as_str(), &stmt.specifiers);
                    acc_push_import(acc, imp);
                }
                if module.is_entry {
                    proof {
                        if let Some(smi) = internal {
                            crate::model::lemma_assoc_get_in(module.resolved_internal_specifiers@, source@);
                        }
                    }
                    collect_entry_reexports(
                        acc,
                        &stmt.specifiers,
                        internal,
                        stmt.type_only,
                        table,
                        canonical_names,
                        default_export_names,
                    );
                }
            } else if module.is_entry {
                collect_entry_local_exports(
                    acc,
                    &stmt.specifiers,
                    stmt.type_only,
                    module,
                    canonical_names,
                    namespace_aliases,
                    namespace_wraps,
                );
            }
        },
        StatementKind::ExportDefault => {
            acc.has_any_export_statement = true;
            let is_identifier = match &stmt.default_kind {
                DefaultExportKind::Identifier(_) => true,
                _ => false,
            };
            if action == StatementAction::Skip && !is_identifier {
                return;
            }
            if !module.is_entry {
                return;
            }
            match &stmt.default_kind {
                DefaultExportKind::Function(name, _) => {
                    acc_push_export(acc, default_local(name), "default".to_string(), false);
                },
                DefaultExportKind::Class(name, _) => {
                    acc_push_export(acc, default_local(name), "default".to_string(), false);
                },
                DefaultExportKind::Interface(name, _) => {
                    acc_push_export(acc, string_clone(name.as_str()), "default".to_string(), false);
                },
                DefaultExportKind::Identifier(name) => {
                    acc_push_export(acc, string_clone(name.as_str()), "default".to_string(), false);
                },
                DefaultExportKind::Other => {},
            }
        },
        StatementKind::ExportAll => {
            acc.has_any_export_statement = true;
            if let Some(source) = &stmt.source {
                let internal = module.resolve_internal_specifier(source.as_str());
                proof {
                    if let Some(smi) = internal {
                        crate::model::lemma_assoc_get_in(module.resolved_internal_specifiers@, source@);
                    }
                }
                match &stmt.export_all_alias {
                    Some(alias) => match internal {
                        Some(smi) => {
                            if module.is_entry {
                                let p = find_wrap(namespace_wraps, smi);
                                proof {
                                    lemma_wrap_slot_pub(ns.wraps, smi);
                                }
                                if p < namespace_wraps.len() {
                                    assert(ns.wraps[p as int].1.0 == namespace_wraps@[p as int].1.namespace_name@);
                                    acc_push_export(
                                        acc,
                                        string_clone(namespace_wraps[p].1.namespace_name.as_str()),
                                        string_clone(alias.as_str()),
                                        stmt.type_only,
                                    );
                                }
                            }
                        },
                        None => {
                            let mut specifiers: Vec<ImportSpecifier> = Vec::new();
                            specifiers.push(ImportSpecifier { local: string_clone(alias.as_str()), kind: ImportSpecifierKind::Namespace });
                            let imp = ExternalImport {
                                source: string_clone(source.as_str()),
                                specifiers,
                                is_type_only: false,
                                side_effect_only: false,
                                from_reexport: true,
                            };
                            assert(imp@.specifiers =~= seq![SpecifierView { local: alias@, kind: KindView::Namespace }]);
                            acc_push_import(acc, imp);
                            if module.is_entry {
                                acc_push_export(acc, string_clone(alias.as_str()), string_clone(alias.as_str()), stmt.type_only);
                            }
                        },
                    },
                    None => match internal {
                        Some(smi) => {
                            if module.is_entry {
                                collect_internal_star(acc, smi, table, canonical_names);
                            }
                        },
                        None => {
                            let ghost before = acc.star_exports@;
                            acc.star_exports.push(ExternalStarExport { source: string_clone(source.as_str()), is_type_only: false });
                            assert(acc@.stars =~= before.map_values(|s: ExternalStarExport| (s.source@, s.is_type_only)).push((source@, false)));
                        },
                    },
                }
            }
        },
        StatementKind::Import => {
            if let Some(source) = &stmt.source {
                if module.resolve_internal_specifier(source.as_str()).is_some() {
                    return;
                }
                let imp = import_of(source.as_str(), &stmt.import_specifiers);
                if imp.specifiers.len() == 0 && !contains_name(&module.resolved_external_specifiers, source.as_str()) {
                    return;
                }
                acc_push_import(acc, imp);
            }
        },
        _ => {},
    }
}


/// What the first `n` statements of module `m` add to the accumulator, with
/// the link stage's actions `actions`.
pub open spec fn module_outputs(
    acc: AccView,
    m: Module,
    n: nat,
    actions: Seq<StatementAction>,
    t: Seq<Module>,
    cn: RenameState,
    ns: EntryNamespaces,
    defaults: Seq<Option<Seq<char>>>,
) -> AccView
    decreases n,
{
    if n == 0 {
        acc
    } else {
        let prev = module_outputs(acc, m, (n - 1) as nat, actions, t, cn, ns, defaults);
        statement_outputs(prev, m.statements@[n - 1], actions[n - 1], m, t, cn, ns, defaults)
    }
}

/// The re-export chains that the statements of module `m` follow all end.
pub open spec fn module_chains_end(t: Seq<Module>, m: Module) -> bool {
    forall|i: int| 0 <= i < m.statements@.len() ==> #[trigger] statement_chains_end(t, m, m.statements@[i])
}

/// Collects the exports, external imports and external star exports of all
/// statements of module `module_idx`, in order, with the actions the link
/// stage decided for them.
pub fn collect_module_outputs(
    acc: &mut GenerateAcc,
    module_idx: ModuleIdx,
    statement_actions: &Vec<StatementAction>,
    table: &ModuleTable,
    canonical_names: &CanonicalNames,
    namespace_aliases: &Vec<(SymbolId, ModuleIdx)>,
    namespace_wraps: &Vec<(ModuleIdx, NamespaceWrapInfo)>,
    default_export_names: &Vec<Option<String>>,
)
    requires
        table.wf(),
        module_idx < table.modules@.len(),
        statement_actions@.len() == table.modules@[module_idx as int].statements@.len(),
        module_chains_end(table.modules@, table.modules@[module_idx as int]),
    ensures
        final(acc)@ == module_outputs(
            old(acc)@,
            table.modules@[module_idx as int],
            table.modules@[module_idx as int].statements@.len(),
            statement_actions@,
            table.modules@,
            canonical_names@,
            EntryNamespaces { aliases: namespace_aliases@, wraps: wrap_views(namespace_wraps@) },
            default_name_views(default_export_names@),
        ),
{
    let ghost a0 = acc@;
    let ghost ns = EntryNamespaces { aliases: namespace_aliases@, wraps: wrap_views(namespace_wraps@) };
    let module = &table.modules[module_idx];
    let mut i: usize = 0;
    while i < module.statements.len()
        invariant
            0 <= i <= module.statements@.len(),
            table.wf(),
            module_idx < table.modules@.len(),
            *module == table.modules@[module_idx as int],
            statement_actions@.len() == module.statements@.len(),
            module_chains_end(table.modules@, *module),
            ns == (EntryNamespaces { aliases: namespace_aliases@, wraps: wrap_views(namespace_wraps@) }),
            acc@ == module_outputs(
                a0,
                *module,
                i as nat,
                statement_actions@,
                table.modules@,
                canonical_names@,
                ns,
                default_name_views(default_export_names@),
            ),
        decreases module.statements@.len() - i,
    {
        assert(statement_chains_end(table.modules@, *module, module.statements@[i as int]));
        collect_statement_outputs(
            acc,
            &module.statements[i],
            statement_actions[i],
            module_idx,
            table,
            canonical_names,
            namespace_aliases,
            namespace_wraps,
            default_export_names,
        );
        i += 1;
    }
}

} // verus!
