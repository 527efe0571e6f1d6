//! Namespace wrapper planning and export collection for the link stage.

use vstd::prelude::*;

use crate::emit::{ExportView, export_views};
use crate::link_types::{
    ExportedName, ExternalImport, ImportSpecifier, ImportSpecifierKind, ImportView, KindView,
    NamespaceWrapInfo, SpecifierView, import_views, wrap_views,
};
use crate::rename::{
    CanonicalNames, RenameState, allocate_name, allocated, contains_name, decimal, decimal_string,
    output_name, push_new, suffixed,
};
use crate::text::push_str;
use crate::model::{
    ExportSpecifierSummary, Module, ModuleIdx, ModuleTable, StatementKind, StatementSummary, SymbolId,
    resolve_internal, root_binding_of,
};
use crate::paths::{derive_namespace_name, file_name, namespace_name_of};
use crate::rename::str_views;
use crate::text::string_clone;

verus! {

/// The number of `false` entries of `s`.
pub open spec fn count_false(s: Seq<bool>) -> nat
    decreases s.len(),
{
    if s.len() == 0 {
        0
    } else {
        count_false(s.drop_last()) + if s.last() { 0nat } else { 1nat }
    }
}

proof fn lemma_count_false_mark(s: Seq<bool>, i: int)
    requires
        0 <= i < s.len(),
        !s[i],
    ensures
        count_false(s.update(i, true)) + 1 == count_false(s),
    decreases s.len(),
{
    let u = s.update(i, true);
    if i < s.len() - 1 {
        assert(u.drop_last() =~= s.drop_last().update(i, true));
        lemma_count_false_mark(s.drop_last(), i);
    } else {
        assert(u.drop_last() =~= s.drop_last());
    }
}

/// The export collector's state: exported names so far, external imports
/// for re-exports so far, and the modules visited.
pub struct CollectState {
    pub exports: Seq<ExportView>,
    pub imports: Seq<ImportView>,
    pub visited: Seq<bool>,
}

/// The import that brings `export { local as exported } from "src"` of an
/// external module into scope as `exported`.
pub open spec fn reexport_import(src: Seq<char>, local: Seq<char>, exported: Seq<char>) -> ImportView {
    ImportView {
        source: src,
        specifiers: seq![SpecifierView { local: exported, kind: KindView::Named(local) }],
        is_type_only: false,
        side_effect_only: false,
        from_reexport: true,
    }
}

/// `(local, exported, type)` of an export specifier.
pub open spec fn spec_view(sp: ExportSpecifierSummary) -> (Seq<char>, Seq<char>, bool) {
    (sp.local@, sp.exported@, sp.is_type)
}

/// Collects the specifiers of `export { .. } [from "src"]`: from an external
/// module, each is exported under its exported name (and, when imports are
/// collected, imported under it); else under its local name.
pub open spec fn collect_specifiers(
    st: CollectState,
    specs: Seq<ExportSpecifierSummary>,
    external: bool,
    src: Seq<char>,
    with_imports: bool,
) -> CollectState
    decreases specs.len(),
{
    if specs.len() == 0 {
        st
    } else {
        let prev = collect_specifiers(st, specs.drop_last(), external, src, with_imports);
        let sp = spec_view(specs.last());
        if external {
            CollectState {
                exports: prev.exports.push((sp.1, sp.1, false)),
                imports: if with_imports { prev.imports.push(reexport_import(src, sp.0, sp.1)) } else { prev.imports },
                visited: prev.visited,
            }
        } else {
            CollectState { exports: prev.exports.push((sp.0, sp.1, false)), imports: prev.imports, visited: prev.visited }
        }
    }
}

/// Exports the declared names `names`, each under its own name or as `default`.
pub open spec fn collect_declared(st: CollectState, names: Seq<Seq<char>>, as_default: bool) -> CollectState
    decreases names.len(),
{
    if names.len() == 0 {
        st
    } else {
        let prev = collect_declared(st, names.drop_last(), as_default);
        let n = names.last();
        CollectState {
            exports: prev.exports.push((n, if as_default { "default"@ } else { n }, false)),
            imports: prev.imports,
            visited: prev.visited,
        }
    }
}

/// Collects the exports of the statements `stmts` of module `mi`, following
/// `export * from` into internal modules (with `fuel` bounding the depth).
pub open spec fn collect_stmts(
    st: CollectState,
    t: Seq<Module>,
    mi: ModuleIdx,
    stmts: Seq<StatementSummary>,
    with_imports: bool,
    fuel: nat,
) -> CollectState
    decreases fuel, stmts.len(),
{
    if stmts.len() == 0 {
        st
    } else {
        let prev = collect_stmts(st, t, mi, stmts.drop_last(), with_imports, fuel);
        let s = stmts.last();
        if s.kind == StatementKind::ExportNamed {
            if s.has_declaration {
                if s.namespace_declaration {
                    prev
                } else {
                    collect_declared(prev, str_views(s.declared_names@), false)
                }
            } else {
                match s.source {
                    Some(src) => collect_specifiers(
                        prev,
                        s.specifiers@,
                        resolve_internal(t[mi as int], src@) is None,
                        src@,
                        with_imports,
                    ),
                    None => collect_specifiers(prev, s.specifiers@, false, Seq::empty(), with_imports),
                }
            }
        } else if s.kind == StatementKind::ExportDefault {
            collect_declared(prev, str_views(s.declared_names@), true)
        } else if s.kind == StatementKind::ExportAll {
            match s.source {
                Some(src) => match resolve_internal(t[mi as int], src@) {
                    Some(dep) => if fuel > 0 {
                        collect_module(prev, t, dep, with_imports, (fuel - 1) as nat)
                    } else {
                        prev
                    },
                    None => prev,
                },
                None => prev,
            }
        } else {
            prev
        }
    }
}

/// Collects the exports of module `mi` unless it was visited already.
pub open spec fn collect_module(st: CollectState, t: Seq<Module>, mi: ModuleIdx, with_imports: bool, fuel: nat) -> CollectState
    decreases fuel, if (mi as int) < t.len() { t[mi as int].statements@.len() + 1 } else { 0 },
{
    if (mi as int) >= t.len() || (mi as int) >= st.visited.len() || st.visited[mi as int] {
        st
    } else {
        let marked = CollectState { exports: st.exports, imports: st.imports, visited: st.visited.update(mi as int, true) };
        collect_stmts(marked, t, mi, t[mi as int].statements@, with_imports, fuel)
    }
}

/// The collector's state as the contracts see it.
pub open spec fn collect_state(exports: Seq<ExportedName>, imports: Seq<ExternalImport>, visited: Seq<bool>) -> CollectState {
    CollectState { exports: export_views(exports), imports: import_views(imports), visited }
}

fn push_export(exports: &mut Vec<ExportedName>, local: &str, exported: &str)
    ensures
        export_views(final(exports)@) == export_views(old(exports)@).push((local@, exported@, false)),
{
    let ghost before = exports@;
    exports.push(ExportedName { local: string_clone(local), exported: string_clone(exported), is_type_only: false });
    assert(export_views(exports@) =~= export_views(before).push((local@, exported@, false)));
}

/// Collects the specifiers of one `export { .. } [from ".."]` statement.
fn collect_statement_specifiers(
    specs: &Vec<ExportSpecifierSummary>,
    external: bool,
    src: &str,
    exports: &mut Vec<ExportedName>,
    with_imports: bool,
    imports: &mut Vec<ExternalImport>,
    Ghost(visited): Ghost<Seq<bool>>,
)
    ensures
        collect_state(final(exports)@, final(imports)@, visited) == collect_specifiers(
            collect_state(old(exports)@, old(imports)@, visited),
            specs@,
            external,
            src@,
            with_imports,
        ),
{
    let ghost st0 = collect_state(exports@, imports@, visited);
    let mut i: usize = 0;
    while i < specs.len()
        invariant
            0 <= i <= specs@.len(),
            collect_state(exports@, imports@, visited) == collect_specifiers(st0, specs@.take(i as int), external, src@, with_imports),
        decreases specs@.len() - i,
    {
        let sp = &specs[i];
        proof {
            let t = specs@.take(i + 1);
            assert(t.drop_last() =~= specs@.take(i as int));
            assert(t.last() == *sp);
        }
        if external {
            push_export(exports, sp.exported.as_str(), sp.exported.as_str());
            if with_imports {
                let ghost before = imports@;
                let spec_item = ImportSpecifier {
                    local: string_clone(sp.exported.as_str()),
                    kind: ImportSpecifierKind::Named(string_clone(sp.local.as_str())),
                };
                let specifiers = vec![spec_item];
                imports.push(ExternalImport {
                    source: string_clone(src),
                    specifiers,
                    is_type_only: false,
                    side_effect_only: false,
                    from_reexport: true,
                });
                proof {
                    let iv = imports@.last()@;
                    assert(iv.specifiers =~= seq![SpecifierView { local: sp.exported@, kind: KindView::Named(sp.local@) }]);
                    assert(iv == reexport_import(src@, sp.local@, sp.exported@));
                    assert(import_views(imports@) =~= import_views(before).push(iv));
                }
            }
        } else {
            push_export(exports, sp.local.as_str(), sp.exported.as_str());
        }
        i += 1;
    }
    assert(specs@.take(i as int) =~= specs@);
}

/// Exports the declared names of one statement.
fn collect_statement_declared(
    names: &Vec<String>,
    as_default: bool,
    exports: &mut Vec<ExportedName>,
    Ghost(imports): Ghost<Seq<ExternalImport>>,
    Ghost(visited): Ghost<Seq<bool>>,
)
    ensures
        collect_state(final(exports)@, imports, visited) == collect_declared(
            collect_state(old(exports)@, imports, visited),
            str_views(names@),
            as_default,
        ),
{
    let ghost st0 = collect_state(exports@, imports, visited);
    let ghost nv = str_views(names@);
    let mut i: usize = 0;
    while i < names.len()
        invariant
            0 <= i <= nv.len(),
            nv == str_views(names@),
            collect_state(exports@, imports, visited) == collect_declared(st0, nv.take(i as int), as_default),
        decreases nv.len() - i,
    {
        proof {
            let t = nv.take(i + 1);
            assert(t.drop_last() =~= nv.take(i as int));
            assert(t.last() == names@[i as int]@);
        }
        if as_default {
            push_export(exports, names[i].as_str(), "default");
        } else {
            push_export(exports, names[i].as_str(), names[i].as_str());
        }
        i += 1;
    }
    assert(nv.take(i as int) =~= nv);
}

fn collect_exports_rec(
    mi: ModuleIdx,
    exports: &mut Vec<ExportedName>,
    table: &ModuleTable,
    visited: &mut Vec<bool>,
    with_imports: bool,
    imports: &mut Vec<ExternalImport>,
    Ghost(fuel): Ghost<nat>,
)
    requires
        table.wf(),
        old(visited)@.len() == table.modules@.len(),
        mi < table.modules@.len(),
        fuel > count_false(old(visited)@),
    ensures
        collect_state(final(exports)@, final(imports)@, final(visited)@) == collect_module(
            collect_state(old(exports)@, old(imports)@, old(visited)@),
            table.modules@,
            mi,
            with_imports,
            fuel,
        ),
        final(visited)@.len() == old(visited)@.len(),
        count_false(final(visited)@) <= count_false(old(visited)@),
    decreases fuel,
{
    if visited[mi] {
        return;
    }
    let ghost t = table.modules@;
    proof { lemma_count_false_mark(visited@, mi as int); }
    visited.set(mi, true);
    let ghost st0 = collect_state(exports@, imports@, visited@);
    let ghost marked_count = count_false(visited@);
    let module = &table.modules[mi];
    let ghost stmts = module.statements@;
    assert(t[mi as int].idx == mi);
    let mut i: usize = 0;
    while i < module.statements.len()
        invariant
            0 <= i <= stmts.len(),
            t == table.modules@,
            table.wf(),
            mi < t.len(),
            *module == t[mi as int],
            stmts == module.statements@,
            visited@.len() == t.len(),
            count_false(visited@) <= marked_count,
            marked_count + 2 <= fuel,
            collect_state(exports@, imports@, visited@) == collect_stmts(st0, t, mi, stmts.take(i as int), with_imports, fuel),
        decreases stmts.len() - i,
    {
        let s = &module.statements[i];
        proof {
            let tk = stmts.take(i + 1);
            assert(tk.drop_last() =~= stmts.take(i as int));
            assert(tk.last() == *s);
        }
        if s.kind == StatementKind::ExportNamed {
            if s.has_declaration {
                if !s.namespace_declaration {
                    collect_statement_declared(&s.declared_names, false, exports, Ghost(imports@), Ghost(visited@));
                }
            } else {
                match &s.source {
                    Some(src) => {
                        let external = module.resolve_internal_specifier(src.as_str()).is_none();
                        collect_statement_specifiers(&s.specifiers, external, src.as_str(), exports, with_imports, imports, Ghost(visited@));
                    },
                    None => {
                        let empty = "";
                        proof { reveal_strlit(""); }
                        assert(empty@ =~= Seq::<char>::empty());
                        collect_statement_specifiers(&s.specifiers, false, empty, exports, with_imports, imports, Ghost(visited@));
                    },
                }
            }
        } else if s.kind == StatementKind::ExportDefault {
            collect_statement_declared(&s.declared_names, true, exports, Ghost(imports@), Ghost(visited@));
        } else if s.kind == StatementKind::ExportAll {
            if let Some(src) = &s.source {
                if let Some(dep) = module.resolve_internal_specifier(src.as_str()) {
                    proof {
                        crate::model::lemma_assoc_get_in(module.resolved_internal_specifiers@, src@);
                        assert(table.modules@[mi as int].idx == mi);
                        let j = choose|j: int| 0 <= j < module.resolved_internal_specifiers@.len()
                            && module.resolved_internal_specifiers@[j].1 == dep
                            && #[trigger] module.resolved_internal_specifiers@[j].0@ == src@;
                        assert(table.modules@[mi as int].resolved_internal_specifiers@[j].1 < table.modules@.len());
                    }
                    collect_exports_rec(dep, exports, table, visited, with_imports, imports, Ghost((fuel - 1) as nat));
                }
            }
        }
        i += 1;
    }
    assert(stmts.take(i as int) =~= stmts);
}

/// Collects the names a module exports, following `export * from` into
/// internal modules (each module at most once, as `visited` records), in
/// statement order: declarations under their names (namespaces, `declare
/// global` and import-equals excepted), specifiers under their local names
/// (under their exported names when re-exported from an external module,
/// which also adds an import for them when `collect_imports` is set), and a
/// named default-exported declaration as `default`.
pub fn collect_module_exports(
    module_idx: ModuleIdx,
    exports: &mut Vec<ExportedName>,
    table: &ModuleTable,
    visited: &mut Vec<bool>,
    collect_imports: bool,
    external_imports: &mut Vec<ExternalImport>,
)
    requires
        table.wf(),
        old(visited)@.len() == table.modules@.len(),
        module_idx < table.modules@.len(),
    ensures
        collect_state(final(exports)@, final(external_imports)@, final(visited)@) == collect_module(
            collect_state(old(exports)@, old(external_imports)@, old(visited)@),
            table.modules@,
            module_idx,
            collect_imports,
            count_false(old(visited)@) + 1,
        ),
        final(visited)@.len() == old(visited)@.len(),
{
    collect_exports_rec(
        module_idx,
        exports,
        table,
        visited,
        collect_imports,
        external_imports,
        Ghost(count_false(visited@) + 1),
    );
}

/// The output names of the names declared by the statements `stmts` of
/// module `m`, added to `acc` once each.
pub open spec fn reserved_in_stmts(acc: Seq<Seq<char>>, st: RenameState, m: Module, stmts: Seq<StatementSummary>) -> Seq<Seq<char>>
    decreases stmts.len(),
{
    if stmts.len() == 0 {
        acc
    } else {
        reserved_in_names(
            reserved_in_stmts(acc, st, m, stmts.drop_last()),
            st,
            m,
            str_views(stmts.last().declared_names@),
        )
    }
}

/// The output names of `names` of module `m`, added to `acc` once each.
pub open spec fn reserved_in_names(acc: Seq<Seq<char>>, st: RenameState, m: Module, names: Seq<Seq<char>>) -> Seq<Seq<char>>
    decreases names.len(),
{
    if names.len() == 0 {
        acc
    } else {
        push_new(reserved_in_names(acc, st, m, names.drop_last()), output_name(st, m, names.last()))
    }
}

/// The output names of every top-level declaration of the first `n` modules.
pub open spec fn reserved_decl_names(t: Seq<Module>, st: RenameState, n: nat) -> Seq<Seq<char>>
    decreases n,
{
    if n == 0 {
        Seq::empty()
    } else {
        reserved_in_stmts(reserved_decl_names(t, st, (n - 1) as nat), st, t[n - 1], t[n - 1].statements@)
    }
}

fn push_unique(v: &mut Vec<String>, x: &str)
    ensures
        str_views(final(v)@) == push_new(str_views(old(v)@), x@),
{
    if !contains_name(v, x) {
        let ghost before = v@;
        v.push(string_clone(x));
        assert(str_views(v@) =~= str_views(before).push(x@));
    }
}

/// Collects the names of all top-level declarations of all modules, each as
/// it is named in the output: the names a namespace wrapper must not take.
pub fn collect_reserved_decl_names(table: &ModuleTable, canonical_names: &CanonicalNames) -> (r: Vec<String>)
    ensures
        str_views(r@) == reserved_decl_names(table.modules@, canonical_names@, table.modules@.len()),
{
    let ghost t = table.modules@;
    let ghost st = canonical_names@;
    let mut names: Vec<String> = Vec::new();
    let mut mi: usize = 0;
    while mi < table.modules.len()
        invariant
            0 <= mi <= t.len(),
            t == table.modules@,
            st == canonical_names@,
            str_views(names@) == reserved_decl_names(t, st, mi as nat),
        decreases t.len() - mi,
    {
        let module = &table.modules[mi];
        let ghost stmts = module.statements@;
        let ghost acc0 = str_views(names@);
        let mut si: usize = 0;
        while si < module.statements.len()
            invariant
                0 <= si <= stmts.len(),
                stmts == module.statements@,
                st == canonical_names@,
                str_views(names@) == reserved_in_stmts(acc0, st, *module, stmts.take(si as int)),
            decreases stmts.len() - si,
        {
            let s = &module.statements[si];
            proof {
                let tk = stmts.take(si + 1);
                assert(tk.drop_last() =~= stmts.take(si as int));
                assert(tk.last() == *s);
            }
            let ghost nv = str_views(s.declared_names@);
            let ghost acc1 = str_views(names@);
            let mut k: usize = 0;
            while k < s.declared_names.len()
                invariant
                    0 <= k <= nv.len(),
                    nv == str_views(s.declared_names@),
                    st == canonical_names@,
                    str_views(names@) == reserved_in_names(acc1, st, *module, nv.take(k as int)),
                decreases nv.len() - k,
            {
                let name = s.declared_names[k].as_str();
                proof {
                    let tk = nv.take(k + 1);
                    assert(tk.drop_last() =~= nv.take(k as int));
                    assert(tk.last() == name@);
                }
                match canonical_names.resolve_name(module, name) {
                    Some(renamed) => push_unique(&mut names, renamed),
                    None => push_unique(&mut names, name),
                }
                k += 1;
            }
            assert(nv.take(k as int) =~= nv);
            si += 1;
        }
        assert(stmts.take(si as int) =~= stmts);
        mi += 1;
    }
    names
}

/// Module-keyed wrappers whose keys are distinct modules of the table.
pub open spec fn wraps_ok(w: Seq<(ModuleIdx, NamespaceWrapInfo)>, n: nat) -> bool {
    &&& forall|i: int| 0 <= i < w.len() ==> (#[trigger] w[i]).0 < n
    &&& forall|i: int, j: int| 0 <= i < j < w.len() ==> (#[trigger] w[i]).0 != (#[trigger] w[j]).0
}

/// The wrapper exports `es` of module `m` with each local name replaced by its
/// output name.
pub open spec fn renamed_exports(st: RenameState, m: Module, es: Seq<ExportView>) -> Seq<ExportView> {
    es.map_values(|e: ExportView| (output_name(st, m, e.0), e.1, e.2))
}

/// Replaces the local names in every wrapper's export list by their output
/// names, so that the namespace block refers to the declarations as the bundle
/// names them.
pub fn apply_namespace_wrap_renames(
    namespace_wraps: &mut Vec<(ModuleIdx, NamespaceWrapInfo)>,
    canonical_names: &CanonicalNames,
    table: &ModuleTable,
)
    requires
        wraps_ok(old(namespace_wraps)@, table.modules@.len()),
    ensures
        wrap_views(final(namespace_wraps)@) == wrap_views(old(namespace_wraps)@).map_values(
            |e: (ModuleIdx, (Seq<char>, Seq<ExportView>))| (e.0, (e.1.0, renamed_exports(canonical_names@, table.modules@[e.0 as int], e.1.1))),
        ),
        wraps_ok(final(namespace_wraps)@, table.modules@.len()),
{
    let ghost w0 = wrap_views(namespace_wraps@);
    let ghost st = canonical_names@;
    let ghost t = table.modules@;
    let ghost f = |e: (ModuleIdx, (Seq<char>, Seq<ExportView>))| (e.0, (e.1.0, renamed_exports(st, t[e.0 as int], e.1.1)));
    let mut result: Vec<(ModuleIdx, NamespaceWrapInfo)> = Vec::new();
    let mut i: usize = 0;
    while i < namespace_wraps.len()
        invariant
            0 <= i <= w0.len(),
            w0 == wrap_views(namespace_wraps@),
            st == canonical_names@,
            t == table.modules@,
            wraps_ok(namespace_wraps@, t.len()),
            f == (|e: (ModuleIdx, (Seq<char>, Seq<ExportView>))| (e.0, (e.1.0, renamed_exports(st, t[e.0 as int], e.1.1)))),
            wrap_views(result@) == w0.take(i as int).map_values(f),
            forall|j: int| 0 <= j < result@.len() ==> (#[trigger] result@[j]).0 == namespace_wraps@[j].0,
        decreases w0.len() - i,
    {
        let mi = namespace_wraps[i].0;
        assert(namespace_wraps@[i as int].0 < t.len());
        let module = &table.modules[mi];
        let wrap = &namespace_wraps[i].1;
        let ghost es0 = wrap@.1;
        assert(w0[i as int] == (mi, wrap@));
        let mut new_exports: Vec<ExportedName> = Vec::new();
        let mut k: usize = 0;
        while k < wrap.export_names.len()
            invariant
                0 <= k <= es0.len(),
                es0 == wrap@.1,
                st == canonical_names@,
                new_exports@.map_values(|e: ExportedName| e@) == renamed_exports(st, *module, es0.take(k as int)),
            decreases es0.len() - k,
        {
            let e = &wrap.export_names[k];
            assert(es0[k as int] == e@);
            let local = match canonical_names.resolve_name(module, e.local.as_str()) {
                Some(renamed) => string_clone(renamed),
                None => string_clone(e.local.as_str()),
            };
            assert(local@ == output_name(st, *module, e.local@));
            let ghost nb = new_exports@;
            new_exports.push(ExportedName { local, exported: string_clone(e.exported.as_str()), is_type_only: e.is_type_only });
            proof {
                assert(es0.take(k + 1) =~= es0.take(k as int).push(e@));
                assert(renamed_exports(st, *module, es0.take(k + 1)) =~= renamed_exports(st, *module, es0.take(k as int)).push(
                    (output_name(st, *module, e.local@), e.exported@, e.is_type_only)));
                assert(new_exports@.map_values(|e: ExportedName| e@) =~= nb.map_values(|e: ExportedName| e@).push(
                    (output_name(st, *module, e.local@), e.exported@, e.is_type_only)));
            }
            k += 1;
        }
        assert(es0.take(k as int) =~= es0);
        let ghost rb = result@;
        result.push((mi, NamespaceWrapInfo { namespace_name: string_clone(wrap.namespace_name.as_str()), export_names: new_exports }));
        proof {
            assert(w0.take(i + 1) =~= w0.take(i as int).push(w0[i as int]));
            assert(wrap_views(result@) =~= wrap_views(rb).push(f(w0[i as int])));
        }
        i += 1;
    }
    assert(w0.take(i as int) =~= w0);
    proof {
        assert forall|a: int, b: int| 0 <= a < b < result@.len() implies (#[trigger] result@[a]).0 != (#[trigger] result@[b]).0 by {
            assert(namespace_wraps@[a].0 != namespace_wraps@[b].0);
        }
        assert forall|a: int| 0 <= a < result@.len() implies (#[trigger] result@[a]).0 < t.len() by {
            assert(namespace_wraps@[a].0 < t.len());
        }
    }
    *namespace_wraps = result;
}

/// `(namespace name, exports)` of a wrapper.
pub type WrapView = (Seq<char>, Seq<ExportView>);

/// The first index at or after `i` of the wrapper of module `mi`.
pub open spec fn wrap_slot(w: Seq<(ModuleIdx, WrapView)>, mi: ModuleIdx, i: int) -> int
    decreases w.len() - i,
{
    if i < 0 || i >= w.len() {
        w.len() as int
    } else if w[i].0 == mi {
        i
    } else {
        wrap_slot(w, mi, i + 1)
    }
}

/// Facts about `wrap_slot`.
pub proof fn lemma_wrap_slot_pub(w: Seq<(ModuleIdx, WrapView)>, mi: ModuleIdx)
    ensures
        0 <= wrap_slot(w, mi, 0) <= w.len(),
        wrap_slot(w, mi, 0) < w.len() ==> w[wrap_slot(w, mi, 0)].0 == mi,
{
    lemma_wrap_slot(w, mi, 0);
}

proof fn lemma_wrap_slot(w: Seq<(ModuleIdx, WrapView)>, mi: ModuleIdx, i: int)
    requires
        0 <= i <= w.len(),
    ensures
        i <= wrap_slot(w, mi, i) <= w.len(),
        wrap_slot(w, mi, i) < w.len() ==> w[wrap_slot(w, mi, i)].0 == mi,
        forall|j: int| i <= j < wrap_slot(w, mi, i) ==> (#[trigger] w[j]).0 != mi,
    decreases w.len() - i,
{
    if i < w.len() && w[i].0 != mi {
        lemma_wrap_slot(w, mi, i + 1);
    }
}

/// The state of namespace-name deconfliction: the wrappers, the names taken,
/// and the renames made as `(old name, new name)`.
pub struct DeconflictState {
    pub wraps: Seq<(ModuleIdx, WrapView)>,
    pub used: Seq<Seq<char>>,
    pub renamed: Seq<(Seq<char>, Seq<char>)>,
}

/// The wrapper of module `mi`, if any, keeps its name when it is not taken,
/// else takes the first free `name$N`.
pub open spec fn deconflict_step(st: DeconflictState, mi: ModuleIdx) -> DeconflictState {
    let p = wrap_slot(st.wraps, mi, 0);
    if p >= st.wraps.len() {
        st
    } else {
        let base = st.wraps[p].1.0;
        let r = allocated(base, st.used, Seq::empty());
        DeconflictState {
            wraps: if r != base { st.wraps.update(p, (mi, (r, st.wraps[p].1.1))) } else { st.wraps },
            used: st.used.push(r),
            renamed: if r != base { st.renamed.push((base, r)) } else { st.renamed },
        }
    }
}

/// The wrappers of modules `0 .. c` deconflicted in module order.
pub open spec fn deconflict_upto(st: DeconflictState, c: nat) -> DeconflictState
    decreases c,
{
    if c == 0 {
        st
    } else {
        deconflict_step(deconflict_upto(st, (c - 1) as nat), (c - 1) as ModuleIdx)
    }
}

/// One more than the largest key of `w` (0 when empty).
pub open spec fn key_bound(w: Seq<(ModuleIdx, WrapView)>) -> nat
    decreases w.len(),
{
    if w.len() == 0 {
        0
    } else {
        let b = key_bound(w.drop_last());
        if w.last().0 + 1 > b { (w.last().0 + 1) as nat } else { b }
    }
}

/// What holds of the wrappers after deconflicting the modules below `c`.
pub open spec fn deconflicted_upto_ok(w0: Seq<(ModuleIdx, WrapView)>, reserved: Seq<Seq<char>>, st: DeconflictState, c: nat) -> bool {
    &&& st.wraps.len() == w0.len()
    &&& forall|p: int| 0 <= p < w0.len() ==> (#[trigger] st.wraps[p]).0 == w0[p].0
    &&& forall|x: Seq<char>| reserved.contains(x) ==> #[trigger] st.used.contains(x)
    &&& forall|p: int|
        0 <= p < st.wraps.len() && (#[trigger] st.wraps[p]).0 < c ==> st.used.contains(st.wraps[p].1.0) && !reserved.contains(
            st.wraps[p].1.0,
        )
    &&& forall|p: int, q: int|
        0 <= p < st.wraps.len() && 0 <= q < st.wraps.len() && p != q && (#[trigger] st.wraps[p]).0 < c && (#[trigger] st.wraps[q]).0 < c
            ==> st.wraps[p].1.0 != st.wraps[q].1.0
}

proof fn lemma_deconflict_upto_ok(w0: Seq<(ModuleIdx, WrapView)>, reserved: Seq<Seq<char>>, c: nat)
    requires
        forall|i: int, j: int| 0 <= i < j < w0.len() ==> (#[trigger] w0[i]).0 != (#[trigger] w0[j]).0,
    ensures
        deconflicted_upto_ok(
            w0,
            reserved,
            deconflict_upto(DeconflictState { wraps: w0, used: reserved, renamed: Seq::empty() }, c),
            c,
        ),
    decreases c,
{
    let st0 = DeconflictState { wraps: w0, used: reserved, renamed: Seq::empty() };
    if c > 0 {
        lemma_deconflict_upto_ok(w0, reserved, (c - 1) as nat);
        let st = deconflict_upto(st0, (c - 1) as nat);
        let mi = (c - 1) as ModuleIdx;
        let nx = deconflict_step(st, mi);
        lemma_wrap_slot_pub(st.wraps, mi);
        let p = wrap_slot(st.wraps, mi, 0);
        if p < st.wraps.len() {
            let base = st.wraps[p].1.0;
            let r = allocated(base, st.used, Seq::empty());
            crate::rename::lemma_allocated_ok(base, st.used, Seq::empty());
            assert(nx.used == st.used.push(r));
            assert forall|q: int| 0 <= q < w0.len() implies (#[trigger] nx.wraps[q]).0 == w0[q].0 by {
                assert(st.wraps[q].0 == w0[q].0);
            }
            assert forall|x: Seq<char>| reserved.contains(x) implies #[trigger] nx.used.contains(x) by {
                assert(st.used.contains(x));
                let k = choose|k: int| 0 <= k < st.used.len() && st.used[k] == x;
                assert(nx.used[k] == x);
            }
            assert forall|q: int| 0 <= q < nx.wraps.len() && (#[trigger] nx.wraps[q]).0 < c implies nx.used.contains(nx.wraps[q].1.0)
                && !reserved.contains(nx.wraps[q].1.0) by {
                if q == p {
                    assert(nx.wraps[q].1.0 == r);
                    assert(nx.used[st.used.len() as int] == r);
                    if reserved.contains(r) {
                        assert(st.used.contains(r));
                    }
                } else {
                    assert(nx.wraps[q] == st.wraps[q]);
                    assert(st.wraps[q].0 != mi) by {
                        assert(st.wraps[q].0 == w0[q].0 && st.wraps[p].0 == w0[p].0);
                        if q < p {
                            assert(w0[q].0 != w0[p].0);
                        } else {
                            assert(w0[p].0 != w0[q].0);
                        }
                    }
                    assert(st.used.contains(st.wraps[q].1.0));
                    let k = choose|k: int| 0 <= k < st.used.len() && st.used[k] == st.wraps[q].1.0;
                    assert(nx.used[k] == st.used[k]);
                }
            }
            assert forall|a: int, b: int|
                0 <= a < nx.wraps.len() && 0 <= b < nx.wraps.len() && a != b && (#[trigger] nx.wraps[a]).0 < c && (#[trigger] nx.wraps[b]).0 < c
                implies nx.wraps[a].1.0 != nx.wraps[b].1.0 by {
                assert(st.wraps[a].0 == w0[a].0 && st.wraps[b].0 == w0[b].0 && st.wraps[p].0 == w0[p].0);
                if a == p {
                    assert(st.wraps[b].0 != mi) by {
                        if b < p { assert(w0[b].0 != w0[p].0); } else { assert(w0[p].0 != w0[b].0); }
                    }
                    assert(nx.wraps[b] == st.wraps[b]);
                    assert(st.used.contains(st.wraps[b].1.0));
                } else if b == p {
                    assert(st.wraps[a].0 != mi) by {
                        if a < p { assert(w0[a].0 != w0[p].0); } else { assert(w0[p].0 != w0[a].0); }
                    }
                    assert(nx.wraps[a] == st.wraps[a]);
                    assert(st.used.contains(st.wraps[a].1.0));
                } else {
                    assert(nx.wraps[a] == st.wraps[a] && nx.wraps[b] == st.wraps[b]);
                    assert(st.wraps[a].0 != mi) by {
                        if a < p { assert(w0[a].0 != w0[p].0); } else { assert(w0[p].0 != w0[a].0); }
                    }
                    assert(st.wraps[b].0 != mi) by {
                        if b < p { assert(w0[b].0 != w0[p].0); } else { assert(w0[p].0 != w0[b].0); }
                    }
                }
            }
        } else {
            assert(nx == st);
            assert forall|q: int| 0 <= q < st.wraps.len() implies (#[trigger] st.wraps[q]).0 != mi by {
                lemma_wrap_slot(st.wraps, mi, 0);
            }
        }
    }
}

/// Law: deconflicted namespace wrapper names (of wrappers for distinct
/// modules) are pairwise distinct, and none is a reserved name.
pub proof fn law_wrap_names_distinct_and_free(w0: Seq<(ModuleIdx, WrapView)>, reserved: Seq<Seq<char>>)
    requires
        forall|i: int, j: int| 0 <= i < j < w0.len() ==> (#[trigger] w0[i]).0 != (#[trigger] w0[j]).0,
    ensures
        ({
            let fin = deconflict_upto(DeconflictState { wraps: w0, used: reserved, renamed: Seq::empty() }, key_bound(w0)).wraps;
            &&& fin.len() == w0.len()
            &&& forall|i: int, j: int| 0 <= i < j < fin.len() ==> (#[trigger] fin[i]).1.0 != (#[trigger] fin[j]).1.0
            &&& forall|i: int| 0 <= i < fin.len() ==> !reserved.contains((#[trigger] fin[i]).1.0)
        }),
{
    let c = key_bound(w0);
    lemma_deconflict_upto_ok(w0, reserved, c);
    lemma_key_bound(w0);
    let fin = deconflict_upto(DeconflictState { wraps: w0, used: reserved, renamed: Seq::empty() }, c).wraps;
    assert forall|i: int| 0 <= i < fin.len() implies (#[trigger] fin[i]).0 < c by {
        assert(fin[i].0 == w0[i].0);
    }
}

/// The warning for a renamed namespace wrapper.
pub open spec fn wrapper_rename_message(base: Seq<char>, r: Seq<char>) -> Seq<char> {
    "typack/namespace-name-deconflict: renamed namespace wrapper \""@ + base + "\" to \""@ + r
        + "\" to avoid collision"@
}

proof fn lemma_key_bound(w: Seq<(ModuleIdx, WrapView)>)
    ensures
        forall|i: int| 0 <= i < w.len() ==> (#[trigger] w[i]).0 < key_bound(w),
        w.len() > 0 ==> exists|i: int| 0 <= i < w.len() && (#[trigger] w[i]).0 + 1 == key_bound(w),
    decreases w.len(),
{
    if w.len() > 0 {
        lemma_key_bound(w.drop_last());
        let b = key_bound(w.drop_last());
        assert forall|i: int| 0 <= i < w.len() implies (#[trigger] w[i]).0 < key_bound(w) by {
            if i < w.len() - 1 {
                assert(w[i] == w.drop_last()[i]);
            }
        }
        if !(w.last().0 + 1 > b) {
            let i = choose|i: int| 0 <= i < w.drop_last().len() && (#[trigger] w.drop_last()[i]).0 + 1 == b;
            assert(w[i] == w.drop_last()[i]);
        } else {
            assert(w[w.len() - 1] == w.last());
        }
    }
}

/// Gives each namespace wrapper a name that no declaration and no earlier
/// wrapper (in module order) has: a taken name `ns` becomes the first free
/// `ns$1`, `ns$2`, ...; each rename adds a warning.
pub fn deconflict_namespace_wrap_names(
    namespace_wraps: &mut Vec<(ModuleIdx, NamespaceWrapInfo)>,
    reserved_names: &Vec<String>,
    warnings: &mut Vec<String>,
)
    requires
        reserved_names@.len() + old(namespace_wraps)@.len() + 2 < i32::MAX,
    ensures
        ({
            let st0 = DeconflictState { wraps: wrap_views(old(namespace_wraps)@), used: str_views(reserved_names@), renamed: Seq::empty() };
            let fin = deconflict_upto(st0, key_bound(wrap_views(old(namespace_wraps)@)));
            &&& wrap_views(final(namespace_wraps)@) == fin.wraps
            &&& str_views(final(warnings)@) == str_views(old(warnings)@) + fin.renamed.map_values(
                |x: (Seq<char>, Seq<char>)| wrapper_rename_message(x.0, x.1),
            )
        }),
{
    let ghost w0 = wrap_views(namespace_wraps@);
    let ghost st0 = DeconflictState { wraps: w0, used: str_views(reserved_names@), renamed: Seq::empty() };
    let ghost warn0 = str_views(warnings@);
    let mut used: Vec<String> = Vec::new();
    let mut q: usize = 0;
    while q < reserved_names.len()
        invariant
            0 <= q <= reserved_names@.len(),
            str_views(used@) == str_views(reserved_names@).take(q as int),
        decreases reserved_names@.len() - q,
    {
        let ghost ub = used@;
        used.push(string_clone(reserved_names[q].as_str()));
        assert(str_views(reserved_names@).take(q + 1) =~= str_views(reserved_names@).take(q as int).push(reserved_names@[q as int]@));
        assert(str_views(used@) =~= str_views(ub).push(reserved_names@[q as int]@));
        q += 1;
    }
    assert(str_views(reserved_names@).take(q as int) =~= str_views(reserved_names@));
    if namespace_wraps.len() == 0 {
        assert(key_bound(w0) == 0);
        assert(str_views(warnings@) =~= warn0 + Seq::<(Seq<char>, Seq<char>)>::empty().map_values(
            |x: (Seq<char>, Seq<char>)| wrapper_rename_message(x.0, x.1)));
        return;
    }
    let mut max_key: usize = 0;
    let mut k: usize = 0;
    proof { lemma_key_bound(w0); }
    while k < namespace_wraps.len()
        invariant
            0 <= k <= w0.len(),
            w0 == wrap_views(namespace_wraps@),
            w0.len() > 0,
            forall|i: int| 0 <= i < k ==> (#[trigger] w0[i]).0 <= max_key,
            k == 0 ==> max_key == 0,
            k > 0 ==> exists|i: int| 0 <= i < k && (#[trigger] w0[i]).0 == max_key,
        decreases w0.len() - k,
    {
        assert(w0[k as int].0 == namespace_wraps@[k as int].0);
        if namespace_wraps[k].0 > max_key || k == 0 {
            max_key = namespace_wraps[k].0;
        }
        k += 1;
    }
    proof {
        let i0 = choose|i: int| 0 <= i < w0.len() && (#[trigger] w0[i]).0 + 1 == key_bound(w0);
        assert(max_key as nat + 1 == key_bound(w0));
    }
    let empty: Vec<String> = Vec::new();
    assert(str_views(empty@) =~= Seq::<Seq<char>>::empty());
    let ghost mut done: Seq<bool> = Seq::new(w0.len(), |i: int| false);
    proof { lemma_count_false_all(w0.len()); }
    let mut mi: usize = 0;
    loop
        invariant_except_break
            0 <= mi <= max_key,
            ({
                let st = deconflict_upto(st0, mi as nat);
                &&& wrap_views(namespace_wraps@) == st.wraps
                &&& str_views(used@) == st.used
                &&& str_views(warnings@) == warn0 + st.renamed.map_values(|x: (Seq<char>, Seq<char>)| wrapper_rename_message(x.0, x.1))
            }),
            forall|j: int| 0 <= j < done.len() && #[trigger] done[j] ==> w0[j].0 < mi,
        invariant
            max_key as nat + 1 == key_bound(w0),
            str_views(empty@) == Seq::<Seq<char>>::empty(),
            st0.used.len() + w0.len() + 2 < i32::MAX,
            st0 == (DeconflictState { wraps: w0, used: str_views(reserved_names@), renamed: Seq::empty() }),
            done.len() == w0.len(),
            str_views(used@).len() + count_false(done) == st0.used.len() + w0.len(),
            wrap_views(namespace_wraps@).len() == w0.len(),
            forall|j: int| 0 <= j < w0.len() ==> (#[trigger] wrap_views(namespace_wraps@)[j]).0 == w0[j].0,
        ensures
            ({
                let st = deconflict_upto(st0, (max_key + 1) as nat);
                &&& wrap_views(namespace_wraps@) == st.wraps
                &&& str_views(warnings@) == warn0 + st.renamed.map_values(|x: (Seq<char>, Seq<char>)| wrapper_rename_message(x.0, x.1))
            }),
        decreases max_key - mi,
    {
        let ghost st = deconflict_upto(st0, mi as nat);
        let ghost wv = wrap_views(namespace_wraps@);
        let mut p: usize = 0;
        while p < namespace_wraps.len()
            invariant
                0 <= p <= wv.len(),
                wv == wrap_views(namespace_wraps@),
                wrap_slot(wv, mi, 0) == wrap_slot(wv, mi, p as int),
            ensures
                0 <= p <= wv.len(),
                wrap_slot(wv, mi, 0) == wrap_slot(wv, mi, p as int),
                p < wv.len() ==> wv[p as int].0 == mi,
            decreases wv.len() - p,
        {
            assert(wv[p as int].0 == namespace_wraps@[p as int].0);
            if namespace_wraps[p].0 == mi {
                break;
            }
            p += 1;
        }
        proof { lemma_wrap_slot(wv, mi, p as int); }
        if p < namespace_wraps.len() {
            assert(wrap_slot(wv, mi, 0) == p);
            assert(!done[p as int]);
            proof {
                lemma_count_false_mark(done, p as int);
                assert(count_false(done) >= 1);
                assert(used@.len() == str_views(used@).len());
                assert(used@.len() + 1 <= st0.used.len() + w0.len());
                assert(empty@.len() == str_views(empty@).len());
                assert(empty@.len() == 0);
                done = done.update(p as int, true);
            }
            let base = string_clone(namespace_wraps[p].1.namespace_name.as_str());
            assert(base@ == wv[p as int].1.0);
            let ghost used_before = str_views(used@);
            let chosen = allocate_name(base.as_str(), &mut used, &empty);
            proof {
                crate::rename::lemma_allocation_unique(base@, used_before, Seq::empty(), chosen@);
            }
            if !crate::text::str_eq(chosen.as_str(), base.as_str()) {
                let mut msg = String::new();
                push_str(&mut msg, "typack/namespace-name-deconflict: renamed namespace wrapper \"");
                push_str(&mut msg, base.as_str());
                push_str(&mut msg, "\" to \"");
                push_str(&mut msg, chosen.as_str());
                push_str(&mut msg, "\" to avoid collision");
                let ghost wb = warnings@;
                warnings.push(msg);
                assert(str_views(warnings@) =~= str_views(wb).push(wrapper_rename_message(base@, chosen@)));
                let (key, mut wrap) = namespace_wraps.remove(p);
                wrap.namespace_name = chosen;
                namespace_wraps.insert(p, (key, wrap));
                assert(wrap_views(namespace_wraps@) =~= wv.update(p as int, (mi, (chosen@, wv[p as int].1.1))));
            }
        }
        assert(deconflict_upto(st0, (mi + 1) as nat) == deconflict_step(st, mi));
        if mi == max_key {
            break;
        }
        mi += 1;
    }
}

/// A sequence of `n` times `false` has `n` entries `false`.
pub proof fn lemma_count_false_all_pub(n: nat)
    ensures
        count_false(Seq::new(n, |i: int| false)) == n,
{
    lemma_count_false_all(n);
}

/// Marking a `false` entry takes one off the count.
pub proof fn lemma_count_false_mark_pub(s: Seq<bool>, i: int)
    requires
        0 <= i < s.len(),
        !s[i],
    ensures
        count_false(s.update(i, true)) + 1 == count_false(s),
{
    lemma_count_false_mark(s, i);
}

proof fn lemma_count_false_all(n: nat)
    ensures
        count_false(Seq::new(n, |i: int| false)) == n,
    decreases n,
{
    if n > 0 {
        assert(Seq::new(n, |i: int| false).drop_last() =~= Seq::new((n - 1) as nat, |i: int| false));
        lemma_count_false_all((n - 1) as nat);
    }
}

/// `base` followed by the decimal notation of `i`.
pub open spec fn numbered(base: Seq<char>, i: nat) -> Seq<char> {
    base + decimal(i)
}

/// A helper name is taken when another specifier has it or it is reserved.
pub open spec fn ns_taken(values: Seq<Seq<char>>, reserved: Seq<Seq<char>>, c: Seq<char>) -> bool {
    values.contains(c) || reserved.contains(c)
}

/// The helper name chosen for a new specifier: `base` when free, else the
/// first free `base0`, `base1`, ...
pub open spec fn ns_choice_ok(base: Seq<char>, values: Seq<Seq<char>>, reserved: Seq<Seq<char>>, r: Seq<char>) -> bool {
    if !ns_taken(values, reserved, base) {
        r == base
    } else {
        exists|k: nat|
            r == numbered(base, k) && !ns_taken(values, reserved, r) && forall|j: nat|
                j < k ==> ns_taken(values, reserved, #[trigger] numbered(base, j))
    }
}

/// The helper name of specifier `k` in the map `m`.
pub open spec fn ns_lookup(m: Seq<(Seq<char>, Seq<char>)>, k: Seq<char>) -> Option<Seq<char>>
    decreases m.len(),
{
    if m.len() == 0 {
        None
    } else if m[0].0 == k {
        Some(m[0].1)
    } else {
        ns_lookup(m.drop_first(), k)
    }
}

/// Law: once a helper name is recorded for a specifier, looking the
/// specifier up gives that name (so a later request for it returns the same
/// name and changes nothing), and every other specifier keeps its name.
pub proof fn law_ns_name_recorded(m: Seq<(Seq<char>, Seq<char>)>, k: Seq<char>, r: Seq<char>, other: Seq<char>)
    requires
        ns_lookup(m, k) is None,
    ensures
        ns_lookup(m.push((k, r)), k) == Some(r),
        other != k ==> ns_lookup(m.push((k, r)), other) == ns_lookup(m, other),
    decreases m.len(),
{
    if m.len() > 0 {
        assert(m.push((k, r)).drop_first() =~= m.drop_first().push((k, r)));
        assert(m.push((k, r))[0] == m[0]);
        law_ns_name_recorded(m.drop_first(), k, r, other);
    } else {
        let p = m.push((k, r));
        assert(p.drop_first() =~= Seq::<(Seq<char>, Seq<char>)>::empty());
        assert(p[0] == (k, r));
        assert(ns_lookup(p.drop_first(), other) is None);
    }
}

/// The views of a specifier-to-name map.
pub open spec fn pair_views(v: Seq<(String, String)>) -> Seq<(Seq<char>, Seq<char>)> {
    v.map_values(|e: (String, String)| (e.0@, e.1@))
}

/// The warning for a renamed namespace helper.
pub open spec fn helper_rename_message(base: Seq<char>, specifier: Seq<char>) -> Seq<char> {
    "typack/namespace-name-deconflict: renamed namespace helper \""@ + base + "\" for \""@ + specifier
        + "\" to avoid collision"@
}

proof fn lemma_numbered_injective(base: Seq<char>, a: nat, b: nat)
    requires
        numbered(base, a) == numbered(base, b),
    ensures
        a == b,
{
    assert(numbered(base, a).skip(base.len() as int) =~= decimal(a));
    assert(numbered(base, b).skip(base.len() as int) =~= decimal(b));
    crate::rename::lemma_decimal_injective(a, b);
}

/// Among `base0 .. base(n-1)`, with `n` one more than the names taken, one is free.
proof fn lemma_some_numbered_free(base: Seq<char>, values: Seq<Seq<char>>, reserved: Seq<Seq<char>>, n: nat) -> (k: nat)
    requires
        n == values.len() + reserved.len() + 1,
    ensures
        k < n,
        !ns_taken(values, reserved, numbered(base, k)),
{
    if forall|k: nat| k < n ==> ns_taken(values, reserved, #[trigger] numbered(base, k)) {
        let cands = Seq::new(n, |i: int| numbered(base, i as nat));
        let pool = values + reserved;
        assert forall|i: int, j: int| 0 <= i < cands.len() && 0 <= j < cands.len() && i != j implies cands[i]
            != cands[j] by {
            if cands[i] == cands[j] {
                lemma_numbered_injective(base, i as nat, j as nat);
            }
        }
        assert(cands.no_duplicates());
        cands.unique_seq_to_set();
        assert forall|c: Seq<char>| cands.to_set().contains(c) implies pool.to_set().contains(c) by {
            let i = choose|i: int| 0 <= i < cands.len() && cands[i] == c;
            assert(c == numbered(base, i as nat));
            assert(ns_taken(values, reserved, numbered(base, i as nat)));
            if values.contains(c) {
                let j = choose|j: int| 0 <= j < values.len() && values[j] == c;
                assert(pool[j] == c);
            } else {
                let j = choose|j: int| 0 <= j < reserved.len() && reserved[j] == c;
                assert(pool[values.len() + j] == c);
            }
        }
        pool.lemma_cardinality_of_set();
        vstd::set_lib::lemma_len_subset(cands.to_set(), pool.to_set());
        assert(false);
        0
    } else {
        let k = choose|k: nat| k < n && !ns_taken(values, reserved, #[trigger] numbered(base, k));
        k
    }
}

/// The helper namespace name of `specifier`: the one given before, if any;
/// else `base_name` when no other specifier has it and it is not reserved,
/// else the first free `base_name0`, `base_name1`, ... (with a warning).
/// A new name is recorded for the specifier.
pub fn get_or_create_ns_name(
    specifier: &str,
    ns_name_map: &mut Vec<(String, String)>,
    reserved_names: &Vec<String>,
    warnings: &mut Vec<String>,
    base_name: &str,
) -> (r: String)
    requires
        old(ns_name_map)@.len() + reserved_names@.len() + 1 < i32::MAX,
    ensures
        match ns_lookup(pair_views(old(ns_name_map)@), specifier@) {
            Some(v) => {
                &&& r@ == v
                &&& final(ns_name_map)@ == old(ns_name_map)@
                &&& final(warnings)@ == old(warnings)@
            },
            None => {
                let values = pair_views(old(ns_name_map)@).map_values(|e: (Seq<char>, Seq<char>)| e.1);
                &&& ns_choice_ok(base_name@, values, str_views(reserved_names@), r@)
                &&& pair_views(final(ns_name_map)@) == pair_views(old(ns_name_map)@).push((specifier@, r@))
                &&& str_views(final(warnings)@) == str_views(old(warnings)@) + if r@ != base_name@ {
                    seq![helper_rename_message(base_name@, specifier@)]
                } else {
                    Seq::empty()
                }
            },
        },
{
    let ghost mv = pair_views(ns_name_map@);
    let mut i: usize = 0;
    assert(mv.skip(0) =~= mv);
    while i < ns_name_map.len()
        invariant
            0 <= i <= mv.len(),
            mv == pair_views(ns_name_map@),
            ns_lookup(mv, specifier@) == ns_lookup(mv.skip(i as int), specifier@),
        decreases mv.len() - i,
    {
        assert(mv.skip(i as int).drop_first() =~= mv.skip(i + 1));
        if crate::text::str_eq(ns_name_map[i].0.as_str(), specifier) {
            return string_clone(ns_name_map[i].1.as_str());
        }
        i += 1;
    }
    let ghost values = mv.map_values(|e: (Seq<char>, Seq<char>)| e.1);
    let ghost rv = str_views(reserved_names@);
    let mut used: Vec<String> = Vec::new();
    let mut j: usize = 0;
    while j < ns_name_map.len()
        invariant
            0 <= j <= mv.len(),
            mv == pair_views(ns_name_map@),
            values == mv.map_values(|e: (Seq<char>, Seq<char>)| e.1),
            str_views(used@) == values.take(j as int),
        decreases mv.len() - j,
    {
        let ghost ub = used@;
        used.push(string_clone(ns_name_map[j].1.as_str()));
        assert(values.take(j + 1) =~= values.take(j as int).push(values[j as int]));
        assert(str_views(used@) =~= str_views(ub).push(values[j as int]));
        j += 1;
    }
    assert(values.take(j as int) =~= values);
    let taken = contains_name(&used, base_name) || contains_name(reserved_names, base_name);
    if !taken {
        let name = string_clone(base_name);
        let ghost nb = ns_name_map@;
        ns_name_map.push((string_clone(specifier), string_clone(name.as_str())));
        assert(pair_views(ns_name_map@) =~= pair_views(nb).push((specifier@, name@)));
        assert(str_views(warnings@) =~= str_views(warnings@) + Seq::<Seq<char>>::empty());
        return name;
    }
    let ghost nbound = (values.len() + rv.len() + 1) as nat;
    let ghost kf = lemma_some_numbered_free(base_name@, values, rv, nbound);
    let ghost map0 = ns_name_map@;
    let ghost warn0 = warnings@;
    let mut k: u32 = 0;
    loop
        invariant
            k as nat <= kf,
            kf < nbound,
            nbound == values.len() + rv.len() + 1,
            nbound < i32::MAX,
            values == str_views(used@),
            rv == str_views(reserved_names@),
            mv == pair_views(ns_name_map@),
            values == mv.map_values(|e: (Seq<char>, Seq<char>)| e.1),
            ns_name_map@ == map0,
            warnings@ == warn0,
            map0 == old(ns_name_map)@,
            warn0 == old(warnings)@,
            ns_lookup(mv, specifier@) is None,
            ns_taken(values, rv, base_name@),
            !ns_taken(values, rv, numbered(base_name@, kf)),
            forall|q: nat| q < k ==> ns_taken(values, rv, #[trigger] numbered(base_name@, q)),
        decreases kf - k,
    {
        let mut cand = string_clone(base_name);
        let digits = decimal_string(k);
        push_str(&mut cand, digits.as_str());
        assert(cand@ == numbered(base_name@, k as nat));
        if !contains_name(&used, cand.as_str()) && !contains_name(reserved_names, cand.as_str()) {
            let mut msg = String::new();
            push_str(&mut msg, "typack/namespace-name-deconflict: renamed namespace helper \"");
            push_str(&mut msg, base_name);
            push_str(&mut msg, "\" for \"");
            push_str(&mut msg, specifier);
            push_str(&mut msg, "\" to avoid collision");
            let ghost wb = warnings@;
            warnings.push(msg);
            assert(str_views(warnings@) =~= str_views(wb) + seq![helper_rename_message(base_name@, specifier@)]);
            assert(ns_choice_ok(base_name@, values, rv, cand@));
            proof {
                if cand@ == base_name@ {
                    assert(cand@.len() > base_name@.len()) by {
                        crate::rename::lemma_decimal_len(k as nat);
                    }
                }
            }
            let ghost nb = ns_name_map@;
            ns_name_map.push((string_clone(specifier), string_clone(cand.as_str())));
            assert(pair_views(ns_name_map@) =~= pair_views(nb).push((specifier@, cand@)));
            return cand;
        }
        k += 1;
    }
}

/// Namespace-import aliases of a module: local symbol -> aliased module.
pub type AliasList = Seq<(SymbolId, ModuleIdx)>;

/// The aliases of module `mi` (none when it has no entry).
pub open spec fn aliases_of(all: Seq<(ModuleIdx, AliasList)>, mi: ModuleIdx) -> AliasList
    decreases all.len(),
{
    if all.len() == 0 {
        Seq::empty()
    } else if all[0].0 == mi {
        all[0].1
    } else {
        aliases_of(all.drop_first(), mi)
    }
}

/// The module aliased by `sym`.
pub open spec fn alias_target(aliases: AliasList, sym: SymbolId) -> Option<ModuleIdx>
    decreases aliases.len(),
{
    if aliases.len() == 0 {
        None
    } else if aliases[0].0 == sym {
        Some(aliases[0].1)
    } else {
        alias_target(aliases.drop_first(), sym)
    }
}

/// The views of the per-module alias lists.
pub open spec fn all_alias_views(v: Seq<(ModuleIdx, Vec<(SymbolId, ModuleIdx)>)>) -> Seq<(ModuleIdx, AliasList)> {
    v.map_values(|e: (ModuleIdx, Vec<(SymbolId, ModuleIdx)>)| (e.0, e.1@))
}

/// The wrapper planned for module `ti`: its namespace name and the names it
/// exports, collected without imports from a fresh visit.
pub open spec fn wrap_of(t: Seq<Module>, ti: ModuleIdx) -> WrapView {
    let fresh = CollectState { exports: Seq::empty(), imports: Seq::empty(), visited: Seq::new(t.len(), |i: int| false) };
    (namespace_name_of(t[ti as int].path@), collect_module(fresh, t, ti, false, (t.len() + 1) as nat).exports)
}

/// Whether `w` has a wrapper for module `k`.
pub open spec fn has_wrap(w: Seq<(ModuleIdx, WrapView)>, k: ModuleIdx) -> bool {
    wrap_slot(w, k, 0) < w.len()
}

/// `w` with the wrapper of module `k` set to `v` (added when absent).
pub open spec fn put_wrap(w: Seq<(ModuleIdx, WrapView)>, k: ModuleIdx, v: WrapView) -> Seq<(ModuleIdx, WrapView)> {
    let p = wrap_slot(w, k, 0);
    if p < w.len() { w.update(p, (k, v)) } else { w.push((k, v)) }
}

/// The entry scan: `export * as ns from "./m"` plans a wrapper for `./m`;
/// the symbols of the entry's local `export { .. }` specifiers are collected.
pub open spec fn scan_entry(t: Seq<Module>, entry: Module, stmts: Seq<StatementSummary>) -> (Seq<(ModuleIdx, WrapView)>, Seq<SymbolId>)
    decreases stmts.len(),
{
    if stmts.len() == 0 {
        (Seq::empty(), Seq::empty())
    } else {
        let prev = scan_entry(t, entry, stmts.drop_last());
        let s = stmts.last();
        if s.kind == StatementKind::ExportAll && s.export_all_alias is Some && s.source is Some {
            match resolve_internal(entry, s.source->0@) {
                Some(ti) => (put_wrap(prev.0, ti, wrap_of(t, ti)), prev.1),
                None => prev,
            }
        } else if s.kind == StatementKind::ExportNamed && s.source is None && !s.has_declaration {
            (prev.0, prev.1 + local_specifier_symbols(entry, s.specifiers@))
        } else {
            prev
        }
    }
}

/// The root symbols of the local names of `specs`, where bound.
pub open spec fn local_specifier_symbols(m: Module, specs: Seq<ExportSpecifierSummary>) -> Seq<SymbolId>
    decreases specs.len(),
{
    if specs.len() == 0 {
        Seq::empty()
    } else {
        let prev = local_specifier_symbols(m, specs.drop_last());
        match root_binding_of(m.scoping.root_bindings@, specs.last().local@) {
            Some(sym) => prev.push(sym),
            None => prev,
        }
    }
}

/// Namespace imports of the entry that are re-exported get a wrapper.
pub open spec fn wrap_reexported(t: Seq<Module>, w: Seq<(ModuleIdx, WrapView)>, aliases: AliasList, syms: Seq<SymbolId>) -> Seq<(ModuleIdx, WrapView)>
    decreases syms.len(),
{
    if syms.len() == 0 {
        w
    } else {
        let prev = wrap_reexported(t, w, aliases, syms.drop_last());
        match alias_target(aliases, syms.last()) {
            Some(ti) => if has_wrap(prev, ti) { prev } else { prev.push((ti, wrap_of(t, ti))) },
            None => prev,
        }
    }
}

/// The module aliased by the local name `local` of wrapped module `k`.
pub open spec fn export_alias_target(t: Seq<Module>, all: Seq<(ModuleIdx, AliasList)>, k: ModuleIdx, local: Seq<char>) -> Option<ModuleIdx> {
    match root_binding_of(t[k as int].scoping.root_bindings@, local) {
        Some(sym) => alias_target(aliases_of(all, k), sym),
        None => None,
    }
}

/// New wrappers for the aliased modules that the exports `es` of wrapped
/// module `k` refer to, unless `w` or the new list has them already.
pub open spec fn alias_wraps_of_exports(
    t: Seq<Module>,
    all: Seq<(ModuleIdx, AliasList)>,
    w: Seq<(ModuleIdx, WrapView)>,
    k: ModuleIdx,
    es: Seq<ExportView>,
    acc: Seq<(ModuleIdx, WrapView)>,
) -> Seq<(ModuleIdx, WrapView)>
    decreases es.len(),
{
    if es.len() == 0 {
        acc
    } else {
        let prev = alias_wraps_of_exports(t, all, w, k, es.drop_last(), acc);
        match export_alias_target(t, all, k, es.last().0) {
            Some(ti) => if has_wrap(w, ti) || has_wrap(prev, ti) { prev } else { prev.push((ti, wrap_of(t, ti))) },
            None => prev,
        }
    }
}

/// New wrappers for every wrapper of `ws` (wrappers `w` taken as existing).
pub open spec fn alias_wraps(
    t: Seq<Module>,
    all: Seq<(ModuleIdx, AliasList)>,
    w: Seq<(ModuleIdx, WrapView)>,
    ws: Seq<(ModuleIdx, WrapView)>,
) -> Seq<(ModuleIdx, WrapView)>
    decreases ws.len(),
{
    if ws.len() == 0 {
        Seq::empty()
    } else {
        let prev = alias_wraps(t, all, w, ws.drop_last());
        alias_wraps_of_exports(t, all, w, ws.last().0, ws.last().1.1, prev)
    }
}

/// The export `e` of wrapped module `k`, pointing at the namespace of the
/// module it aliases when that module has a wrapper in `w`.
pub open spec fn retarget_export(
    t: Seq<Module>,
    all: Seq<(ModuleIdx, AliasList)>,
    w: Seq<(ModuleIdx, WrapView)>,
    k: ModuleIdx,
    e: ExportView,
) -> ExportView {
    match export_alias_target(t, all, k, e.0) {
        Some(ti) => if has_wrap(w, ti) { (w[wrap_slot(w, ti, 0)].1.0, e.1, e.2) } else { e },
        None => e,
    }
}

/// The namespace plan of an entry: wrappers for `export * as ns` targets and
/// for re-exported namespace imports, then wrappers for modules those
/// wrappers' exports alias; the first wrappers' exports that alias a wrapped
/// module are pointed at its namespace.
pub open spec fn namespace_plan(t: Seq<Module>, entry_idx: ModuleIdx, all: Seq<(ModuleIdx, AliasList)>) -> Seq<(ModuleIdx, WrapView)> {
    let entry = t[entry_idx as int];
    let scanned = scan_entry(t, entry, entry.statements@);
    let w1 = wrap_reexported(t, scanned.0, aliases_of(all, entry_idx), scanned.1);
    let w2 = w1 + alias_wraps(t, all, w1, w1);
    Seq::new(w2.len(), |i: int| if i < w1.len() {
        (w2[i].0, (w2[i].1.0, w2[i].1.1.map_values(|e: ExportView| retarget_export(t, all, w2, w2[i].0, e))))
    } else {
        w2[i]
    })
}

/// A copy of an export list entry.
fn clone_exported(e: &ExportedName) -> (r: ExportedName)
    ensures
        r@ == e@,
{
    ExportedName { local: string_clone(e.local.as_str()), exported: string_clone(e.exported.as_str()), is_type_only: e.is_type_only }
}

/// A copy of a wrapper.
fn clone_wrap(w: &NamespaceWrapInfo) -> (r: NamespaceWrapInfo)
    ensures
        r@ == w@,
{
    let mut names: Vec<ExportedName> = Vec::new();
    let mut i: usize = 0;
    while i < w.export_names.len()
        invariant
            0 <= i <= w.export_names@.len(),
            names@.map_values(|e: ExportedName| e@) == w@.1.take(i as int),
        decreases w.export_names@.len() - i,
    {
        let ghost nb = names@;
        names.push(clone_exported(&w.export_names[i]));
        assert(w@.1.take(i + 1) =~= w@.1.take(i as int).push(w.export_names@[i as int]@));
        assert(names@.map_values(|e: ExportedName| e@) =~= nb.map_values(|e: ExportedName| e@).push(w.export_names@[i as int]@));
        i += 1;
    }
    assert(w@.1.take(i as int) =~= w@.1);
    NamespaceWrapInfo { namespace_name: string_clone(w.namespace_name.as_str()), export_names: names }
}

/// Whether every module path has a file name and every alias names a module
/// of the table.
pub open spec fn namespace_inputs_ok(t: Seq<Module>, all: Seq<(ModuleIdx, AliasList)>) -> bool {
    &&& forall|i: int| 0 <= i < t.len() ==> (#[trigger] file_name(t[i].path@)) is Some
    &&& forall|i: int, j: int| 0 <= i < all.len() && 0 <= j < all[i].1.len() ==> (#[trigger] all[i].1[j]).1 < t.len()
}

proof fn lemma_aliases_bounded(t: Seq<Module>, all: Seq<(ModuleIdx, AliasList)>, mi: ModuleIdx)
    requires
        namespace_inputs_ok(t, all),
    ensures
        forall|j: int| 0 <= j < aliases_of(all, mi).len() ==> (#[trigger] aliases_of(all, mi)[j]).1 < t.len(),
    decreases all.len(),
{
    if all.len() > 0 && all[0].0 != mi {
        assert(namespace_inputs_ok(t, all.drop_first())) by {
            assert forall|i: int, j: int| 0 <= i < all.drop_first().len() && 0 <= j < all.drop_first()[i].1.len()
                implies (#[trigger] all.drop_first()[i].1[j]).1 < t.len() by {
                assert(all.drop_first()[i] == all[i + 1]);
            }
        }
        lemma_aliases_bounded(t, all.drop_first(), mi);
        assert(aliases_of(all, mi) == aliases_of(all.drop_first(), mi));
    } else if all.len() > 0 {
        assert(aliases_of(all, mi) == all[0].1);
        assert forall|j: int| 0 <= j < aliases_of(all, mi).len() implies (#[trigger] aliases_of(all, mi)[j]).1 < t.len() by {
            assert(all[0].1[j] == aliases_of(all, mi)[j]);
            assert((all[0].1[j]).1 < t.len());
        }
    } else {
        assert(aliases_of(all, mi).len() == 0);
    }
}

proof fn lemma_alias_target_bounded(aliases: AliasList, sym: SymbolId, n: nat)
    requires
        forall|j: int| 0 <= j < aliases.len() ==> (#[trigger] aliases[j]).1 < n,
    ensures
        alias_target(aliases, sym) matches Some(ti) ==> ti < n,
    decreases aliases.len(),
{
    if aliases.len() > 0 && aliases[0].0 != sym {
        assert forall|j: int| 0 <= j < aliases.drop_first().len() implies (#[trigger] aliases.drop_first()[j]).1 < n by {
            assert(aliases.drop_first()[j] == aliases[j + 1]);
        }
        lemma_alias_target_bounded(aliases.drop_first(), sym, n);
    }
}

/// Plans the wrapper of module `ti`.
fn plan_wrap(table: &ModuleTable, ti: ModuleIdx) -> (r: NamespaceWrapInfo)
    requires
        table.wf(),
        ti < table.modules@.len(),
        file_name(table.modules@[ti as int].path@) is Some,
    ensures
        r@ == wrap_of(table.modules@, ti),
{
    let ghost n = table.modules@.len();
    let mut visited: Vec<bool> = Vec::new();
    let mut i: usize = 0;
    while i < table.modules.len()
        invariant
            0 <= i <= n,
            n == table.modules@.len(),
            visited@ == Seq::new(i as nat, |j: int| false),
        decreases n - i,
    {
        visited.push(false);
        assert(visited@ =~= Seq::new((i + 1) as nat, |j: int| false));
        i += 1;
    }
    proof { lemma_count_false_all(n as nat); }
    let mut exports: Vec<ExportedName> = Vec::new();
    let mut imports: Vec<ExternalImport> = Vec::new();
    assert(export_views(exports@) =~= Seq::<ExportView>::empty());
    assert(import_views(imports@) =~= Seq::<ImportView>::empty());
    collect_module_exports(ti, &mut exports, table, &mut visited, false, &mut imports);
    let name = derive_namespace_name(table.modules[ti].path.as_str());
    let r = NamespaceWrapInfo { namespace_name: name, export_names: exports };
    assert(r@.1 == export_views(exports@));
    r
}

/// The index of the wrapper of module `k`.
pub fn find_wrap(w: &Vec<(ModuleIdx, NamespaceWrapInfo)>, k: ModuleIdx) -> (p: usize)
    ensures
        p == wrap_slot(wrap_views(w@), k, 0),
{
    let ghost wv = wrap_views(w@);
    let mut p: usize = 0;
    while p < w.len()
        invariant
            0 <= p <= wv.len(),
            wv == wrap_views(w@),
            wrap_slot(wv, k, 0) == wrap_slot(wv, k, p as int),
        decreases wv.len() - p,
    {
        assert(wv[p as int].0 == w@[p as int].0);
        if w[p].0 == k {
            return p;
        }
        p += 1;
    }
    p
}

/// The module aliased by `sym` in `aliases`.
pub fn find_alias_target(aliases: &Vec<(SymbolId, ModuleIdx)>, sym: SymbolId) -> (r: Option<ModuleIdx>)
    ensures
        r == alias_target(aliases@, sym),
{
    let mut i: usize = 0;
    assert(aliases@.skip(0) =~= aliases@);
    while i < aliases.len()
        invariant
            0 <= i <= aliases@.len(),
            alias_target(aliases@, sym) == alias_target(aliases@.skip(i as int), sym),
        decreases aliases@.len() - i,
    {
        assert(aliases@.skip(i as int).drop_first() =~= aliases@.skip(i + 1));
        if aliases[i].0 == sym {
            return Some(aliases[i].1);
        }
        i += 1;
    }
    None
}

/// The index of the alias list of module `mi`, if it has one.
fn find_aliases(all: &Vec<(ModuleIdx, Vec<(SymbolId, ModuleIdx)>)>, mi: ModuleIdx) -> (r: Option<usize>)
    ensures
        match r {
            Some(i) => i < all@.len() && all@[i as int].1@ == aliases_of(all_alias_views(all@), mi),
            None => aliases_of(all_alias_views(all@), mi) == Seq::<(SymbolId, ModuleIdx)>::empty(),
        },
{
    let ghost av = all_alias_views(all@);
    let mut i: usize = 0;
    assert(av.skip(0) =~= av);
    while i < all.len()
        invariant
            0 <= i <= av.len(),
            av == all_alias_views(all@),
            aliases_of(av, mi) == aliases_of(av.skip(i as int), mi),
        decreases av.len() - i,
    {
        assert(av.skip(i as int).drop_first() =~= av.skip(i + 1));
        assert(av[i as int] == (all@[i as int].0, all@[i as int].1@));
        if all[i].0 == mi {
            return Some(i);
        }
        i += 1;
    }
    None
}

/// The module aliased by the local name `local` of module `k`.
fn find_export_alias_target(
    table: &ModuleTable,
    all: &Vec<(ModuleIdx, Vec<(SymbolId, ModuleIdx)>)>,
    k: ModuleIdx,
    local: &str,
) -> (r: Option<ModuleIdx>)
    requires
        k < table.modules@.len(),
    ensures
        r == export_alias_target(table.modules@, all_alias_views(all@), k, local@),
{
    match table.modules[k].scoping.get_root_binding(local) {
        Some(sym) => match find_aliases(all, k) {
            Some(i) => find_alias_target(&all[i].1, sym),
            None => None,
        },
        None => None,
    }
}

/// Sets the wrapper of module `k` (adding it when absent).
fn put_wrap_exec(w: &mut Vec<(ModuleIdx, NamespaceWrapInfo)>, k: ModuleIdx, v: NamespaceWrapInfo)
    ensures
        wrap_views(final(w)@) == put_wrap(wrap_views(old(w)@), k, v@),
{
    let p = find_wrap(w, k);
    let ghost wb = w@;
    proof { lemma_wrap_slot(wrap_views(w@), k, 0); }
    let ghost vv = v@;
    if p < w.len() {
        w.set(p, (k, v));
        assert(wrap_views(w@) =~= wrap_views(wb).update(p as int, (k, vv)));
    } else {
        w.push((k, v));
        assert(wrap_views(w@) =~= wrap_views(wb).push((k, vv)));
    }
}

/// Every wrapper is of a module of the table.
pub open spec fn keys_below(w: Seq<(ModuleIdx, WrapView)>, n: nat) -> bool {
    forall|i: int| 0 <= i < w.len() ==> (#[trigger] w[i]).0 < n
}

/// Scans the entry for wrapper-worthy exports: `export * as ns` targets are
/// wrapped; the symbols of local `export { .. }` specifiers are returned.
fn scan_entry_exports(table: &ModuleTable, entry_idx: ModuleIdx) -> (r: (Vec<(ModuleIdx, NamespaceWrapInfo)>, Vec<SymbolId>))
    requires
        table.wf(),
        entry_idx < table.modules@.len(),
        forall|i: int| 0 <= i < table.modules@.len() ==> (#[trigger] file_name(table.modules@[i].path@)) is Some,
    ensures
        wrap_views(r.0@) == scan_entry(table.modules@, table.modules@[entry_idx as int], table.modules@[entry_idx as int].statements@).0,
        r.1@ == scan_entry(table.modules@, table.modules@[entry_idx as int], table.modules@[entry_idx as int].statements@).1,
        keys_below(wrap_views(r.0@), table.modules@.len()),
{
    let ghost t = table.modules@;
    let entry = &table.modules[entry_idx];
    let ghost stmts = entry.statements@;
    let mut wraps: Vec<(ModuleIdx, NamespaceWrapInfo)> = Vec::new();
    let mut syms: Vec<SymbolId> = Vec::new();
    assert(wrap_views(wraps@) =~= Seq::<(ModuleIdx, WrapView)>::empty());
    let mut i: usize = 0;
    while i < entry.statements.len()
        invariant
            0 <= i <= stmts.len(),
            t == table.modules@,
            table.wf(),
            entry_idx < t.len(),
            *entry == t[entry_idx as int],
            stmts == entry.statements@,
            forall|q: int| 0 <= q < t.len() ==> (#[trigger] file_name(t[q].path@)) is Some,
            wrap_views(wraps@) == scan_entry(t, *entry, stmts.take(i as int)).0,
            syms@ == scan_entry(t, *entry, stmts.take(i as int)).1,
            keys_below(wrap_views(wraps@), t.len()),
        decreases stmts.len() - i,
    {
        let s = &entry.statements[i];
        proof {
            let tk = stmts.take(i + 1);
            assert(tk.drop_last() =~= stmts.take(i as int));
            assert(tk.last() == *s);
        }
        if s.kind == StatementKind::ExportAll && s.export_all_alias.is_some() && s.source.is_some() {
            let src = match &s.source {
                Some(x) => x,
                None => { assert(false); return (wraps, syms); },
            };
            match entry.resolve_internal_specifier(src.as_str()) {
                Some(ti) => {
                    proof {
                        crate::model::lemma_assoc_get_in(entry.resolved_internal_specifiers@, src@);
                        assert(t[entry_idx as int].idx == entry_idx);
                        let j = choose|j: int| 0 <= j < entry.resolved_internal_specifiers@.len()
                            && entry.resolved_internal_specifiers@[j].1 == ti
                            && #[trigger] entry.resolved_internal_specifiers@[j].0@ == src@;
                        assert(t[entry_idx as int].resolved_internal_specifiers@[j].1 < t.len());
                    }
                    let w = plan_wrap(table, ti);
                    let ghost before = wrap_views(wraps@);
                    put_wrap_exec(&mut wraps, ti, w);
                    proof {
                        lemma_wrap_slot(before, ti, 0);
                        assert forall|q: int| 0 <= q < wrap_views(wraps@).len() implies (#[trigger] wrap_views(wraps@)[q]).0 < t.len() by {
                            if q < before.len() && q != wrap_slot(before, ti, 0) {
                                assert(wrap_views(wraps@)[q] == before[q]);
                            }
                        }
                    }
                },
                None => {},
            }
        } else if s.kind == StatementKind::ExportNamed && s.source.is_none() && !s.has_declaration {
            let ghost syms0 = syms@;
            let mut k: usize = 0;
            while k < s.specifiers.len()
                invariant
                    0 <= k <= s.specifiers@.len(),
                    syms@ == syms0 + local_specifier_symbols(*entry, s.specifiers@.take(k as int)),
                decreases s.specifiers@.len() - k,
            {
                proof {
                    let tk = s.specifiers@.take(k + 1);
                    assert(tk.drop_last() =~= s.specifiers@.take(k as int));
                    assert(tk.last() == s.specifiers@[k as int]);
                }
                match entry.scoping.get_root_binding(s.specifiers[k].local.as_str()) {
                    Some(sym) => {
                        syms.push(sym);
                        assert(syms@ =~= syms0 + local_specifier_symbols(*entry, s.specifiers@.take(k + 1)));
                    },
                    None => {},
                }
                k += 1;
            }
            assert(s.specifiers@.take(k as int) =~= s.specifiers@);
        }
        i += 1;
    }
    assert(stmts.take(i as int) =~= stmts);
    (wraps, syms)
}

/// Plans the namespace wrappers of an entry: modules the entry exports as
/// `export * as ns`, namespace imports the entry re-exports, and modules that
/// the exports of those wrapped modules alias through namespace imports; the
/// first wrappers' exports that alias a wrapped module are pointed at its
/// namespace. Returns the wrappers and the entry's namespace-import aliases.
pub fn pre_scan_namespace_info(
    table: &ModuleTable,
    entry_idx: ModuleIdx,
    all_module_aliases: &Vec<(ModuleIdx, Vec<(SymbolId, ModuleIdx)>)>,
) -> (r: (Vec<(ModuleIdx, NamespaceWrapInfo)>, Vec<(SymbolId, ModuleIdx)>))
    requires
        table.wf(),
        entry_idx < table.modules@.len(),
        namespace_inputs_ok(table.modules@, all_alias_views(all_module_aliases@)),
    ensures
        wrap_views(r.0@) == namespace_plan(table.modules@, entry_idx, all_alias_views(all_module_aliases@)),
        r.1@ == aliases_of(all_alias_views(all_module_aliases@), entry_idx),
{
    let ghost t = table.modules@;
    let ghost av = all_alias_views(all_module_aliases@);
    let ghost n = t.len();
    let (mut wraps, syms) = scan_entry_exports(table, entry_idx);
    // the entry's namespace-import aliases
    let mut entry_aliases: Vec<(SymbolId, ModuleIdx)> = Vec::new();
    match find_aliases(all_module_aliases, entry_idx) {
        Some(ai) => {
            let src = &all_module_aliases[ai].1;
            let mut q: usize = 0;
            while q < src.len()
                invariant
                    0 <= q <= src@.len(),
                    entry_aliases@ == src@.take(q as int),
                decreases src@.len() - q,
            {
                entry_aliases.push(src[q]);
                assert(entry_aliases@ =~= src@.take(q + 1));
                q += 1;
            }
            assert(src@.take(q as int) =~= src@);
        },
        None => {},
    }
    proof { lemma_aliases_bounded(t, av, entry_idx); }
    // re-exported namespace imports of the entry
    let ghost w0 = wrap_views(wraps@);
    let mut k: usize = 0;
    while k < syms.len()
        invariant
            0 <= k <= syms@.len(),
            w0 == scan_entry(t, t[entry_idx as int], t[entry_idx as int].statements@).0,
            t == table.modules@,
            n == t.len(),
            table.wf(),
            namespace_inputs_ok(t, av),
            av == all_alias_views(all_module_aliases@),
            entry_aliases@ == aliases_of(av, entry_idx),
            forall|j: int| 0 <= j < entry_aliases@.len() ==> (#[trigger] entry_aliases@[j]).1 < n,
            wrap_views(wraps@) == wrap_reexported(t, w0, entry_aliases@, syms@.take(k as int)),
            keys_below(wrap_views(wraps@), n),
        decreases syms@.len() - k,
    {
        proof {
            let tk = syms@.take(k + 1);
            assert(tk.drop_last() =~= syms@.take(k as int));
            assert(tk.last() == syms@[k as int]);
            lemma_alias_target_bounded(entry_aliases@, syms@[k as int], n as nat);
        }
        let ghost prev = wrap_views(wraps@);
        assert(prev == wrap_reexported(t, w0, entry_aliases@, syms@.take(k as int)));
        match find_alias_target(&entry_aliases, syms[k]) {
            Some(ti) => {
                let p = find_wrap(&wraps, ti);
                if p == wraps.len() {
                    let w = plan_wrap(table, ti);
                    let ghost wv = w@;
                    wraps.push((ti, w));
                    assert(wrap_views(wraps@) =~= prev.push((ti, wv)));
                    assert(!has_wrap(prev, ti));
                    proof {
                        assert forall|q: int| 0 <= q < wrap_views(wraps@).len() implies (#[trigger] wrap_views(wraps@)[q]).0 < n by {
                            if q < prev.len() {
                                assert(wrap_views(wraps@)[q] == prev[q]);
                            }
                        }
                    }
                } else {
                    proof { lemma_wrap_slot(prev, ti, 0); }
                    assert(has_wrap(prev, ti));
                }
            },
            None => {},
        }
        assert(wrap_views(wraps@) == wrap_reexported(t, w0, entry_aliases@, syms@.take(k + 1)));
        k += 1;
    }
    assert(syms@.take(k as int) =~= syms@);
    // wrappers for modules that the wrapped modules' exports alias
    let ghost w1 = wrap_views(wraps@);
    let mut new_wraps: Vec<(ModuleIdx, NamespaceWrapInfo)> = Vec::new();
    assert(wrap_views(new_wraps@) =~= Seq::<(ModuleIdx, WrapView)>::empty());
    let mut wi: usize = 0;
    while wi < wraps.len()
        invariant
            0 <= wi <= w1.len(),
            t == table.modules@,
            n == t.len(),
            table.wf(),
            namespace_inputs_ok(t, av),
            av == all_alias_views(all_module_aliases@),
            w1 == wrap_views(wraps@),
            keys_below(w1, n),
            keys_below(wrap_views(new_wraps@), n),
            wrap_views(new_wraps@) == alias_wraps(t, av, w1, w1.take(wi as int)),
        decreases w1.len() - wi,
    {
        let key = wraps[wi].0;
        assert(w1[wi as int].0 == key);
        let es = &wraps[wi].1.export_names;
        let ghost ev = w1[wi as int].1.1;
        assert(ev == es@.map_values(|e: ExportedName| e@));
        let ghost acc0 = wrap_views(new_wraps@);
        proof {
            let tk = w1.take(wi + 1);
            assert(tk.drop_last() =~= w1.take(wi as int));
            assert(tk.last() == w1[wi as int]);
            lemma_aliases_bounded(t, av, key);
        }
        let mut e: usize = 0;
        while e < es.len()
            invariant
                0 <= e <= ev.len(),
                ev == es@.map_values(|x: ExportedName| x@),
                t == table.modules@,
                n == t.len(),
                table.wf(),
                key < n,
                namespace_inputs_ok(t, av),
                av == all_alias_views(all_module_aliases@),
                w1 == wrap_views(wraps@),
                forall|j: int| 0 <= j < aliases_of(av, key).len() ==> (#[trigger] aliases_of(av, key)[j]).1 < n,
                keys_below(wrap_views(new_wraps@), n),
                wrap_views(new_wraps@) == alias_wraps_of_exports(t, av, w1, key, ev.take(e as int), acc0),
            decreases ev.len() - e,
        {
            proof {
                let tk = ev.take(e + 1);
                assert(tk.drop_last() =~= ev.take(e as int));
                assert(tk.last() == ev[e as int]);
                assert(ev[e as int] == es@[e as int]@);
            }
            let target = find_export_alias_target(table, all_module_aliases, key, es[e].local.as_str());
            proof {
                match root_binding_of(t[key as int].scoping.root_bindings@, es@[e as int].local@) {
                    Some(sym) => lemma_alias_target_bounded(aliases_of(av, key), sym, n as nat),
                    None => {},
                }
            }
            let ghost prev = wrap_views(new_wraps@);
            match target {
                Some(ti) => {
                    let p1 = find_wrap(&wraps, ti);
                    let p2 = find_wrap(&new_wraps, ti);
                    proof {
                        lemma_wrap_slot(w1, ti, 0);
                        lemma_wrap_slot(prev, ti, 0);
                    }
                    if p1 == wraps.len() && p2 == new_wraps.len() {
                        let w = plan_wrap(table, ti);
                        let ghost wv = w@;
                        new_wraps.push((ti, w));
                        assert(wrap_views(new_wraps@) =~= prev.push((ti, wv)));
                        proof {
                            assert forall|q: int| 0 <= q < wrap_views(new_wraps@).len() implies (#[trigger] wrap_views(new_wraps@)[q]).0 < n by {
                                if q < prev.len() {
                                    assert(wrap_views(new_wraps@)[q] == prev[q]);
                                }
                            }
                        }
                    }
                },
                None => {},
            }
            assert(wrap_views(new_wraps@) == alias_wraps_of_exports(t, av, w1, key, ev.take(e + 1), acc0));
            e += 1;
        }
        assert(ev.take(e as int) =~= ev);
        wi += 1;
    }
    assert(w1.take(wi as int) =~= w1);
    // all wrappers: the first ones, then the new ones
    let ghost nw = wrap_views(new_wraps@);
    let w1_len = wraps.len();
    let mut q: usize = 0;
    while q < new_wraps.len()
        invariant
            0 <= q <= nw.len(),
            nw == wrap_views(new_wraps@),
            w1_len == w1.len(),
            wrap_views(wraps@) == w1 + nw.take(q as int),
            keys_below(w1, n),
            keys_below(nw, n),
        decreases nw.len() - q,
    {
        let ghost wb = wrap_views(wraps@);
        let w = clone_wrap(&new_wraps[q].1);
        let ghost wv = w@;
        wraps.push((new_wraps[q].0, w));
        assert(nw[q as int] == (new_wraps@[q as int].0, wv));
        assert(wrap_views(wraps@) =~= wb.push(nw[q as int]));
        assert(nw.take(q + 1) =~= nw.take(q as int).push(nw[q as int]));
        assert(wrap_views(wraps@) =~= w1 + nw.take(q + 1));
        q += 1;
    }
    assert(nw.take(q as int) =~= nw);
    let ghost w2 = wrap_views(wraps@);
    assert(w2 == w1 + alias_wraps(t, av, w1, w1));
    // point the first wrappers' aliased exports at the namespaces
    let mut result: Vec<(ModuleIdx, NamespaceWrapInfo)> = Vec::new();
    let ghost plan = namespace_plan(t, entry_idx, av);
    let mut ri: usize = 0;
    while ri < wraps.len()
        invariant
            0 <= ri <= w2.len(),
            t == table.modules@,
            n == t.len(),
            table.wf(),
            namespace_inputs_ok(t, av),
            av == all_alias_views(all_module_aliases@),
            w2 == wrap_views(wraps@),
            w1_len == w1.len(),
            w1.len() <= w2.len(),
            keys_below(w2, n),
            plan == namespace_plan(t, entry_idx, av),
            plan.len() == w2.len(),
            forall|i: int| 0 <= i < w2.len() ==> #[trigger] plan[i] == (if i < w1.len() {
                (w2[i].0, (w2[i].1.0, w2[i].1.1.map_values(|e: ExportView| retarget_export(t, av, w2, w2[i].0, e))))
            } else {
                w2[i]
            }),
            wrap_views(result@) == plan.take(ri as int),
        decreases w2.len() - ri,
    {
        let key = wraps[ri].0;
        let ghost wv_i = w2[ri as int];
        assert(wv_i.0 == key);
        let ghost rb = wrap_views(result@);
        if ri < w1_len {
            let es = &wraps[ri].1.export_names;
            let ghost ev = wv_i.1.1;
            assert(ev == es@.map_values(|e: ExportedName| e@));
            proof { lemma_aliases_bounded(t, av, key); }
            let mut out: Vec<ExportedName> = Vec::new();
            let mut e: usize = 0;
            while e < es.len()
                invariant
                    0 <= e <= ev.len(),
                    ev == es@.map_values(|x: ExportedName| x@),
                    t == table.modules@,
                    n == t.len(),
                    key < n,
                    av == all_alias_views(all_module_aliases@),
                    w2 == wrap_views(wraps@),
                    forall|j: int| 0 <= j < aliases_of(av, key).len() ==> (#[trigger] aliases_of(av, key)[j]).1 < n,
                    out@.map_values(|x: ExportedName| x@) == ev.take(e as int).map_values(|x: ExportView| retarget_export(t, av, w2, key, x)),
                decreases ev.len() - e,
            {
                let x = &es[e];
                assert(ev[e as int] == x@);
                let target = find_export_alias_target(table, all_module_aliases, key, x.local.as_str());
                let ghost ob = out@;
                let mut done = false;
                match target {
                    Some(ti) => {
                        let p = find_wrap(&wraps, ti);
                        proof { lemma_wrap_slot(w2, ti, 0); }
                        if p < wraps.len() {
                            assert(w2[p as int].1.0 == wraps@[p as int].1.namespace_name@);
                            out.push(ExportedName {
                                local: string_clone(wraps[p].1.namespace_name.as_str()),
                                exported: string_clone(x.exported.as_str()),
                                is_type_only: x.is_type_only,
                            });
                            done = true;
                        }
                    },
                    None => {},
                }
                if !done {
                    out.push(clone_exported(x));
                }
                proof {
                    assert(ev.take(e + 1) =~= ev.take(e as int).push(x@));
                    assert(out@.map_values(|y: ExportedName| y@) =~= ob.map_values(|y: ExportedName| y@).push(
                        retarget_export(t, av, w2, key, x@)));
                }
                e += 1;
            }
            assert(ev.take(e as int) =~= ev);
            let name = string_clone(wraps[ri].1.namespace_name.as_str());
            result.push((key, NamespaceWrapInfo { namespace_name: name, export_names: out }));
        } else {
            let w = clone_wrap(&wraps[ri].1);
            result.push((key, w));
        }
        proof {
            assert(plan.take(ri + 1) =~= plan.take(ri as int).push(plan[ri as int]));
            assert(wrap_views(result@) =~= rb.push(plan[ri as int]));
        }
        ri += 1;
    }
    assert(plan.take(ri as int) =~= plan);
    (result, entry_aliases)
}

} // verus!
