use oxc_syntax::symbol::SymbolFlags;
use typack::flags::NeededKindFlags;
use typack::link_types::StatementAction;
use typack::module_meta::compute_module_link_meta;
use typack::namespace::get_or_create_ns_name;
use typack::rename::{build_canonical_names, collect_link_warnings};
use typack::needed_names::{build_needed_names, emitted_modules, needed_kinds_for, DeclarationNode};
use typack::model::{ExportEntry, SymbolRef};
use typack::options::{BundleDtsDiagnostic, BundleDtsOptions};
use typack::graph::{insert_pending_internal_edge, reindex_map, topological_sort};
use typack::model::{
    DeclKind, DefaultExportKind, ExportSource, ExportSpecifierSummary, ImportBindingKind, ImportSpecSummary,
    Module, ModuleExportImportInfo, ModuleTable, RootBinding, Scoping, StatementKind, StatementSummary,
};
use typack::paths::{diff_paths, is_non_ts_asset, is_relative_specifier, resolve_absolute_path};
use typack::resolution::{
    maybe_push_resolution_warning, resolve_specifier_for_scan, ExternalReason, ResolvedSpecifier,
};
use typack::scan_info::{
    collect_export_import_info, collect_module_aliases, collect_module_dependency_hints,
    collect_unique_directives, leading_reference_directives, trim_str,
};

fn statement(kind: StatementKind) -> StatementSummary {
    StatementSummary {
        kind,
        declared_names: Vec::new(),
        source: None,
        has_declaration: false,
        namespace_declaration: false,
        specifiers: Vec::new(),
        export_all_alias: None,
        type_only: false,
        decl_kind: DeclKind::NotDeclaration,
        decl_symbols: Vec::new(),
        default_kind: DefaultExportKind::Other,
        import_specifiers: None,
        inline_import_sources: Vec::new(),
    }
}

fn with_source(kind: StatementKind, source: &str) -> StatementSummary {
    let mut st = statement(kind);
    st.source = Some(source.to_string());
    st
}

fn spec(local: &str, exported: &str) -> ExportSpecifierSummary {
    ExportSpecifierSummary { local: local.to_string(), exported: exported.to_string(), is_type: false }
}

fn import_spec(local: &str, symbol: u32, kind: ImportBindingKind) -> ImportSpecSummary {
    ImportSpecSummary { local: local.to_string(), symbol: Some(symbol), kind }
}

fn module(idx: usize, path: &str) -> Module {
    Module {
        idx,
        path: path.to_string(),
        relative_path: path.trim_start_matches('/').to_string(),
        scoping: Scoping { root_bindings: Vec::new(), nested_binding_names: Vec::new() },
        reference_directives: Vec::new(),
        has_augmentation: false,
        resolved_internal_specifiers: Vec::new(),
        resolved_external_specifiers: Vec::new(),
        is_entry: idx == 0,
        export_import_info: ModuleExportImportInfo {
            named_exports: Vec::new(),
            star_reexports: Vec::new(),
            named_imports: Vec::new(),
            declared_export_names: Vec::new(),
        },
        statements: Vec::new(),
    }
}

#[test]
fn export_import_info_is_keyed_by_name() {
    let mut decl = statement(StatementKind::ExportNamed);
    decl.has_declaration = true;
    decl.declared_names = vec!["Foo".to_string(), "Bar".to_string()];
    let mut local = statement(StatementKind::ExportNamed);
    local.specifiers = vec![spec("Baz", "Qux")];
    let mut from = with_source(StatementKind::ExportNamed, "./mod");
    from.specifiers = vec![spec("X", "Foo")];
    let mut star = with_source(StatementKind::ExportAll, "./all");
    star.export_all_alias = Some("ns".to_string());
    let mut default = statement(StatementKind::ExportDefault);
    default.default_kind = DefaultExportKind::Identifier("Thing".to_string());
    let mut imp = with_source(StatementKind::Import, "react");
    imp.import_specifiers = Some(vec![
        import_spec("R", 7, ImportBindingKind::Default),
        import_spec("FC", 8, ImportBindingKind::Named("FC".to_string())),
    ]);

    let info = collect_export_import_info(&vec![decl, local, from, star, default, imp]);

    let keys: Vec<&str> = info.named_exports.iter().map(|(k, _)| k.as_str()).collect();
    assert_eq!(keys, vec!["Foo", "Bar", "Qux", "default"]);
    // The later `export { X as Foo } from "./mod"` replaces the declaration in place.
    match &info.named_exports[0].1.source {
        ExportSource::SourceReexport { specifier, imported_name } => {
            assert_eq!(specifier, "./mod");
            assert_eq!(imported_name, "X");
        }
        _ => panic!("expected a re-export"),
    }
    assert_eq!(info.named_exports[2].1.local_name, "Baz");
    assert!(matches!(info.named_exports[2].1.source, ExportSource::LocalReexport));
    assert_eq!(info.named_exports[3].1.local_name, "Thing");
    assert_eq!(info.declared_export_names, vec!["Foo".to_string(), "Bar".to_string()]);
    assert_eq!(info.star_reexports.len(), 1);
    assert_eq!(info.star_reexports[0].specifier, "./all");
    assert_eq!(info.star_reexports[0].alias.as_deref(), Some("ns"));
    let imports: Vec<&str> = info.named_imports.iter().map(|(k, _)| k.as_str()).collect();
    assert_eq!(imports, vec!["R", "FC"]);
    assert!(matches!(info.named_imports[0].1.kind, ImportBindingKind::Default));
}

#[test]
fn dependency_hints_split_eager_and_side_effect_imports() {
    let mut imp = with_source(StatementKind::Import, "./a");
    imp.import_specifiers = Some(vec![import_spec("A", 1, ImportBindingKind::Named("A".to_string()))]);
    let bare = with_source(StatementKind::Import, "./polyfill");
    let mut empty = with_source(StatementKind::Import, "lib");
    empty.import_specifiers = Some(Vec::new());
    let from = with_source(StatementKind::ExportNamed, "react");
    let star = with_source(StatementKind::ExportAll, "./a");
    let mut typed = statement(StatementKind::Other);
    typed.inline_import_sources = vec!["./b".to_string(), "react".to_string()];

    let hints = collect_module_dependency_hints(&vec![imp, bare, empty, from, star, typed]);
    assert_eq!(hints.eager, vec!["./a".to_string(), "react".to_string(), "./b".to_string()]);
    assert_eq!(hints.side_effect, vec!["./polyfill".to_string(), "lib".to_string()]);
    assert_eq!(hints.external, vec!["react".to_string(), "lib".to_string()]);
}

#[test]
fn reference_directives_stop_at_code_or_other_comments() {
    let pieces = vec![
        (String::new(), "/// <reference types=\"node\" />".to_string()),
        ("\n".to_string(), "  /// <reference path=\"./g.d.ts\" />  ".to_string()),
        ("\n".to_string(), "// plain comment".to_string()),
        ("\n".to_string(), "/// <reference lib=\"dom\" />".to_string()),
    ];
    assert_eq!(
        leading_reference_directives(&pieces),
        vec!["/// <reference types=\"node\" />".to_string(), "/// <reference path=\"./g.d.ts\" />".to_string()]
    );
    let after_code = vec![
        ("declare const x: number;\n".to_string(), "/// <reference types=\"node\" />".to_string()),
    ];
    assert!(leading_reference_directives(&after_code).is_empty());
}

#[test]
fn trim_removes_white_space_at_both_ends() {
    assert_eq!(trim_str("  \t a b \n"), "a b");
    assert_eq!(trim_str("   "), "");
    assert_eq!(trim_str("x"), "x");
}

#[test]
fn unique_directives_keep_module_order() {
    let mut a = module(0, "/p/a.d.ts");
    a.reference_directives = vec!["/// <reference types=\"node\" />".to_string()];
    let mut b = module(1, "/p/b.d.ts");
    b.reference_directives =
        vec!["/// <reference lib=\"dom\" />".to_string(), "/// <reference types=\"node\" />".to_string()];
    let mut table = ModuleTable::new();
    table.push(a);
    table.push(b);
    assert_eq!(
        collect_unique_directives(&table),
        vec!["/// <reference types=\"node\" />".to_string(), "/// <reference lib=\"dom\" />".to_string()]
    );
}

#[test]
fn namespace_imports_of_internal_modules_become_aliases() {
    let mut a = module(0, "/p/index.d.ts");
    a.resolved_internal_specifiers.push(("./m".to_string(), 1));
    let mut imp = with_source(StatementKind::Import, "./m");
    imp.import_specifiers = Some(vec![
        import_spec("ns", 5, ImportBindingKind::Namespace),
        import_spec("X", 6, ImportBindingKind::Named("X".to_string())),
    ]);
    let mut ext = with_source(StatementKind::Import, "react");
    ext.import_specifiers = Some(vec![import_spec("React", 9, ImportBindingKind::Namespace)]);
    a.statements = vec![imp, ext];
    let mut table = ModuleTable::new();
    table.push(a);
    table.push(module(1, "/p/m.d.ts"));
    let aliases = collect_module_aliases(&table);
    assert_eq!(aliases.len(), 2);
    assert_eq!(aliases[0], (0, vec![(5, 1)]));
    assert_eq!(aliases[1], (1, vec![]));
}

#[test]
fn topological_order_records_cycles_and_reindexes() {
    let path_to_idx = vec![
        ("/p/a.d.ts".to_string(), 0),
        ("/p/b.d.ts".to_string(), 1),
        ("/p/c.d.ts".to_string(), 2),
    ];
    let mut a_edges = Vec::new();
    insert_pending_internal_edge(&mut a_edges, "./b", "/p/b.d.ts");
    insert_pending_internal_edge(&mut a_edges, "./b", "/p/other.d.ts");
    assert_eq!(a_edges.len(), 1);
    let mut b_edges = Vec::new();
    insert_pending_internal_edge(&mut b_edges, "./c", "/p/c.d.ts");
    insert_pending_internal_edge(&mut b_edges, "./a", "/p/a.d.ts");
    let edges = vec![(0, a_edges), (1, b_edges)];
    let sorted = topological_sort(&path_to_idx, &edges, &vec![0], 3);
    assert_eq!(sorted.order, vec![2, 1, 0]);
    assert_eq!(sorted.cycles, vec![vec![0]]);
    let map = reindex_map(&sorted.order, 4);
    assert_eq!(map, vec![Some(2), Some(1), Some(0), None]);
}

#[test]
fn specifier_resolution_outcomes() {
    let forced = vec!["react".to_string()];
    let explicit: Vec<String> = Vec::new();
    let r = resolve_specifier_for_scan("/p/i.d.ts", "react", &forced, &explicit, Ok("/n/react.d.ts".to_string()));
    assert!(matches!(r, Ok(ResolvedSpecifier::External(ExternalReason::ForcedExternalOverrideResolved))));
    let r = resolve_specifier_for_scan("/p/i.d.ts", "./a", &forced, &explicit, Ok("/p/a.d.ts".to_string()));
    assert!(matches!(r, Ok(ResolvedSpecifier::Internal(ref p)) if p == "/p/a.d.ts"));
    let r = resolve_specifier_for_scan(
        "/p/i.d.ts",
        "lodash",
        &forced,
        &explicit,
        Ok("/p/node_modules/lodash/index.d.ts".to_string()),
    );
    assert!(matches!(r, Ok(ResolvedSpecifier::External(ExternalReason::ResolvedExternal))));
    let r = resolve_specifier_for_scan("/p/i.d.ts", "./style.css", &forced, &explicit, Err("nope".to_string()));
    assert!(matches!(r, Ok(ResolvedSpecifier::Skipped)));
    let r = resolve_specifier_for_scan("/p/i.d.ts", "./gone", &forced, &explicit, Err("not found".to_string()));
    match r {
        Err(message) => assert_eq!(message, "Cannot resolve relative specifier \"./gone\" from /p/i.d.ts: not found"),
        _ => panic!("expected an error"),
    }
    let r = resolve_specifier_for_scan("/p/i.d.ts", "vue", &forced, &explicit, Err("x".to_string()));
    assert!(matches!(r, Ok(ResolvedSpecifier::External(ExternalReason::UnresolvedBare))));
}

#[test]
fn resolution_warnings_are_deduplicated() {
    let mut warnings = Vec::new();
    let mut dedup = Vec::new();
    maybe_push_resolution_warning(&mut warnings, &mut dedup, "/p/i.d.ts", "vue", ExternalReason::UnresolvedBare);
    maybe_push_resolution_warning(&mut warnings, &mut dedup, "/p/i.d.ts", "vue", ExternalReason::UnresolvedBare);
    maybe_push_resolution_warning(&mut warnings, &mut dedup, "/p/i.d.ts", "x", ExternalReason::ResolvedExternal);
    assert_eq!(
        warnings,
        vec!["typack/externalized-bare-unresolved: externalized unresolved bare specifier \"vue\" from /p/i.d.ts"
            .to_string()]
    );
}

#[test]
fn paths_are_normalized_and_relativized() {
    assert_eq!(resolve_absolute_path("/a/b/../c/./d.ts"), "/a/c/d.ts");
    assert_eq!(diff_paths("/p/src/a.d.ts", "/p"), "src/a.d.ts");
    assert_eq!(diff_paths("/p/a.d.ts", "/p/src"), "../a.d.ts");
    assert!(is_relative_specifier("./x"));
    assert!(is_relative_specifier("/abs"));
    assert!(!is_relative_specifier("react"));
    assert!(is_non_ts_asset("./logo.SVG"));
    assert!(!is_non_ts_asset("./types.d.ts"));
}

#[test]
fn unneeded_declarations_are_dropped() {
    let mut m = module(0, "/p/index.d.ts");
    let bits = SymbolFlags::TypeAlias.bits();
    m.scoping.root_bindings = vec![
        RootBinding { name: "Used".to_string(), symbol: 1, flags: bits },
        RootBinding { name: "Unused".to_string(), symbol: 2, flags: bits },
    ];
    let mut used = statement(StatementKind::Other);
    used.declared_names = vec!["Used".to_string()];
    used.decl_kind = DeclKind::TypeAlias;
    used.decl_symbols = vec![1];
    let mut unused = statement(StatementKind::Other);
    unused.declared_names = vec!["Unused".to_string()];
    unused.decl_kind = DeclKind::TypeAlias;
    unused.decl_symbols = vec![2];
    m.statements = vec![used, unused];
    let mut table = ModuleTable::new();
    table.push(m);
    let names = build_canonical_names(&table, 0);
    let defaults = vec![None];
    let needed = vec![(1, NeededKindFlags(2))];
    let meta = compute_module_link_meta(&table, 0, Some(&needed), &names, &defaults);
    assert_eq!(meta.statement_actions, vec![StatementAction::Include, StatementAction::Skip]);
    let all = compute_module_link_meta(&table, 0, None, &names, &defaults);
    assert_eq!(all.statement_actions, vec![StatementAction::Include, StatementAction::Include]);
}

#[test]
fn helper_namespace_name_is_stable() {
    let mut map = Vec::new();
    let mut warnings = Vec::new();
    let reserved = vec!["react".to_string()];
    let first = get_or_create_ns_name("react", &mut map, &reserved, &mut warnings, "react");
    assert_eq!(first, "react0");
    assert_eq!(warnings.len(), 1);
    let again = get_or_create_ns_name("react", &mut map, &reserved, &mut warnings, "react");
    assert_eq!(again, first);
    assert_eq!(map.len(), 1);
    assert_eq!(warnings.len(), 1);
    let other = get_or_create_ns_name("vue", &mut map, &reserved, &mut warnings, "vue");
    assert_eq!(other, "vue");
    assert_eq!(map.len(), 2);
}

fn declaring_module(idx: usize, path: &str) -> Module {
    let mut m = module(idx, path);
    m.scoping.root_bindings = vec![RootBinding { name: "Foo".to_string(), symbol: 1, flags: SymbolFlags::TypeAlias.bits() }];
    m.export_import_info.named_exports.push((
        "Foo".to_string(),
        ExportEntry { local_name: "Foo".to_string(), source: ExportSource::LocalDeclaration },
    ));
    m.export_import_info.declared_export_names.push("Foo".to_string());
    let mut st = statement(StatementKind::ExportNamed);
    st.has_declaration = true;
    st.declared_names = vec!["Foo".to_string()];
    st.decl_kind = DeclKind::TypeAlias;
    st.decl_symbols = vec![1];
    m.statements.push(st);
    m
}

#[test]
fn first_reexported_module_keeps_its_names() {
    let mut entry = module(0, "/p/index.d.ts");
    entry.resolved_internal_specifiers = vec![("./b".to_string(), 2), ("./a".to_string(), 1)];
    let mut from_b = with_source(StatementKind::ExportNamed, "./b");
    from_b.specifiers = vec![spec("Foo", "BFoo")];
    let mut from_a = with_source(StatementKind::ExportNamed, "./a");
    from_a.specifiers = vec![spec("Foo", "AFoo")];
    entry.statements = vec![from_b, from_a];
    let mut table = ModuleTable::new();
    table.push(entry);
    table.push(declaring_module(1, "/p/a.d.ts"));
    table.push(declaring_module(2, "/p/b.d.ts"));
    let names = build_canonical_names(&table, 0);
    assert_eq!(names.resolve_symbol(SymbolRef { owner: 2, symbol: 1 }), None);
    assert_eq!(names.resolve_symbol(SymbolRef { owner: 1, symbol: 1 }), Some("Foo$1"));
}

#[test]
fn unreachable_modules_are_not_needed() {
    let mut entry = module(0, "/p/index.d.ts");
    entry.resolved_internal_specifiers = vec![("./a".to_string(), 1)];
    entry.export_import_info.named_exports.push((
        "Foo".to_string(),
        ExportEntry {
            local_name: "Foo".to_string(),
            source: ExportSource::SourceReexport { specifier: "./a".to_string(), imported_name: "Foo".to_string() },
        },
    ));
    let mut from_a = with_source(StatementKind::ExportNamed, "./a");
    from_a.specifiers = vec![spec("Foo", "Foo")];
    entry.statements = vec![from_a];
    let mut table = ModuleTable::new();
    table.push(entry);
    table.push(declaring_module(1, "/p/a.d.ts"));
    table.push(declaring_module(2, "/p/unrelated.d.ts"));
    let graph: Vec<Vec<DeclarationNode>> = vec![Vec::new(), Vec::new(), Vec::new()];
    let plan = build_needed_names(0, &table, &graph);
    assert!(plan.map[1].is_some());
    assert!(plan.map[2].is_none());
    assert_eq!(emitted_modules(0, &plan, &table), vec![1, 0]);
    assert!(needed_kinds_for(&plan, 0, 0).is_none());
    assert!(needed_kinds_for(&plan, 2, 0).is_none());
    assert!(plan.contains_symbol(&table.modules[1], "Foo"));
    assert!(!plan.contains_symbol(&table.modules[1], "Bar"));
    assert!(!plan.contains_symbol(&table.modules[2], "Foo"));
}

#[test]
fn name_based_renames_are_reported() {
    let mut a = module(0, "/p/index.d.ts");
    a.export_import_info.declared_export_names.push("Foo".to_string());
    let mut b = module(1, "/p/b.d.ts");
    b.export_import_info.declared_export_names.push("Foo".to_string());
    let mut table = ModuleTable::new();
    table.push(a);
    table.push(b);
    let names = build_canonical_names(&table, 0);
    assert_eq!(
        collect_link_warnings(&names, &table),
        vec!["typack/rename-fallback: used fallback rename for \"Foo\" in /p/index.d.ts -> \"Foo$1\"".to_string()]
    );
}

#[test]
fn host_options_take_defaults() {
    let options = BundleDtsOptions {
        input: vec!["a.d.ts".to_string()],
        external: None,
        cwd: None,
        sourcemap: Some(true),
        cjs_default: None,
    };
    let o = options.into_typack_options();
    assert_eq!(o.input, vec!["a.d.ts".to_string()]);
    assert!(o.external.is_empty());
    assert_eq!(o.cwd, ".");
    assert!(o.sourcemap);
    assert!(!o.cjs_default);
    let d = BundleDtsDiagnostic::from_message("boom".to_string(), true);
    assert_eq!(d.severity, "error");
    assert_eq!(d.message, "boom");
    assert!(d.file.is_none() && d.span.is_none());
    assert_eq!(BundleDtsDiagnostic::from_message("w".to_string(), false).severity, "warning");
}
