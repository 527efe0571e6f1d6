use oxc_syntax::symbol::SymbolFlags;
use typack::analysis::{collect_module_outputs, ExternalStarExport, GenerateAcc};
use typack::assemble::{
    cjs_default_export_local, generate_entry_output, namespace_wrapper_text, trim_trailing_newlines,
    RenderedModule, SourceJoiner,
};
use typack::emit::{write_export_statement, write_external_imports};
use typack::flags::{NeededKindFlags, NeededReason};
use typack::rewrite::{flatten_namespace_chain, import_type_names, EntryState};
use typack::sourcemap::{compose_source_map, lookup_token, MapToken};
use typack::graph::topological_sort;
use typack::inputs::{chain_ends_within, graph_is_ok, module_chains_checked, namespace_inputs_are_ok, rename_budget_fits, table_is_wf};
use typack::import_fixup::{convert_namespace_member_imports, prune_unused_imports};
use typack::link_types::{
    ExportedName, ExternalImport, ImportSpecifier, ImportSpecifierKind, NamespaceWrapInfo, StatementAction,
};
use typack::model::{
    DeclKind, DefaultExportKind, ExportEntry, ExportSource, ExportSpecifierSummary, Module,
    ModuleExportImportInfo, ModuleTable, RootBinding, Scoping, StarReexport, StatementKind, StatementSummary,
};
use typack::needed_names::{
    CrossModuleDep, build_needed_names, collect_all_exported_names, declaration_node, DeclarationNode, SymbolKinds,
};
use typack::namespace::deconflict_namespace_wrap_names;
use typack::paths::derive_namespace_name;
use typack::resolved_exports::build_resolved_exports;
use typack::rename::{allocate_name, build_canonical_names, decimal_string};
use typack::text::{is_generated_external_namespace_helper, sanitize_to_identifier};
use typack::tsconfig::{extract_compiler_options, strip_json_comments, IsolatedDeclarationsConfig};

fn exported(local: &str, exported: &str, is_type_only: bool) -> ExportedName {
    ExportedName { local: local.to_string(), exported: exported.to_string(), is_type_only }
}

fn named(local: &str, imported: &str) -> ImportSpecifier {
    ImportSpecifier { local: local.to_string(), kind: ImportSpecifierKind::Named(imported.to_string()) }
}

fn import(source: &str, specifiers: Vec<ImportSpecifier>) -> ExternalImport {
    ExternalImport {
        source: source.to_string(),
        specifiers,
        is_type_only: false,
        side_effect_only: false,
        from_reexport: false,
    }
}

fn statement(kind: StatementKind) -> StatementSummary {
    StatementSummary {
        kind,
        declared_names: Vec::new(),
        source: None,
        has_declaration: false,
        namespace_declaration: false,
        specifiers: Vec::new(),
        export_all_alias: None,
        type_only: false,
        decl_kind: DeclKind::NotDeclaration,
        decl_symbols: Vec::new(),
        default_kind: DefaultExportKind::Other,
        import_specifiers: None,
        inline_import_sources: Vec::new(),
    }
}

fn module(idx: usize, path: &str, is_entry: bool) -> Module {
    Module {
        idx,
        path: path.to_string(),
        relative_path: path.trim_start_matches('/').to_string(),
        scoping: Scoping { root_bindings: Vec::new(), nested_binding_names: Vec::new() },
        reference_directives: Vec::new(),
        has_augmentation: false,
        resolved_internal_specifiers: Vec::new(),
        resolved_external_specifiers: Vec::new(),
        is_entry,
        export_import_info: ModuleExportImportInfo {
            named_exports: Vec::new(),
            star_reexports: Vec::new(),
            named_imports: Vec::new(),
            declared_export_names: Vec::new(),
        },
        statements: Vec::new(),
    }
}

fn type_alias_bits() -> u32 {
    SymbolFlags::TypeAlias.bits()
}

fn binding(name: &str, symbol: u32, flags: u32) -> RootBinding {
    RootBinding { name: name.to_string(), symbol, flags }
}

fn type_node(name: &str, symbol: u32, deps: Vec<u32>) -> DeclarationNode {
    DeclarationNode {
        declared_names: vec![name.to_string()],
        declared_root_symbols: vec![(symbol, NeededKindFlags(2))],
        local_symbol_deps: deps.into_iter().map(|s| (s, NeededKindFlags(2))).collect(),
        cross_module_deps: Vec::new(),
        inline_import_deps: Vec::new(),
        is_always_retained: false,
    }
}

/// `index.d.ts`: `export { C } from "./mod"`; `mod.d.ts`: `type A = ..;
/// type B = A; export type C = B;` plus an unrelated `type Foo`.
fn transitive_project() -> (ModuleTable, Vec<Vec<DeclarationNode>>) {
    let mut entry = module(0, "/p/index.d.ts", true);
    entry.resolved_internal_specifiers.push(("./mod".to_string(), 1));
    entry.export_import_info.named_exports.push((
        "C".to_string(),
        ExportEntry {
            local_name: "C".to_string(),
            source: ExportSource::SourceReexport { specifier: "./mod".to_string(), imported_name: "C".to_string() },
        },
    ));
    let mut st = statement(StatementKind::ExportNamed);
    st.source = Some("./mod".to_string());
    st.specifiers.push(ExportSpecifierSummary { local: "C".to_string(), exported: "C".to_string(), is_type: false });
    entry.statements.push(st);

    let mut m = module(1, "/p/mod.d.ts", false);
    let bits = type_alias_bits();
    m.scoping.root_bindings.push(binding("A", 1, bits));
    m.scoping.root_bindings.push(binding("B", 2, bits));
    m.scoping.root_bindings.push(binding("C", 3, bits));
    m.scoping.root_bindings.push(binding("Foo", 4, bits));
    m.export_import_info.named_exports.push((
        "C".to_string(),
        ExportEntry { local_name: "C".to_string(), source: ExportSource::LocalDeclaration },
    ));
    m.export_import_info.declared_export_names.push("C".to_string());

    let mut table = ModuleTable::new();
    table.push(entry);
    table.push(m);
    let graph = vec![
        Vec::new(),
        vec![
            type_node("A", 1, vec![]),
            type_node("B", 2, vec![1]),
            type_node("C", 3, vec![2]),
            type_node("Foo", 4, vec![]),
        ],
    ];
    (table, graph)
}

#[test]
fn sanitizes_identifiers() {
    assert_eq!(sanitize_to_identifier("my-lib/sub.path"), "my_lib_sub_path");
    assert_eq!(sanitize_to_identifier("abc_1"), "abc_1");
}

#[test]
fn recognizes_generated_namespace_helpers() {
    assert!(is_generated_external_namespace_helper("_react1"));
    assert!(!is_generated_external_namespace_helper("react1"));
    assert!(!is_generated_external_namespace_helper("_react"));
}

#[test]
fn derives_namespace_names_from_paths() {
    assert_eq!(derive_namespace_name("/src/foo.d.ts"), "foo_d_exports");
    assert_eq!(derive_namespace_name("/src/my-mod.ts"), "my_mod_d_exports");
    assert_eq!(derive_namespace_name("/src/a.b.js"), "a_b_js_d_exports");
}

#[test]
fn export_statement_is_sorted_and_deduplicated() {
    let exports = vec![exported("b", "b", false), exported("x", "a", false), exported("y", "b", false)];
    let mut out = String::new();
    write_export_statement(&exports, &mut out);
    assert_eq!(out, "export { x as a, b };");
}

#[test]
fn export_statement_marks_type_only_exports() {
    let exports = vec![exported("T", "T", true)];
    let mut out = String::new();
    write_export_statement(&exports, &mut out);
    assert_eq!(out, "export { type T };");
}

#[test]
fn external_imports_of_one_source_are_merged() {
    let mut imports = vec![
        import("react", vec![named("useState", "useState")]),
        import("react", vec![ImportSpecifier { local: "React".to_string(), kind: ImportSpecifierKind::Default }]),
        import("b", vec![named("y", "x")]),
    ];
    let mut out = String::new();
    write_external_imports(&mut imports, &mut out);
    assert!(imports.is_empty());
    assert_eq!(out, "import React, { useState } from \"react\";\nimport { x as y } from \"b\";\n");
}

#[test]
fn namespace_imports_get_their_own_statement() {
    let mut imports = vec![import(
        "ns",
        vec![ImportSpecifier { local: "N".to_string(), kind: ImportSpecifierKind::Namespace }, named("a", "a")],
    )];
    let mut out = String::new();
    write_external_imports(&mut imports, &mut out);
    assert_eq!(out, "import * as N from \"ns\";\nimport { a } from \"ns\";\n");
}

#[test]
fn side_effect_import_is_kept_bare() {
    let mut imp = import("polyfill", vec![]);
    imp.side_effect_only = true;
    let mut imports = vec![imp];
    let mut out = String::new();
    write_external_imports(&mut imports, &mut out);
    assert_eq!(out, "import \"polyfill\";\n");
}

#[test]
fn entry_output_is_assembled_in_order() {
    let directives = vec!["/// <reference types=\"node\" />".to_string()];
    let mut acc = GenerateAcc {
        exports: vec![exported("Foo", "Foo", false)],
        imports: vec![import("x", vec![named("X", "X")])],
        star_exports: vec![ExternalStarExport { source: "y".to_string(), is_type_only: false }],
        has_any_export_statement: true,
    };
    let modules = vec![RenderedModule {
        relative_path: "a.d.ts".to_string(),
        is_ns_wrapped: false,
        namespace_wrapper: None,
        code: "interface Foo {}\n".to_string(),
    }];
    let (code, offsets) = generate_entry_output(&directives, &mut acc, String::new(), &modules, false);
    assert_eq!(
        code,
        "/// <reference types=\"node\" />\nimport { X } from \"x\";\nexport * from \"y\";\n\n//#region a.d.ts\ninterface Foo {}\n//#endregion\nexport { Foo };"
    );
    assert_eq!(offsets, vec![(0usize, 5u32)]);
    assert!(acc.imports.is_empty());
}

#[test]
fn wrapped_modules_come_before_regions() {
    let mut acc = GenerateAcc { exports: Vec::new(), imports: Vec::new(), star_exports: Vec::new(), has_any_export_statement: false };
    let modules = vec![
        RenderedModule {
            relative_path: "b.d.ts".to_string(),
            is_ns_wrapped: false,
            namespace_wrapper: None,
            code: "type B = 1;\n".to_string(),
        },
        RenderedModule {
            relative_path: "a.d.ts".to_string(),
            is_ns_wrapped: true,
            namespace_wrapper: Some("declare namespace a_d_exports {\n  export { A };\n}\n".to_string()),
            code: "type A = 1;\n".to_string(),
        },
    ];
    let (code, offsets) = generate_entry_output(&Vec::new(), &mut acc, String::new(), &modules, false);
    assert_eq!(
        code,
        "declare namespace a_d_exports {\n  export { A };\n}\ntype A = 1;\n//#region b.d.ts\ntype B = 1;\n//#endregion"
    );
    assert_eq!(offsets, vec![(1usize, 3u32), (0usize, 5u32)]);
}

#[test]
fn empty_export_is_preserved() {
    let mut acc = GenerateAcc { exports: Vec::new(), imports: Vec::new(), star_exports: Vec::new(), has_any_export_statement: true };
    let (code, offsets) = generate_entry_output(&Vec::new(), &mut acc, String::new(), &Vec::new(), false);
    assert_eq!(code, "export { };");
    assert!(offsets.is_empty());
}

#[test]
fn cjs_default_uses_export_assignment() {
    let exports = vec![exported("Foo", "default", false)];
    assert_eq!(cjs_default_export_local(true, &exports), Some("Foo"));
    assert_eq!(cjs_default_export_local(false, &exports), None);
    let mut acc = GenerateAcc { exports, imports: Vec::new(), star_exports: Vec::new(), has_any_export_statement: true };
    let (code, _) = generate_entry_output(&Vec::new(), &mut acc, String::new(), &Vec::new(), true);
    assert_eq!(code, "export = Foo;");
}

#[test]
fn cjs_default_needs_a_single_value_export() {
    let exports = vec![exported("Foo", "default", false), exported("Bar", "Bar", false)];
    assert_eq!(cjs_default_export_local(true, &exports), None);
    let type_only = vec![exported("Foo", "default", true)];
    assert_eq!(cjs_default_export_local(true, &type_only), None);
}

#[test]
fn joiner_records_line_offsets_of_code() {
    let mut joiner = SourceJoiner::new();
    joiner.append_raw("a\nb\n".to_string());
    joiner.append_raw(String::new());
    joiner.append_mapped("code\n".to_string(), 7);
    joiner.append_mapped(String::new(), 8);
    let (text, offsets) = joiner.join();
    assert_eq!(text, "a\nb\ncode\n");
    assert_eq!(offsets, vec![(7usize, 2u32)]);
}

#[test]
fn namespace_wrapper_block_lists_exports() {
    let wrap = NamespaceWrapInfo {
        namespace_name: "a_d_exports".to_string(),
        export_names: vec![exported("A", "A", false), exported("B1", "B", false)],
    };
    assert_eq!(namespace_wrapper_text(&wrap), "declare namespace a_d_exports {\n  export { A, B1 as B };\n}\n");
}

#[test]
fn trailing_newlines_are_trimmed() {
    assert_eq!(trim_trailing_newlines("a\n\n"), "a");
    assert_eq!(trim_trailing_newlines("a\nb"), "a\nb");
    assert_eq!(trim_trailing_newlines("\n"), "");
}

#[test]
fn unused_import_specifiers_are_pruned() {
    let mut imports = vec![
        import("x", vec![named("A", "A"), named("B", "B")]),
        import("z", vec![named("Z", "Z")]),
    ];
    let referenced = vec!["A".to_string()];
    prune_unused_imports(&mut imports, 0, &referenced, &[], &Vec::new(), &Vec::new());
    assert_eq!(imports.len(), 1);
    assert_eq!(imports[0].source, "x");
    assert_eq!(imports[0].specifiers.len(), 1);
    assert_eq!(imports[0].specifiers[0].local, "A");
}

#[test]
fn unused_generated_namespace_helper_is_dropped() {
    let mut imports = vec![import(
        "lib",
        vec![ImportSpecifier { local: "_lib1".to_string(), kind: ImportSpecifierKind::Namespace }],
    )];
    let info = vec![(9u32, ("lib".to_string(), "_lib1".to_string()))];
    prune_unused_imports(&mut imports, 0, &Vec::new(), &[], &Vec::new(), &info);
    assert!(imports.is_empty());
}

#[test]
fn accessed_namespace_members_become_named_imports() {
    let mut imports = vec![import(
        "lib",
        vec![ImportSpecifier { local: "_lib1".to_string(), kind: ImportSpecifierKind::Namespace }],
    )];
    let info = vec![(9u32, ("lib".to_string(), "_lib1".to_string()))];
    let accessed = vec![("lib".to_string(), vec!["foo".to_string(), "bar".to_string(), "foo".to_string()])];
    convert_namespace_member_imports(&mut imports, &info, &accessed);
    assert_eq!(imports.len(), 1);
    let locals: Vec<&str> = imports[0].specifiers.iter().map(|s| s.local.as_str()).collect();
    assert_eq!(locals, vec!["foo", "bar"]);
}

#[test]
fn names_get_numbered_suffixes() {
    assert_eq!(decimal_string(0), "0");
    assert_eq!(decimal_string(105), "105");
    let mut used = vec!["Foo".to_string(), "Foo$1".to_string()];
    let r = allocate_name("Foo", &mut used, &Vec::new());
    assert_eq!(r, "Foo$2");
    assert!(used.contains(&"Foo$2".to_string()));
    let free = allocate_name("Bar", &mut used, &Vec::new());
    assert_eq!(free, "Bar");
}

#[test]
fn kinds_follow_symbol_flags() {
    assert_eq!(NeededKindFlags::from_symbol_flags(SymbolFlags::Class.bits()).0, 3);
    assert_eq!(NeededKindFlags::from_symbol_flags(SymbolFlags::TypeAlias.bits()).0, 2);
    assert_eq!(NeededKindFlags::from_symbol_flags(SymbolFlags::FunctionScopedVariable.bits()).0, 1);
    let a = NeededKindFlags(1);
    let b = NeededKindFlags(2);
    assert_eq!(a.union(b).0, 3);
    assert!(!a.intersects(b));
    assert!(a.intersection(b).is_empty());
}

#[test]
fn tsconfig_flags_are_read_from_compiler_options() {
    let cfg = IsolatedDeclarationsConfig::parse(
        "{\n  // comment\n  \"compilerOptions\": { \"isolatedDeclarations\": true, \"stripInternal\": false, },\n}",
    );
    assert!(cfg.isolated_declarations);
    assert!(!cfg.strip_internal);
    let without_block = IsolatedDeclarationsConfig::parse("{ \"isolatedDeclarations\": true }");
    assert!(without_block.isolated_declarations);
    let not_bool = IsolatedDeclarationsConfig::parse("{ \"compilerOptions\": { \"stripInternal\": 1 } }");
    assert!(!not_bool.strip_internal);
}

#[test]
fn modules_sort_dependencies_first() {
    let path_to_idx = vec![("/a".to_string(), 0usize), ("/b".to_string(), 1usize)];
    let edges = vec![(0usize, vec![("./b".to_string(), "/b".to_string())])];
    let r = topological_sort(&path_to_idx, &edges, &vec![0usize], 2);
    assert_eq!(r.order, vec![1, 0]);
    assert!(r.cycles.is_empty());
}

#[test]
fn needed_names_keep_transitive_dependencies_only() {
    let (table, graph) = transitive_project();
    let plan = build_needed_names(0, &table, &graph);
    let mut syms = plan.map[1].clone().expect("mod is needed").expect("not whole");
    syms.sort();
    syms.dedup();
    assert_eq!(syms, vec![1, 2, 3]);
    assert!(plan.map[0].is_none());
    match &plan.symbol_kinds[1] {
        SymbolKinds::Kinds(v) => {
            let mut s: Vec<u32> = v.iter().map(|e| e.0).collect();
            s.sort();
            assert_eq!(s, vec![1, 2, 3]);
        }
        _ => panic!("expected the needed symbols of mod"),
    }
}

#[test]
fn all_exported_names_use_local_names() {
    let (table, _) = transitive_project();
    assert_eq!(collect_all_exported_names(1, &table), vec!["C".to_string()]);
    assert_eq!(collect_all_exported_names(0, &table), vec!["C".to_string()]);
}

#[test]
fn declaration_nodes_skip_statements_without_declarations() {
    let (table, _) = transitive_project();
    let none = declaration_node(1, &table, Vec::new(), NeededKindFlags(2), false, &Vec::new(), &Vec::new());
    assert!(none.is_none());
    let node = declaration_node(
        1,
        &table,
        vec!["B".to_string()],
        NeededKindFlags(2),
        false,
        &vec![(1u32, NeededKindFlags(2))],
        &Vec::new(),
    )
    .expect("B is a declaration");
    assert_eq!(node.declared_root_symbols.len(), 1);
    assert_eq!(node.declared_root_symbols[0].0, 2);
    assert_eq!(node.local_symbol_deps.len(), 1);
    assert!(node.cross_module_deps.is_empty());
}

#[test]
fn entry_reexports_are_collected_with_output_names() {
    let (table, _) = transitive_project();
    let canonical = build_canonical_names(&table, 0);
    let mut acc = GenerateAcc { exports: Vec::new(), imports: Vec::new(), star_exports: Vec::new(), has_any_export_statement: false };
    collect_module_outputs(&mut acc, 0, &vec![StatementAction::Skip], &table, &canonical, &Vec::new(), &Vec::new(), &vec![None, None]);
    assert!(acc.has_any_export_statement);
    assert_eq!(acc.exports.len(), 1);
    assert_eq!(acc.exports[0].local, "C");
    assert_eq!(acc.exports[0].exported, "C");
    assert!(acc.imports.is_empty());
}

#[test]
fn json_comment_stripper_keeps_commas_inside_strings() {
    assert_eq!(strip_json_comments(r#"{"a": ",}"}"#), r#"{"a": ",}"}"#);
    assert_eq!(strip_json_comments("{\"a\": 1, // c\n}"), "{\"a\": 1 \n}");
    assert_eq!(strip_json_comments("[1, /* x */ 2,]"), "[1,  2]");
}

#[test]
fn json_comment_stripper_keeps_non_ascii_text() {
    assert_eq!(strip_json_comments("{\"k\": \"é\"}"), "{\"k\": \"é\"}");
    assert_eq!(strip_json_comments("é"), "é");
}

#[test]
fn compiler_options_block_skips_escaped_quotes() {
    assert_eq!(
        extract_compiler_options(r#"{"compilerOptions": {"p": "a\"}", "q": true}}"#),
        r#""p": "a\"}", "q": true"#
    );
    assert_eq!(extract_compiler_options(r#"{"x": 1}"#), r#"{"x": 1}"#);
}

#[test]
fn default_kind_set_is_empty() {
    assert!(NeededKindFlags::default().is_empty());
    assert!(!NeededKindFlags::value().is_empty());
    assert!(!NeededKindFlags::type_space().is_empty());
    assert!(!NeededKindFlags::all().is_empty());
    assert!(NeededKindFlags::none().is_empty());
}

#[test]
fn needed_names_record_why_each_name_is_needed() {
    let (table, graph) = transitive_project();
    let plan = build_needed_names(0, &table, &graph);
    assert_eq!(plan.reasons_for(1, "C"), vec![NeededReason::EntryNamedReexport]);
    assert_eq!(plan.reasons_for(1, "B"), vec![NeededReason::SemanticDependency]);
    assert_eq!(plan.reasons_for(1, "A"), vec![NeededReason::SemanticDependency]);
    assert!(plan.reasons_for(1, "Foo").is_empty());
}

#[test]
fn exported_names_are_listed_once() {
    let mut m = module(0, "/p/a.d.ts", false);
    for exported_name in ["b", "c"] {
        m.export_import_info.named_exports.push((
            exported_name.to_string(),
            ExportEntry { local_name: "a".to_string(), source: ExportSource::LocalReexport },
        ));
    }
    let mut table = ModuleTable::new();
    table.push(m);
    assert_eq!(collect_all_exported_names(0, &table), vec!["a".to_string()]);
}

fn tok(dst_line: u32, dst_col: u32, src_line: u32, src_col: u32, source_id: Option<u32>, name_id: Option<u32>) -> MapToken {
    MapToken { dst_line, dst_col, src_line, src_col, source_id, name_id }
}

#[test]
fn source_map_lookup_finds_greatest_column_before() {
    let input = vec![tok(0, 0, 5, 0, Some(0), None), tok(0, 4, 6, 2, Some(0), None), tok(1, 0, 9, 0, Some(0), None)];
    assert_eq!(lookup_token(&input, 0, 3), Some(0));
    assert_eq!(lookup_token(&input, 0, 4), Some(1));
    assert_eq!(lookup_token(&input, 0, 100), Some(1));
    assert_eq!(lookup_token(&input, 2, 0), None);
    let dup = vec![tok(0, 2, 1, 1, None, None), tok(0, 2, 7, 7, None, None)];
    assert_eq!(lookup_token(&dup, 0, 3), Some(0));
}

#[test]
fn source_maps_compose_through_the_input_map() {
    let generated = vec![tok(0, 0, 0, 0, Some(0), None), tok(0, 7, 0, 5, Some(0), None), tok(3, 1, 9, 0, Some(0), None)];
    let input = vec![tok(0, 0, 10, 0, Some(0), Some(0)), tok(0, 5, 12, 3, Some(0), None)];
    let input_sources = vec![("src/a.ts".to_string(), "let a".to_string())];
    let input_names = vec!["Foo".to_string()];
    let generated_sources = vec![("a.d.ts".to_string(), String::new())];
    let c = compose_source_map(&generated, &input, &input_sources, &input_names, &generated_sources);
    assert_eq!(c.sources, vec![("src/a.ts".to_string(), "let a".to_string()), ("a.d.ts".to_string(), String::new())]);
    assert_eq!(c.names, vec!["Foo".to_string()]);
    assert_eq!(
        c.tokens,
        vec![tok(0, 0, 10, 0, Some(0), Some(0)), tok(0, 7, 12, 3, Some(0), None), tok(3, 1, 9, 0, Some(1), None)]
    );
}

#[test]
fn namespace_alias_chains_lose_the_alias() {
    let segments = vec!["ns".to_string(), "A".to_string(), "B".to_string()];
    let mut accessed: Vec<(String, Vec<String>)> = Vec::new();
    assert_eq!(flatten_namespace_chain(true, None, &segments, &mut accessed), Some(vec!["A".to_string(), "B".to_string()]));
    assert!(accessed.is_empty());
    assert_eq!(flatten_namespace_chain(false, Some("react"), &segments, &mut accessed), None);
    assert_eq!(flatten_namespace_chain(false, Some("react"), &segments, &mut accessed), None);
    assert_eq!(accessed, vec![("react".to_string(), vec!["A".to_string()])]);
    let short = vec!["ns".to_string()];
    assert_eq!(flatten_namespace_chain(true, Some("react"), &short, &mut accessed), None);
    assert_eq!(accessed.len(), 1);
}

fn empty_state() -> EntryState {
    EntryState {
        acc: GenerateAcc { exports: Vec::new(), imports: Vec::new(), star_exports: Vec::new(), has_any_export_statement: false },
        ns_wrapper_blocks: String::new(),
        ns_name_map: Vec::new(),
        warnings: Vec::new(),
    }
}

#[test]
fn inline_import_types_are_rewritten() {
    let (table, _) = transitive_project();
    let reserved: Vec<String> = Vec::new();
    let mut state = empty_state();
    let q = vec!["C".to_string()];
    assert_eq!(import_type_names(&table, &reserved, 0, "./mod", &q, false, &mut state), Some(q.clone()));
    assert_eq!(import_type_names(&table, &reserved, 0, "./mod", &Vec::new(), false, &mut state), None);
    let ext = import_type_names(&table, &reserved, 0, "@scope/pkg", &q, false, &mut state);
    assert_eq!(ext, Some(vec!["_scope_pkg".to_string(), "C".to_string()]));
    assert_eq!(state.acc.imports.len(), 1);
    assert_eq!(state.acc.imports[0].source, "@scope/pkg");
    assert_eq!(state.acc.imports[0].specifiers[0].local, "_scope_pkg");
    let again = import_type_names(&table, &reserved, 0, "@scope/pkg", &Vec::new(), false, &mut state);
    assert_eq!(again, Some(vec!["_scope_pkg".to_string()]));
    assert_eq!(state.acc.imports.len(), 1);
}

#[test]
fn typeof_internal_import_declares_a_namespace_once() {
    let (table, _) = transitive_project();
    let reserved: Vec<String> = Vec::new();
    let mut state = empty_state();
    let r = import_type_names(&table, &reserved, 0, "./mod", &Vec::new(), true, &mut state);
    assert_eq!(r, Some(vec!["mod_d_exports".to_string()]));
    assert_eq!(state.ns_wrapper_blocks, "declare namespace mod_d_exports {\n  export { C };\n}\n");
    let r2 = import_type_names(&table, &reserved, 0, "./mod", &Vec::new(), true, &mut state);
    assert_eq!(r2, Some(vec!["mod_d_exports".to_string()]));
    assert_eq!(state.ns_wrapper_blocks, "declare namespace mod_d_exports {\n  export { C };\n}\n");
}

#[test]
fn input_checks_accept_consistent_projects() {
    let (table, graph) = transitive_project();
    assert!(table_is_wf(&table));
    assert!(graph_is_ok(&table, &graph));
    assert!(rename_budget_fits(&table, 0));
    assert!(namespace_inputs_are_ok(&table, &Vec::new()));
    assert!(!namespace_inputs_are_ok(&table, &vec![(0usize, vec![(7u32, 5usize)])]));
    assert!(!graph_is_ok(&table, &Vec::new()));
    let mut bad = ModuleTable::new();
    bad.push(module(3, "/p/x.d.ts", true));
    assert!(!table_is_wf(&bad));
}

fn declaring(idx: usize, path: &str, name: &str) -> Module {
    let mut m = module(idx, path, false);
    m.export_import_info.named_exports.push((
        name.to_string(),
        ExportEntry { local_name: name.to_string(), source: ExportSource::LocalDeclaration },
    ));
    m.export_import_info.declared_export_names.push(name.to_string());
    m
}

#[test]
fn star_export_conflict_is_reported_for_two_sources() {
    let a = declaring(0, "/p/a.d.ts", "X");
    let b = declaring(1, "/p/b.d.ts", "X");
    let mut entry = module(2, "/p/index.d.ts", true);
    entry.resolved_internal_specifiers.push(("./a".to_string(), 0));
    entry.resolved_internal_specifiers.push(("./b".to_string(), 1));
    entry.export_import_info.star_reexports.push(StarReexport { specifier: "./a".to_string(), alias: None });
    entry.export_import_info.star_reexports.push(StarReexport { specifier: "./b".to_string(), alias: None });
    let mut table = ModuleTable::new();
    table.push(a);
    table.push(b);
    table.push(entry);
    let conflicts = build_resolved_exports(&table);
    assert_eq!(conflicts.len(), 1);
    assert_eq!(conflicts[0].module, 2);
    assert_eq!(conflicts[0].name, "X");
    assert_eq!((conflicts[0].first, conflicts[0].second), (0, 1));
}

#[test]
fn namespace_wrapper_names_end_up_distinct_and_unreserved() {
    let wrap = |name: &str| NamespaceWrapInfo { namespace_name: name.to_string(), export_names: vec![exported("a", "a", false)] };
    let mut wraps = vec![(0usize, wrap("ns")), (1usize, wrap("ns")), (2usize, wrap("taken"))];
    let reserved = vec!["taken".to_string()];
    let mut warnings = Vec::new();
    deconflict_namespace_wrap_names(&mut wraps, &reserved, &mut warnings);
    let names: Vec<&str> = wraps.iter().map(|(_, w)| w.namespace_name.as_str()).collect();
    assert_eq!(names[0], "ns");
    assert_ne!(names[1], "ns");
    assert_ne!(names[2], "taken");
    assert_ne!(names[1], names[2]);
    assert_eq!(warnings.len(), 2);
}

#[test]
fn topological_sort_reports_real_cycles_and_reachable_modules_only() {
    let path_to_idx = vec![("/a".to_string(), 0usize), ("/b".to_string(), 1usize), ("/c".to_string(), 2usize)];
    let edges = vec![
        (0usize, vec![("./b".to_string(), "/b".to_string())]),
        (1usize, vec![("./a".to_string(), "/a".to_string())]),
    ];
    let r = topological_sort(&path_to_idx, &edges, &vec![0usize], 3);
    assert_eq!(r.order, vec![1, 0]);
    assert_eq!(r.cycles, vec![vec![0usize]]);
    assert!(!r.order.contains(&2));
}

fn reexport(specifier: &str, name: &str) -> ExportEntry {
    ExportEntry {
        local_name: name.to_string(),
        source: ExportSource::SourceReexport { specifier: specifier.to_string(), imported_name: name.to_string() },
    }
}

/// `a.d.ts` (the entry): `export { X } from "./b"`; `b.d.ts`: `export { X } from "./a"`.
fn cyclic_project() -> ModuleTable {
    let mut a = module(0, "/p/a.d.ts", true);
    a.resolved_internal_specifiers.push(("./b".to_string(), 1));
    a.export_import_info.named_exports.push(("X".to_string(), reexport("./b", "X")));
    let mut st = statement(StatementKind::ExportNamed);
    st.source = Some("./b".to_string());
    st.specifiers.push(ExportSpecifierSummary { local: "X".to_string(), exported: "X".to_string(), is_type: false });
    a.statements.push(st);
    let mut b = module(1, "/p/b.d.ts", false);
    b.resolved_internal_specifiers.push(("./a".to_string(), 0));
    b.export_import_info.named_exports.push(("X".to_string(), reexport("./a", "X")));
    let mut table = ModuleTable::new();
    table.push(a);
    table.push(b);
    table
}

#[test]
fn reexport_cycles_are_found() {
    let table = cyclic_project();
    assert!(!module_chains_checked(&table, 0));
    assert!(!chain_ends_within(&table, 1, "X", 1000));
    assert!(chain_ends_within(&table, 1, "Y", 1));
}

#[test]
fn finite_reexport_chains_pass_the_check() {
    let (table, _) = transitive_project();
    assert!(module_chains_checked(&table, 0));
    assert!(chain_ends_within(&table, 0, "C", 2));
    assert!(!chain_ends_within(&table, 0, "C", 1));
}

#[test]
fn entry_declarations_keep_what_they_depend_on() {
    let (table, mut graph) = transitive_project();
    let mut node = type_node("Local", 9, vec![]);
    node.cross_module_deps.push(CrossModuleDep {
        target_module_idx: 1,
        target_name: Some("Foo".to_string()),
        reason: NeededReason::CrossModuleImportDependency,
    });
    graph[0].push(node);
    let plan = build_needed_names(0, &table, &graph);
    let mut syms = plan.map[1].clone().expect("mod is needed").expect("not whole");
    syms.sort();
    syms.dedup();
    assert_eq!(syms, vec![1, 2, 3, 4]);
}
