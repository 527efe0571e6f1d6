use oxc_allocator::Allocator;
use typack::comments::{comment_kept, map_location, MapLocation};
use typack::discover::{
    build_module, intern_path, path_index, record_external_specifier, reindex_edges, reindex_entries, ModuleParts,
};
use typack::flags::{record_reference, NeededKindFlags};
use typack::model::{Scoping, StatementKind, StatementSummary, DeclKind, DefaultExportKind};
use typack::parse::parse_module_source;
use typack::sourcemap::MapToken;
use typack::sourcemap_io::{
    concat_source_maps, decode_source_map, encode_source_map, input_source_paths, join_module_maps,
    trace_through_input, SourceMapData,
};

fn statement(kind: StatementKind) -> StatementSummary {
    StatementSummary {
        kind,
        declared_names: Vec::new(),
        source: None,
        has_declaration: false,
        namespace_declaration: false,
        specifiers: Vec::new(),
        export_all_alias: None,
        type_only: false,
        decl_kind: DeclKind::NotDeclaration,
        decl_symbols: Vec::new(),
        default_kind: DefaultExportKind::Other,
        import_specifiers: None,
        inline_import_sources: Vec::new(),
    }
}

fn tok(dst_line: u32, dst_col: u32, src_line: u32, src_col: u32, source_id: Option<u32>, name_id: Option<u32>) -> MapToken {
    MapToken { dst_line, dst_col, src_line, src_col, source_id, name_id }
}

fn map(sources: &[&str], names: &[&str], tokens: Vec<MapToken>) -> SourceMapData {
    SourceMapData {
        sources: sources.iter().map(|s| s.to_string()).collect(),
        contents: sources.iter().map(|s| Some(format!("// {s}"))).collect(),
        names: names.iter().map(|s| s.to_string()).collect(),
        tokens,
    }
}

#[test]
fn parsing_accepts_a_declaration_file() {
    let allocator = Allocator::default();
    let source = allocator.alloc_str("export declare const a: number;\nexport interface B { x: string }\n");
    let program = parse_module_source(&allocator, "/p/a.d.ts", source).ok().expect("parses");
    assert_eq!(program.body.len(), 2);
}

#[test]
fn parsing_reports_errors_with_the_path() {
    let allocator = Allocator::default();
    let source = allocator.alloc_str("export declare const = ;\n");
    let messages = parse_module_source(&allocator, "/p/broken.d.ts", source).err().expect("refused");
    assert!(!messages.is_empty());
    assert!(messages.iter().all(|m| m.starts_with("/p/broken.d.ts: ")));
}

#[test]
fn known_paths_are_interned_once() {
    let mut paths: Vec<String> = Vec::new();
    assert_eq!(intern_path(&mut paths, "/a.d.ts"), (0, true));
    assert_eq!(intern_path(&mut paths, "/b.d.ts"), (1, true));
    assert_eq!(intern_path(&mut paths, "/a.d.ts"), (0, false));
    assert_eq!(paths, vec!["/a.d.ts".to_string(), "/b.d.ts".to_string()]);
    assert_eq!(path_index(&paths, "/b.d.ts"), Some(1));
    assert_eq!(path_index(&paths, "/c.d.ts"), None);
}

#[test]
fn edges_and_entries_follow_the_new_numbering() {
    let paths = vec!["/a.d.ts".to_string(), "/b.d.ts".to_string(), "/c.d.ts".to_string()];
    let new_index = vec![Some(2), Some(0), None];
    let edges = vec![
        ("./b".to_string(), "/b.d.ts".to_string()),
        ("./c".to_string(), "/c.d.ts".to_string()),
        ("./x".to_string(), "/x.d.ts".to_string()),
        ("./a".to_string(), "/a.d.ts".to_string()),
    ];
    assert_eq!(reindex_edges(&edges, &paths, &new_index), vec![("./b".to_string(), 0), ("./a".to_string(), 2)]);
    assert_eq!(reindex_entries(&vec![0, 2, 1], &new_index), vec![2, 0]);
}

#[test]
fn modules_are_assembled_from_their_scan() {
    let mut export = statement(StatementKind::ExportNamed);
    export.has_declaration = true;
    export.declared_names = vec!["A".to_string()];
    let parts = ModuleParts {
        path: "/proj/src/a.d.ts".to_string(),
        scoping: Scoping { root_bindings: Vec::new(), nested_binding_names: Vec::new() },
        reference_directives: vec!["/// <reference types=\"node\" />".to_string()],
        has_augmentation: false,
        internal: vec![("./b".to_string(), "/proj/src/b.d.ts".to_string())],
        external: vec!["react".to_string()],
        statements: vec![export],
    };
    let paths = vec!["/proj/src/a.d.ts".to_string(), "/proj/src/b.d.ts".to_string()];
    let module = build_module(1, 0, parts, "/proj", &paths, &vec![Some(1), Some(0)], &vec![0]);
    assert_eq!(module.idx, 1);
    assert_eq!(module.relative_path, "src/a.d.ts");
    assert_eq!(module.resolved_internal_specifiers, vec![("./b".to_string(), 0)]);
    assert_eq!(module.resolved_external_specifiers, vec!["react".to_string()]);
    assert!(module.is_entry);
    assert_eq!(module.export_import_info.declared_export_names, vec!["A".to_string()]);
    assert_eq!(module.statements.len(), 1);
}

#[test]
fn references_join_their_spaces() {
    let mut refs: Vec<(u32, NeededKindFlags)> = Vec::new();
    record_reference(&mut refs, 7, NeededKindFlags::value());
    record_reference(&mut refs, 3, NeededKindFlags::type_space());
    record_reference(&mut refs, 7, NeededKindFlags::type_space());
    assert_eq!(refs, vec![(7, NeededKindFlags::all()), (3, NeededKindFlags::type_space())]);
}

#[test]
fn source_map_url_comments_name_the_input_map() {
    assert_eq!(map_location("//# sourceMappingURL=a.d.ts.map"), Some(MapLocation::File("a.d.ts.map".to_string())));
    assert_eq!(map_location("  //@ sourceMappingURL= b.map  "), Some(MapLocation::File("b.map".to_string())));
    assert_eq!(map_location("//# sourceMappingURL=data:application/json;base64,e30="), Some(MapLocation::Inline));
    assert_eq!(map_location("// just a comment"), None);
}

#[test]
fn directives_and_map_urls_are_left_out_of_the_output() {
    let directives = vec!["/// <reference types=\"node\" />".to_string()];
    assert!(!comment_kept(" /// <reference types=\"node\" /> ", &directives));
    assert!(!comment_kept("//# sourceMappingURL=a.d.ts.map", &directives));
    assert!(comment_kept("/** docs */", &directives));
}

#[test]
fn source_maps_survive_encoding() {
    let m = map(&["a.ts"], &["x"], vec![tok(0, 0, 1, 2, Some(0), Some(0)), tok(1, 4, 3, 0, Some(0), None)]);
    let json = encode_source_map(&m);
    let back = decode_source_map(&json).expect("decodes");
    assert_eq!(back.sources, vec!["a.ts".to_string()]);
    assert_eq!(back.names, vec!["x".to_string()]);
    assert_eq!(back.tokens, m.tokens);
    assert!(decode_source_map("not json").is_none());
}

#[test]
fn joined_maps_shift_lines_and_indices() {
    let first = map(&["a.ts"], &["x"], vec![tok(0, 0, 0, 0, Some(0), Some(0))]);
    let second = map(&["b.ts"], &["y"], vec![tok(0, 2, 5, 1, Some(0), Some(0)), tok(1, 0, 6, 0, None, None)]);
    let joined = concat_source_maps(&vec![(first, 0), (second, 10)]);
    assert_eq!(joined.sources, vec!["a.ts".to_string(), "b.ts".to_string()]);
    assert_eq!(joined.names, vec!["x".to_string(), "y".to_string()]);
    assert_eq!(
        joined.tokens,
        vec![tok(0, 0, 0, 0, Some(0), Some(0)), tok(10, 2, 5, 1, Some(1), Some(1)), tok(11, 0, 6, 0, None, None)]
    );
    assert_eq!(joined.contents.len(), 2);
}

#[test]
fn joining_module_maps_from_json() {
    let a = encode_source_map(&map(&["a.ts"], &[], vec![tok(0, 0, 0, 0, Some(0), None)]));
    let b = encode_source_map(&map(&["b.ts"], &[], vec![tok(0, 0, 2, 0, Some(0), None)]));
    let json = join_module_maps(&vec![(a, 0), ("broken".to_string(), 3), (b, 4)]).expect("joined");
    let joined = decode_source_map(&json).expect("decodes");
    assert_eq!(joined.sources, vec!["a.ts".to_string(), "b.ts".to_string()]);
    assert_eq!(joined.tokens, vec![tok(0, 0, 0, 0, Some(0), None), tok(4, 0, 2, 0, Some(1), None)]);
    assert!(join_module_maps(&vec![("broken".to_string(), 0)]).is_none());
}

#[test]
fn input_sources_resolve_against_the_module_directory() {
    let input = map(&["../src/a.ts", "/abs/b.ts"], &[], Vec::new());
    assert_eq!(input_source_paths(&input, "/proj/dist"), vec!["/proj/src/a.ts".to_string(), "/abs/b.ts".to_string()]);
}

#[test]
fn codegen_maps_trace_through_the_input_map() {
    let generated = encode_source_map(&map(&["dist/a.d.ts"], &[], vec![tok(0, 0, 1, 0, Some(0), None)]));
    let mut input = map(&["../src/a.ts"], &["A"], vec![tok(1, 0, 7, 3, Some(0), Some(0))]);
    input.contents = vec![None];
    let disk = vec![Some("export const A = 1;".to_string())];
    let json = trace_through_input(&generated, &input, "/proj/dist", "/proj", &disk).expect("traced");
    let traced = decode_source_map(&json).expect("decodes");
    assert_eq!(traced.sources, vec!["src/a.ts".to_string()]);
    assert_eq!(traced.contents, vec![Some("export const A = 1;".to_string())]);
    assert_eq!(traced.names, vec!["A".to_string()]);
    assert_eq!(traced.tokens, vec![tok(0, 0, 7, 3, Some(0), Some(0))]);
}

#[test]
fn external_specifiers_are_recorded_once() {
    let mut external: Vec<String> = Vec::new();
    record_external_specifier(&mut external, "react");
    record_external_specifier(&mut external, "vue");
    record_external_specifier(&mut external, "react");
    assert_eq!(external, vec!["react".to_string(), "vue".to_string()]);
}
