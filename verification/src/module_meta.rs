//! Per-module link metadata: what to do with each statement, and how imports
//! of internal modules are renamed.

use vstd::prelude::*;

use crate::exports::{export_local_name, resolve_export_local_name};
use crate::flags::{NeededKindFlags, kinds_of_symbol_flags};
use crate::link_types::StatementAction;
use crate::model::{
    DeclKind, DefaultExportKind, ImportBindingKind, ImportSpecSummary, Module, ModuleIdx, ModuleTable,
    StatementKind, StatementSummary, SymbolId, flags_of, resolve_internal, assoc_get, ExportEntry, ExportSource,
};
use crate::rename::{CanonicalNames, RenameState, contains_name, output_name, push_new, str_views};
use crate::text::{str_eq, string_clone};

verus! {

/// The declaration spaces a declaration of kind `k` occupies: value for
/// variables and functions; type for type aliases and interfaces; both for
/// classes, enums, namespaces and import-equals; none for `declare global`.
pub open spec fn decl_needed_kinds(k: DeclKind) -> u8 {
    match k {
        DeclKind::Variable | DeclKind::Function => 1,
        DeclKind::Class | DeclKind::Enum | DeclKind::Module | DeclKind::ImportEquals => 3,
        DeclKind::TypeAlias | DeclKind::Interface => 2,
        DeclKind::Global | DeclKind::NotDeclaration => 0,
    }
}

/// The declaration spaces of a declaration kind.
pub fn declaration_needed_kinds(k: DeclKind) -> (r: NeededKindFlags)
    ensures
        r.0 == decl_needed_kinds(k),
{
    match k {
        DeclKind::Variable | DeclKind::Function => NeededKindFlags::value(),
        DeclKind::Class | DeclKind::Enum | DeclKind::Module | DeclKind::ImportEquals => NeededKindFlags::all(),
        DeclKind::TypeAlias | DeclKind::Interface => NeededKindFlags::type_space(),
        DeclKind::Global | DeclKind::NotDeclaration => NeededKindFlags::none(),
    }
}

/// The spaces a symbol with flags `bits` is declared in, among `declared`.
pub open spec fn symbol_space(declared: u8, bits: u32) -> u8 {
    declared & kinds_of_symbol_flags(bits)
}

/// `(symbol, spaces)` for the symbols `syms` of a declaration occupying
/// `declared`, keeping those with a space.
pub open spec fn symbol_kinds_of(syms: Seq<SymbolId>, declared: u8, m: Module) -> Seq<(SymbolId, u8)>
    decreases syms.len(),
{
    if syms.len() == 0 {
        Seq::empty()
    } else {
        let prev = symbol_kinds_of(syms.drop_last(), declared, m);
        let k = symbol_space(declared, flags_of(m.scoping.root_bindings@, syms.last()));
        if k != 0 { prev.push((syms.last(), k)) } else { prev }
    }
}

/// The symbols a statement's declaration binds, with their spaces.
pub open spec fn decl_symbol_kinds(st: StatementSummary, m: Module) -> Seq<(SymbolId, u8)> {
    if decl_needed_kinds(st.decl_kind) == 0 {
        Seq::empty()
    } else {
        symbol_kinds_of(st.decl_symbols@, decl_needed_kinds(st.decl_kind), m)
    }
}

/// The needed spaces of `sym` (first entry).
pub open spec fn needed_lookup(needed: Seq<(SymbolId, NeededKindFlags)>, sym: SymbolId) -> Option<u8>
    decreases needed.len(),
{
    if needed.len() == 0 {
        None
    } else if needed[0].0 == sym {
        Some(needed[0].1.0)
    } else {
        needed_lookup(needed.drop_first(), sym)
    }
}

/// Whether `sym` is needed in one of the spaces `k`.
pub open spec fn needed_in(needed: Seq<(SymbolId, NeededKindFlags)>, sym: SymbolId, k: u8) -> bool {
    match needed_lookup(needed, sym) {
        Some(n) => n & k != 0,
        None => false,
    }
}

/// A declaration is needed when it binds no symbol with a space, or one of
/// its symbols is needed in one of the spaces it declares.
pub open spec fn matches_needed(ks: Seq<(SymbolId, u8)>, needed: Seq<(SymbolId, NeededKindFlags)>) -> bool {
    ks.len() == 0 || exists|i: int| 0 <= i < ks.len() && #[trigger] needed_in(needed, ks[i].0, ks[i].1)
}

/// Whether the default-exported declaration `sym` declaring `declared` is needed.
pub open spec fn default_symbol_needed(sym: SymbolId, declared: u8, m: Module, needed: Seq<(SymbolId, NeededKindFlags)>) -> bool {
    let k = symbol_space(declared, flags_of(m.scoping.root_bindings@, sym));
    k == 0 || needed_in(needed, sym, k)
}

/// Whether an `export default` declaration is needed (anything but a named
/// function, class or interface with a symbol is).
pub open spec fn default_matches_needed(st: StatementSummary, m: Module, needed: Seq<(SymbolId, NeededKindFlags)>) -> bool {
    match st.default_kind {
        DefaultExportKind::Function(_, Some(sym)) => default_symbol_needed(sym, 1, m, needed),
        DefaultExportKind::Class(_, Some(sym)) => default_symbol_needed(sym, 3, m, needed),
        DefaultExportKind::Interface(_, Some(sym)) => default_symbol_needed(sym, 2, m, needed),
        _ => true,
    }
}

/// What to do with a statement of module `m`, given the needed symbols of the
/// module (`None`: everything is needed).
pub open spec fn statement_action(st: StatementSummary, m: Module, needed: Option<Seq<(SymbolId, NeededKindFlags)>>) -> StatementAction {
    if st.kind == StatementKind::ExportNamed {
        if st.has_declaration {
            if needed is Some && !matches_needed(decl_symbol_kinds(st, m), needed->0) {
                StatementAction::Skip
            } else {
                StatementAction::UnwrapExportDeclaration
            }
        } else {
            StatementAction::Skip
        }
    } else if st.kind == StatementKind::ExportDefault {
        if needed is Some && !default_matches_needed(st, m, needed->0) {
            StatementAction::Skip
        } else {
            match st.default_kind {
                DefaultExportKind::Function(_, _) | DefaultExportKind::Class(_, _) | DefaultExportKind::Interface(_, _) => StatementAction::UnwrapExportDefault,
                _ => StatementAction::Skip,
            }
        }
    } else if st.kind == StatementKind::ExportAll || st.kind == StatementKind::Import || st.kind
        == StatementKind::NamespaceExport || st.kind == StatementKind::ExportAssignment {
        StatementAction::Skip
    } else if st.kind == StatementKind::ImportEquals {
        if st.source is Some && resolve_internal(m, st.source->0@) is Some {
            StatementAction::Skip
        } else {
            StatementAction::Include
        }
    } else {
        if needed is Some && st.decl_kind != DeclKind::NotDeclaration && !matches_needed(decl_symbol_kinds(st, m), needed->0) {
            StatementAction::Skip
        } else {
            StatementAction::Include
        }
    }
}

/// Law (tree-shaking of declarations): with the needed symbols of a module
/// given, a declaration (bare, or inside `export`) is dropped exactly when
/// none of the symbols it declares is needed in a space it declares; with
/// everything needed, every declaration is kept (an exported one taken out
/// of its `export`).
pub proof fn law_unneeded_declarations_dropped(st: StatementSummary, m: Module, needed: Seq<(SymbolId, NeededKindFlags)>)
    requires
        (st.kind == StatementKind::Other && st.decl_kind != DeclKind::NotDeclaration)
            || (st.kind == StatementKind::ExportNamed && st.has_declaration),
    ensures
        (statement_action(st, m, Some(needed)) == StatementAction::Skip) == !matches_needed(decl_symbol_kinds(st, m), needed),
        statement_action(st, m, None) == if st.kind == StatementKind::Other {
            StatementAction::Include
        } else {
            StatementAction::UnwrapExportDeclaration
        },
{
}

/// Law (default-exported declarations): an `export default` of a function,
/// class or interface is taken out of its `export` and kept whenever
/// everything of the module is needed, and, with the needed symbols given,
/// whenever its symbol is needed in a space it declares; it is never
/// dropped then.
pub proof fn law_default_declarations_kept(st: StatementSummary, m: Module, needed: Seq<(SymbolId, NeededKindFlags)>)
    requires
        st.kind == StatementKind::ExportDefault,
        st.default_kind is Function || st.default_kind is Class || st.default_kind is Interface,
    ensures
        statement_action(st, m, None) == StatementAction::UnwrapExportDefault,
        statement_action(st, m, Some(needed)) != StatementAction::UnwrapExportDefault ==> statement_action(
            st,
            m,
            Some(needed),
        ) == StatementAction::Skip,
        (match st.default_kind {
            DefaultExportKind::Function(_, Some(sym)) => needed_in(needed, sym, symbol_space(1, flags_of(m.scoping.root_bindings@, sym))),
            DefaultExportKind::Class(_, Some(sym)) => needed_in(needed, sym, symbol_space(3, flags_of(m.scoping.root_bindings@, sym))),
            DefaultExportKind::Interface(_, Some(sym)) => needed_in(needed, sym, symbol_space(2, flags_of(m.scoping.root_bindings@, sym))),
            _ => true,
        }) ==> statement_action(st, m, Some(needed)) == StatementAction::UnwrapExportDefault,
{
}

/// The needed spaces of a symbol.
fn find_needed(needed: &Vec<(SymbolId, NeededKindFlags)>, sym: SymbolId) -> (r: Option<u8>)
    ensures
        r == needed_lookup(needed@, sym),
{
    let mut i: usize = 0;
    assert(needed@.skip(0) =~= needed@);
    while i < needed.len()
        invariant
            0 <= i <= needed@.len(),
            needed_lookup(needed@, sym) == needed_lookup(needed@.skip(i as int), sym),
        decreases needed@.len() - i,
    {
        assert(needed@.skip(i as int).drop_first() =~= needed@.skip(i + 1));
        if needed[i].0 == sym {
            return Some(needed[i].1.0);
        }
        i += 1;
    }
    None
}

/// The symbols a statement's declaration binds, with their spaces.
pub fn collect_decl_symbol_kinds(st: &StatementSummary, module: &Module) -> (r: Vec<(SymbolId, u8)>)
    ensures
        r@ == decl_symbol_kinds(*st, *module),
{
    let declared = declaration_needed_kinds(st.decl_kind);
    let mut r: Vec<(SymbolId, u8)> = Vec::new();
    if declared.is_empty() {
        return r;
    }
    let mut i: usize = 0;
    while i < st.decl_symbols.len()
        invariant
            0 <= i <= st.decl_symbols@.len(),
            declared.0 == decl_needed_kinds(st.decl_kind),
            r@ == symbol_kinds_of(st.decl_symbols@.take(i as int), declared.0, *module),
        decreases st.decl_symbols@.len() - i,
    {
        let sym = st.decl_symbols[i];
        proof {
            let t = st.decl_symbols@.take(i + 1);
            assert(t.drop_last() =~= st.decl_symbols@.take(i as int));
            assert(t.last() == sym);
        }
        let k = declared.intersection(NeededKindFlags::from_symbol_flags(module.scoping.symbol_flags(sym)));
        if !k.is_empty() {
            r.push((sym, k.0));
        }
        i += 1;
    }
    assert(st.decl_symbols@.take(i as int) =~= st.decl_symbols@);
    r
}

/// Whether a declaration is needed.
pub fn declaration_matches_needed_kinds(st: &StatementSummary, module: &Module, needed: &Vec<(SymbolId, NeededKindFlags)>) -> (r: bool)
    ensures
        r == matches_needed(decl_symbol_kinds(*st, *module), needed@),
{
    let ks = collect_decl_symbol_kinds(st, module);
    if ks.len() == 0 {
        return true;
    }
    let mut i: usize = 0;
    while i < ks.len()
        invariant
            0 <= i <= ks@.len(),
            ks@ == decl_symbol_kinds(*st, *module),
            forall|j: int| 0 <= j < i ==> !(#[trigger] needed_in(needed@, ks@[j].0, ks@[j].1)),
        decreases ks@.len() - i,
    {
        match find_needed(needed, ks[i].0) {
            Some(n) => {
                if n & ks[i].1 != 0 {
                    assert(needed_in(needed@, ks@[i as int].0, ks@[i as int].1));
                    return true;
                }
            },
            None => {},
        }
        assert(!needed_in(needed@, ks@[i as int].0, ks@[i as int].1));
        i += 1;
    }
    false
}

/// Whether a default-exported declaration of symbol `sym`, declaring
/// `declared`, is needed.
fn default_symbol_is_needed(sym: SymbolId, declared: NeededKindFlags, module: &Module, needed: &Vec<(SymbolId, NeededKindFlags)>) -> (r: bool)
    ensures
        r == default_symbol_needed(sym, declared.0, *module, needed@),
{
    let k = declared.intersection(NeededKindFlags::from_symbol_flags(module.scoping.symbol_flags(sym)));
    if k.is_empty() {
        return true;
    }
    match find_needed(needed, sym) {
        Some(n) => n & k.0 != 0,
        None => false,
    }
}

/// Whether an `export default` declaration is needed.
pub fn export_default_declaration_matches_needed_kinds(st: &StatementSummary, module: &Module, needed: &Vec<(SymbolId, NeededKindFlags)>) -> (r: bool)
    ensures
        r == default_matches_needed(*st, *module, needed@),
{
    match &st.default_kind {
        DefaultExportKind::Function(_, Some(sym)) => default_symbol_is_needed(*sym, NeededKindFlags::value(), module, needed),
        DefaultExportKind::Class(_, Some(sym)) => default_symbol_is_needed(*sym, NeededKindFlags::all(), module, needed),
        DefaultExportKind::Interface(_, Some(sym)) => default_symbol_is_needed(*sym, NeededKindFlags::type_space(), module, needed),
        _ => true,
    }
}

/// What to do with one statement.
pub fn analyze_statement(st: &StatementSummary, module: &Module, needed_symbol_kinds: Option<&Vec<(SymbolId, NeededKindFlags)>>) -> (r: StatementAction)
    ensures
        r == statement_action(*st, *module, match needed_symbol_kinds { Some(v) => Some(v@), None => None }),
{
    if st.kind == StatementKind::ExportNamed {
        if st.has_declaration {
            if let Some(needed) = needed_symbol_kinds {
                if !declaration_matches_needed_kinds(st, module, needed) {
                    return StatementAction::Skip;
                }
            }
            StatementAction::UnwrapExportDeclaration
        } else {
            StatementAction::Skip
        }
    } else if st.kind == StatementKind::ExportDefault {
        if let Some(needed) = needed_symbol_kinds {
            if !export_default_declaration_matches_needed_kinds(st, module, needed) {
                return StatementAction::Skip;
            }
        }
        match &st.default_kind {
            DefaultExportKind::Function(_, _) | DefaultExportKind::Class(_, _) | DefaultExportKind::Interface(_, _) => StatementAction::UnwrapExportDefault,
            _ => StatementAction::Skip,
        }
    } else if st.kind == StatementKind::ExportAll || st.kind == StatementKind::Import || st.kind
        == StatementKind::NamespaceExport || st.kind == StatementKind::ExportAssignment {
        StatementAction::Skip
    } else if st.kind == StatementKind::ImportEquals {
        if let Some(src) = &st.source {
            if module.resolve_internal_specifier(src.as_str()).is_some() {
                return StatementAction::Skip;
            }
        }
        StatementAction::Include
    } else {
        if let Some(needed) = needed_symbol_kinds {
            if st.decl_kind != DeclKind::NotDeclaration && !declaration_matches_needed_kinds(st, module, needed) {
                return StatementAction::Skip;
            }
        }
        StatementAction::Include
    }
}

/// `s` with the entry keyed `k` set to `v` (added at the end when absent).
pub open spec fn put_keyed<V>(s: Seq<(SymbolId, V)>, k: SymbolId, v: V) -> Seq<(SymbolId, V)>
    decreases s.len(),
{
    if s.len() == 0 {
        seq![(k, v)]
    } else if s[0].0 == k {
        s.update(0, (k, v))
    } else {
        seq![s[0]] + put_keyed(s.drop_first(), k, v)
    }
}

/// The default-export names by module, as the contracts see them.
pub open spec fn default_name_views(v: Seq<Option<String>>) -> Seq<Option<Seq<char>>> {
    v.map_values(|o: Option<String>| match o {
        Some(s) => Some(s@),
        None => None,
    })
}

/// The rename an import specifier of internal module `src` gets: the output
/// name of what it imports (through the source's export aliases, or its
/// default export's declaration), when that differs from the local name.
pub open spec fn import_rename_of(
    sp: ImportSpecSummary,
    src: Module,
    st: RenameState,
    defaults: Seq<Option<Seq<char>>>,
) -> Option<(SymbolId, Seq<char>)> {
    match sp.kind {
        ImportBindingKind::Namespace => None,
        ImportBindingKind::Named(imported) => {
            let local_name = match export_local_name(src, imported@) {
                Some(n) => n,
                None => imported@,
            };
            let resolved = output_name(st, src, local_name);
            if sp.local@ != resolved && sp.symbol is Some {
                Some((sp.symbol->0, resolved))
            } else {
                None
            }
        },
        ImportBindingKind::Default => {
            if (src.idx as int) < defaults.len() && defaults[src.idx as int] is Some {
                let actual = output_name(st, src, defaults[src.idx as int]->0);
                if sp.local@ != actual && sp.symbol is Some {
                    Some((sp.symbol->0, actual))
                } else {
                    None
                }
            } else {
                None
            }
        },
    }
}

/// The import renames of the specifiers `specs` of internal module `src`,
/// added in order to `acc`.
pub open spec fn import_renames_of(
    acc: Seq<(SymbolId, Seq<char>)>,
    specs: Seq<ImportSpecSummary>,
    src: Module,
    st: RenameState,
    defaults: Seq<Option<Seq<char>>>,
) -> Seq<(SymbolId, Seq<char>)>
    decreases specs.len(),
{
    if specs.len() == 0 {
        acc
    } else {
        let prev = import_renames_of(acc, specs.drop_last(), src, st, defaults);
        match import_rename_of(specs.last(), src, st, defaults) {
            Some((sym, name)) => put_keyed(prev, sym, name),
            None => prev,
        }
    }
}

/// Law (imports follow export aliases): a named import of `imported` from
/// an internal module `src`, whose export of `imported` is one of `src`'s
/// own bindings `entry.local_name` (`export { local as imported }` or an
/// exported declaration), is renamed to the output name of that local
/// binding exactly when that name differs from the import's local name.
pub proof fn law_import_rename_follows_alias(
    sp: ImportSpecSummary,
    src: Module,
    st: RenameState,
    defaults: Seq<Option<Seq<char>>>,
    imported: String,
    entry: ExportEntry,
)
    requires
        sp.kind == ImportBindingKind::Named(imported),
        assoc_get(src.export_import_info.named_exports@, imported@) == Some(entry),
        !(entry.source is SourceReexport),
        sp.symbol is Some,
    ensures
        import_renames_of(Seq::empty(), seq![sp], src, st, defaults) == if sp.local@ != output_name(
            st,
            src,
            entry.local_name@,
        ) {
            seq![(sp.symbol->0, output_name(st, src, entry.local_name@))]
        } else {
            Seq::<(SymbolId, Seq<char>)>::empty()
        },
{
    assert(seq![sp].drop_last() =~= Seq::<ImportSpecSummary>::empty());
    assert(seq![sp].last() == sp);
    assert(export_local_name(src, imported@) == Some(entry.local_name@));
    reveal_with_fuel(import_renames_of, 2);
    let name = output_name(st, src, entry.local_name@);
    if sp.local@ != name {
        assert(import_rename_of(sp, src, st, defaults) == Some((sp.symbol->0, name)));
        assert(put_keyed(Seq::<(SymbolId, Seq<char>)>::empty(), sp.symbol->0, name) == seq![(sp.symbol->0, name)]);
    } else {
        assert(import_rename_of(sp, src, st, defaults) is None);
    }
}

/// The views of a symbol-keyed name list.
pub open spec fn rename_views(v: Seq<(SymbolId, String)>) -> Seq<(SymbolId, Seq<char>)> {
    v.map_values(|e: (SymbolId, String)| (e.0, e.1@))
}

/// Sets the entry keyed `k` to `v`.
fn put_rename(v: &mut Vec<(SymbolId, String)>, k: SymbolId, name: String)
    ensures
        rename_views(final(v)@) == put_keyed(rename_views(old(v)@), k, name@),
{
    let ghost rv = rename_views(v@);
    let mut i: usize = 0;
    while i < v.len()
        invariant
            0 <= i <= rv.len(),
            rv == rename_views(v@),
            v@ == old(v)@,
            forall|j: int| 0 <= j < i ==> rv[j].0 != k,
        decreases rv.len() - i,
    {
        if v[i].0 == k {
            let ghost before = v@;
            v.set(i, (k, name));
            proof { lemma_put_keyed_at(rv, k, name@, i as int); }
            assert(rename_views(v@) =~= rv.update(i as int, (k, name@)));
            return;
        }
        i += 1;
    }
    let ghost before = v@;
    v.push((k, name));
    proof { lemma_put_keyed_absent(rv, k, name@); }
    assert(rename_views(v@) =~= rv.push((k, name@)));
}

proof fn lemma_put_keyed_at<V>(s: Seq<(SymbolId, V)>, k: SymbolId, v: V, i: int)
    requires
        0 <= i < s.len(),
        s[i].0 == k,
        forall|j: int| 0 <= j < i ==> s[j].0 != k,
    ensures
        put_keyed(s, k, v) == s.update(i, (k, v)),
    decreases s.len(),
{
    if i > 0 {
        lemma_put_keyed_at(s.drop_first(), k, v, i - 1);
        assert(seq![s[0]] + s.drop_first().update(i - 1, (k, v)) =~= s.update(i, (k, v)));
    }
}

proof fn lemma_put_keyed_absent<V>(s: Seq<(SymbolId, V)>, k: SymbolId, v: V)
    requires
        forall|j: int| 0 <= j < s.len() ==> s[j].0 != k,
    ensures
        put_keyed(s, k, v) == s.push((k, v)),
    decreases s.len(),
{
    if s.len() > 0 {
        lemma_put_keyed_absent(s.drop_first(), k, v);
        assert(seq![s[0]] + s.drop_first().push((k, v)) =~= s.push((k, v)));
    }
}

/// Adds the import renames of the specifiers of an internal import.
pub fn collect_import_renames_from_specifiers(
    specifiers: &Vec<ImportSpecSummary>,
    source_module: &Module,
    canonical_names: &CanonicalNames,
    default_export_names: &Vec<Option<String>>,
    import_renames: &mut Vec<(SymbolId, String)>,
)
    ensures
        rename_views(final(import_renames)@) == import_renames_of(
            rename_views(old(import_renames)@),
            specifiers@,
            *source_module,
            canonical_names@,
            default_name_views(default_export_names@),
        ),
{
    let ghost acc0 = rename_views(import_renames@);
    let ghost dv = default_name_views(default_export_names@);
    let mut i: usize = 0;
    while i < specifiers.len()
        invariant
            0 <= i <= specifiers@.len(),
            dv == default_name_views(default_export_names@),
            rename_views(import_renames@) == import_renames_of(acc0, specifiers@.take(i as int), *source_module, canonical_names@, dv),
        decreases specifiers@.len() - i,
    {
        let sp = &specifiers[i];
        proof {
            let t = specifiers@.take(i + 1);
            assert(t.drop_last() =~= specifiers@.take(i as int));
            assert(t.last() == *sp);
        }
        match &sp.kind {
            ImportBindingKind::Namespace => {},
            ImportBindingKind::Named(imported) => {
                let local_name = match resolve_export_local_name(source_module, imported.as_str()) {
                    Some(n) => n,
                    None => string_clone(imported.as_str()),
                };
                let resolved = match canonical_names.resolve_name(source_module, local_name.as_str()) {
                    Some(r) => string_clone(r),
                    None => local_name,
                };
                if !str_eq(sp.local.as_str(), resolved.as_str()) {
                    if let Some(sym) = sp.symbol {
                        put_rename(import_renames, sym, resolved);
                    }
                }
            },
            ImportBindingKind::Default => {
                if source_module.idx < default_export_names.len() {
                    assert(dv[source_module.idx as int] == match default_export_names@[source_module.idx as int] {
                        Some(s) => Some(s@),
                        None => None,
                    });
                    if let Some(actual) = &default_export_names[source_module.idx] {
                        let name = match canonical_names.resolve_name(source_module, actual.as_str()) {
                            Some(r) => string_clone(r),
                            None => string_clone(actual.as_str()),
                        };
                        if !str_eq(sp.local.as_str(), name.as_str()) {
                            if let Some(sym) = sp.symbol {
                                put_rename(import_renames, sym, name);
                            }
                        }
                    }
                }
            },
        }
        i += 1;
    }
    assert(specifiers@.take(i as int) =~= specifiers@);
}

/// The import renames of the statements `stmts` of module `m`.
pub open spec fn module_import_renames(
    acc: Seq<(SymbolId, Seq<char>)>,
    stmts: Seq<StatementSummary>,
    m: Module,
    t: Seq<Module>,
    st: RenameState,
    defaults: Seq<Option<Seq<char>>>,
) -> Seq<(SymbolId, Seq<char>)>
    decreases stmts.len(),
{
    if stmts.len() == 0 {
        acc
    } else {
        let prev = module_import_renames(acc, stmts.drop_last(), m, t, st, defaults);
        let s = stmts.last();
        if s.kind == StatementKind::Import && s.import_specifiers is Some && s.source is Some {
            match resolve_internal(m, s.source->0@) {
                Some(si) => import_renames_of(prev, s.import_specifiers->0@, t[si as int], st, defaults),
                None => prev,
            }
        } else {
            prev
        }
    }
}

/// The import renames of one module: each specifier of an import from an
/// internal module is renamed to the output name of what it imports.
pub fn compute_import_renames(
    table: &ModuleTable,
    module_idx: ModuleIdx,
    canonical_names: &CanonicalNames,
    default_export_names: &Vec<Option<String>>,
) -> (r: Vec<(SymbolId, String)>)
    requires
        table.wf(),
        module_idx < table.modules@.len(),
    ensures
        rename_views(r@) == module_import_renames(
            Seq::empty(),
            table.modules@[module_idx as int].statements@,
            table.modules@[module_idx as int],
            table.modules@,
            canonical_names@,
            default_name_views(default_export_names@),
        ),
{
    let module = &table.modules[module_idx];
    let ghost stmts = module.statements@;
    let ghost dv = default_name_views(default_export_names@);
    let mut renames: Vec<(SymbolId, String)> = Vec::new();
    assert(rename_views(renames@) =~= Seq::<(SymbolId, Seq<char>)>::empty());
    let mut i: usize = 0;
    while i < module.statements.len()
        invariant
            0 <= i <= stmts.len(),
            stmts == module.statements@,
            table.wf(),
            module_idx < table.modules@.len(),
            *module == table.modules@[module_idx as int],
            dv == default_name_views(default_export_names@),
            rename_views(renames@) == module_import_renames(Seq::empty(), stmts.take(i as int), *module, table.modules@, canonical_names@, dv),
        decreases stmts.len() - i,
    {
        let s = &module.statements[i];
        proof {
            let t = stmts.take(i + 1);
            assert(t.drop_last() =~= stmts.take(i as int));
            assert(t.last() == *s);
        }
        if s.kind == StatementKind::Import {
            if let Some(specs) = &s.import_specifiers {
                if let Some(src) = &s.source {
                    if let Some(si) = module.resolve_internal_specifier(src.as_str()) {
                        proof {
                            crate::model::lemma_assoc_get_in(module.resolved_internal_specifiers@, src@);
                            assert(table.modules@[module_idx as int].idx == module_idx);
                            let j = choose|j: int| 0 <= j < module.resolved_internal_specifiers@.len()
                                && module.resolved_internal_specifiers@[j].1 == si
                                && #[trigger] module.resolved_internal_specifiers@[j].0@ == src@;
                            assert(table.modules@[module_idx as int].resolved_internal_specifiers@[j].1 < table.modules@.len());
                        }
                        collect_import_renames_from_specifiers(specs, &table.modules[si], canonical_names, default_export_names, &mut renames);
                    }
                }
            }
        }
        i += 1;
    }
    assert(stmts.take(i as int) =~= stmts);
    renames
}

/// Per-module link metadata.
pub struct ModuleLinkMeta {
    /// What to do with each statement, by position.
    pub statement_actions: Vec<StatementAction>,
    /// Import renames: local symbol -> name of what it imports in the output.
    pub import_renames: Vec<(SymbolId, String)>,
    /// Symbols of `import * as X` bindings.
    pub ns_aliases: Vec<SymbolId>,
    /// External namespace imports: symbol -> (source, local name).
    pub external_ns_info: Vec<(SymbolId, (String, String))>,
    /// Local names of `export { X }` of a non-entry module, whose imports must stay.
    pub reexported_import_names: Vec<String>,
    /// Whether rendering needs structural rewrites beyond renames.
    pub needs_structural_mutation: bool,
}

/// What the pre-scan of a module collects.
pub struct MetaScan {
    pub renames: Seq<(SymbolId, Seq<char>)>,
    pub ns_aliases: Seq<SymbolId>,
    pub external_ns: Seq<(SymbolId, (Seq<char>, Seq<char>))>,
    pub reexported: Seq<Seq<char>>,
}

/// `s` with `x` appended unless it holds `x` already.
pub open spec fn push_new_symbol(s: Seq<SymbolId>, x: SymbolId) -> Seq<SymbolId> {
    if s.contains(x) { s } else { s.push(x) }
}

/// The namespace specifiers of `specs` recorded as aliases (and, for an
/// external `source`, with their source and local name).
pub open spec fn scan_namespace_specs(acc: MetaScan, specs: Seq<ImportSpecSummary>, external: bool, source: Seq<char>) -> MetaScan
    decreases specs.len(),
{
    if specs.len() == 0 {
        acc
    } else {
        let prev = scan_namespace_specs(acc, specs.drop_last(), external, source);
        let sp = specs.last();
        if sp.kind is Namespace && sp.symbol is Some {
            let sym = sp.symbol->0;
            MetaScan {
                renames: prev.renames,
                ns_aliases: push_new_symbol(prev.ns_aliases, sym),
                external_ns: if external { put_keyed(prev.external_ns, sym, (source, sp.local@)) } else { prev.external_ns },
                reexported: prev.reexported,
            }
        } else {
            prev
        }
    }
}

/// The local names of `specs`, added to `acc` once each.
pub open spec fn reexported_names(acc: Seq<Seq<char>>, specs: Seq<crate::model::ExportSpecifierSummary>) -> Seq<Seq<char>>
    decreases specs.len(),
{
    if specs.len() == 0 {
        acc
    } else {
        push_new(reexported_names(acc, specs.drop_last()), specs.last().local@)
    }
}

/// The pre-scan of the statements `stmts` of module `m`.
pub open spec fn meta_scan(
    acc: MetaScan,
    stmts: Seq<StatementSummary>,
    m: Module,
    t: Seq<Module>,
    st: RenameState,
    defaults: Seq<Option<Seq<char>>>,
) -> MetaScan
    decreases stmts.len(),
{
    if stmts.len() == 0 {
        acc
    } else {
        let prev = meta_scan(acc, stmts.drop_last(), m, t, st, defaults);
        let s = stmts.last();
        let a = if !m.is_entry && s.kind == StatementKind::ExportNamed && s.source is None && !s.has_declaration {
            MetaScan { renames: prev.renames, ns_aliases: prev.ns_aliases, external_ns: prev.external_ns, reexported: reexported_names(prev.reexported, s.specifiers@) }
        } else {
            prev
        };
        if s.kind == StatementKind::Import && s.import_specifiers is Some && s.source is Some {
            let specs = s.import_specifiers->0@;
            match resolve_internal(m, s.source->0@) {
                Some(si) => {
                    let b = scan_namespace_specs(a, specs, false, s.source->0@);
                    MetaScan {
                        renames: import_renames_of(b.renames, specs, t[si as int], st, defaults),
                        ns_aliases: b.ns_aliases,
                        external_ns: b.external_ns,
                        reexported: b.reexported,
                    }
                },
                None => scan_namespace_specs(a, specs, true, s.source->0@),
            }
        } else {
            a
        }
    }
}

/// Whether an included statement of `m` holds an `import("..")` type of an
/// internal (or relative) module.
pub open spec fn has_internal_inline_import(stmts: Seq<StatementSummary>, actions: Seq<StatementAction>, m: Module) -> bool {
    exists|i: int, j: int|
        0 <= i < stmts.len() && i < actions.len() && actions[i] != StatementAction::Skip && 0 <= j < stmts[i].inline_import_sources@.len()
            && #[trigger] inline_source_is_internal(m, stmts[i].inline_import_sources@[j]@)
}

/// An inline import source is internal when it resolves to a module of the
/// bundle or is relative.
pub open spec fn inline_source_is_internal(m: Module, s: Seq<char>) -> bool {
    resolve_internal(m, s) is Some || (s.len() > 0 && s[0] == '.')
}

/// The views of the external namespace list.
pub open spec fn ext_ns_views(v: Seq<(SymbolId, (String, String))>) -> Seq<(SymbolId, (Seq<char>, Seq<char>))> {
    v.map_values(|e: (SymbolId, (String, String))| (e.0, (e.1.0@, e.1.1@)))
}

/// Records the namespace specifiers of an import.
fn scan_namespace_specifiers(
    specs: &Vec<ImportSpecSummary>,
    external: bool,
    source: &str,
    ns_aliases: &mut Vec<SymbolId>,
    external_ns: &mut Vec<(SymbolId, (String, String))>,
    Ghost(renames): Ghost<Seq<(SymbolId, Seq<char>)>>,
    Ghost(reexported): Ghost<Seq<Seq<char>>>,
)
    ensures
        ({
            let r = scan_namespace_specs(
                MetaScan { renames, ns_aliases: old(ns_aliases)@, external_ns: ext_ns_views(old(external_ns)@), reexported },
                specs@,
                external,
                source@,
            );
            &&& final(ns_aliases)@ == r.ns_aliases
            &&& ext_ns_views(final(external_ns)@) == r.external_ns
            &&& r.renames == renames
            &&& r.reexported == reexported
        }),
{
    let ghost start = MetaScan { renames, ns_aliases: ns_aliases@, external_ns: ext_ns_views(external_ns@), reexported };
    let mut i: usize = 0;
    while i < specs.len()
        invariant
            0 <= i <= specs@.len(),
            ({
                let r = scan_namespace_specs(start, specs@.take(i as int), external, source@);
                &&& ns_aliases@ == r.ns_aliases
                &&& ext_ns_views(external_ns@) == r.external_ns
                &&& r.renames == renames
                &&& r.reexported == reexported
            }),
        decreases specs@.len() - i,
    {
        let sp = &specs[i];
        proof {
            let t = specs@.take(i + 1);
            assert(t.drop_last() =~= specs@.take(i as int));
            assert(t.last() == *sp);
        }
        if let ImportBindingKind::Namespace = sp.kind {
            if let Some(sym) = sp.symbol {
                let mut k: usize = 0;
                let mut seen = false;
                while k < ns_aliases.len()
                    invariant
                        0 <= k <= ns_aliases@.len(),
                        seen == (exists|q: int| 0 <= q < k && ns_aliases@[q] == sym),
                    decreases ns_aliases@.len() - k,
                {
                    if ns_aliases[k] == sym {
                        seen = true;
                    }
                    k += 1;
                }
                if !seen {
                    ns_aliases.push(sym);
                }
                if external {
                    let ghost eb = ext_ns_views(external_ns@);
                    let ghost mut found: bool = false;
                    let mut q: usize = 0;
                    let mut done = false;
                    while q < external_ns.len()
                        invariant_except_break
                            eb == ext_ns_views(external_ns@),
                            forall|j: int| 0 <= j < q ==> eb[j].0 != sym,
                            !done,
                        invariant
                            0 <= q <= eb.len(),
                        ensures
                            done ==> ext_ns_views(external_ns@) == put_keyed(eb, sym, (source@, sp.local@)),
                            !done ==> eb == ext_ns_views(external_ns@) && forall|j: int| 0 <= j < eb.len() ==> eb[j].0 != sym,
                        decreases eb.len() - q,
                    {
                        if external_ns[q].0 == sym {
                            external_ns.set(q, (sym, (string_clone(source), string_clone(sp.local.as_str()))));
                            proof { lemma_put_keyed_at(eb, sym, (source@, sp.local@), q as int); }
                            assert(ext_ns_views(external_ns@) =~= eb.update(q as int, (sym, (source@, sp.local@))));
                            done = true;
                            break;
                        }
                        q += 1;
                    }
                    if !done {
                        external_ns.push((sym, (string_clone(source), string_clone(sp.local.as_str()))));
                        proof { lemma_put_keyed_absent(eb, sym, (source@, sp.local@)); }
                        assert(ext_ns_views(external_ns@) =~= eb.push((sym, (source@, sp.local@))));
                    }
                }
            }
        }
        i += 1;
    }
    assert(specs@.take(i as int) =~= specs@);
}

/// Computes the link metadata of one module: its statement actions (given
/// the module's needed symbols, `None` meaning all), the renames of imports
/// from internal modules, its namespace-import aliases (with source and local
/// name for external ones), the local names a non-entry module re-exports,
/// and whether rendering needs structural rewrites (namespace aliases, or an
/// included statement with an inline import of an internal module).
pub fn compute_module_link_meta(
    table: &ModuleTable,
    module_idx: ModuleIdx,
    needed_symbol_kinds: Option<&Vec<(SymbolId, NeededKindFlags)>>,
    canonical_names: &CanonicalNames,
    default_export_names: &Vec<Option<String>>,
) -> (meta: ModuleLinkMeta)
    requires
        table.wf(),
        module_idx < table.modules@.len(),
    ensures
        ({
            let m = table.modules@[module_idx as int];
            let scan = meta_scan(
                MetaScan { renames: Seq::empty(), ns_aliases: Seq::empty(), external_ns: Seq::empty(), reexported: Seq::empty() },
                m.statements@,
                m,
                table.modules@,
                canonical_names@,
                default_name_views(default_export_names@),
            );
            let needed = match needed_symbol_kinds { Some(v) => Some(v@), None => None };
            &&& meta.statement_actions@.len() == m.statements@.len()
            &&& forall|i: int| 0 <= i < m.statements@.len() ==> #[trigger] meta.statement_actions@[i] == statement_action(m.statements@[i], m, needed)
            &&& rename_views(meta.import_renames@) == scan.renames
            &&& meta.ns_aliases@ == scan.ns_aliases
            &&& ext_ns_views(meta.external_ns_info@) == scan.external_ns
            &&& str_views(meta.reexported_import_names@) == scan.reexported
            &&& meta.needs_structural_mutation == (scan.ns_aliases.len() > 0 || has_internal_inline_import(m.statements@, meta.statement_actions@, m))
        }),
{
    let module = &table.modules[module_idx];
    let ghost stmts = module.statements@;
    let ghost t = table.modules@;
    let ghost st = canonical_names@;
    let ghost dv = default_name_views(default_export_names@);
    let ghost start = MetaScan { renames: Seq::empty(), ns_aliases: Seq::empty(), external_ns: Seq::empty(), reexported: Seq::empty() };
    let mut renames: Vec<(SymbolId, String)> = Vec::new();
    let mut ns_aliases: Vec<SymbolId> = Vec::new();
    let mut external_ns: Vec<(SymbolId, (String, String))> = Vec::new();
    let mut reexported: Vec<String> = Vec::new();
    assert(rename_views(renames@) =~= Seq::<(SymbolId, Seq<char>)>::empty());
    assert(ext_ns_views(external_ns@) =~= Seq::<(SymbolId, (Seq<char>, Seq<char>))>::empty());
    assert(str_views(reexported@) =~= Seq::<Seq<char>>::empty());
    let mut i: usize = 0;
    while i < module.statements.len()
        invariant
            0 <= i <= stmts.len(),
            stmts == module.statements@,
            t == table.modules@,
            table.wf(),
            module_idx < t.len(),
            *module == t[module_idx as int],
            st == canonical_names@,
            dv == default_name_views(default_export_names@),
            ({
                let r = meta_scan(start, stmts.take(i as int), *module, t, st, dv);
                &&& rename_views(renames@) == r.renames
                &&& ns_aliases@ == r.ns_aliases
                &&& ext_ns_views(external_ns@) == r.external_ns
                &&& str_views(reexported@) == r.reexported
            }),
        decreases stmts.len() - i,
    {
        let s = &module.statements[i];
        proof {
            let tk = stmts.take(i + 1);
            assert(tk.drop_last() =~= stmts.take(i as int));
            assert(tk.last() == *s);
        }
        if !module.is_entry && s.kind == StatementKind::ExportNamed && s.source.is_none() && !s.has_declaration {
            let ghost r0 = str_views(reexported@);
            let mut k: usize = 0;
            while k < s.specifiers.len()
                invariant
                    0 <= k <= s.specifiers@.len(),
                    str_views(reexported@) == reexported_names(r0, s.specifiers@.take(k as int)),
                decreases s.specifiers@.len() - k,
            {
                proof {
                    let tk = s.specifiers@.take(k + 1);
                    assert(tk.drop_last() =~= s.specifiers@.take(k as int));
                    assert(tk.last() == s.specifiers@[k as int]);
                }
                if !contains_name(&reexported, s.specifiers[k].local.as_str()) {
                    let ghost rb = reexported@;
                    reexported.push(string_clone(s.specifiers[k].local.as_str()));
                    assert(str_views(reexported@) =~= str_views(rb).push(s.specifiers@[k as int].local@));
                }
                k += 1;
            }
            assert(s.specifiers@.take(k as int) =~= s.specifiers@);
        }
        if s.kind == StatementKind::Import {
            if let Some(specs) = &s.import_specifiers {
                if let Some(src) = &s.source {
                    match module.resolve_internal_specifier(src.as_str()) {
                        Some(si) => {
                            proof {
                                crate::model::lemma_assoc_get_in(module.resolved_internal_specifiers@, src@);
                                assert(t[module_idx as int].idx == module_idx);
                                let j = choose|j: int| 0 <= j < module.resolved_internal_specifiers@.len()
                                    && module.resolved_internal_specifiers@[j].1 == si
                                    && #[trigger] module.resolved_internal_specifiers@[j].0@ == src@;
                                assert(t[module_idx as int].resolved_internal_specifiers@[j].1 < t.len());
                            }
                            scan_namespace_specifiers(specs, false, src.as_str(), &mut ns_aliases, &mut external_ns, Ghost(rename_views(renames@)), Ghost(str_views(reexported@)));
                            collect_import_renames_from_specifiers(specs, &table.modules[si], canonical_names, default_export_names, &mut renames);
                        },
                        None => {
                            scan_namespace_specifiers(specs, true, src.as_str(), &mut ns_aliases, &mut external_ns, Ghost(rename_views(renames@)), Ghost(str_views(reexported@)));
                        },
                    }
                }
            }
        }
        i += 1;
    }
    assert(stmts.take(i as int) =~= stmts);
    let ghost needed = match needed_symbol_kinds { Some(v) => Some(v@), None => None };
    let mut actions: Vec<StatementAction> = Vec::new();
    let mut j: usize = 0;
    while j < module.statements.len()
        invariant
            0 <= j <= stmts.len(),
            stmts == module.statements@,
            needed == match needed_symbol_kinds { Some(v) => Some(v@), None => None },
            actions@.len() == j,
            forall|q: int| 0 <= q < j ==> #[trigger] actions@[q] == statement_action(stmts[q], *module, needed),
        decreases stmts.len() - j,
    {
        let a = analyze_statement(&module.statements[j], module, needed_symbol_kinds);
        actions.push(a);
        j += 1;
    }
    let mut structural = ns_aliases.len() > 0;
    if !structural {
        let mut q: usize = 0;
        while q < module.statements.len()
            invariant
                0 <= q <= stmts.len(),
                stmts == module.statements@,
                actions@.len() == stmts.len(),
                structural ==> has_internal_inline_import(stmts, actions@, *module),
                !structural ==> forall|i: int, j: int|
                    0 <= i < q && 0 <= j < stmts[i].inline_import_sources@.len() && actions@[i] != StatementAction::Skip
                        ==> !#[trigger] inline_source_is_internal(*module, stmts[i].inline_import_sources@[j]@),
            decreases stmts.len() - q,
        {
            if actions[q] != StatementAction::Skip {
                let srcs = &module.statements[q].inline_import_sources;
                let mut k: usize = 0;
                while k < srcs.len()
                    invariant
                        0 <= k <= srcs@.len(),
                        srcs@ == stmts[q as int].inline_import_sources@,
                        0 <= q < stmts.len(),
                        actions@.len() == stmts.len(),
                        actions@[q as int] != StatementAction::Skip,
                        structural ==> has_internal_inline_import(stmts, actions@, *module),
                        !structural ==> forall|j: int| 0 <= j < k ==> !#[trigger] inline_source_is_internal(*module, srcs@[j]@),
                        !structural ==> forall|i: int, j: int|
                            0 <= i < q && 0 <= j < stmts[i].inline_import_sources@.len() && actions@[i] != StatementAction::Skip
                                ==> !#[trigger] inline_source_is_internal(*module, stmts[i].inline_import_sources@[j]@),
                    decreases srcs@.len() - k,
                {
                    let sv = srcs[k].as_str();
                    let c = crate::text::str_chars(sv);
                    let internal = module.resolve_internal_specifier(sv).is_some() || (c.len() > 0 && c[0] == '.');
                    if internal {
                        assert(inline_source_is_internal(*module, srcs@[k as int]@));
                        structural = true;
                    }
                    k += 1;
                }
            }
            q += 1;
        }
    }
    ModuleLinkMeta {
        statement_actions: actions,
        import_renames: renames,
        ns_aliases,
        external_ns_info: external_ns,
        reexported_import_names: reexported,
        needs_structural_mutation: structural,
    }
}


/// `s` with each entry of `adds` set in turn.
pub open spec fn put_all(s: Seq<(SymbolId, Seq<char>)>, adds: Seq<(SymbolId, Seq<char>)>) -> Seq<(SymbolId, Seq<char>)>
    decreases adds.len(),
{
    if adds.len() == 0 {
        s
    } else {
        put_keyed(put_all(s, adds.drop_last()), adds.last().0, adds.last().1)
    }
}

/// The renames applied to a module's code: the symbol renames of the
/// canonical names, overridden by the module's import renames.
pub fn build_merged_renames(
    canonical_names: &CanonicalNames,
    module_idx: ModuleIdx,
    import_renames: &Vec<(SymbolId, String)>,
) -> (r: Vec<(SymbolId, String)>)
    ensures
        rename_views(r@) == put_all(
            crate::rename::module_renames(canonical_names@.symbols, module_idx),
            rename_views(import_renames@),
        ),
{
    let mut renamed = canonical_names.module_symbol_renames(module_idx);
    let ghost base = rename_views(renamed@);
    let ghost adds = rename_views(import_renames@);
    let mut i: usize = 0;
    while i < import_renames.len()
        invariant
            0 <= i <= adds.len(),
            adds == rename_views(import_renames@),
            rename_views(renamed@) == put_all(base, adds.take(i as int)),
        decreases adds.len() - i,
    {
        proof {
            let tk = adds.take(i + 1);
            assert(tk.drop_last() =~= adds.take(i as int));
            assert(tk.last() == (import_renames@[i as int].0, import_renames@[i as int].1@));
        }
        put_rename(&mut renamed, import_renames[i].0, string_clone(import_renames[i].1.as_str()));
        i += 1;
    }
    assert(adds.take(i as int) =~= adds);
    renamed
}

} // verus!
