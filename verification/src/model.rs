//! The module graph as plain data: what the pipeline reads from each parsed
//! `.d.ts` file (declarations, import/export statements, root-scope symbols).

use vstd::prelude::*;

use crate::text::{str_eq, string_clone};

verus! {

/// Index of a module in the module table.
pub type ModuleIdx = usize;

/// Identifier of a symbol in a module's semantic scoping.
pub type SymbolId = u32;

/// A symbol of a given module.
#[derive(PartialEq, Eq, Structural, Clone, Copy)]
pub struct SymbolRef {
    pub owner: ModuleIdx,
    pub symbol: SymbolId,
}

impl From<(ModuleIdx, SymbolId)> for SymbolRef {
    fn from(pair: (ModuleIdx, SymbolId)) -> (r: Self) {
        SymbolRef { owner: pair.0, symbol: pair.1 }
    }
}

impl vstd::std_specs::convert::FromSpecImpl<(ModuleIdx, SymbolId)> for SymbolRef {
    open spec fn obeys_from_spec() -> bool {
        true
    }

    open spec fn from_spec(pair: (ModuleIdx, SymbolId)) -> Self {
        SymbolRef { owner: pair.0, symbol: pair.1 }
    }
}

/// A root-scope binding: its name, symbol and raw symbol-flag bits.
pub struct RootBinding {
    pub name: String,
    pub symbol: SymbolId,
    pub flags: u32,
}

/// Scope and symbol information of one module.
pub struct Scoping {
    /// Bindings of the root scope, in declaration order.
    pub root_bindings: Vec<RootBinding>,
    /// Names bound in any scope other than the root scope.
    pub nested_binding_names: Vec<String>,
}

/// The symbol bound to `name` in the root scope, if any (first binding with that name).
pub open spec fn root_binding_of(bs: Seq<RootBinding>, name: Seq<char>) -> Option<SymbolId>
    decreases bs.len(),
{
    if bs.len() == 0 {
        None
    } else if bs[0].name@ == name {
        Some(bs[0].symbol)
    } else {
        root_binding_of(bs.drop_first(), name)
    }
}

/// The flag bits of `symbol` among the root bindings (0 when absent).
pub open spec fn flags_of(bs: Seq<RootBinding>, symbol: SymbolId) -> u32
    decreases bs.len(),
{
    if bs.len() == 0 {
        0
    } else if bs[0].symbol == symbol {
        bs[0].flags
    } else {
        flags_of(bs.drop_first(), symbol)
    }
}

impl Scoping {
    /// The root-scope symbol named `name`.
    pub fn get_root_binding(&self, name: &str) -> (r: Option<SymbolId>)
        ensures
            r == root_binding_of(self.root_bindings@, name@),
    {
        let mut i: usize = 0;
        assert(self.root_bindings@.skip(0) == self.root_bindings@);
        while i < self.root_bindings.len()
            invariant
                0 <= i <= self.root_bindings@.len(),
                root_binding_of(self.root_bindings@, name@)
                    == root_binding_of(self.root_bindings@.skip(i as int), name@),
            decreases self.root_bindings@.len() - i,
        {
            assert(self.root_bindings@.skip(i as int).drop_first() == self.root_bindings@.skip(i + 1));
            if str_eq(self.root_bindings[i].name.as_str(), name) {
                return Some(self.root_bindings[i].symbol);
            }
            i += 1;
        }
        None
    }

    /// The flag bits of a root-scope symbol.
    pub fn symbol_flags(&self, symbol: SymbolId) -> (r: u32)
        ensures
            r == flags_of(self.root_bindings@, symbol),
    {
        let mut i: usize = 0;
        assert(self.root_bindings@.skip(0) == self.root_bindings@);
        while i < self.root_bindings.len()
            invariant
                0 <= i <= self.root_bindings@.len(),
                flags_of(self.root_bindings@, symbol) == flags_of(self.root_bindings@.skip(i as int), symbol),
            decreases self.root_bindings@.len() - i,
        {
            assert(self.root_bindings@.skip(i as int).drop_first() == self.root_bindings@.skip(i + 1));
            if self.root_bindings[i].symbol == symbol {
                return self.root_bindings[i].flags;
            }
            i += 1;
        }
        0
    }
}

/// How a name is exported from a module.
pub enum ExportSource {
    /// `export interface Foo {}`: a local declaration.
    LocalDeclaration,
    /// `export { X }` or `export { X as Y }`: a local binding re-export.
    LocalReexport,
    /// `export { X } from "./mod"`: a re-export from another module.
    SourceReexport { specifier: String, imported_name: String },
    /// `export default class Foo {}` and the like.
    Default,
}

/// A single named export entry.
pub struct ExportEntry {
    /// The local declaration name in this module.
    pub local_name: String,
    /// How this export is sourced.
    pub source: ExportSource,
}

/// A star re-export: `export * from "./mod"` or `export * as ns from "./mod"`.
pub struct StarReexport {
    pub specifier: String,
    pub alias: Option<String>,
}

/// What kind of import binding this is.
pub enum ImportBindingKind {
    /// `import { X }`: the imported (remote) name.
    Named(String),
    /// `import X from "..."`.
    Default,
    /// `import * as X from "..."`.
    Namespace,
}

/// A single import binding.
pub struct ImportBinding {
    pub source_specifier: String,
    pub kind: ImportBindingKind,
}

/// Export/import information of a module. Each association list holds every
/// key at most once, in the order in which the key first appeared.
pub struct ModuleExportImportInfo {
    /// exported name -> export entry (the default export is keyed `"default"`).
    pub named_exports: Vec<(String, ExportEntry)>,
    /// Star re-exports, in source order.
    pub star_reexports: Vec<StarReexport>,
    /// local name -> import binding.
    pub named_imports: Vec<(String, ImportBinding)>,
    /// Names declared by `export <declaration>`, in source order.
    pub declared_export_names: Vec<String>,
}

/// The value of the first entry keyed `k` in an association list.
pub open spec fn assoc_get<V>(s: Seq<(String, V)>, k: Seq<char>) -> Option<V>
    decreases s.len(),
{
    if s.len() == 0 {
        None
    } else if s[0].0@ == k {
        Some(s[0].1)
    } else {
        assoc_get(s.drop_first(), k)
    }
}

/// A value found in an association list is the value of one of its entries.
pub proof fn lemma_assoc_get_in<V>(s: Seq<(String, V)>, k: Seq<char>)
    ensures
        assoc_get(s, k) is Some ==> exists|j: int|
            0 <= j < s.len() && s[j].1 == assoc_get(s, k)->0 && #[trigger] s[j].0@ == k,
    decreases s.len(),
{
    if s.len() > 0 && s[0].0@ != k {
        lemma_assoc_get_in(s.drop_first(), k);
        if assoc_get(s, k) is Some {
            let j = choose|j: int|
                0 <= j < s.drop_first().len() && s.drop_first()[j].1 == assoc_get(s, k)->0
                    && #[trigger] s.drop_first()[j].0@ == k;
            assert(s[j + 1].0@ == k);
        }
    }
}

/// Looks `k` up in an association list.
pub fn assoc_find<'a, V>(s: &'a Vec<(String, V)>, k: &str) -> (r: Option<&'a V>)
    ensures
        match r {
            Some(v) => assoc_get(s@, k@) == Some(*v),
            None => assoc_get(s@, k@).is_none(),
        },
{
    let mut i: usize = 0;
    assert(s@.skip(0) == s@);
    while i < s.len()
        invariant
            0 <= i <= s@.len(),
            assoc_get(s@, k@) == assoc_get(s@.skip(i as int), k@),
        decreases s@.len() - i,
    {
        assert(s@.skip(i as int).drop_first() == s@.skip(i + 1));
        if str_eq(s[i].0.as_str(), k) {
            return Some(&s[i].1);
        }
        i += 1;
    }
    None
}

/// The name a module-level specifier string refers to in an internal-specifier map.
pub open spec fn resolve_internal(m: Module, specifier: Seq<char>) -> Option<ModuleIdx> {
    assoc_get(m.resolved_internal_specifiers@, specifier)
}

/// The kind of a top-level statement, as far as bundling tells them apart.
#[derive(PartialEq, Eq, Structural, Clone, Copy)]
pub enum StatementKind {
    /// `export <declaration>` or `export { .. } [from ".."]`.
    ExportNamed,
    /// `export default ..`.
    ExportDefault,
    /// `export * [as ns] from ".."`.
    ExportAll,
    /// `import .. from ".."`.
    Import,
    /// `import x = require("..")` or `import x = a.b`.
    ImportEquals,
    /// `export as namespace X`.
    NamespaceExport,
    /// `export = X`.
    ExportAssignment,
    /// Any other statement: a bare declaration, `declare module`, ...
    Other,
}

/// The kind of a declaration.
#[derive(PartialEq, Eq, Structural, Clone, Copy)]
pub enum DeclKind {
    Variable,
    Function,
    Class,
    TypeAlias,
    Interface,
    Enum,
    /// `declare namespace N` / `declare module "m"`.
    Module,
    /// `declare global`.
    Global,
    /// `import x = ..`.
    ImportEquals,
    /// The statement holds no declaration.
    NotDeclaration,
}

/// What `export default` exports.
pub enum DefaultExportKind {
    /// A function declaration, with its name and symbol if named.
    Function(Option<String>, Option<SymbolId>),
    /// A class declaration, with its name and symbol if named.
    Class(Option<String>, Option<SymbolId>),
    /// An interface declaration, with its name and symbol.
    Interface(String, Option<SymbolId>),
    /// An identifier.
    Identifier(String),
    /// Any other expression.
    Other,
}

/// One specifier of an `import` statement.
pub struct ImportSpecSummary {
    /// The local binding name.
    pub local: String,
    /// The symbol of the local binding.
    pub symbol: Option<SymbolId>,
    pub kind: ImportBindingKind,
}

/// One specifier of `export { local as exported }`.
pub struct ExportSpecifierSummary {
    pub local: String,
    pub exported: String,
    /// Whether the specifier carries its own `type` modifier.
    pub is_type: bool,
}

/// What the bundler reads from one top-level statement.
pub struct StatementSummary {
    pub kind: StatementKind,
    /// The names the statement declares at the top level, in order.
    pub declared_names: Vec<String>,
    /// The module specifier of an `import`, `export .. from` or `export * from`.
    pub source: Option<String>,
    /// For `export <declaration>`: there is a declaration.
    pub has_declaration: bool,
    /// The declaration (exported or not) is a `declare namespace`/`module`,
    /// `declare global` or `import x = require(..)`.
    pub namespace_declaration: bool,
    /// The specifiers of `export { .. } [from ".."]`.
    pub specifiers: Vec<ExportSpecifierSummary>,
    /// The `ns` of `export * as ns from ".."`.
    pub export_all_alias: Option<String>,
    /// Whether the statement is `export type ..` / `import type ..`.
    pub type_only: bool,
    /// The kind of the statement's declaration (the inner one of `export <declaration>`).
    pub decl_kind: DeclKind,
    /// The symbols the declaration binds, in order (destructuring included).
    pub decl_symbols: Vec<SymbolId>,
    /// For `export default`: what it exports.
    pub default_kind: DefaultExportKind,
    /// For `import`: its specifiers, if it has a specifier list.
    pub import_specifiers: Option<Vec<ImportSpecSummary>>,
    /// The module specifiers of the `import("..")` types inside the statement.
    pub inline_import_sources: Vec<String>,
}

/// Per-module data of the module graph.
pub struct Module {
    /// Index of this module in the module table.
    pub idx: ModuleIdx,
    /// Absolute path of the source file (`/`-separated).
    pub path: String,
    /// Path relative to the working directory.
    pub relative_path: String,
    /// Root-scope symbols.
    pub scoping: Scoping,
    /// Leading `/// <reference ... />` directives.
    pub reference_directives: Vec<String>,
    /// Whether the module holds top-level global or module augmentations.
    pub has_augmentation: bool,
    /// Internal specifiers: specifier -> target module.
    pub resolved_internal_specifiers: Vec<(String, ModuleIdx)>,
    /// External specifiers referenced by the module.
    pub resolved_external_specifiers: Vec<String>,
    /// Whether the module is an entry point.
    pub is_entry: bool,
    /// Export/import information.
    pub export_import_info: ModuleExportImportInfo,
    /// The top-level statements, in source order.
    pub statements: Vec<StatementSummary>,
}

impl Module {
    /// The module an internal specifier resolves to.
    pub fn resolve_internal_specifier(&self, specifier: &str) -> (r: Option<ModuleIdx>)
        ensures
            r == resolve_internal(*self, specifier@),
    {
        match assoc_find(&self.resolved_internal_specifiers, specifier) {
            Some(i) => Some(*i),
            None => None,
        }
    }
}

/// All modules of the graph, indexed by `ModuleIdx`.
pub struct ModuleTable {
    pub modules: Vec<Module>,
}

impl ModuleTable {
    /// Every module sits at its own index and every internal specifier
    /// resolves to a module of the table.
    pub open spec fn wf(&self) -> bool {
        forall|i: int|
            0 <= i < self.modules@.len() ==> {
                &&& #[trigger] self.modules@[i].idx == i
                &&& forall|j: int|
                    0 <= j < self.modules@[i].resolved_internal_specifiers@.len()
                        ==> #[trigger] self.modules@[i].resolved_internal_specifiers@[j].1
                        < self.modules@.len()
            }
    }

    /// An empty table.
    pub fn new() -> (r: Self)
        ensures
            r.modules@.len() == 0,
    {
        ModuleTable { modules: Vec::new() }
    }

    /// Appends a module and returns its index.
    pub fn push(&mut self, module: Module) -> (idx: ModuleIdx)
        ensures
            final(self).modules@ == old(self).modules@.push(module),
            idx == old(self).modules@.len(),
    {
        let idx = self.modules.len();
        self.modules.push(module);
        idx
    }

    /// Number of modules.
    pub fn len(&self) -> (r: usize)
        ensures
            r == self.modules@.len(),
    {
        self.modules.len()
    }

    /// The module at `index`, if any.
    pub fn get(&self, index: ModuleIdx) -> (r: Option<&Module>)
        ensures
            match r {
                Some(m) => index < self.modules@.len() && *m == self.modules@[index as int],
                None => index >= self.modules@.len(),
            },
    {
        if index < self.modules.len() {
            Some(&self.modules[index])
        } else {
            None
        }
    }
}

} // verus!
