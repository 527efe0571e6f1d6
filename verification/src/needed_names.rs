//! Tree-shaking analysis: which names of each module the bundle needs.
//!
//! The needed names start from what the entry exports and imports for
//! re-export, travel along re-exports (`propagate_needed_names`) and along
//! the declarations that needed declarations refer to
//! (`expand_module_graph`), and grow until nothing changes.

use vstd::prelude::*;

use crate::exports::export_local_name;
use crate::flags::{NeededKindFlags, NeededReason, kinds_of_symbol_flags};
use crate::model::{
    ExportSource, ImportBindingKind, Module, ModuleIdx, ModuleTable, StatementKind, SymbolId, assoc_get, flags_of,
    resolve_internal, root_binding_of,
};
use crate::namespace::{count_false, lemma_count_false_mark_pub};
use crate::rename::str_views;
use crate::text::{str_eq, string_clone};

verus! {

/// A dependency of a declaration on a name of another module (`None`: on
/// the whole module).
pub struct CrossModuleDep {
    pub target_module_idx: ModuleIdx,
    pub target_name: Option<String>,
    pub reason: NeededReason,
}

/// A dependency of a declaration on an inline `import("./m")` type.
pub struct InlineImportDep {
    pub target_module_idx: ModuleIdx,
    pub target_name: Option<String>,
    pub kind: NeededKindFlags,
}

/// One top-level declaration of a module, as tree-shaking sees it.
pub struct DeclarationNode {
    /// The names the statement declares.
    pub declared_names: Vec<String>,
    /// The root symbols it declares, with the spaces it declares them in.
    pub declared_root_symbols: Vec<(SymbolId, NeededKindFlags)>,
    /// The root symbols of the module it refers to, with the spaces used.
    pub local_symbol_deps: Vec<(SymbolId, NeededKindFlags)>,
    pub cross_module_deps: Vec<CrossModuleDep>,
    pub inline_import_deps: Vec<InlineImportDep>,
    /// `declare global` and module augmentations are always kept.
    pub is_always_retained: bool,
}

/// A dependency as the contracts see it: the target module and name.
pub type DepView = (ModuleIdx, Option<Seq<char>>);

/// The view of an optional name.
pub open spec fn opt_view(o: Option<String>) -> Option<Seq<char>> {
    match o {
        Some(s) => Some(s@),
        None => None,
    }
}

/// A node as the contracts see it.
pub struct NodeView {
    pub declared_names: Seq<Seq<char>>,
    pub declared: Seq<(SymbolId, u8)>,
    pub deps: Seq<(SymbolId, u8)>,
    /// The cross-module dependencies, then the inline-import ones.
    pub targets: Seq<DepView>,
    /// Why each cross-module dependency is needed.
    pub dep_reasons: Seq<NeededReason>,
    pub always: bool,
}

impl View for DeclarationNode {
    type V = NodeView;

    open spec fn view(&self) -> NodeView {
        NodeView {
            declared_names: str_views(self.declared_names@),
            declared: self.declared_root_symbols@.map_values(|e: (SymbolId, NeededKindFlags)| (e.0, e.1.0)),
            deps: self.local_symbol_deps@.map_values(|e: (SymbolId, NeededKindFlags)| (e.0, e.1.0)),
            targets: self.cross_module_deps@.map_values(|d: CrossModuleDep| (d.target_module_idx, opt_view(d.target_name)))
                + self.inline_import_deps@.map_values(|d: InlineImportDep| (d.target_module_idx, opt_view(d.target_name))),
            dep_reasons: self.cross_module_deps@.map_values(|d: CrossModuleDep| d.reason),
            always: self.is_always_retained,
        }
    }
}

/// The views of a module's nodes.
pub open spec fn node_views(v: Seq<DeclarationNode>) -> Seq<NodeView> {
    v.map_values(|n: DeclarationNode| n@)
}

/// The views of all modules' nodes.
pub open spec fn graph_views(v: Seq<Vec<DeclarationNode>>) -> Seq<Seq<NodeView>> {
    v.map_values(|ns: Vec<DeclarationNode>| node_views(ns@))
}

// ---------------------------------------------------------------------------
// Names that can become needed.

/// `name`, or the local name it exports in `m`.
pub open spec fn resolved_local(m: Module, name: Seq<char>) -> Seq<char> {
    match export_local_name(m, name) {
        Some(l) => l,
        None => name,
    }
}

/// The name an export entry contributes to the module's exported names:
/// the exported name of a re-export from another module, else the local
/// name.
pub open spec fn entry_name(e: (String, crate::model::ExportEntry)) -> Seq<char> {
    match e.1.source {
        ExportSource::SourceReexport { .. } => e.0@,
        _ => e.1.local_name@,
    }
}

/// Whether the module's `default` export is not an `export default`
/// declaration of its own.
pub open spec fn default_is_named(m: Module) -> bool {
    match assoc_get(m.export_import_info.named_exports@, "default"@) {
        Some(e) => !(e.source is Default),
        None => false,
    }
}

/// All names a module exports, by their local names (the exported name for
/// re-exports from other modules); `default` only when it names something
/// other than an `export default` declaration.
pub open spec fn all_exported_names(m: Module) -> Set<Seq<char>> {
    Set::new(
        |x: Seq<char>|
            exists|i: int|
                0 <= i < m.export_import_info.named_exports@.len() && #[trigger] entry_name(
                    m.export_import_info.named_exports@[i],
                ) == x && (x != "default"@ || default_is_named(m)),
    )
}

/// The names a module declares with `export <declaration>`.
pub open spec fn declared_exports(m: Module) -> Set<Seq<char>> {
    str_views(m.export_import_info.declared_export_names@).to_set()
}

/// The names module `m` holds that the analysis can add are in `u`:
/// export keys, local and imported names, declared export names, root
/// binding names and the names its `import` statements import.
pub open spec fn module_names_in(u: Seq<Seq<char>>, m: Module) -> bool {
    &&& forall|i: int|
        0 <= i < m.export_import_info.named_exports@.len() ==> {
            &&& u.contains(#[trigger] m.export_import_info.named_exports@[i].0@)
            &&& u.contains(m.export_import_info.named_exports@[i].1.local_name@)
            &&& match m.export_import_info.named_exports@[i].1.source {
                ExportSource::SourceReexport { imported_name, .. } => u.contains(imported_name@),
                _ => true,
            }
        }
    &&& forall|i: int|
        0 <= i < m.export_import_info.declared_export_names@.len() ==> u.contains(
            #[trigger] m.export_import_info.declared_export_names@[i]@,
        )
    &&& forall|i: int| 0 <= i < m.scoping.root_bindings@.len() ==> u.contains(#[trigger] m.scoping.root_bindings@[i].name@)
    &&& forall|s: int| 0 <= s < m.statements@.len() ==> import_names_in(u, #[trigger] m.statements@[s])
}

/// The declared names and dependency targets of the nodes `ns` are in `u`.
pub open spec fn nodes_names_in(u: Seq<Seq<char>>, ns: Seq<NodeView>) -> bool {
    &&& forall|k: int, i: int|
        0 <= k < ns.len() && 0 <= i < ns[k].declared_names.len() ==> u.contains(#[trigger] ns[k].declared_names[i])
    &&& forall|k: int, i: int| 0 <= k < ns.len() && 0 <= i < ns[k].targets.len() ==> target_in(u, #[trigger] ns[k].targets[i])
}

/// Every name the analysis can add is in `u`.
pub open spec fn universe_ok(u: Seq<Seq<char>>, t: Seq<Module>, g: Seq<Seq<NodeView>>) -> bool {
    &&& forall|m: int| 0 <= m < t.len() ==> #[trigger] module_names_in(u, t[m])
    &&& forall|m: int| 0 <= m < g.len() ==> #[trigger] nodes_names_in(u, g[m])
}

/// The imported names of an `import` statement's specifiers are in `u`.
pub open spec fn import_names_in(u: Seq<Seq<char>>, st: crate::model::StatementSummary) -> bool {
    match st.import_specifiers {
        Some(specs) => forall|k: int|
            0 <= k < specs@.len() ==> match (#[trigger] specs@[k]).kind {
                ImportBindingKind::Named(n) => u.contains(n@),
                _ => true,
            },
        None => true,
    }
}

/// The target name of a dependency, if any, is in `u`.
pub open spec fn target_in(u: Seq<Seq<char>>, d: DepView) -> bool {
    match d.1 {
        Some(x) => u.contains(x),
        None => true,
    }
}

/// Adds `x` to `u` unless it is there.
fn push_name(u: &mut Vec<String>, x: &str)
    requires
        str_views(old(u)@).no_duplicates(),
    ensures
        str_views(final(u)@).no_duplicates(),
        str_views(final(u)@).contains(x@),
        grows(str_views(old(u)@), str_views(final(u)@)),
{
    if !crate::rename::contains_name(u, x) {
        let ghost before = str_views(u@);
        u.push(string_clone(x));
        assert(str_views(u@) =~= before.push(x@));
        assert(str_views(u@)[before.len() as int] == x@);
        assert forall|y: Seq<char>| before.contains(y) implies str_views(u@).contains(y) by {
            let j = choose|j: int| 0 <= j < before.len() && before[j] == y;
            assert(str_views(u@)[j] == y);
        }
    }
}


/// Every name of `u1` is in `u2`.
pub open spec fn grows(u1: Seq<Seq<char>>, u2: Seq<Seq<char>>) -> bool {
    forall|y: Seq<char>| u1.contains(y) ==> #[trigger] u2.contains(y)
}

proof fn lemma_module_names_mono(u1: Seq<Seq<char>>, u2: Seq<Seq<char>>, m: Module)
    requires
        grows(u1, u2),
        module_names_in(u1, m),
    ensures
        module_names_in(u2, m),
{
    assert forall|s: int| 0 <= s < m.statements@.len() implies import_names_in(u2, #[trigger] m.statements@[s]) by {
        assert(import_names_in(u1, m.statements@[s]));
        match m.statements@[s].import_specifiers {
            Some(specs) => {
                assert forall|k: int| 0 <= k < specs@.len() implies match (#[trigger] specs@[k]).kind {
                    ImportBindingKind::Named(n) => u2.contains(n@),
                    _ => true,
                } by {
                    match specs@[k].kind {
                        ImportBindingKind::Named(n) => {
                            assert(u1.contains(n@));
                        },
                        _ => {},
                    }
                }
            },
            None => {},
        }
    }
    assert forall|i: int| 0 <= i < m.export_import_info.named_exports@.len() implies {
        &&& u2.contains(#[trigger] m.export_import_info.named_exports@[i].0@)
        &&& u2.contains(m.export_import_info.named_exports@[i].1.local_name@)
        &&& match m.export_import_info.named_exports@[i].1.source {
            ExportSource::SourceReexport { imported_name, .. } => u2.contains(imported_name@),
            _ => true,
        }
    } by {
        assert(u1.contains(m.export_import_info.named_exports@[i].0@));
        match m.export_import_info.named_exports@[i].1.source {
            ExportSource::SourceReexport { imported_name, .. } => {
                assert(u1.contains(imported_name@));
            },
            _ => {},
        }
    }
}

proof fn lemma_nodes_names_mono(u1: Seq<Seq<char>>, u2: Seq<Seq<char>>, ns: Seq<NodeView>)
    requires
        grows(u1, u2),
        nodes_names_in(u1, ns),
    ensures
        nodes_names_in(u2, ns),
{
    assert forall|k: int, i: int| 0 <= k < ns.len() && 0 <= i < ns[k].targets.len() implies target_in(
        u2,
        #[trigger] ns[k].targets[i],
    ) by {
        assert(target_in(u1, ns[k].targets[i]));
    }
}

/// Adds the names of module `m` that the analysis can add to `u`.
fn collect_module_names(u: &mut Vec<String>, m: &Module)
    requires
        str_views(old(u)@).no_duplicates(),
    ensures
        str_views(final(u)@).no_duplicates(),
        grows(str_views(old(u)@), str_views(final(u)@)),
        module_names_in(str_views(final(u)@), *m),
{
    let ghost u0 = str_views(u@);
    let info = &m.export_import_info;
    let mut i: usize = 0;
    while i < info.named_exports.len()
        invariant
            0 <= i <= info.named_exports@.len(),
            *info == m.export_import_info,
            str_views(u@).no_duplicates(),
            grows(u0, str_views(u@)),
            forall|j: int|
                0 <= j < i ==> {
                    &&& str_views(u@).contains(#[trigger] info.named_exports@[j].0@)
                    &&& str_views(u@).contains(info.named_exports@[j].1.local_name@)
                    &&& match info.named_exports@[j].1.source {
                        ExportSource::SourceReexport { imported_name, .. } => str_views(u@).contains(imported_name@),
                        _ => true,
                    }
                },
        decreases info.named_exports@.len() - i,
    {
        let ghost before = str_views(u@);
        let e = &info.named_exports[i];
        push_name(u, e.0.as_str());
        push_name(u, e.1.local_name.as_str());
        if let ExportSource::SourceReexport { imported_name, .. } = &e.1.source {
            push_name(u, imported_name.as_str());
        }
        assert forall|j: int| 0 <= j <= i implies {
            &&& str_views(u@).contains(#[trigger] info.named_exports@[j].0@)
            &&& str_views(u@).contains(info.named_exports@[j].1.local_name@)
            &&& match info.named_exports@[j].1.source {
                ExportSource::SourceReexport { imported_name, .. } => str_views(u@).contains(imported_name@),
                _ => true,
            }
        } by {
            if j < i {
                assert(before.contains(info.named_exports@[j].0@));
                assert(before.contains(info.named_exports@[j].1.local_name@));
                match info.named_exports@[j].1.source {
                    ExportSource::SourceReexport { imported_name, .. } => {
                        assert(before.contains(imported_name@));
                    },
                    _ => {},
                }
            }
        }
        i += 1;
    }
    let ghost u1 = str_views(u@);
    let mut i: usize = 0;
    while i < info.declared_export_names.len()
        invariant
            0 <= i <= info.declared_export_names@.len(),
            str_views(u@).no_duplicates(),
            grows(u1, str_views(u@)),
            grows(u0, str_views(u@)),
            forall|j: int| 0 <= j < i ==> str_views(u@).contains(#[trigger] info.declared_export_names@[j]@),
        decreases info.declared_export_names@.len() - i,
    {
        push_name(u, info.declared_export_names[i].as_str());
        i += 1;
    }
    let ghost u2 = str_views(u@);
    let mut i: usize = 0;
    while i < m.scoping.root_bindings.len()
        invariant
            0 <= i <= m.scoping.root_bindings@.len(),
            str_views(u@).no_duplicates(),
            grows(u2, str_views(u@)),
            grows(u1, str_views(u@)),
            grows(u0, str_views(u@)),
            forall|j: int| 0 <= j < i ==> str_views(u@).contains(#[trigger] m.scoping.root_bindings@[j].name@),
        decreases m.scoping.root_bindings@.len() - i,
    {
        push_name(u, m.scoping.root_bindings[i].name.as_str());
        i += 1;
    }
    let ghost u3 = str_views(u@);
    let mut s: usize = 0;
    while s < m.statements.len()
        invariant
            0 <= s <= m.statements@.len(),
            str_views(u@).no_duplicates(),
            grows(u3, str_views(u@)),
            grows(u2, str_views(u@)),
            grows(u1, str_views(u@)),
            grows(u0, str_views(u@)),
            forall|j: int| 0 <= j < s ==> import_names_in(str_views(u@), #[trigger] m.statements@[j]),
        decreases m.statements@.len() - s,
    {
        let ghost before = str_views(u@);
        if let Some(specs) = &m.statements[s].import_specifiers {
            let mut k: usize = 0;
            while k < specs.len()
                invariant
                    0 <= k <= specs@.len(),
                    str_views(u@).no_duplicates(),
                    grows(before, str_views(u@)),
                    forall|j: int| 0 <= j < k ==> match (#[trigger] specs@[j]).kind {
                        ImportBindingKind::Named(n) => str_views(u@).contains(n@),
                        _ => true,
                    },
                decreases specs@.len() - k,
            {
                if let ImportBindingKind::Named(n) = &specs[k].kind {
                    push_name(u, n.as_str());
                }
                k += 1;
            }
        }
        assert forall|j: int| 0 <= j <= s implies import_names_in(str_views(u@), #[trigger] m.statements@[j]) by {
            if j < s {
                assert(import_names_in(before, m.statements@[j]));
                match m.statements@[j].import_specifiers {
                    Some(specs) => {
                        assert forall|k: int| 0 <= k < specs@.len() implies match (#[trigger] specs@[k]).kind {
                            ImportBindingKind::Named(n) => str_views(u@).contains(n@),
                            _ => true,
                        } by {
                            match specs@[k].kind {
                                ImportBindingKind::Named(n) => {
                                    assert(before.contains(n@));
                                },
                                _ => {},
                            }
                        }
                    },
                    None => {},
                }
            }
        }
        s += 1;
    }
    let ghost uf = str_views(u@);
    assert forall|j: int| 0 <= j < info.named_exports@.len() implies {
        &&& uf.contains(#[trigger] info.named_exports@[j].0@)
        &&& uf.contains(info.named_exports@[j].1.local_name@)
        &&& match info.named_exports@[j].1.source {
            ExportSource::SourceReexport { imported_name, .. } => uf.contains(imported_name@),
            _ => true,
        }
    } by {
        assert(u1.contains(info.named_exports@[j].0@));
        assert(u1.contains(info.named_exports@[j].1.local_name@));
        match info.named_exports@[j].1.source {
            ExportSource::SourceReexport { imported_name, .. } => {
                assert(u1.contains(imported_name@));
            },
            _ => {},
        }
    }
    assert forall|j: int| 0 <= j < info.declared_export_names@.len() implies uf.contains(
        #[trigger] info.declared_export_names@[j]@,
    ) by {
        assert(u2.contains(info.declared_export_names@[j]@));
    }
    assert forall|j: int| 0 <= j < m.scoping.root_bindings@.len() implies uf.contains(
        #[trigger] m.scoping.root_bindings@[j].name@,
    ) by {
        assert(u3.contains(m.scoping.root_bindings@[j].name@));
    }
}


/// Adds the declared names and dependency targets of `nodes` to `u`.
fn collect_node_names(u: &mut Vec<String>, nodes: &Vec<DeclarationNode>)
    requires
        str_views(old(u)@).no_duplicates(),
    ensures
        str_views(final(u)@).no_duplicates(),
        grows(str_views(old(u)@), str_views(final(u)@)),
        nodes_names_in(str_views(final(u)@), node_views(nodes@)),
{
    let ghost u0 = str_views(u@);
    let ghost ns = node_views(nodes@);
    let mut k: usize = 0;
    while k < nodes.len()
        invariant
            0 <= k <= nodes@.len(),
            ns == node_views(nodes@),
            str_views(u@).no_duplicates(),
            grows(u0, str_views(u@)),
            nodes_names_in(str_views(u@), ns.take(k as int)),
        decreases nodes@.len() - k,
    {
        let ghost before = str_views(u@);
        let node = &nodes[k];
        assert(ns[k as int] == node@);
        let mut i: usize = 0;
        while i < node.declared_names.len()
            invariant
                0 <= i <= node.declared_names@.len(),
                str_views(u@).no_duplicates(),
                grows(before, str_views(u@)),
                forall|j: int| 0 <= j < i ==> str_views(u@).contains(#[trigger] node@.declared_names[j]),
            decreases node.declared_names@.len() - i,
        {
            push_name(u, node.declared_names[i].as_str());
            i += 1;
        }
        let ghost mid = str_views(u@);
        let mut i: usize = 0;
        while i < node.cross_module_deps.len()
            invariant
                0 <= i <= node.cross_module_deps@.len(),
                str_views(u@).no_duplicates(),
                grows(mid, str_views(u@)),
                forall|j: int| 0 <= j < i ==> target_in(str_views(u@), #[trigger] node@.targets[j]),
            decreases node.cross_module_deps@.len() - i,
        {
            let ghost b2 = str_views(u@);
            if let Some(n) = &node.cross_module_deps[i].target_name {
                push_name(u, n.as_str());
            }
            assert forall|j: int| 0 <= j <= i implies target_in(str_views(u@), #[trigger] node@.targets[j]) by {
                if j < i {
                    assert(target_in(b2, node@.targets[j]));
                }
            }
            i += 1;
        }
        let ghost mid2 = str_views(u@);
        let nc = node.cross_module_deps.len();
        let mut i: usize = 0;
        while i < node.inline_import_deps.len()
            invariant
                0 <= i <= node.inline_import_deps@.len(),
                nc == node.cross_module_deps@.len(),
                str_views(u@).no_duplicates(),
                grows(mid2, str_views(u@)),
                forall|j: int| 0 <= j < nc + i ==> target_in(str_views(u@), #[trigger] node@.targets[j]),
            decreases node.inline_import_deps@.len() - i,
        {
            let ghost b2 = str_views(u@);
            if let Some(n) = &node.inline_import_deps[i].target_name {
                push_name(u, n.as_str());
            }
            assert(node@.targets[nc + i] == (node.inline_import_deps@[i as int].target_module_idx, opt_view(node.inline_import_deps@[i as int].target_name)));
            assert forall|j: int| 0 <= j <= nc + i implies target_in(str_views(u@), #[trigger] node@.targets[j]) by {
                if j < nc + i {
                    assert(target_in(b2, node@.targets[j]));
                }
            }
            i += 1;
        }
        let ghost uf = str_views(u@);
        assert(ns.take(k + 1).drop_last() =~= ns.take(k as int));
        assert forall|a: int, i: int| 0 <= a < ns.take(k + 1).len() && 0 <= i < ns.take(k + 1)[a].declared_names.len() implies uf.contains(
            #[trigger] ns.take(k + 1)[a].declared_names[i],
        ) by {
            if a < k {
                assert(before.contains(ns.take(k as int)[a].declared_names[i]));
            } else {
                assert(mid.contains(node@.declared_names[i]));
            }
        }
        assert forall|a: int, i: int| 0 <= a < ns.take(k + 1).len() && 0 <= i < ns.take(k + 1)[a].targets.len() implies target_in(
            uf,
            #[trigger] ns.take(k + 1)[a].targets[i],
        ) by {
            if a < k {
                assert(target_in(before, ns.take(k as int)[a].targets[i]));
            } else {
                assert(target_in(uf, node@.targets[i]));
            }
        }
        k += 1;
    }
    assert(ns.take(k as int) =~= ns);
}

/// All names the analysis can add, each once.
pub fn collect_name_universe(table: &ModuleTable, graph: &Vec<Vec<DeclarationNode>>) -> (u: Vec<String>)
    ensures
        str_views(u@).no_duplicates(),
        universe_ok(str_views(u@), table.modules@, graph_views(graph@)),
{
    let mut u: Vec<String> = Vec::new();
    assert(str_views(u@) =~= Seq::<Seq<char>>::empty());
    let mut m: usize = 0;
    while m < table.modules.len()
        invariant
            0 <= m <= table.modules@.len(),
            str_views(u@).no_duplicates(),
            forall|j: int| 0 <= j < m ==> #[trigger] module_names_in(str_views(u@), table.modules@[j]),
        decreases table.modules@.len() - m,
    {
        let ghost before = str_views(u@);
        collect_module_names(&mut u, &table.modules[m]);
        assert forall|j: int| 0 <= j <= m implies #[trigger] module_names_in(str_views(u@), table.modules@[j]) by {
            if j < m {
                lemma_module_names_mono(before, str_views(u@), table.modules@[j]);
            }
        }
        m += 1;
    }
    let ghost u1 = str_views(u@);
    let mut m: usize = 0;
    while m < graph.len()
        invariant
            0 <= m <= graph@.len(),
            str_views(u@).no_duplicates(),
            grows(u1, str_views(u@)),
            forall|j: int| 0 <= j < m ==> #[trigger] nodes_names_in(str_views(u@), graph_views(graph@)[j]),
        decreases graph@.len() - m,
    {
        let ghost before = str_views(u@);
        collect_node_names(&mut u, &graph[m]);
        assert forall|j: int| 0 <= j <= m implies #[trigger] nodes_names_in(str_views(u@), graph_views(graph@)[j]) by {
            if j < m {
                lemma_nodes_names_mono(before, str_views(u@), graph_views(graph@)[j]);
            }
        }
        m += 1;
    }
    assert forall|j: int| 0 <= j < table.modules@.len() implies #[trigger] module_names_in(str_views(u@), table.modules@[j]) by {
        lemma_module_names_mono(u1, str_views(u@), table.modules@[j]);
    }
    u
}


// ---------------------------------------------------------------------------
// The state: needed names per module, and the modules needed whole.

/// The names of `names` whose flag is set in `row`.
pub open spec fn row_set(names: Seq<Seq<char>>, row: Seq<bool>) -> Set<Seq<char>> {
    Set::new(|x: Seq<char>| exists|j: int| 0 <= j < row.len() && row[j] && names[j] == x)
}

/// The needed names of every module (as flags over a fixed list of all
/// names that can become needed) and which modules are needed whole.
pub struct NeededState {
    pub names: Vec<String>,
    pub rows: Vec<Vec<bool>>,
    pub whole: Vec<bool>,
    /// Why names became needed: (module, name, reason) records, each once.
    pub reasons: Vec<(usize, String, NeededReason)>,
}

/// Each needed name (flag `j` of row `m`) has a recorded reason.
pub open spec fn needed_recorded(rows: Seq<Vec<bool>>, names: Seq<String>, log: Seq<(usize, String, NeededReason)>) -> bool {
    forall|m: int, j: int|
        0 <= m < rows.len() && 0 <= j < rows[m]@.len() && #[trigger] rows[m]@[j] ==> reasons_of(log, m, names[j]@)
            != Set::<NeededReason>::empty()
}

proof fn lemma_recorded_after(
    rows0: Seq<Vec<bool>>,
    rows1: Seq<Vec<bool>>,
    names: Seq<String>,
    log0: Seq<(usize, String, NeededReason)>,
    log1: Seq<(usize, String, NeededReason)>,
    m: int,
    j: int,
)
    requires
        needed_recorded(rows0, names, log0),
        log_extends(log0, log1),
        rows1.len() == rows0.len(),
        forall|a: int, b: int|
            0 <= a < rows1.len() && 0 <= b < rows1[a]@.len() && rows1[a]@[b] && !(a == m && b == j) ==> b < rows0[a]@.len()
                && rows0[a]@[b],
        0 <= m < rows1.len() && 0 <= j < rows1[m]@.len() && rows1[m]@[j] ==> reasons_of(log1, m, names[j]@) != Set::<NeededReason>::empty(),
    ensures
        needed_recorded(rows1, names, log1),
{
    assert forall|a: int, b: int| 0 <= a < rows1.len() && 0 <= b < rows1[a]@.len() && #[trigger] rows1[a]@[b] implies reasons_of(
        log1,
        a,
        names[b]@,
    ) != Set::<NeededReason>::empty() by {
        if !(a == m && b == j) {
            assert(rows0[a]@[b]);
            lemma_log_extends_keeps_reasons(log0, log1, a, names[b]@);
            if reasons_of(log1, a, names[b]@) == Set::<NeededReason>::empty() {
                assert(reasons_of(log0, a, names[b]@) =~= Set::<NeededReason>::empty()) by {
                    assert forall|r: NeededReason| !reasons_of(log0, a, names[b]@).contains(r) by {
                        if reasons_of(log0, a, names[b]@).contains(r) {
                            assert(reasons_of(log1, a, names[b]@).contains(r));
                        }
                    }
                }
            }
        }
    }
}

/// `b` keeps every record of `a`, in place, and may add more after them.
pub open spec fn log_extends(a: Seq<(usize, String, NeededReason)>, b: Seq<(usize, String, NeededReason)>) -> bool {
    &&& a.len() <= b.len()
    &&& forall|i: int| 0 <= i < a.len() ==> #[trigger] b[i] == a[i]
}

/// The reasons recorded for name `x` of module `m`.
pub open spec fn reasons_of(log: Seq<(usize, String, NeededReason)>, m: int, x: Seq<char>) -> Set<NeededReason> {
    Set::new(|r: NeededReason| exists|i: int| 0 <= i < log.len() && log[i].0 == m && log[i].1@ == x && #[trigger] log[i].2 == r)
}

/// A log that only grows keeps every reason it recorded.
pub proof fn lemma_log_extends_keeps_reasons(a: Seq<(usize, String, NeededReason)>, b: Seq<(usize, String, NeededReason)>, m: int, x: Seq<char>)
    requires
        log_extends(a, b),
    ensures
        reasons_of(a, m, x).subset_of(reasons_of(b, m, x)),
{
    assert forall|r: NeededReason| reasons_of(a, m, x).contains(r) implies reasons_of(b, m, x).contains(r) by {
        let i = choose|i: int| 0 <= i < a.len() && a[i].0 == m && a[i].1@ == x && #[trigger] a[i].2 == r;
        assert(b[i] == a[i]);
    }
}

/// The state as the contracts see it.
pub struct NView {
    pub needed: Seq<Set<Seq<char>>>,
    pub whole: Seq<bool>,
}

/// The number of unset flags of all rows.
pub open spec fn rows_unset(rows: Seq<Vec<bool>>) -> nat
    decreases rows.len(),
{
    if rows.len() == 0 {
        0
    } else {
        rows_unset(rows.drop_last()) + count_false(rows.last()@)
    }
}

impl View for NeededState {
    type V = NView;

    open spec fn view(&self) -> NView {
        NView {
            needed: Seq::new(self.rows@.len(), |m: int| row_set(str_views(self.names@), self.rows@[m]@)),
            whole: self.whole@,
        }
    }
}

impl NeededState {
    /// Rows for `n` modules over the name list, without duplicate names.
    pub open spec fn wf(&self, n: nat) -> bool {
        &&& self.rows@.len() == n
        &&& self.whole@.len() == n
        &&& forall|m: int| 0 <= m < n ==> (#[trigger] self.rows@[m])@.len() == self.names@.len()
        &&& str_views(self.names@).no_duplicates()
        &&& self.reasons_ok()
        &&& needed_recorded(self.rows@, self.names@, self.reasons@)
    }

    /// Each recorded reason is for a needed name.
    pub open spec fn reasons_ok(&self) -> bool {
        forall|i: int|
            0 <= i < self.reasons@.len() ==> (#[trigger] self.reasons@[i]).0 < self.rows@.len() && self@.needed[self.reasons@[i].0 as int].contains(
                self.reasons@[i].1@,
            )
    }

    /// How many flags are still unset: it only goes down.
    pub open spec fn measure(&self) -> nat {
        rows_unset(self.rows@) + count_false(self.whole@)
    }

    /// Nothing is needed yet.
    pub fn new(names: Vec<String>, n: usize) -> (r: Self)
        requires
            str_views(names@).no_duplicates(),
        ensures
            r.wf(n as nat),
            r@.needed == Seq::new(n as nat, |m: int| Set::<Seq<char>>::empty()),
            r@.whole == Seq::new(n as nat, |m: int| false),
            str_views(r.names@) == str_views(names@),
    {
        let k = names.len();
        let mut row: Vec<bool> = Vec::new();
        let mut j: usize = 0;
        while j < k
            invariant
                0 <= j <= k,
                row@ =~= Seq::new(j as nat, |i: int| false),
            decreases k - j,
        {
            row.push(false);
            j += 1;
        }
        let mut rows: Vec<Vec<bool>> = Vec::new();
        let mut whole: Vec<bool> = Vec::new();
        let mut m: usize = 0;
        while m < n
            invariant
                0 <= m <= n,
                row@ == Seq::new(k as nat, |i: int| false),
                rows@.len() == m,
                forall|a: int| 0 <= a < m ==> (#[trigger] rows@[a])@ == Seq::new(k as nat, |i: int| false),
                whole@ =~= Seq::new(m as nat, |i: int| false),
            decreases n - m,
        {
            rows.push(row.clone());
            whole.push(false);
            m += 1;
        }
        let r = NeededState { names, rows, whole, reasons: Vec::new() };
        assert(r@.needed =~= Seq::new(n as nat, |m: int| Set::<Seq<char>>::empty())) by {
            assert forall|a: int| 0 <= a < n implies r@.needed[a] =~= Set::<Seq<char>>::empty() by {
                assert forall|x: Seq<char>| !r@.needed[a].contains(x) by {}
            }
        }
        r
    }

    /// The index of name `x` in the name list.
    fn index_of(&self, x: &str) -> (j: usize)
        requires
            str_views(self.names@).contains(x@),
        ensures
            j < self.names@.len(),
            self.names@[j as int]@ == x@,
    {
        let ghost nv = str_views(self.names@);
        let mut j: usize = 0;
        while j < self.names.len()
            invariant
                0 <= j <= self.names@.len(),
                nv == str_views(self.names@),
                nv.contains(x@),
                forall|i: int| 0 <= i < j ==> nv[i] != x@,
            decreases self.names@.len() - j,
        {
            if str_eq(self.names[j].as_str(), x) {
                return j;
            }
            j += 1;
        }
        assert(false);
        j
    }

    /// Records `reason` for name `x` of module `m`, unless it is recorded.
    fn record_reason(&mut self, m: usize, x: &str, reason: NeededReason)
        ensures
            final(self).names == old(self).names,
            final(self).rows == old(self).rows,
            final(self).whole == old(self).whole,
            log_extends(old(self).reasons@, final(self).reasons@),
            reasons_of(final(self).reasons@, m as int, x@) == reasons_of(old(self).reasons@, m as int, x@).insert(reason),
            forall|m2: int, y: Seq<char>| !(m2 == m && y == x@) ==> #[trigger] reasons_of(final(self).reasons@, m2, y) == reasons_of(old(self).reasons@, m2, y),
            forall|i: int|
                0 <= i < final(self).reasons@.len() ==> (i < old(self).reasons@.len() && #[trigger] final(self).reasons@[i]
                    == old(self).reasons@[i]) || (final(self).reasons@[i].0 == m && final(self).reasons@[i].1@ == x@),
    {
        let ghost log0 = self.reasons@;
        let mut i: usize = 0;
        while i < self.reasons.len()
            invariant
                0 <= i <= self.reasons@.len(),
                self.reasons@ == log0,
                forall|k: int| 0 <= k < i ==> !(log0[k].0 == m && log0[k].1@ == x@ && #[trigger] log0[k].2 == reason),
            decreases self.reasons@.len() - i,
        {
            let e = &self.reasons[i];
            if e.0 == m && str_eq(e.1.as_str(), x) && e.2 == reason {
                assert(reasons_of(log0, m as int, x@).contains(reason));
                assert(reasons_of(log0, m as int, x@).insert(reason) =~= reasons_of(log0, m as int, x@));
                return;
            }
            i += 1;
        }
        self.reasons.push((m, x.to_string(), reason));
        proof {
            let log1 = self.reasons@;
            assert(log1[log0.len() as int] == (m, log1[log0.len() as int].1, reason));
            assert forall|m2: int, y: Seq<char>| #[trigger] reasons_of(log1, m2, y) == if m2 == m && y == x@ {
                reasons_of(log0, m2, y).insert(reason)
            } else {
                reasons_of(log0, m2, y)
            } by {
                let want = if m2 == m && y == x@ { reasons_of(log0, m2, y).insert(reason) } else { reasons_of(log0, m2, y) };
                assert forall|r: NeededReason| reasons_of(log1, m2, y).contains(r) <==> want.contains(r) by {
                    if reasons_of(log1, m2, y).contains(r) {
                        let k = choose|k: int| 0 <= k < log1.len() && log1[k].0 == m2 && log1[k].1@ == y && #[trigger] log1[k].2 == r;
                        if k < log0.len() {
                            assert(log1[k] == log0[k]);
                        }
                    }
                    if reasons_of(log0, m2, y).contains(r) {
                        let k = choose|k: int| 0 <= k < log0.len() && log0[k].0 == m2 && log0[k].1@ == y && #[trigger] log0[k].2 == r;
                        assert(log1[k] == log0[k]);
                        assert(log1[k].2 == r);
                    }
                    if m2 == m && y == x@ && r == reason {
                        assert(log1[log0.len() as int].2 == r);
                    }
                }
                assert(reasons_of(log1, m2, y) =~= want);
            }
        }
    }

    /// Adds name `x` to the needed names of module `m`, with `reason`
    /// recorded for it; whether it is new.
    pub fn add_name(&mut self, m: usize, x: &str, reason: Option<NeededReason>) -> (added: bool)
        requires
            old(self).wf(old(self).rows@.len()),
            reason is None ==> old(self)@.needed[m as int].contains(x@),
            m < old(self).rows@.len(),
            str_views(old(self).names@).contains(x@),
        ensures
            log_extends(old(self).reasons@, final(self).reasons@),
            final(self).wf(old(self).rows@.len()),
            final(self).names@ == old(self).names@,
            final(self)@.needed == old(self)@.needed.update(m as int, old(self)@.needed[m as int].insert(x@)),
            final(self)@.whole == old(self)@.whole,
            final(self)@ == add_set(old(self)@, m as int, set![x@]),
            added == !old(self)@.needed[m as int].contains(x@),
            added ==> final(self).measure() < old(self).measure(),
            !added ==> final(self).measure() == old(self).measure(),
            reasons_of(final(self).reasons@, m as int, x@) == match reason {
                Some(r) => reasons_of(old(self).reasons@, m as int, x@).insert(r),
                None => reasons_of(old(self).reasons@, m as int, x@),
            },
    {
        match reason {
            Some(r) => self.record_reason(m, x, r),
            None => {},
        }
        let ghost log1 = self.reasons@;
        assert forall|i: int| 0 <= i < log1.len() implies (i < old(self).reasons@.len() && #[trigger] log1[i]
            == old(self).reasons@[i]) || (log1[i].0 == m && log1[i].1@ == x@) by {}
        let ghost nv = str_views(self.names@);
        let ghost n = self.rows@.len();
        let ghost before = *self;
        let j = self.index_of(x);
        assert(nv[j as int] == x@);
        assert(old(self)@.needed[m as int].insert(x@) =~= old(self)@.needed[m as int].union(set![x@]));
        if self.rows[m][j] {
            assert(old(self)@.needed[m as int].contains(x@));
            assert(self@.needed =~= old(self)@.needed.update(m as int, old(self)@.needed[m as int].insert(x@))) by {
                assert(old(self)@.needed[m as int].insert(x@) =~= old(self)@.needed[m as int]);
            }
            proof {
                lemma_reasons_kept(old(self).reasons@, log1, old(self)@.needed, self@.needed, m as int, x@);
                lemma_recorded_after(old(self).rows@, self.rows@, old(self).names@, old(self).reasons@, log1, -1, -1);
            }
            return false;
        }
        assert(!old(self)@.needed[m as int].contains(x@)) by {
            if old(self)@.needed[m as int].contains(x@) {
                let k = choose|k: int| 0 <= k < old(self).rows@[m as int]@.len() && old(self).rows@[m as int]@[k] && nv[k] == x@;
                assert(nv[k] == nv[j as int]);
            }
        }
        let mut row = self.rows.remove(m);
        let ghost r0 = row@;
        row.set(j, true);
        self.rows.insert(m, row);
        proof {
            assert(self.rows@ =~= before.rows@.update(m as int, self.rows@[m as int]));
            lemma_count_false_mark_pub(r0, j as int);
            lemma_rows_unset_update(before.rows@, m as int, self.rows@[m as int]);
            assert(self@.needed =~= old(self)@.needed.update(m as int, old(self)@.needed[m as int].insert(x@))) by {
                assert(self@.needed[m as int] =~= old(self)@.needed[m as int].insert(x@)) by {
                    assert forall|y: Seq<char>| self@.needed[m as int].contains(y) implies old(self)@.needed[m as int].insert(x@).contains(y) by {
                        let k = choose|k: int| 0 <= k < self.rows@[m as int]@.len() && self.rows@[m as int]@[k] && nv[k] == y;
                        if k != j {
                            assert(r0[k]);
                        }
                    }
                    assert forall|y: Seq<char>| old(self)@.needed[m as int].insert(x@).contains(y) implies self@.needed[m as int].contains(y) by {
                        if y == x@ {
                            assert(self.rows@[m as int]@[j as int]);
                        } else {
                            let k = choose|k: int| 0 <= k < r0.len() && r0[k] && nv[k] == y;
                            assert(self.rows@[m as int]@[k]);
                        }
                    }
                }
            }
        }
        proof {
            lemma_reasons_kept(old(self).reasons@, log1, old(self)@.needed, self@.needed, m as int, x@);
            let r = reason->0;
            assert(reasons_of(log1, m as int, x@).contains(r));
            assert(old(self).names@[j as int]@ == x@);
            assert forall|a: int, b: int|
                0 <= a < self.rows@.len() && 0 <= b < self.rows@[a]@.len() && self.rows@[a]@[b] && !(a == m && b == j) implies b
                < old(self).rows@[a]@.len() && old(self).rows@[a]@[b] by {
                if a != m {
                    assert(self.rows@[a] == before.rows@[a]);
                } else {
                    assert(self.rows@[a]@[b] == r0[b]);
                }
            }
            lemma_recorded_after(old(self).rows@, self.rows@, old(self).names@, old(self).reasons@, log1, m as int, j as int);
        }
        true
    }
}

/// Records stay for needed names when a name is added to the needed names
/// of module `m` and the only new records are for that name.
proof fn lemma_reasons_kept(
    log0: Seq<(usize, String, NeededReason)>,
    log1: Seq<(usize, String, NeededReason)>,
    v0: Seq<Set<Seq<char>>>,
    v1: Seq<Set<Seq<char>>>,
    m: int,
    x: Seq<char>,
)
    requires
        0 <= m < v0.len(),
        forall|i: int| 0 <= i < log0.len() ==> (#[trigger] log0[i]).0 < v0.len() && v0[log0[i].0 as int].contains(log0[i].1@),
        forall|i: int| 0 <= i < log1.len() ==> (i < log0.len() && #[trigger] log1[i] == log0[i]) || (log1[i].0 == m && log1[i].1@ == x),
        v1 == v0.update(m, v0[m].insert(x)),
    ensures
        forall|i: int| 0 <= i < log1.len() ==> (#[trigger] log1[i]).0 < v1.len() && v1[log1[i].0 as int].contains(log1[i].1@),
{
    assert forall|i: int| 0 <= i < log1.len() implies (#[trigger] log1[i]).0 < v1.len() && v1[log1[i].0 as int].contains(log1[i].1@) by {
        if i < log0.len() && log1[i] == log0[i] {
            assert(v0[log0[i].0 as int].contains(log0[i].1@));
        }
    }
}

proof fn lemma_row_set_finite(names: Seq<String>, row: Seq<bool>)
    requires
        row.len() == names.len(),
    ensures
        row_set(str_views(names), row).finite(),
{
    let u = str_views(names);
    vstd::seq_lib::seq_to_set_is_finite(u);
    assert(row_set(u, row).subset_of(u.to_set())) by {
        assert forall|x: Seq<char>| row_set(u, row).contains(x) implies u.to_set().contains(x) by {
            let j = choose|j: int| 0 <= j < row.len() && row[j] && u[j] == x;
            assert(0 <= j < u.len() && u[j] == x);
            assert(u.contains(x));
        }
    }
    vstd::set_lib::lemma_set_subset_finite(u.to_set(), row_set(u, row));
}

proof fn lemma_rows_unset_update(rows: Seq<Vec<bool>>, m: int, row: Vec<bool>)
    requires
        0 <= m < rows.len(),
    ensures
        rows_unset(rows.update(m, row)) + count_false(rows[m]@) == rows_unset(rows) + count_false(row@),
    decreases rows.len(),
{
    if m < rows.len() - 1 {
        assert(rows.update(m, row).drop_last() =~= rows.drop_last().update(m, row));
        lemma_rows_unset_update(rows.drop_last(), m, row);
    } else {
        assert(rows.update(m, row).drop_last() =~= rows.drop_last());
    }
}


/// The names the first `i` export entries of `m` contribute to its
/// exported names.
pub open spec fn exported_prefix(m: Module, i: int) -> Set<Seq<char>> {
    Set::new(
        |x: Seq<char>|
            exists|j: int|
                0 <= j < i && j < m.export_import_info.named_exports@.len() && #[trigger] entry_name(
                    m.export_import_info.named_exports@[j],
                ) == x && (x != "default"@ || default_is_named(m)),
    )
}

/// The state with `names` added to the needed names of module `m`.
pub open spec fn add_set(s: NView, m: int, names: Set<Seq<char>>) -> NView {
    NView { needed: s.needed.update(m, s.needed[m].union(names)), whole: s.whole }
}

/// The state with module `m` needed whole: all its exported names needed.
pub open spec fn mark_whole_spec(s: NView, m: int, module: Module) -> NView {
    NView { needed: s.needed.update(m, s.needed[m].union(all_exported_names(module))), whole: s.whole.update(m, true) }
}

impl NeededState {
    /// Adds all exported names of `module` (module `m`) to its needed
    /// names; whether any is new.
    pub fn add_exported(&mut self, m: usize, module: &Module, reason: NeededReason) -> (changed: bool)
        requires
            old(self).wf(old(self).rows@.len()),
            m < old(self).rows@.len(),
            module_names_in(str_views(old(self).names@), *module),
        ensures
            log_extends(old(self).reasons@, final(self).reasons@),
            final(self).wf(old(self).rows@.len()),
            final(self).names@ == old(self).names@,
            final(self)@ == add_set(old(self)@, m as int, all_exported_names(*module)),
            changed == !all_exported_names(*module).subset_of(old(self)@.needed[m as int]),
            changed ==> final(self).measure() < old(self).measure(),
            !changed ==> final(self).measure() == old(self).measure(),
    {
        let ghost s0 = self@;
        let ghost n = self.rows@.len();
        let info = &module.export_import_info;
        let key = "default";
        proof {
            reveal_strlit("default");
        }
        let default_named = match crate::model::assoc_find(&info.named_exports, key) {
            Some(e) => match e.source {
                ExportSource::Default => false,
                _ => true,
            },
            None => false,
        };
        assert(default_named == default_is_named(*module));
        assert(key@ == "default"@);
        proof {
            assert(exported_prefix(*module, 0) =~= Set::<Seq<char>>::empty());
            assert(s0.needed[m as int].union(exported_prefix(*module, 0)) =~= s0.needed[m as int]);
            assert(s0.needed.update(m as int, s0.needed[m as int]) =~= s0.needed);
            assert(self@ =~= add_set(s0, m as int, exported_prefix(*module, 0)));
        }
        let mut changed = false;
        let mut i: usize = 0;
        while i < info.named_exports.len()
            invariant
                log_extends(old(self).reasons@, self.reasons@),
                0 <= i <= info.named_exports@.len(),
                *info == module.export_import_info,
                default_named == default_is_named(*module),
                key@ == "default"@,
                s0.needed.len() == n,
                self.wf(n),
                self.rows@.len() == n,
                m < n,
                str_views(self.names@) == str_views(old(self).names@),
                self.names@ == old(self).names@,
                module_names_in(str_views(self.names@), *module),
                self@ == add_set(s0, m as int, exported_prefix(*module, i as int)),
                changed == !exported_prefix(*module, i as int).subset_of(s0.needed[m as int]),
                changed ==> self.measure() < old(self).measure(),
                !changed ==> self.measure() == old(self).measure(),
            decreases info.named_exports@.len() - i,
        {
            let e = &info.named_exports[i];
            let name: &str = match &e.1.source {
                ExportSource::SourceReexport { .. } => e.0.as_str(),
                _ => e.1.local_name.as_str(),
            };
            assert(name@ == entry_name(info.named_exports@[i as int]));
            assert(str_views(self.names@).contains(info.named_exports@[i as int].0@));
            let keep = !str_eq(name, key) || default_named;
            proof {
                reveal_strlit("default");
            }
            assert(key@ == "default"@);
            assert(keep == (name@ != "default"@ || default_is_named(*module)));
            let ghost before = self@;
            if keep {
                let added = self.add_name(m, name, Some(reason));
                if added {
                    changed = true;
                }
            }
            proof {
                let nxt = if keep {
                    exported_prefix(*module, i as int).insert(name@)
                } else {
                    exported_prefix(*module, i as int)
                };
                let cur = exported_prefix(*module, i + 1);
                assert forall|x: Seq<char>| #[trigger] cur.contains(x) implies nxt.contains(x) by {
                    let j = choose|j: int|
                        0 <= j < i + 1 && j < module.export_import_info.named_exports@.len() && #[trigger] entry_name(
                            module.export_import_info.named_exports@[j],
                        ) == x && (x != "default"@ || default_is_named(*module));
                    if j < i {
                        assert(exported_prefix(*module, i as int).contains(x));
                    }
                }
                assert forall|x: Seq<char>| #[trigger] nxt.contains(x) implies cur.contains(x) by {
                    if keep && x == name@ {
                        assert(entry_name(module.export_import_info.named_exports@[i as int]) == x);
                    } else {
                        let j = choose|j: int|
                            0 <= j < i && j < module.export_import_info.named_exports@.len() && #[trigger] entry_name(
                                module.export_import_info.named_exports@[j],
                            ) == x && (x != "default"@ || default_is_named(*module));
                        assert(entry_name(module.export_import_info.named_exports@[j]) == x);
                    }
                }
                assert(cur =~= nxt);
                assert(self@.needed[m as int] =~= s0.needed[m as int].union(exported_prefix(*module, i + 1))) by {
                    assert(before.needed[m as int] == s0.needed[m as int].union(exported_prefix(*module, i as int)));
                }
                assert(self@.needed =~= s0.needed.update(m as int, s0.needed[m as int].union(exported_prefix(*module, i + 1))));
                assert(self@ =~= add_set(s0, m as int, exported_prefix(*module, i + 1)));
            }
            i += 1;
        }
        proof {
            assert(exported_prefix(*module, i as int) =~= all_exported_names(*module)) by {
                assert forall|x: Seq<char>| #[trigger] all_exported_names(*module).contains(x) implies exported_prefix(*module, i as int).contains(x) by {
                    let j = choose|j: int|
                        0 <= j < module.export_import_info.named_exports@.len() && #[trigger] entry_name(
                            module.export_import_info.named_exports@[j],
                        ) == x && (x != "default"@ || default_is_named(*module));
                    assert(entry_name(module.export_import_info.named_exports@[j]) == x);
                }
            }
        }
        changed
    }
}


impl NeededState {
    /// Marks module `m` (`module`) as needed whole, with all its exported
    /// names; whether anything is new.
    pub fn mark_whole(&mut self, m: usize, module: &Module, reason: NeededReason) -> (changed: bool)
        requires
            old(self).wf(old(self).rows@.len()),
            m < old(self).rows@.len(),
            module_names_in(str_views(old(self).names@), *module),
        ensures
            log_extends(old(self).reasons@, final(self).reasons@),
            final(self).wf(old(self).rows@.len()),
            final(self).names@ == old(self).names@,
            final(self)@ == mark_whole_spec(old(self)@, m as int, *module),
            changed == (!old(self)@.whole[m as int] || !all_exported_names(*module).subset_of(old(self)@.needed[m as int])),
            changed ==> final(self).measure() < old(self).measure(),
            !changed ==> final(self).measure() == old(self).measure(),
    {
        let ghost s0 = self@;
        let mut changed = false;
        if !self.whole[m] {
            let ghost w0 = self.whole@;
            self.whole.set(m, true);
            proof {
                lemma_count_false_mark_pub(w0, m as int);
            }
            changed = true;
        }
        let ghost s1 = self@;
        assert(s1.needed == s0.needed);
        let added = self.add_exported(m, module, reason);
        assert(self@ =~= mark_whole_spec(s0, m as int, *module)) by {
            assert(self@.whole =~= s0.whole.update(m as int, true));
        }
        changed || added
    }
}


// ---------------------------------------------------------------------------
// Seeds: what the entry needs directly.

/// One change of the state.
pub enum NeedAction {
    /// Names become needed in a module.
    Add(ModuleIdx, Set<Seq<char>>),
    /// A module becomes needed whole.
    Whole(ModuleIdx),
}

/// The state after `a`.
pub open spec fn apply_action(s: NView, a: NeedAction, t: Seq<Module>) -> NView {
    match a {
        NeedAction::Add(m, xs) => add_set(s, m as int, xs),
        NeedAction::Whole(m) => mark_whole_spec(s, m as int, t[m as int]),
    }
}

/// The state after `acts`, in order.
pub open spec fn apply_actions(s: NView, acts: Seq<NeedAction>, t: Seq<Module>) -> NView
    decreases acts.len(),
{
    if acts.len() == 0 {
        s
    } else {
        apply_action(apply_actions(s, acts.drop_last(), t), acts.last(), t)
    }
}

/// What a dependency asks for: its target name, or its whole module.
pub open spec fn dep_action(d: DepView) -> NeedAction {
    match d.1 {
        Some(x) => NeedAction::Add(d.0, set![x]),
        None => NeedAction::Whole(d.0),
    }
}

/// The actions of dependencies, in order.
pub open spec fn dep_actions(ds: Seq<DepView>) -> Seq<NeedAction> {
    ds.map_values(|d: DepView| dep_action(d))
}

/// The dependencies of all `nodes`, in order.
pub open spec fn nodes_dep_actions(ns: Seq<NodeView>) -> Seq<NeedAction>
    decreases ns.len(),
{
    if ns.len() == 0 {
        Seq::empty()
    } else {
        nodes_dep_actions(ns.drop_last()) + dep_actions(ns.last().targets)
    }
}

/// The entry's `export { x } from "./internal"`: the name `x` stands for in
/// the source module becomes needed there.
pub open spec fn named_reexport_actions(entry: Module, t: Seq<Module>, ne: Seq<(String, crate::model::ExportEntry)>) -> Seq<NeedAction>
    decreases ne.len(),
{
    if ne.len() == 0 {
        Seq::empty()
    } else {
        let prev = named_reexport_actions(entry, t, ne.drop_last());
        match ne.last().1.source {
            ExportSource::SourceReexport { specifier, imported_name } => match resolve_internal(entry, specifier@) {
                Some(ti) => prev.push(NeedAction::Add(ti, set![resolved_local(t[ti as int], imported_name@)])),
                None => prev,
            },
            _ => prev,
        }
    }
}

/// The entry's `export * [as ns] from "./internal"`: all names the source
/// module exports become needed.
pub open spec fn star_actions(entry: Module, t: Seq<Module>, stars: Seq<crate::model::StarReexport>) -> Seq<NeedAction>
    decreases stars.len(),
{
    if stars.len() == 0 {
        Seq::empty()
    } else {
        let prev = star_actions(entry, t, stars.drop_last());
        match resolve_internal(entry, stars.last().specifier@) {
            Some(ti) => prev.push(NeedAction::Add(ti, all_exported_names(t[ti as int]))),
            None => prev,
        }
    }
}

/// The local names statement `st` exports: those of `export { .. }` (no
/// source, no declaration), or the identifier of `export default x`.
pub open spec fn statement_export_locals(st: crate::model::StatementSummary) -> Seq<Seq<char>> {
    if st.kind == StatementKind::ExportNamed && st.source is None && !st.has_declaration {
        st.specifiers@.map_values(|sp: crate::model::ExportSpecifierSummary| sp.local@)
    } else if st.kind == StatementKind::ExportDefault {
        match st.default_kind {
            crate::model::DefaultExportKind::Identifier(n) => seq![n@],
            _ => Seq::empty(),
        }
    } else {
        Seq::empty()
    }
}

/// The local names the statements `stmts` export, in order.
pub open spec fn export_locals_seq(stmts: Seq<crate::model::StatementSummary>) -> Seq<Seq<char>>
    decreases stmts.len(),
{
    if stmts.len() == 0 {
        Seq::empty()
    } else {
        export_locals_seq(stmts.drop_last()) + statement_export_locals(stmts.last())
    }
}

/// The local names the entry exports with `export { x }` or `export default x`.
pub open spec fn entry_export_locals(stmts: Seq<crate::model::StatementSummary>) -> Set<Seq<char>> {
    export_locals_seq(stmts).to_set()
}

/// What one specifier of an entry import that feeds an export asks of the
/// source module `ti`.
pub open spec fn import_spec_action(t: Seq<Module>, ti: ModuleIdx, sp: crate::model::ImportSpecSummary) -> NeedAction {
    match sp.kind {
        ImportBindingKind::Named(n) => NeedAction::Add(ti, set![resolved_local(t[ti as int], n@)]),
        ImportBindingKind::Default => NeedAction::Whole(ti),
        ImportBindingKind::Namespace => NeedAction::Add(ti, all_exported_names(t[ti as int])),
    }
}

/// The actions of an import statement of the entry: when one of its
/// specifiers binds a name the entry exports, each specifier's.
pub open spec fn import_statement_actions(entry: Module, t: Seq<Module>, st: crate::model::StatementSummary, e: Set<Seq<char>>) -> Seq<NeedAction> {
    if st.kind == StatementKind::Import && st.source is Some && resolve_internal(entry, st.source->0@) is Some
        && st.import_specifiers is Some {
        let ti = resolve_internal(entry, st.source->0@)->0;
        let specs = st.import_specifiers->0@;
        if exists|k: int| 0 <= k < specs.len() && e.contains(#[trigger] specs[k].local@) {
            specs.map_values(|sp: crate::model::ImportSpecSummary| import_spec_action(t, ti, sp))
        } else {
            Seq::empty()
        }
    } else {
        Seq::empty()
    }
}

/// The actions of the entry's imports that feed its exports, in order.
pub open spec fn import_actions(entry: Module, t: Seq<Module>, stmts: Seq<crate::model::StatementSummary>, e: Set<Seq<char>>) -> Seq<NeedAction>
    decreases stmts.len(),
{
    if stmts.len() == 0 {
        Seq::empty()
    } else {
        import_actions(entry, t, stmts.drop_last(), e) + import_statement_actions(entry, t, stmts.last(), e)
    }
}

/// Everything the entry needs directly: the sources of its named and star
/// re-exports, the imports behind its local exports, and the dependencies
/// of all its declarations (the entry keeps all of them).
pub open spec fn seed_actions(t: Seq<Module>, g: Seq<Seq<NodeView>>, entry_idx: ModuleIdx) -> Seq<NeedAction> {
    let entry = t[entry_idx as int];
    named_reexport_actions(entry, t, entry.export_import_info.named_exports@) + star_actions(
        entry,
        t,
        entry.export_import_info.star_reexports@,
    ) + import_actions(entry, t, entry.statements@, entry_export_locals(entry.statements@)) + nodes_dep_actions(
        g[entry_idx as int],
    )
}

proof fn lemma_apply_actions_push(s: NView, acts: Seq<NeedAction>, a: NeedAction, t: Seq<Module>)
    ensures
        apply_actions(s, acts.push(a), t) == apply_action(apply_actions(s, acts, t), a, t),
{
    assert(acts.push(a).drop_last() =~= acts);
}

proof fn lemma_apply_actions_concat(s: NView, a: Seq<NeedAction>, b: Seq<NeedAction>, t: Seq<Module>)
    ensures
        apply_actions(s, a + b, t) == apply_actions(apply_actions(s, a, t), b, t),
    decreases b.len(),
{
    if b.len() == 0 {
        assert(a + b =~= a);
    } else {
        assert((a + b).drop_last() =~= a + b.drop_last());
        lemma_apply_actions_concat(s, a, b.drop_last(), t);
    }
}


/// The state's name list covers what the analysis can add, for `n` modules.
pub open spec fn state_ok(st: NeededState, t: Seq<Module>, g: Seq<Seq<NodeView>>) -> bool {
    &&& st.wf(t.len())
    &&& universe_ok(str_views(st.names@), t, g)
    &&& g.len() == t.len()
}

/// An internal specifier of a module of a well-formed table resolves to a
/// module of the table.
pub proof fn lemma_internal_below(table: &ModuleTable, mi: ModuleIdx, spec: Seq<char>)
    requires
        table.wf(),
        mi < table.modules@.len(),
    ensures
        resolve_internal(table.modules@[mi as int], spec) matches Some(x) ==> x < table.modules@.len(),
{
    let m = table.modules@[mi as int];
    crate::model::lemma_assoc_get_in(m.resolved_internal_specifiers@, spec);
    if resolve_internal(m, spec) is Some {
        let j = choose|j: int|
            0 <= j < m.resolved_internal_specifiers@.len() && m.resolved_internal_specifiers@[j].1 == assoc_get(
                m.resolved_internal_specifiers@,
                spec,
            )->0 && #[trigger] m.resolved_internal_specifiers@[j].0@ == spec;
        assert(table.modules@[mi as int].idx == mi);
        assert(m.resolved_internal_specifiers@[j].1 < table.modules@.len());
    }
}

/// The local name behind `x` in `m` is in `u` when `x` is.
proof fn lemma_resolved_local_in(u: Seq<Seq<char>>, m: Module, x: Seq<char>)
    requires
        module_names_in(u, m),
        u.contains(x),
    ensures
        u.contains(resolved_local(m, x)),
{
    crate::model::lemma_assoc_get_in(m.export_import_info.named_exports@, x);
    if export_local_name(m, x) is Some {
        let j = choose|j: int|
            0 <= j < m.export_import_info.named_exports@.len() && m.export_import_info.named_exports@[j].1
                == assoc_get(m.export_import_info.named_exports@, x)->0 && #[trigger] m.export_import_info.named_exports@[j].0@
                == x;
        assert(u.contains(m.export_import_info.named_exports@[j].0@));
    }
}

/// `name`, or the local name it exports in `module`.
fn resolved_local_name(module: &Module, name: &str) -> (r: String)
    ensures
        r@ == resolved_local(*module, name@),
{
    match crate::exports::resolve_export_local_name(module, name) {
        Some(l) => l,
        None => string_clone(name),
    }
}

impl NeededState {
    /// Applies what a dependency asks for.
    fn apply_dep(
        &mut self,
        target: ModuleIdx,
        name: &Option<String>,
        reason: NeededReason,
        table: &ModuleTable,
        Ghost(g): Ghost<Seq<Seq<NodeView>>>,
    )
        requires
            state_ok(*old(self), table.modules@, g),
            target < table.modules@.len(),
            target_in(str_views(old(self).names@), (target, opt_view(*name))),
        ensures
            log_extends(old(self).reasons@, final(self).reasons@),
            state_ok(*final(self), table.modules@, g),
            final(self).names@ == old(self).names@,
            final(self)@ == apply_action(old(self)@, dep_action((target, opt_view(*name))), table.modules@),
            final(self).measure() <= old(self).measure(),
            final(self)@ != old(self)@ ==> final(self).measure() < old(self).measure(),
    {
        let ghost t = table.modules@;
        match name {
            Some(x) => {
                let added = self.add_name(target, x.as_str(), Some(reason));
                if !added {
                    assert(old(self)@.needed[target as int].insert(x@) =~= old(self)@.needed[target as int]);
                    assert(self@.needed =~= old(self)@.needed);
                }
            },
            None => {
                assert(module_names_in(str_views(self.names@), t[target as int]));
                let changed = self.mark_whole(target, &table.modules[target], reason);
                if !changed {
                    assert(self@.whole =~= old(self)@.whole);
                    assert(self@.needed =~= old(self)@.needed) by {
                        assert(old(self)@.needed[target as int].union(all_exported_names(t[target as int])) =~= old(self)@.needed[target as int]);
                    }
                }
            },
        }
    }

    /// The entry's named re-exports from internal modules.
    fn seed_named_reexports(&mut self, entry_idx: ModuleIdx, table: &ModuleTable, Ghost(g): Ghost<Seq<Seq<NodeView>>>)
        requires
            table.wf(),
            entry_idx < table.modules@.len(),
            state_ok(*old(self), table.modules@, g),
        ensures
            log_extends(old(self).reasons@, final(self).reasons@),
            state_ok(*final(self), table.modules@, g),
            final(self).names@ == old(self).names@,
            final(self)@ == apply_actions(
                old(self)@,
                named_reexport_actions(
                    table.modules@[entry_idx as int],
                    table.modules@,
                    table.modules@[entry_idx as int].export_import_info.named_exports@,
                ),
                table.modules@,
            ),
    {
        let ghost t = table.modules@;
        let ghost s0 = self@;
        let entry = &table.modules[entry_idx];
        let ne = &entry.export_import_info.named_exports;
        assert(module_names_in(str_views(self.names@), t[entry_idx as int]));
        let mut i: usize = 0;
        while i < ne.len()
            invariant
                log_extends(old(self).reasons@, self.reasons@),
                0 <= i <= ne@.len(),
                table.wf(),
                t == table.modules@,
                entry_idx < t.len(),
                *entry == t[entry_idx as int],
                *ne == entry.export_import_info.named_exports,
                module_names_in(str_views(self.names@), *entry),
                state_ok(*self, t, g),
                self.names@ == old(self).names@,
                self@ == apply_actions(s0, named_reexport_actions(*entry, t, ne@.take(i as int)), t),
            decreases ne@.len() - i,
        {
            let e = &ne[i];
            proof {
                let tk = ne@.take(i + 1);
                assert(tk.drop_last() =~= ne@.take(i as int));
                assert(tk.last() == *e);
            }
            if let ExportSource::SourceReexport { specifier, imported_name } = &e.1.source {
                if let Some(ti) = entry.resolve_internal_specifier(specifier.as_str()) {
                    proof {
                        lemma_internal_below(table, entry_idx, specifier@);
                        assert(str_views(self.names@).contains(ne@[i as int].0@));
                        assert(module_names_in(str_views(self.names@), t[ti as int]));
                        lemma_resolved_local_in(str_views(self.names@), t[ti as int], imported_name@);
                    }
                    let name = resolved_local_name(&table.modules[ti], imported_name.as_str());
                    let ghost before = self@;
                    self.add_name(ti, name.as_str(), Some(NeededReason::EntryNamedReexport));
                    proof {
                        lemma_apply_actions_push(s0, named_reexport_actions(*entry, t, ne@.take(i as int)), NeedAction::Add(ti, set![name@]), t);
                    }
                }
            }
            i += 1;
        }
        assert(ne@.take(i as int) =~= ne@);
    }
}


impl NeededState {
    /// The entry's star re-exports from internal modules.
    fn seed_star_reexports(&mut self, entry_idx: ModuleIdx, table: &ModuleTable, Ghost(g): Ghost<Seq<Seq<NodeView>>>)
        requires
            table.wf(),
            entry_idx < table.modules@.len(),
            state_ok(*old(self), table.modules@, g),
        ensures
            log_extends(old(self).reasons@, final(self).reasons@),
            state_ok(*final(self), table.modules@, g),
            final(self).names@ == old(self).names@,
            final(self)@ == apply_actions(
                old(self)@,
                star_actions(
                    table.modules@[entry_idx as int],
                    table.modules@,
                    table.modules@[entry_idx as int].export_import_info.star_reexports@,
                ),
                table.modules@,
            ),
    {
        let ghost t = table.modules@;
        let ghost s0 = self@;
        let entry = &table.modules[entry_idx];
        let stars = &entry.export_import_info.star_reexports;
        let mut i: usize = 0;
        while i < stars.len()
            invariant
                log_extends(old(self).reasons@, self.reasons@),
                0 <= i <= stars@.len(),
                table.wf(),
                t == table.modules@,
                entry_idx < t.len(),
                *entry == t[entry_idx as int],
                *stars == entry.export_import_info.star_reexports,
                state_ok(*self, t, g),
                self.names@ == old(self).names@,
                self@ == apply_actions(s0, star_actions(*entry, t, stars@.take(i as int)), t),
            decreases stars@.len() - i,
        {
            proof {
                let tk = stars@.take(i + 1);
                assert(tk.drop_last() =~= stars@.take(i as int));
                assert(tk.last() == stars@[i as int]);
            }
            if let Some(ti) = entry.resolve_internal_specifier(stars[i].specifier.as_str()) {
                proof {
                    lemma_internal_below(table, entry_idx, stars@[i as int].specifier@);
                    assert(module_names_in(str_views(self.names@), t[ti as int]));
                }
                let reason = match &stars[i].alias {
                    Some(_) => NeededReason::NamespaceRequirement,
                    None => NeededReason::EntryStarReexport,
                };
                self.add_exported(ti, &table.modules[ti], reason);
                proof {
                    lemma_apply_actions_push(
                        s0,
                        star_actions(*entry, t, stars@.take(i as int)),
                        NeedAction::Add(ti, all_exported_names(t[ti as int])),
                        t,
                    );
                }
            }
            i += 1;
        }
        assert(stars@.take(i as int) =~= stars@);
    }

    /// The dependencies of `nodes` (all of them), in order.
    fn apply_node_deps(&mut self, nodes: &Vec<DeclarationNode>, table: &ModuleTable, Ghost(g): Ghost<Seq<Seq<NodeView>>>)
        requires
            state_ok(*old(self), table.modules@, g),
            nodes_names_in(str_views(old(self).names@), node_views(nodes@)),
            forall|k: int, i: int|
                0 <= k < nodes@.len() && 0 <= i < nodes@[k]@.targets.len() ==> (#[trigger] nodes@[k]@.targets[i]).0
                    < table.modules@.len(),
        ensures
            log_extends(old(self).reasons@, final(self).reasons@),
            state_ok(*final(self), table.modules@, g),
            final(self).names@ == old(self).names@,
            final(self)@ == apply_actions(old(self)@, nodes_dep_actions(node_views(nodes@)), table.modules@),
            final(self).measure() <= old(self).measure(),
            final(self)@ != old(self)@ ==> final(self).measure() < old(self).measure(),
    {
        let ghost t = table.modules@;
        let ghost s0 = self@;
        let ghost ns = node_views(nodes@);
        let mut k: usize = 0;
        while k < nodes.len()
            invariant
                log_extends(old(self).reasons@, self.reasons@),
                0 <= k <= nodes@.len(),
                t == table.modules@,
                ns == node_views(nodes@),
                state_ok(*self, t, g),
                self.names@ == old(self).names@,
                nodes_names_in(str_views(self.names@), ns),
                forall|a: int, i: int|
                    0 <= a < nodes@.len() && 0 <= i < nodes@[a]@.targets.len() ==> (#[trigger] nodes@[a]@.targets[i]).0
                        < t.len(),
                self@ == apply_actions(s0, nodes_dep_actions(ns.take(k as int)), t),
                self.measure() <= old(self).measure(),
                self@ != s0 ==> self.measure() < old(self).measure(),
            decreases nodes@.len() - k,
        {
            let node = &nodes[k];
            let ghost sk = self@;
            let ghost acts_k = nodes_dep_actions(ns.take(k as int));
            assert(ns[k as int] == node@);
            let ghost tg = node@.targets;
            let nc = node.cross_module_deps.len();
            let mut i: usize = 0;
            while i < nc
                invariant
                    log_extends(old(self).reasons@, self.reasons@),
                    0 <= i <= nc,
                    nc == node.cross_module_deps@.len(),
                    tg == node@.targets,
                    tg.len() == nc + node.inline_import_deps@.len(),
                    t == table.modules@,
                    state_ok(*self, t, g),
                    self.names@ == old(self).names@,
                    nodes_names_in(str_views(self.names@), ns),
                    ns[k as int] == node@,
                    k < ns.len(),
                    forall|j: int| 0 <= j < tg.len() ==> (#[trigger] tg[j]).0 < t.len(),
                    self@ == apply_actions(sk, dep_actions(tg.take(i as int)), t),
                    self.measure() <= old(self).measure(),
                    self@ != s0 ==> self.measure() < old(self).measure(),
                    sk == apply_actions(s0, nodes_dep_actions(ns.take(k as int)), t),
                decreases nc - i,
            {
                proof {
                    assert(tg[i as int].0 < t.len());
                    assert(target_in(str_views(self.names@), ns[k as int].targets[i as int]));
                    assert(dep_actions(tg.take(i + 1)) =~= dep_actions(tg.take(i as int)).push(dep_action(tg[i as int])));
                }
                let d = &node.cross_module_deps[i];
                assert(tg[i as int] == (d.target_module_idx, opt_view(d.target_name)));
                self.apply_dep(d.target_module_idx, &d.target_name, d.reason, table, Ghost(g));
                proof {
                    lemma_apply_actions_push(sk, dep_actions(tg.take(i as int)), dep_action(tg[i as int]), t);
                }
                i += 1;
            }
            let mut j: usize = 0;
            while j < node.inline_import_deps.len()
                invariant
                    log_extends(old(self).reasons@, self.reasons@),
                    0 <= j <= node.inline_import_deps@.len(),
                    nc == node.cross_module_deps@.len(),
                    tg == node@.targets,
                    tg.len() == nc + node.inline_import_deps@.len(),
                    t == table.modules@,
                    state_ok(*self, t, g),
                    self.names@ == old(self).names@,
                    nodes_names_in(str_views(self.names@), ns),
                    ns[k as int] == node@,
                    k < ns.len(),
                    forall|x: int| 0 <= x < tg.len() ==> (#[trigger] tg[x]).0 < t.len(),
                    self@ == apply_actions(sk, dep_actions(tg.take(nc + j)), t),
                    self.measure() <= old(self).measure(),
                    self@ != s0 ==> self.measure() < old(self).measure(),
                    sk == apply_actions(s0, nodes_dep_actions(ns.take(k as int)), t),
                decreases node.inline_import_deps@.len() - j,
            {
                let ghost p = nc + j;
                proof {
                    assert(tg[p].0 < t.len());
                    assert(target_in(str_views(self.names@), ns[k as int].targets[p]));
                    assert(dep_actions(tg.take(p + 1)) =~= dep_actions(tg.take(p)).push(dep_action(tg[p])));
                }
                let d = &node.inline_import_deps[j];
                assert(tg[p] == (d.target_module_idx, opt_view(d.target_name)));
                self.apply_dep(d.target_module_idx, &d.target_name, NeededReason::InlineImportReference, table, Ghost(g));
                proof {
                    lemma_apply_actions_push(sk, dep_actions(tg.take(p)), dep_action(tg[p]), t);
                }
                j += 1;
            }
            let ghost i = nc + j;
            proof {
                assert(tg.take(i) =~= tg);
                assert(ns.take(k + 1).drop_last() =~= ns.take(k as int));
                assert(ns.take(k + 1).last() == node@);
                lemma_apply_actions_concat(s0, nodes_dep_actions(ns.take(k as int)), dep_actions(tg), t);
            }
            k += 1;
        }
        assert(ns.take(k as int) =~= ns);
    }
}


/// The local names the entry exports with `export { x }` or `export default x`.
fn collect_entry_export_locals(stmts: &Vec<crate::model::StatementSummary>) -> (r: Vec<String>)
    ensures
        str_views(r@) == export_locals_seq(stmts@),
{
    let mut r: Vec<String> = Vec::new();
    assert(str_views(r@) =~= Seq::<Seq<char>>::empty());
    let mut s: usize = 0;
    while s < stmts.len()
        invariant
            0 <= s <= stmts@.len(),
            str_views(r@) == export_locals_seq(stmts@.take(s as int)),
        decreases stmts@.len() - s,
    {
        let st = &stmts[s];
        proof {
            let tk = stmts@.take(s + 1);
            assert(tk.drop_last() =~= stmts@.take(s as int));
            assert(tk.last() == *st);
        }
        let ghost before = str_views(r@);
        let named = match st.kind {
            StatementKind::ExportNamed => st.source.is_none() && !st.has_declaration,
            _ => false,
        };
        if named {
            let ghost locals = st.specifiers@.map_values(|sp: crate::model::ExportSpecifierSummary| sp.local@);
            let mut k: usize = 0;
            while k < st.specifiers.len()
                invariant
                    0 <= k <= st.specifiers@.len(),
                    locals == st.specifiers@.map_values(|sp: crate::model::ExportSpecifierSummary| sp.local@),
                    str_views(r@) == before + locals.take(k as int),
                decreases st.specifiers@.len() - k,
            {
                let ghost b2 = str_views(r@);
                r.push(string_clone(st.specifiers[k].local.as_str()));
                assert(str_views(r@) =~= b2.push(st.specifiers@[k as int].local@));
                assert(locals.take(k + 1) =~= locals.take(k as int).push(locals[k as int]));
                assert(str_views(r@) =~= before + locals.take(k + 1));
                k += 1;
            }
            assert(locals.take(k as int) =~= locals);
        } else {
            let is_default = match st.kind {
                StatementKind::ExportDefault => true,
                _ => false,
            };
            if is_default {
                match &st.default_kind {
                    crate::model::DefaultExportKind::Identifier(n) => {
                        r.push(string_clone(n.as_str()));
                        assert(str_views(r@) =~= before + seq![n@]);
                    },
                    _ => {
                        assert(str_views(r@) =~= before + Seq::<Seq<char>>::empty());
                    },
                }
            } else {
                assert(str_views(r@) =~= before + Seq::<Seq<char>>::empty());
            }
        }
        s += 1;
    }
    assert(stmts@.take(s as int) =~= stmts@);
    r
}


impl NeededState {
    /// Applies what one import specifier asks of module `ti`.
    fn apply_import_spec(
        &mut self,
        ti: ModuleIdx,
        sp: &crate::model::ImportSpecSummary,
        table: &ModuleTable,
        Ghost(g): Ghost<Seq<Seq<NodeView>>>,
    )
        requires
            state_ok(*old(self), table.modules@, g),
            ti < table.modules@.len(),
            match sp.kind {
                ImportBindingKind::Named(n) => str_views(old(self).names@).contains(n@),
                _ => true,
            },
        ensures
            log_extends(old(self).reasons@, final(self).reasons@),
            state_ok(*final(self), table.modules@, g),
            final(self).names@ == old(self).names@,
            final(self)@ == apply_action(old(self)@, import_spec_action(table.modules@, ti, *sp), table.modules@),
    {
        let ghost t = table.modules@;
        assert(module_names_in(str_views(self.names@), t[ti as int]));
        match &sp.kind {
            ImportBindingKind::Named(n) => {
                proof {
                    lemma_resolved_local_in(str_views(self.names@), t[ti as int], n@);
                }
                let name = resolved_local_name(&table.modules[ti], n.as_str());
                self.add_name(ti, name.as_str(), Some(NeededReason::EntryNamedReexport));
            },
            ImportBindingKind::Default => {
                self.mark_whole(ti, &table.modules[ti], NeededReason::NamespaceRequirement);
            },
            ImportBindingKind::Namespace => {
                self.add_exported(ti, &table.modules[ti], NeededReason::NamespaceRequirement);
            },
        }
    }

    /// The entry's imports from internal modules that feed its exports.
    fn seed_entry_imports(&mut self, entry_idx: ModuleIdx, table: &ModuleTable, Ghost(g): Ghost<Seq<Seq<NodeView>>>)
        requires
            table.wf(),
            entry_idx < table.modules@.len(),
            state_ok(*old(self), table.modules@, g),
        ensures
            log_extends(old(self).reasons@, final(self).reasons@),
            state_ok(*final(self), table.modules@, g),
            final(self).names@ == old(self).names@,
            final(self)@ == apply_actions(
                old(self)@,
                import_actions(
                    table.modules@[entry_idx as int],
                    table.modules@,
                    table.modules@[entry_idx as int].statements@,
                    entry_export_locals(table.modules@[entry_idx as int].statements@),
                ),
                table.modules@,
            ),
    {
        let ghost t = table.modules@;
        let ghost s0 = self@;
        let entry = &table.modules[entry_idx];
        let ghost e = entry_export_locals(entry.statements@);
        let locals = collect_entry_export_locals(&entry.statements);
        assert(module_names_in(str_views(self.names@), *entry));
        let mut s: usize = 0;
        while s < entry.statements.len()
            invariant
                log_extends(old(self).reasons@, self.reasons@),
                0 <= s <= entry.statements@.len(),
                table.wf(),
                t == table.modules@,
                entry_idx < t.len(),
                *entry == t[entry_idx as int],
                e == entry_export_locals(entry.statements@),
                str_views(locals@) == export_locals_seq(entry.statements@),
                module_names_in(str_views(self.names@), *entry),
                state_ok(*self, t, g),
                self.names@ == old(self).names@,
                self@ == apply_actions(s0, import_actions(*entry, t, entry.statements@.take(s as int), e), t),
            decreases entry.statements@.len() - s,
        {
            let st = &entry.statements[s];
            let ghost ss = self@;
            proof {
                let tk = entry.statements@.take(s + 1);
                assert(tk.drop_last() =~= entry.statements@.take(s as int));
                assert(tk.last() == *st);
                lemma_apply_actions_concat(s0, import_actions(*entry, t, entry.statements@.take(s as int), e), import_statement_actions(*entry, t, *st, e), t);
                assert(import_names_in(str_views(self.names@), entry.statements@[s as int]));
            }
            let is_import = match st.kind {
                StatementKind::Import => true,
                _ => false,
            };
            let mut done = false;
            if is_import {
                if let Some(src) = &st.source {
                    if let Some(ti) = entry.resolve_internal_specifier(src.as_str()) {
                        if let Some(specs) = &st.import_specifiers {
                            proof {
                                lemma_internal_below(table, entry_idx, src@);
                            }
                            let mut has = false;
                            let mut k: usize = 0;
                            while k < specs.len()
                                invariant
                                    log_extends(old(self).reasons@, self.reasons@),
                                    0 <= k <= specs@.len(),
                                    str_views(locals@) == export_locals_seq(entry.statements@),
                                    e == export_locals_seq(entry.statements@).to_set(),
                                    has == exists|q: int| 0 <= q < k && e.contains(#[trigger] specs@[q].local@),
                                decreases specs@.len() - k,
                            {
                                if crate::rename::contains_name(&locals, specs[k].local.as_str()) {
                                    has = true;
                                }
                                k += 1;
                            }
                            if has {
                                let ghost acts = specs@.map_values(|sp: crate::model::ImportSpecSummary| import_spec_action(t, ti, sp));
                                let mut k: usize = 0;
                                while k < specs.len()
                                    invariant
                                        log_extends(old(self).reasons@, self.reasons@),
                                        0 <= k <= specs@.len(),
                                        t == table.modules@,
                                        ti < t.len(),
                                        state_ok(*self, t, g),
                                        self.names@ == old(self).names@,
                                        acts == specs@.map_values(|sp: crate::model::ImportSpecSummary| import_spec_action(t, ti, sp)),
                                        import_names_in(str_views(self.names@), *st),
                                        st.import_specifiers == Some(*specs),
                                        self@ == apply_actions(ss, acts.take(k as int), t),
                                    decreases specs@.len() - k,
                                {
                                    assert(match (specs@[k as int]).kind {
                                        ImportBindingKind::Named(n) => str_views(self.names@).contains(n@),
                                        _ => true,
                                    });
                                    self.apply_import_spec(ti, &specs[k], table, Ghost(g));
                                    proof {
                                        assert(acts.take(k + 1) =~= acts.take(k as int).push(acts[k as int]));
                                        lemma_apply_actions_push(ss, acts.take(k as int), acts[k as int], t);
                                    }
                                    k += 1;
                                }
                                assert(acts.take(k as int) =~= acts);
                                done = true;
                            }
                        }
                    }
                }
            }
            if !done {
                assert(import_statement_actions(*entry, t, *st, e) =~= Seq::<NeedAction>::empty());
                assert(self@ == apply_actions(ss, import_statement_actions(*entry, t, *st, e), t));
            }
            s += 1;
        }
        assert(entry.statements@.take(s as int) =~= entry.statements@);
    }
}


/// The nodes' dependency targets are modules of the table.
pub open spec fn graph_ok(t: Seq<Module>, g: Seq<Seq<NodeView>>) -> bool {
    &&& g.len() == t.len()
    &&& forall|m: int, k: int, i: int|
        0 <= m < g.len() && 0 <= k < g[m].len() && 0 <= i < g[m][k].targets.len() ==> (#[trigger] g[m][k].targets[i]).0
            < t.len()
}

impl NeededState {
    /// What the entry needs directly (see `seed_actions`).
    pub fn seed_entry_exports(&mut self, entry_idx: ModuleIdx, table: &ModuleTable, graph: &Vec<Vec<DeclarationNode>>)
        requires
            table.wf(),
            entry_idx < table.modules@.len(),
            state_ok(*old(self), table.modules@, graph_views(graph@)),
            graph_ok(table.modules@, graph_views(graph@)),
        ensures
            log_extends(old(self).reasons@, final(self).reasons@),
            state_ok(*final(self), table.modules@, graph_views(graph@)),
            final(self).names@ == old(self).names@,
            final(self)@ == apply_actions(old(self)@, seed_actions(table.modules@, graph_views(graph@), entry_idx), table.modules@),
            forall|k: int, i: int|
                0 <= k < graph_views(graph@)[entry_idx as int].len() && 0 <= i < graph_views(graph@)[entry_idx as int][k].targets.len()
                    ==> dep_met(final(self)@, #[trigger] graph_views(graph@)[entry_idx as int][k].targets[i]),
    {
        let ghost t = table.modules@;
        let ghost g = graph_views(graph@);
        let ghost entry = t[entry_idx as int];
        let ghost s0 = self@;
        self.seed_named_reexports(entry_idx, table, Ghost(g));
        let ghost s1 = self@;
        self.seed_star_reexports(entry_idx, table, Ghost(g));
        let ghost s2 = self@;
        self.seed_entry_imports(entry_idx, table, Ghost(g));
        let ghost s3 = self@;
        assert(g[entry_idx as int] == node_views(graph@[entry_idx as int]@));
        assert(nodes_names_in(str_views(self.names@), g[entry_idx as int]));
        assert forall|k: int, i: int|
            0 <= k < graph@[entry_idx as int]@.len() && 0 <= i < graph@[entry_idx as int]@[k]@.targets.len() implies (
            #[trigger] graph@[entry_idx as int]@[k]@.targets[i]).0 < t.len() by {
            assert(g[entry_idx as int][k] == graph@[entry_idx as int]@[k]@);
        }
        self.apply_node_deps(&graph[entry_idx], table, Ghost(g));
        proof {
            let a1 = named_reexport_actions(entry, t, entry.export_import_info.named_exports@);
            let a2 = star_actions(entry, t, entry.export_import_info.star_reexports@);
            let a3 = import_actions(entry, t, entry.statements@, entry_export_locals(entry.statements@));
            let a4 = nodes_dep_actions(g[entry_idx as int]);
            lemma_apply_actions_concat(s0, a1, a2, t);
            lemma_apply_actions_concat(s0, a1 + a2, a3, t);
            lemma_apply_actions_concat(s0, a1 + a2 + a3, a4, t);
            assert(s3.needed.len() == t.len() && s3.whole.len() == t.len());
            lemma_node_deps_applied(s3, g[entry_idx as int], t);
        }
    }
}

// ---------------------------------------------------------------------------
// Propagation along re-exports.

/// `k` is the exported name of a re-export of `m` from an internal module.
pub open spec fn internal_reexport_key(m: Module, k: Seq<char>) -> bool {
    exists|i: int|
        0 <= i < m.export_import_info.named_exports@.len() && #[trigger] m.export_import_info.named_exports@[i].0@ == k
            && match m.export_import_info.named_exports@[i].1.source {
            ExportSource::SourceReexport { specifier, .. } => resolve_internal(m, specifier@) is Some,
            _ => false,
        }
}

/// A needed name of module `m` that `m` re-exports with `export { k as .. }
/// from "./x"` makes the name it stands for needed in `x`.
pub open spec fn named_contributes(s: NView, t: Seq<Module>, m: int, x: int, y: Seq<char>) -> bool {
    let mm = t[m];
    exists|i: int|
        0 <= i < mm.export_import_info.named_exports@.len() && #[trigger] named_edge(
            mm,
            t,
            mm.export_import_info.named_exports@[i],
            x,
            y,
        ) && s.needed[m].contains(mm.export_import_info.named_exports@[i].0@) && !declared_exports(mm).contains(
            mm.export_import_info.named_exports@[i].0@,
        )
}

/// Export entry `e` of `m` re-exports, from internal module `x`, what `y`
/// stands for there.
pub open spec fn named_edge(m: Module, t: Seq<Module>, e: (String, crate::model::ExportEntry), x: int, y: Seq<char>) -> bool {
    match e.1.source {
        ExportSource::SourceReexport { specifier, imported_name } => match resolve_internal(m, specifier@) {
            Some(r) => r as int == x && y == resolved_local(t[x], imported_name@),
            None => false,
        },
        _ => false,
    }
}

/// Star re-export `j` of `m` is the first internal one whose source
/// declares `y`, and that source is `x`.
pub open spec fn first_star_declaring(t: Seq<Module>, m: Module, j: int, x: int, y: Seq<char>) -> bool {
    &&& 0 <= j < m.export_import_info.star_reexports@.len()
    &&& resolve_internal(m, m.export_import_info.star_reexports@[j].specifier@) matches Some(r) && r as int == x
    &&& declared_exports(t[x]).contains(y)
    &&& forall|j2: int|
        0 <= j2 < j ==> match resolve_internal(m, (#[trigger] m.export_import_info.star_reexports@[j2]).specifier@) {
            Some(x2) => !declared_exports(t[x2 as int]).contains(y),
            None => true,
        }
}

/// A needed name of module `m` that `m` neither declares nor re-exports by
/// name goes to the first internal star re-export source that declares it.
pub open spec fn star_contributes(s: NView, t: Seq<Module>, m: int, x: int, y: Seq<char>) -> bool {
    &&& s.needed[m].contains(y)
    &&& !declared_exports(t[m]).contains(y)
    &&& !internal_reexport_key(t[m], y)
    &&& exists|j: int| #[trigger] first_star_declaring(t, t[m], j, x, y)
}

/// The names that become needed in `x` by one propagation step.
pub open spec fn propagated_to(s: NView, t: Seq<Module>, x: int) -> Set<Seq<char>> {
    Set::new(
        |y: Seq<char>|
            exists|m: int|
                0 <= m < t.len() && (#[trigger] named_contributes(s, t, m, x, y) || star_contributes(s, t, m, x, y)),
    )
}

/// One propagation step over all modules.
pub open spec fn prop_round(s: NView, t: Seq<Module>) -> NView {
    NView { needed: Seq::new(s.needed.len(), |x: int| s.needed[x].union(propagated_to(s, t, x))), whole: s.whole }
}

/// `k` propagation steps.
pub open spec fn prop_rounds(s: NView, t: Seq<Module>, k: nat) -> NView
    decreases k,
{
    if k == 0 {
        s
    } else {
        prop_round(prop_rounds(s, t, (k - 1) as nat), t)
    }
}

/// The names `pairs` adds to module `x`.
pub open spec fn pair_set(pairs: Seq<(usize, String, NeededReason)>, x: int) -> Set<Seq<char>> {
    Set::new(|y: Seq<char>| exists|i: int| 0 <= i < pairs.len() && pairs[i].0 == x && #[trigger] pairs[i].1@ == y)
}

impl NeededState {
    /// Whether name `x` is needed in module `m`.
    fn has_name(&self, m: usize, x: &str) -> (r: bool)
        requires
            self.wf(self.rows@.len()),
            m < self.rows@.len(),
            str_views(self.names@).contains(x@),
        ensures
            r == self@.needed[m as int].contains(x@),
    {
        let j = self.index_of(x);
        let r = self.rows[m][j];
        proof {
            let nv = str_views(self.names@);
            assert(nv[j as int] == x@);
            if self@.needed[m as int].contains(x@) {
                let k = choose|k: int| 0 <= k < self.rows@[m as int]@.len() && self.rows@[m as int]@[k] && nv[k] == x@;
                assert(nv[k] == nv[j as int]);
            }
        }
        r
    }

    /// Adds each `(module, name)` pair.
    fn apply_pairs(&mut self, pairs: &Vec<(usize, String, NeededReason)>, snapshot: Option<&Vec<Vec<bool>>>) -> (changed: bool)
        requires
            old(self).wf(old(self).rows@.len()),
            match snapshot {
                Some(rows0) => rows0@.len() == old(self).rows@.len() && forall|m: int|
                    0 <= m < rows0@.len() ==> (#[trigger] rows0@[m])@.len() == old(self).names@.len(),
                None => true,
            },
            match snapshot {
                Some(rows0) => forall|a: int, b: int|
                    0 <= a < rows0@.len() && 0 <= b < rows0@[a]@.len() && #[trigger] rows0@[a]@[b] ==> old(self)@.needed[a].contains(
                        old(self).names@[b]@,
                    ),
                None => true,
            },
            forall|i: int| 0 <= i < pairs@.len() ==> (#[trigger] pairs@[i]).0 < old(self).rows@.len()
                && str_views(old(self).names@).contains(pairs@[i].1@),
        ensures
            log_extends(old(self).reasons@, final(self).reasons@),
            final(self).wf(old(self).rows@.len()),
            final(self).names@ == old(self).names@,
            final(self)@.whole == old(self)@.whole,
            final(self)@.needed == Seq::new(
                old(self)@.needed.len(),
                |x: int| old(self)@.needed[x].union(pair_set(pairs@, x)),
            ),
            final(self).measure() <= old(self).measure(),
            final(self)@ != old(self)@ ==> final(self).measure() < old(self).measure(),
            changed == (final(self)@ != old(self)@),
            !changed ==> final(self).measure() == old(self).measure(),
    {
        let ghost s0 = self@;
        let ghost n = self.rows@.len();
        let mut any = false;
        proof {
            assert forall|x: int| 0 <= x < n implies #[trigger] pair_set(pairs@.take(0), x) =~= Set::<Seq<char>>::empty() by {}
            assert(self@.needed =~= Seq::new(n, |x: int| s0.needed[x].union(pair_set(pairs@.take(0), x)))) by {
                assert forall|x: int| 0 <= x < n implies self@.needed[x] =~= s0.needed[x].union(pair_set(pairs@.take(0), x)) by {
                    assert(pair_set(pairs@.take(0), x) =~= Set::<Seq<char>>::empty());
                }
            }
        }
        let mut i: usize = 0;
        while i < pairs.len()
            invariant
                log_extends(old(self).reasons@, self.reasons@),
                0 <= i <= pairs@.len(),
                n == self.rows@.len(),
                n == old(self).rows@.len(),
                match snapshot {
                    Some(rows0) => rows0@.len() == n && forall|m: int|
                        0 <= m < rows0@.len() ==> (#[trigger] rows0@[m])@.len() == old(self).names@.len(),
                    None => true,
                },
                match snapshot {
                    Some(rows0) => forall|a: int, b: int|
                        0 <= a < rows0@.len() && 0 <= b < rows0@[a]@.len() && #[trigger] rows0@[a]@[b] ==> old(self)@.needed[a].contains(
                            old(self).names@[b]@,
                        ),
                    None => true,
                },
                s0 == old(self)@,
                s0.needed.len() == n,
                self.wf(n),
                self.names@ == old(self).names@,
                self@.whole == s0.whole,
                forall|q: int| 0 <= q < pairs@.len() ==> (#[trigger] pairs@[q]).0 < n && str_views(self.names@).contains(
                    pairs@[q].1@,
                ),
                self@.needed == Seq::new(n, |x: int| s0.needed[x].union(pair_set(pairs@.take(i as int), x))),
                self.measure() <= old(self).measure(),
                self@ != s0 ==> self.measure() < old(self).measure(),
                any == (self@ != s0),
                !any ==> self.measure() == old(self).measure(),
            decreases pairs@.len() - i,
        {
            let ghost before = self@;
            let (m, ref x, reason) = pairs[i];
            let record = match snapshot {
                Some(rows0) => match reason {
                    NeededReason::SemanticDependency => {
                        let j = self.index_of(x.as_str());
                        if rows0[m][j] {
                            assert(s0.needed[m as int].contains(x@));
                            assert(self@.needed[m as int] == s0.needed[m as int].union(pair_set(pairs@.take(i as int), m as int)));
                        }
                        !rows0[m][j]
                    },
                    _ => true,
                },
                None => true,
            };
            let added = self.add_name(m, x.as_str(), if record { Some(reason) } else { None });
            if added {
                any = true;
            }
            proof {
                if added {
                    assert(!before.needed[m as int].contains(x@));
                    assert(before.needed[m as int] == s0.needed[m as int].union(pair_set(pairs@.take(i as int), m as int)));
                    assert(!s0.needed[m as int].contains(x@));
                    assert(self@.needed[m as int].contains(x@));
                    assert(self@ != s0);
                }
                if !added {
                    assert(before.needed[m as int].insert(x@) =~= before.needed[m as int]);
                    assert(self@.needed =~= before.needed);
                    assert(self@ == before);
                }
                let p1 = pairs@.take(i as int);
                let p2 = pairs@.take(i + 1);
                assert forall|z: int| 0 <= z < n implies #[trigger] pair_set(p2, z) =~= (if z == m {
                    pair_set(p1, z).insert(x@)
                } else {
                    pair_set(p1, z)
                }) by {
                    let nz = if z == m {
                        pair_set(p1, z).insert(x@)
                    } else {
                        pair_set(p1, z)
                    };
                    assert forall|y: Seq<char>| #[trigger] pair_set(p2, z).contains(y) implies nz.contains(y) by {
                        let q = choose|q: int| 0 <= q < p2.len() && p2[q].0 == z && #[trigger] p2[q].1@ == y;
                        if q < i {
                            assert(p1[q] == p2[q]);
                        }
                    }
                    assert forall|y: Seq<char>| #[trigger] nz.contains(y) implies pair_set(p2, z).contains(y) by {
                        if z == m && y == x@ {
                            assert(p2[i as int].1@ == y);
                        } else {
                            let q = choose|q: int| 0 <= q < p1.len() && p1[q].0 == z && #[trigger] p1[q].1@ == y;
                            assert(p2[q] == p1[q]);
                            assert(p2[q].1@ == y);
                        }
                    }
                    assert(pair_set(p2, z) =~= nz);
                }
                assert(self@.needed =~= Seq::new(n, |x: int| s0.needed[x].union(pair_set(p2, x)))) by {
                    assert forall|z: int| 0 <= z < n implies self@.needed[z] =~= s0.needed[z].union(pair_set(p2, z)) by {
                        if z == m {
                            assert(before.needed[z] == s0.needed[z].union(pair_set(p1, z)));
                        } else {
                            assert(before.needed[z] == s0.needed[z].union(pair_set(p1, z)));
                        }
                    }
                }
                if self@ != s0 && before == s0 {
                    assert(self@ != before);
                }
            }
            i += 1;
        }
        assert(pairs@.take(i as int) =~= pairs@);
        any
    }
}


/// Named contributions of module `m` through its first `i` export entries.
pub open spec fn named_upto(s: NView, t: Seq<Module>, m: int, x: int, y: Seq<char>, i: int) -> bool {
    let mm = t[m];
    exists|e: int|
        0 <= e < i && e < mm.export_import_info.named_exports@.len() && #[trigger] named_edge(
            mm,
            t,
            mm.export_import_info.named_exports@[e],
            x,
            y,
        ) && s.needed[m].contains(mm.export_import_info.named_exports@[e].0@) && !declared_exports(mm).contains(
            mm.export_import_info.named_exports@[e].0@,
        )
}

/// Star contributions of module `m` through its first `j` star re-exports.
pub open spec fn star_upto(s: NView, t: Seq<Module>, m: int, x: int, y: Seq<char>, j: int) -> bool {
    &&& s.needed[m].contains(y)
    &&& !declared_exports(t[m]).contains(y)
    &&& !internal_reexport_key(t[m], y)
    &&& exists|j1: int| 0 <= j1 < j && #[trigger] first_star_declaring(t, t[m], j1, x, y)
}

/// Whether `module` declares `y` with `export <declaration>`.
fn is_declared_export(module: &Module, y: &str) -> (r: bool)
    ensures
        r == declared_exports(*module).contains(y@),
{
    crate::rename::contains_name(&module.export_import_info.declared_export_names, y)
}

/// Whether `y` is the exported name of a re-export of `module` from an
/// internal module.
fn is_internal_reexport_key(module: &Module, y: &str) -> (r: bool)
    ensures
        r == internal_reexport_key(*module, y@),
{
    let ne = &module.export_import_info.named_exports;
    let mut i: usize = 0;
    while i < ne.len()
        invariant
            0 <= i <= ne@.len(),
            *ne == module.export_import_info.named_exports,
            forall|e: int| 0 <= e < i ==> !(#[trigger] ne@[e].0@ == y@ && match ne@[e].1.source {
                ExportSource::SourceReexport { specifier, .. } => resolve_internal(*module, specifier@) is Some,
                _ => false,
            }),
        decreases ne@.len() - i,
    {
        if str_eq(ne[i].0.as_str(), y) {
            if let ExportSource::SourceReexport { specifier, .. } = &ne[i].1.source {
                if module.resolve_internal_specifier(specifier.as_str()).is_some() {
                    return true;
                }
            }
        }
        i += 1;
    }
    false
}

/// Whether a star re-export of module `mi` before the `j`-th resolves to an
/// internal module that declares `y`.
fn declared_by_earlier_star(table: &ModuleTable, mi: ModuleIdx, j: usize, y: &str) -> (r: bool)
    requires
        table.wf(),
        mi < table.modules@.len(),
        j <= table.modules@[mi as int].export_import_info.star_reexports@.len(),
    ensures
        r == exists|j2: int| 0 <= j2 < j && match resolve_internal(
            table.modules@[mi as int],
            (#[trigger] table.modules@[mi as int].export_import_info.star_reexports@[j2]).specifier@,
        ) {
            Some(x2) => declared_exports(table.modules@[x2 as int]).contains(y@),
            None => false,
        },
{
    let module = &table.modules[mi];
    let stars = &module.export_import_info.star_reexports;
    let mut q: usize = 0;
    while q < j
        invariant
            0 <= q <= j,
            j <= stars@.len(),
            table.wf(),
            mi < table.modules@.len(),
            *module == table.modules@[mi as int],
            *stars == module.export_import_info.star_reexports,
            forall|j2: int| 0 <= j2 < q ==> !match resolve_internal(*module, (#[trigger] stars@[j2]).specifier@) {
                Some(x2) => declared_exports(table.modules@[x2 as int]).contains(y@),
                None => false,
            },
        decreases j - q,
    {
        if let Some(x2) = module.resolve_internal_specifier(stars[q].specifier.as_str()) {
            proof {
                lemma_internal_below(table, mi, stars@[q as int].specifier@);
            }
            if is_declared_export(&table.modules[x2], y) {
                return true;
            }
        }
        q += 1;
    }
    false
}


/// Every pair of `pairs` names a module of `n` and a name of `u`.
pub open spec fn pairs_ok(pairs: Seq<(usize, String, NeededReason)>, n: nat, u: Seq<Seq<char>>) -> bool {
    forall|i: int| 0 <= i < pairs.len() ==> (#[trigger] pairs[i]).0 < n && u.contains(pairs[i].1@)
}

/// Appends a pair.
fn push_pair(pairs: &mut Vec<(usize, String, NeededReason)>, x: usize, y: String, reason: NeededReason)
    ensures
        final(pairs)@ == old(pairs)@.push((x, y, reason)),
        forall|z: int, w: Seq<char>| #[trigger] pair_set(final(pairs)@, z).contains(w) <==> (pair_set(old(pairs)@, z).contains(w) || (z == x && w == y@)),
{
    let ghost p0 = pairs@;
    let ghost yv = y@;
    pairs.push((x, y, reason));
    assert forall|z: int, w: Seq<char>| #[trigger] pair_set(pairs@, z).contains(w) <==> (pair_set(p0, z).contains(w) || (z == x && w == yv)) by {
        if pair_set(pairs@, z).contains(w) {
            let q = choose|q: int| 0 <= q < pairs@.len() && pairs@[q].0 == z && #[trigger] pairs@[q].1@ == w;
            if q < p0.len() {
                assert(p0[q] == pairs@[q]);
            }
        }
        if pair_set(p0, z).contains(w) {
            let q = choose|q: int| 0 <= q < p0.len() && p0[q].0 == z && #[trigger] p0[q].1@ == w;
            assert(pairs@[q] == p0[q]);
            assert(pairs@[q].1@ == w);
        }
        if z == x && w == yv {
            assert(pairs@[p0.len() as int].1@ == w);
        }
    }
}

impl NeededState {
    /// The pairs the named re-exports of module `mi` contribute.
    fn named_pairs_of(&self, mi: ModuleIdx, table: &ModuleTable, pairs: &mut Vec<(usize, String, NeededReason)>, Ghost(g): Ghost<Seq<Seq<NodeView>>>)
        requires
            table.wf(),
            state_ok(*self, table.modules@, g),
            mi < table.modules@.len(),
            pairs_ok(old(pairs)@, table.modules@.len(), str_views(self.names@)),
        ensures
            pairs_ok(final(pairs)@, table.modules@.len(), str_views(self.names@)),
            forall|x: int, y: Seq<char>| #[trigger] pair_set(final(pairs)@, x).contains(y) <==> (pair_set(
                old(pairs)@,
                x as int,
            ).contains(y) || named_contributes(self@, table.modules@, mi as int, x, y)),
    {
        let ghost t = table.modules@;
        let ghost p0 = pairs@;
        let module = &table.modules[mi];
        let ne = &module.export_import_info.named_exports;
        assert(module_names_in(str_views(self.names@), t[mi as int]));
        let mut i: usize = 0;
        while i < ne.len()
            invariant
                0 <= i <= ne@.len(),
                table.wf(),
                t == table.modules@,
                mi < t.len(),
                *module == t[mi as int],
                *ne == module.export_import_info.named_exports,
                state_ok(*self, t, g),
                module_names_in(str_views(self.names@), *module),
                pairs_ok(pairs@, t.len(), str_views(self.names@)),
                forall|x: int, y: Seq<char>| #[trigger] pair_set(pairs@, x).contains(y) <==> (pair_set(p0, x).contains(y)
                    || named_upto(self@, t, mi as int, x, y, i as int)),
            decreases ne@.len() - i,
        {
            let ghost pb = pairs@;
            let e = &ne[i];
            assert(str_views(self.names@).contains(ne@[i as int].0@));
            if let ExportSource::SourceReexport { specifier, imported_name } = &e.1.source {
                if let Some(x) = module.resolve_internal_specifier(specifier.as_str()) {
                    if self.has_name(mi, e.0.as_str()) && !is_declared_export(module, e.0.as_str()) {
                        proof {
                            lemma_internal_below(table, mi, specifier@);
                            assert(module_names_in(str_views(self.names@), t[x as int]));
                            lemma_resolved_local_in(str_views(self.names@), t[x as int], imported_name@);
                        }
                        let y = resolved_local_name(&table.modules[x], imported_name.as_str());
                        assert(named_edge(*module, t, ne@[i as int], x as int, y@));
                        push_pair(pairs, x, y, NeededReason::PropagationNamedReexport);
                    }
                }
            }
            proof {
                assert forall|x: int, y: Seq<char>| #[trigger] pair_set(pairs@, x).contains(y) <==> (pair_set(p0, x).contains(y)
                    || named_upto(self@, t, mi as int, x, y, i + 1)) by {
                    if named_upto(self@, t, mi as int, x, y, i + 1) && !named_upto(self@, t, mi as int, x, y, i as int) {
                        let e2 = choose|e2: int|
                            0 <= e2 < i + 1 && e2 < module.export_import_info.named_exports@.len() && #[trigger] named_edge(
                                *module,
                                t,
                                module.export_import_info.named_exports@[e2],
                                x,
                                y,
                            ) && self@.needed[mi as int].contains(module.export_import_info.named_exports@[e2].0@)
                                && !declared_exports(*module).contains(module.export_import_info.named_exports@[e2].0@);
                        assert(e2 == i);
                    }
                    if named_upto(self@, t, mi as int, x, y, i as int) {
                        let e2 = choose|e2: int|
                            0 <= e2 < i && e2 < module.export_import_info.named_exports@.len() && #[trigger] named_edge(
                                *module,
                                t,
                                module.export_import_info.named_exports@[e2],
                                x,
                                y,
                            ) && self@.needed[mi as int].contains(module.export_import_info.named_exports@[e2].0@)
                                && !declared_exports(*module).contains(module.export_import_info.named_exports@[e2].0@);
                        assert(named_upto(self@, t, mi as int, x, y, i + 1));
                    }
                }
            }
            i += 1;
        }
    }
}


impl NeededState {
    /// The pairs the star re-exports of module `mi` contribute.
    fn star_pairs_of(&self, mi: ModuleIdx, table: &ModuleTable, pairs: &mut Vec<(usize, String, NeededReason)>, Ghost(g): Ghost<Seq<Seq<NodeView>>>)
        requires
            table.wf(),
            state_ok(*self, table.modules@, g),
            mi < table.modules@.len(),
            pairs_ok(old(pairs)@, table.modules@.len(), str_views(self.names@)),
        ensures
            pairs_ok(final(pairs)@, table.modules@.len(), str_views(self.names@)),
            forall|x: int, y: Seq<char>| #[trigger] pair_set(final(pairs)@, x).contains(y) <==> (pair_set(
                old(pairs)@,
                x as int,
            ).contains(y) || star_contributes(self@, table.modules@, mi as int, x, y)),
    {
        let ghost t = table.modules@;
        let ghost p0 = pairs@;
        let module = &table.modules[mi];
        let stars = &module.export_import_info.star_reexports;
        let mut j: usize = 0;
        while j < stars.len()
            invariant
                0 <= j <= stars@.len(),
                table.wf(),
                t == table.modules@,
                mi < t.len(),
                *module == t[mi as int],
                *stars == module.export_import_info.star_reexports,
                state_ok(*self, t, g),
                pairs_ok(pairs@, t.len(), str_views(self.names@)),
                forall|x: int, y: Seq<char>| #[trigger] pair_set(pairs@, x).contains(y) <==> (pair_set(p0, x).contains(y)
                    || star_upto(self@, t, mi as int, x, y, j as int)),
            decreases stars@.len() - j,
        {
            let ghost pb = pairs@;
            let target = module.resolve_internal_specifier(stars[j].specifier.as_str());
            proof {
                lemma_internal_below(table, mi, stars@[j as int].specifier@);
            }
            if let Some(x) = target {
                let dl = &table.modules[x].export_import_info.declared_export_names;
                assert(module_names_in(str_views(self.names@), t[x as int]));
                let mut k: usize = 0;
                while k < dl.len()
                    invariant
                        0 <= k <= dl@.len(),
                        table.wf(),
                        t == table.modules@,
                        mi < t.len(),
                        x < t.len(),
                        j < stars@.len(),
                        *module == t[mi as int],
                        *stars == module.export_import_info.star_reexports,
                        *dl == t[x as int].export_import_info.declared_export_names,
                        module_names_in(str_views(self.names@), t[x as int]),
                        state_ok(*self, t, g),
                        pairs_ok(pairs@, t.len(), str_views(self.names@)),
                        forall|z: int, w: Seq<char>| #[trigger] pair_set(pairs@, z).contains(w) <==> (pair_set(pb, z).contains(w)
                            || (z == x && exists|q: int| 0 <= q < k && #[trigger] dl@[q]@ == w && self@.needed[mi as int].contains(w)
                                && !declared_exports(*module).contains(w) && !internal_reexport_key(*module, w) && !exists|j2: int|
                                0 <= j2 < j && match resolve_internal(*module, (#[trigger] stars@[j2]).specifier@) {
                                    Some(x2) => declared_exports(t[x2 as int]).contains(w),
                                    None => false,
                                })),
                    decreases dl@.len() - k,
                {
                    let ghost pk = pairs@;
                    let d = dl[k].as_str();
                    assert(str_views(self.names@).contains(dl@[k as int]@));
                    let keep = self.has_name(mi, d) && !is_declared_export(module, d) && !is_internal_reexport_key(module, d)
                        && !declared_by_earlier_star(table, mi, j, d);
                    if keep {
                        push_pair(pairs, x, string_clone(d), NeededReason::PropagationStarReexport);
                    }
                    proof {
                        assert forall|z: int, w: Seq<char>| #[trigger] pair_set(pairs@, z).contains(w) <==> (pair_set(pb, z).contains(w)
                            || (z == x && exists|q: int| 0 <= q < k + 1 && #[trigger] dl@[q]@ == w && self@.needed[mi as int].contains(w)
                                && !declared_exports(*module).contains(w) && !internal_reexport_key(*module, w) && !exists|j2: int|
                                0 <= j2 < j && match resolve_internal(*module, (#[trigger] stars@[j2]).specifier@) {
                                    Some(x2) => declared_exports(t[x2 as int]).contains(w),
                                    None => false,
                                })) by {
                            if pair_set(pairs@, z).contains(w) && !pair_set(pk, z).contains(w) {
                                assert(keep && z == x && w == d@);
                                assert(dl@[k as int]@ == w);
                            }
                        }
                    }
                    k += 1;
                }
                proof {
                    assert forall|z: int, w: Seq<char>| #[trigger] pair_set(pairs@, z).contains(w) <==> (pair_set(p0, z).contains(w)
                        || star_upto(self@, t, mi as int, z, w, j + 1)) by {
                        let cond = self@.needed[mi as int].contains(w) && !declared_exports(*module).contains(w)
                            && !internal_reexport_key(*module, w);
                        if star_upto(self@, t, mi as int, z, w, j + 1) {
                            let j1 = choose|j1: int| 0 <= j1 < j + 1 && #[trigger] first_star_declaring(t, t[mi as int], j1, z, w);
                            if j1 == j {
                                assert(declared_exports(t[x as int]).contains(w));
                                let q = choose|q: int| 0 <= q < str_views(dl@).len() && str_views(dl@)[q] == w;
                                assert(dl@[q]@ == w);
                            } else {
                                assert(star_upto(self@, t, mi as int, z, w, j as int));
                            }
                        }
                        if pair_set(pairs@, z).contains(w) && !pair_set(pb, z).contains(w) {
                            let q = choose|q: int| 0 <= q < k && #[trigger] dl@[q]@ == w && self@.needed[mi as int].contains(w)
                                && !declared_exports(*module).contains(w) && !internal_reexport_key(*module, w) && !exists|j2: int|
                                0 <= j2 < j && match resolve_internal(*module, (#[trigger] stars@[j2]).specifier@) {
                                    Some(x2) => declared_exports(t[x2 as int]).contains(w),
                                    None => false,
                                };
                            assert(str_views(dl@)[q] == w);
                            assert(declared_exports(t[x as int]).contains(w));
                            assert(first_star_declaring(t, t[mi as int], j as int, z, w));
                        }
                    }
                }
            } else {
                proof {
                    assert forall|z: int, w: Seq<char>| #[trigger] pair_set(pairs@, z).contains(w) <==> (pair_set(p0, z).contains(w)
                        || star_upto(self@, t, mi as int, z, w, j + 1)) by {
                        if star_upto(self@, t, mi as int, z, w, j + 1) {
                            let j1 = choose|j1: int| 0 <= j1 < j + 1 && #[trigger] first_star_declaring(t, t[mi as int], j1, z, w);
                            if j1 == j {
                                assert(false);
                            }
                            assert(star_upto(self@, t, mi as int, z, w, j as int));
                        }
                    }
                }
            }
            j += 1;
        }
    }
}


impl NeededState {
    /// The pairs one propagation step adds.
    fn propagation_pairs(&self, table: &ModuleTable, Ghost(g): Ghost<Seq<Seq<NodeView>>>) -> (pairs: Vec<(usize, String, NeededReason)>)
        requires
            table.wf(),
            state_ok(*self, table.modules@, g),
        ensures
            pairs_ok(pairs@, table.modules@.len(), str_views(self.names@)),
            forall|x: int, y: Seq<char>|
                0 <= x < table.modules@.len() ==> (#[trigger] pair_set(pairs@, x).contains(y) <==> propagated_to(
                    self@,
                    table.modules@,
                    x as int,
                ).contains(y)),
    {
        let ghost t = table.modules@;
        let mut pairs: Vec<(usize, String, NeededReason)> = Vec::new();
        let mut m: usize = 0;
        while m < table.modules.len()
            invariant
                0 <= m <= t.len(),
                table.wf(),
                t == table.modules@,
                state_ok(*self, t, g),
                pairs_ok(pairs@, t.len(), str_views(self.names@)),
                forall|x: int, y: Seq<char>| #[trigger] pair_set(pairs@, x).contains(y) <==> exists|m2: int|
                    0 <= m2 < m && (#[trigger] named_contributes(self@, t, m2, x, y) || star_contributes(self@, t, m2, x, y)),
            decreases t.len() - m,
        {
            let ghost p0 = pairs@;
            self.named_pairs_of(m, table, &mut pairs, Ghost(g));
            let ghost p1 = pairs@;
            self.star_pairs_of(m, table, &mut pairs, Ghost(g));
            proof {
                assert forall|x: int, y: Seq<char>| #[trigger] pair_set(pairs@, x).contains(y) <==> exists|m2: int|
                    0 <= m2 < m + 1 && (#[trigger] named_contributes(self@, t, m2, x, y) || star_contributes(self@, t, m2, x, y)) by {
                    assert(pair_set(p1, x).contains(y) <==> (pair_set(p0, x).contains(y) || named_contributes(self@, t, m as int, x, y)));
                    if exists|m2: int| 0 <= m2 < m + 1 && (#[trigger] named_contributes(self@, t, m2, x, y) || star_contributes(self@, t, m2, x, y)) {
                        let m2 = choose|m2: int| 0 <= m2 < m + 1 && (#[trigger] named_contributes(self@, t, m2, x, y) || star_contributes(self@, t, m2, x, y));
                        if m2 < m {
                            assert(pair_set(p0, x).contains(y));
                        }
                    }
                }
            }
            m += 1;
        }
        proof {
            assert forall|x: int, y: Seq<char>|
                0 <= x < t.len() implies (#[trigger] pair_set(pairs@, x).contains(y) <==> propagated_to(self@, t, x).contains(y)) by {
                if propagated_to(self@, t, x).contains(y) {
                    let m2 = choose|m2: int| 0 <= m2 < t.len() && (#[trigger] named_contributes(self@, t, m2, x, y) || star_contributes(self@, t, m2, x, y));
                    assert(named_contributes(self@, t, m2, x, y) || star_contributes(self@, t, m2, x, y));
                }
            }
        }
        pairs
    }

    /// Propagates needed names along re-exports until nothing changes:
    /// a needed name a module re-exports by name from an internal module
    /// becomes needed there (as the name it stands for there); a needed name
    /// it neither declares nor re-exports by name goes to the first internal
    /// star re-export source that declares it. Whether anything changed.
    pub fn propagate_needed_names(&mut self, table: &ModuleTable, Ghost(g): Ghost<Seq<Seq<NodeView>>>) -> (changed: bool)
        requires
            table.wf(),
            state_ok(*old(self), table.modules@, g),
        ensures
            log_extends(old(self).reasons@, final(self).reasons@),
            state_ok(*final(self), table.modules@, g),
            final(self).names@ == old(self).names@,
            exists|k: nat| final(self)@ == prop_rounds(old(self)@, table.modules@, k),
            prop_round(final(self)@, table.modules@) == final(self)@,
            final(self)@.whole == old(self)@.whole,
            forall|m: int| 0 <= m < table.modules@.len() ==> #[trigger] old(self)@.needed[m].subset_of(final(self)@.needed[m]),
            changed == (final(self)@ != old(self)@),
            changed == exists|m: int| 0 <= m < table.modules@.len() && #[trigger] final(self)@.needed[m] != old(self)@.needed[m],
            changed == exists|m: int|
                0 <= m < table.modules@.len() && #[trigger] final(self)@.needed[m].len() > old(self)@.needed[m].len(),
            changed ==> final(self).measure() < old(self).measure(),
            !changed ==> final(self).measure() == old(self).measure(),
    {
        let ghost t = table.modules@;
        let ghost s0 = self@;
        let ghost mut k: nat = 0;
        let mut changed = false;
        let mut progress = true;
        while progress
            invariant
                log_extends(old(self).reasons@, self.reasons@),
                table.wf(),
                t == table.modules@,
                state_ok(*self, t, g),
                self.names@ == old(self).names@,
                self@ == prop_rounds(s0, t, k),
                s0 == old(self)@,
                !progress ==> prop_round(self@, t) == self@,
                changed == (self@ != s0),
                changed ==> self.measure() < old(self).measure(),
                !changed ==> self.measure() == old(self).measure(),
                self@.needed.len() == t.len(),
                self@.whole == s0.whole,
                forall|m: int| 0 <= m < t.len() ==> #[trigger] s0.needed[m].subset_of(self@.needed[m]),
            decreases self.measure() + (if progress { 1nat } else { 0nat }),
        {
            let ghost before = self@;
            let ghost mb = self.measure();
            let pairs = self.propagation_pairs(table, Ghost(g));
            let step = self.apply_pairs(&pairs, None);
            proof {
                assert(self@ =~= prop_round(before, t)) by {
                    assert(self@.needed =~= prop_round(before, t).needed) by {
                        assert forall|x: int| 0 <= x < t.len() implies self@.needed[x] =~= prop_round(before, t).needed[x] by {
                            assert forall|y: Seq<char>| pair_set(pairs@, x).contains(y) <==> propagated_to(before, t, x).contains(y) by {
                                assert(pair_set(pairs@, x).contains(y) <==> propagated_to(before, t, x).contains(y));
                            }
                            assert(pair_set(pairs@, x) =~= propagated_to(before, t, x));
                        }
                    }
                }
                k = k + 1;
                assert(self@ == prop_rounds(s0, t, k));
                assert forall|m: int| 0 <= m < t.len() implies #[trigger] s0.needed[m].subset_of(self@.needed[m]) by {
                    assert(s0.needed[m].subset_of(before.needed[m]));
                }
                if step {
                    if !changed {
                        assert(before == s0);
                    }
                    let m = choose|m: int| 0 <= m < t.len() && self@.needed[m] != before.needed[m];
                    if self@ == s0 {
                        assert(self@.needed =~= before.needed) by {
                            assert forall|x: int| 0 <= x < t.len() implies self@.needed[x] =~= before.needed[x] by {
                                assert(before.needed[x].subset_of(self@.needed[x]));
                                assert(s0.needed[x].subset_of(before.needed[x]));
                            }
                        }
                    }
                }
            }
            if step {
                changed = true;
            } else {
                progress = false;
            }
        }
        proof {
            if !(exists|m: int| 0 <= m < t.len() && #[trigger] self@.needed[m] != s0.needed[m]) {
                assert(state_ok(*old(self), t, g));
                assert(self@.needed =~= s0.needed);
                assert(self@ == s0);
            }
            assert forall|m: int| 0 <= m < t.len() implies (#[trigger] self@.needed[m].len() > s0.needed[m].len()) == (self@.needed[m]
                != s0.needed[m]) by {
                lemma_row_set_finite(self.names@, self.rows@[m]@);
                let a = s0.needed[m];
                let b = self@.needed[m];
                assert(self.rows@[m]@.len() == self.names@.len());
                assert(s0.needed[m].subset_of(self@.needed[m]));
                vstd::set_lib::lemma_set_subset_finite(b, a);
                vstd::set_lib::lemma_len_subset(a, b);
                if a != b {
                    let y = choose|y: Seq<char>| !(a.contains(y) <==> b.contains(y));
                    if !(a.contains(y) <==> b.contains(y)) {
                        assert(b.contains(y) && !a.contains(y));
                        vstd::set::axiom_set_remove_finite(b, y);
                        vstd::set::axiom_set_remove_len(b, y);
                        vstd::set_lib::lemma_len_subset(a, b.remove(y));
                    } else {
                        assert(a =~= b);
                    }
                }
            }
            if exists|m: int| 0 <= m < t.len() && #[trigger] self@.needed[m] != s0.needed[m] {
                let m = choose|m: int| 0 <= m < t.len() && #[trigger] self@.needed[m] != s0.needed[m];
                assert(self@.needed[m].len() > s0.needed[m].len());
            }
            if exists|m: int| 0 <= m < t.len() && #[trigger] self@.needed[m].len() > s0.needed[m].len() {
                let m = choose|m: int| 0 <= m < t.len() && #[trigger] self@.needed[m].len() > s0.needed[m].len();
                assert(self@.needed[m] != s0.needed[m]);
            }
        }
        changed
    }
}


// ---------------------------------------------------------------------------
// Expansion inside a module: needed declarations pull in what they refer to.

/// Symbol kinds as a map.
pub type KindMap = Map<SymbolId, u8>;

/// The kinds of symbol `s` in the keyed list `v` (the first entry's).
pub open spec fn kind_lookup(v: Seq<(SymbolId, u8)>, s: SymbolId) -> Option<u8>
    decreases v.len(),
{
    if v.len() == 0 {
        None
    } else if v[0].0 == s {
        Some(v[0].1)
    } else {
        kind_lookup(v.drop_first(), s)
    }
}

/// A keyed list of symbol kinds as a map.
pub open spec fn kind_map(v: Seq<(SymbolId, u8)>) -> KindMap {
    Map::new(|s: SymbolId| kind_lookup(v, s) is Some, |s: SymbolId| kind_lookup(v, s)->0)
}

/// The kinds of a flag list as plain bytes.
pub open spec fn flag_views(v: Seq<(SymbolId, NeededKindFlags)>) -> Seq<(SymbolId, u8)> {
    v.map_values(|e: (SymbolId, NeededKindFlags)| (e.0, e.1.0))
}

/// `s`'s kinds in `mp`, none when absent.
pub open spec fn kinds_in(mp: KindMap, s: SymbolId) -> u8 {
    if mp.contains_key(s) {
        mp[s]
    } else {
        0
    }
}

/// `mp` with kinds `dk` added to symbol `s`.
pub open spec fn merge_one(mp: KindMap, s: SymbolId, dk: u8) -> KindMap {
    mp.insert(s, kinds_in(mp, s) | dk)
}

/// `mp` with all `deps` added in order.
pub open spec fn merge_deps(mp: KindMap, deps: Seq<(SymbolId, u8)>) -> KindMap
    decreases deps.len(),
{
    if deps.len() == 0 {
        mp
    } else {
        let prev = merge_deps(mp, deps.drop_last());
        merge_one(prev, deps.last().0, deps.last().1)
    }
}

/// A node is active when the module is needed whole, when it is always
/// kept, or when a symbol it declares is needed in a space it declares it in.
pub open spec fn node_active(node: NodeView, mp: KindMap, is_whole: bool) -> bool {
    is_whole || node.always || exists|i: int|
        0 <= i < node.declared.len() && mp.contains_key(#[trigger] node.declared[i].0) && mp[node.declared[i].0]
            & node.declared[i].1 != 0
}

/// The activity of all nodes under `mp`.
pub open spec fn active_vec(nodes: Seq<NodeView>, mp: KindMap, is_whole: bool) -> Seq<bool> {
    Seq::new(nodes.len(), |k: int| node_active(nodes[k], mp, is_whole))
}

/// `mp` with the symbol dependencies of the first `k` nodes flagged in `act`.
pub open spec fn merge_nodes(mp: KindMap, nodes: Seq<NodeView>, act: Seq<bool>, k: nat) -> KindMap
    decreases k,
{
    if k == 0 {
        mp
    } else {
        let prev = merge_nodes(mp, nodes, act, (k - 1) as nat);
        if act[k - 1] {
            merge_deps(prev, nodes[k - 1].deps)
        } else {
            prev
        }
    }
}

/// One expansion step: the symbol dependencies of the active nodes join.
pub open spec fn exp_step(mp: KindMap, nodes: Seq<NodeView>, is_whole: bool) -> KindMap {
    merge_nodes(mp, nodes, active_vec(nodes, mp, is_whole), nodes.len())
}

/// `k` expansion steps.
pub open spec fn exp_steps(mp: KindMap, nodes: Seq<NodeView>, is_whole: bool, k: nat) -> KindMap
    decreases k,
{
    if k == 0 {
        mp
    } else {
        exp_step(exp_steps(mp, nodes, is_whole, (k - 1) as nat), nodes, is_whole)
    }
}

/// The kinds of a root symbol in the spaces it can be referenced from.
pub open spec fn symbol_kinds(m: Module, s: SymbolId) -> u8 {
    3u8 & kinds_of_symbol_flags(flags_of(m.scoping.root_bindings@, s))
}

/// A directly needed name binds root symbol `s`, which can be referenced.
pub open spec fn direct_symbol(m: Module, direct: Set<Seq<char>>, s: SymbolId) -> bool {
    exists|x: Seq<char>| #[trigger] direct.contains(x) && root_binding_of(m.scoping.root_bindings@, x) == Some(s)
        && symbol_kinds(m, s) != 0
}

/// The needed symbols an expansion starts from: the seeded ones, and
/// (unless the module is needed whole) the root symbols of the directly
/// needed names.
pub open spec fn exp_init(m: Module, direct: Set<Seq<char>>, is_whole: bool, seeded: KindMap) -> KindMap {
    if is_whole {
        seeded
    } else {
        Map::new(
            |s: SymbolId| seeded.contains_key(s) || direct_symbol(m, direct, s),
            |s: SymbolId| if seeded.contains_key(s) { seeded[s] } else { symbol_kinds(m, s) },
        )
    }
}

/// `mp2` holds every symbol of `mp1` with at least its kinds.
pub open spec fn kinds_below(mp1: KindMap, mp2: KindMap) -> bool {
    forall|s: SymbolId| #[trigger] mp1.contains_key(s) ==> mp2.contains_key(s) && mp2[s] | mp1[s] == mp2[s]
}

/// The dependencies `deps` are all in `mp`.
pub open spec fn absorbed(mp: KindMap, deps: Seq<(SymbolId, u8)>) -> bool {
    forall|i: int| 0 <= i < deps.len() ==> mp.contains_key(#[trigger] deps[i].0) && mp[deps[i].0] | deps[i].1 == mp[deps[i].0]
}

proof fn lemma_bits_mono(a: u8, b: u8, d: u8)
    ensures
        (b | a == b && a & d != 0) ==> b & d != 0,
        (b | a == b && a | d == a) ==> b | d == b,
        (a | d) | a == a | d,
        (a | d) | d == a | d,
        (b | a == b) ==> (b | d) | (a | d) == b | d,
{
    assert((b | a == b && a & d != 0) ==> b & d != 0) by (bit_vector);
    assert((b | a == b && a | d == a) ==> b | d == b) by (bit_vector);
    assert((a | d) | a == a | d) by (bit_vector);
    assert((a | d) | d == a | d) by (bit_vector);
    assert((b | a == b) ==> (b | d) | (a | d) == b | d) by (bit_vector);
}

proof fn lemma_merge_one_grows(mp: KindMap, s: SymbolId, dk: u8)
    ensures
        kinds_below(mp, merge_one(mp, s, dk)),
        merge_one(mp, s, dk).contains_key(s),
        merge_one(mp, s, dk)[s] | dk == merge_one(mp, s, dk)[s],
{
    let r = merge_one(mp, s, dk);
    assert forall|x: SymbolId| #[trigger] mp.contains_key(x) implies r.contains_key(x) && r[x] | mp[x] == r[x] by {
        if x == s {
            lemma_bits_mono(mp[x], 0, dk);
        } else {
            assert(mp[x] | mp[x] == mp[x]) by (bit_vector);
        }
    }
    lemma_bits_mono(kinds_in(mp, s), 0, dk);
}

proof fn lemma_kinds_below_trans(a: KindMap, b: KindMap, c: KindMap)
    requires
        kinds_below(a, b),
        kinds_below(b, c),
    ensures
        kinds_below(a, c),
{
    assert forall|s: SymbolId| #[trigger] a.contains_key(s) implies c.contains_key(s) && c[s] | a[s] == c[s] by {
        assert(b.contains_key(s));
        let (x, y, z) = (a[s], b[s], c[s]);
        assert((y | x == y && z | y == z) ==> z | x == z) by (bit_vector);
    }
}

proof fn lemma_kinds_below_refl(a: KindMap)
    ensures
        kinds_below(a, a),
{
    assert forall|s: SymbolId| #[trigger] a.contains_key(s) implies a.contains_key(s) && a[s] | a[s] == a[s] by {
        let x = a[s];
        assert(x | x == x) by (bit_vector);
    }
}

proof fn lemma_absorbed_mono(a: KindMap, b: KindMap, deps: Seq<(SymbolId, u8)>)
    requires
        absorbed(a, deps),
        kinds_below(a, b),
    ensures
        absorbed(b, deps),
{
    assert forall|i: int| 0 <= i < deps.len() implies b.contains_key(#[trigger] deps[i].0) && b[deps[i].0] | deps[i].1 == b[deps[i].0] by {
        lemma_bits_mono(a[deps[i].0], b[deps[i].0], deps[i].1);
    }
}

proof fn lemma_active_mono(node: NodeView, a: KindMap, b: KindMap, is_whole: bool)
    requires
        kinds_below(a, b),
        node_active(node, a, is_whole),
    ensures
        node_active(node, b, is_whole),
{
    if !is_whole && !node.always {
        let i = choose|i: int|
            0 <= i < node.declared.len() && a.contains_key(#[trigger] node.declared[i].0) && a[node.declared[i].0]
                & node.declared[i].1 != 0;
        lemma_bits_mono(a[node.declared[i].0], b[node.declared[i].0], node.declared[i].1);
    }
}


proof fn lemma_merge_deps_grows(mp: KindMap, deps: Seq<(SymbolId, u8)>)
    ensures
        kinds_below(mp, merge_deps(mp, deps)),
        absorbed(merge_deps(mp, deps), deps),
    decreases deps.len(),
{
    if deps.len() == 0 {
        lemma_kinds_below_refl(mp);
    } else {
        let prev = merge_deps(mp, deps.drop_last());
        lemma_merge_deps_grows(mp, deps.drop_last());
        lemma_merge_one_grows(prev, deps.last().0, deps.last().1);
        lemma_kinds_below_trans(mp, prev, merge_deps(mp, deps));
        lemma_absorbed_mono(prev, merge_deps(mp, deps), deps.drop_last());
        let r = merge_deps(mp, deps);
        assert forall|i: int| 0 <= i < deps.len() implies r.contains_key(#[trigger] deps[i].0) && r[deps[i].0] | deps[i].1 == r[deps[i].0] by {
            if i < deps.len() - 1 {
                assert(deps.drop_last()[i] == deps[i]);
            }
        }
    }
}

proof fn lemma_merge_deps_absorbed(mp: KindMap, deps: Seq<(SymbolId, u8)>)
    requires
        absorbed(mp, deps),
    ensures
        merge_deps(mp, deps) == mp,
    decreases deps.len(),
{
    if deps.len() > 0 {
        assert(absorbed(mp, deps.drop_last())) by {
            assert forall|i: int| 0 <= i < deps.drop_last().len() implies mp.contains_key(#[trigger] deps.drop_last()[i].0)
                && mp[deps.drop_last()[i].0] | deps.drop_last()[i].1 == mp[deps.drop_last()[i].0] by {
                assert(deps.drop_last()[i] == deps[i]);
            }
        }
        lemma_merge_deps_absorbed(mp, deps.drop_last());
        let s = deps.last().0;
        assert(mp.contains_key(deps[deps.len() - 1].0));
        assert(merge_one(mp, s, deps.last().1) =~= mp);
    }
}

/// The nodes flagged in `act` have their dependencies in `mp`.
pub open spec fn flagged_absorbed(mp: KindMap, nodes: Seq<NodeView>, act: Seq<bool>) -> bool {
    forall|k: int| 0 <= k < nodes.len() && act[k] ==> absorbed(mp, #[trigger] nodes[k].deps)
}

proof fn lemma_merge_nodes(mp: KindMap, nodes: Seq<NodeView>, act: Seq<bool>, k: nat)
    requires
        k <= nodes.len(),
        act.len() == nodes.len(),
    ensures
        kinds_below(mp, merge_nodes(mp, nodes, act, k)),
        forall|j: int| 0 <= j < k && act[j] ==> absorbed(merge_nodes(mp, nodes, act, k), #[trigger] nodes[j].deps),
        flagged_absorbed(mp, nodes, act) ==> merge_nodes(mp, nodes, act, k) == mp,
    decreases k,
{
    if k == 0 {
        lemma_kinds_below_refl(mp);
    } else {
        let prev = merge_nodes(mp, nodes, act, (k - 1) as nat);
        lemma_merge_nodes(mp, nodes, act, (k - 1) as nat);
        let r = merge_nodes(mp, nodes, act, k);
        if act[k - 1] {
            lemma_merge_deps_grows(prev, nodes[k - 1].deps);
            lemma_kinds_below_trans(mp, prev, r);
            assert forall|j: int| 0 <= j < k && act[j] implies absorbed(r, #[trigger] nodes[j].deps) by {
                if j < k - 1 {
                    lemma_absorbed_mono(prev, r, nodes[j].deps);
                }
            }
            if flagged_absorbed(mp, nodes, act) {
                assert(absorbed(mp, nodes[k - 1].deps));
                lemma_merge_deps_absorbed(mp, nodes[k - 1].deps);
            }
        }
    }
}

proof fn lemma_kind_lookup_update(v: Seq<(SymbolId, u8)>, i: int, val: u8)
    requires
        0 <= i < v.len(),
        forall|j: int| 0 <= j < i ==> v[j].0 != v[i].0,
    ensures
        forall|x: SymbolId| #[trigger] kind_lookup(v.update(i, (v[i].0, val)), x) == if x == v[i].0 {
            Some(val)
        } else {
            kind_lookup(v, x)
        },
    decreases v.len(),
{
    let u = v.update(i, (v[i].0, val));
    if i == 0 {
        assert(u.drop_first() =~= v.drop_first());
        assert forall|x: SymbolId| #[trigger] kind_lookup(u, x) == if x == v[i].0 { Some(val) } else { kind_lookup(v, x) } by {
            assert(kind_lookup(u, x) == if u[0].0 == x { Some(u[0].1) } else { kind_lookup(u.drop_first(), x) });
            assert(kind_lookup(v, x) == if v[0].0 == x { Some(v[0].1) } else { kind_lookup(v.drop_first(), x) });
        }
    } else {
        assert(u.drop_first() =~= v.drop_first().update(i - 1, (v[i].0, val)));
        assert forall|j: int| 0 <= j < i - 1 implies (#[trigger] v.drop_first()[j]).0 != v.drop_first()[i - 1].0 by {
            assert(v[j + 1].0 != v[i].0);
        }
        lemma_kind_lookup_update(v.drop_first(), i - 1, val);
        assert forall|x: SymbolId| #[trigger] kind_lookup(u, x) == if x == v[i].0 { Some(val) } else { kind_lookup(v, x) } by {
            assert(v[0].0 != v[i].0);
            assert(u[0] == v[0]);
            assert(kind_lookup(u, x) == if u[0].0 == x { Some(u[0].1) } else { kind_lookup(u.drop_first(), x) });
            assert(kind_lookup(v, x) == if v[0].0 == x { Some(v[0].1) } else { kind_lookup(v.drop_first(), x) });
        }
    }
}

proof fn lemma_kind_lookup_push(v: Seq<(SymbolId, u8)>, s: SymbolId, val: u8)
    requires
        kind_lookup(v, s) is None,
    ensures
        forall|x: SymbolId| #[trigger] kind_lookup(v.push((s, val)), x) == if x == s { Some(val) } else { kind_lookup(v, x) },
    decreases v.len(),
{
    let w = v.push((s, val));
    if v.len() > 0 {
        assert(w.drop_first() =~= v.drop_first().push((s, val)));
        lemma_kind_lookup_push(v.drop_first(), s, val);
        assert forall|x: SymbolId| #[trigger] kind_lookup(w, x) == if x == s { Some(val) } else { kind_lookup(v, x) } by {
            assert(w[0] == v[0]);
            assert(kind_lookup(w, x) == if w[0].0 == x { Some(w[0].1) } else { kind_lookup(w.drop_first(), x) });
            assert(kind_lookup(v, x) == if v[0].0 == x { Some(v[0].1) } else { kind_lookup(v.drop_first(), x) });
        }
    } else {
        assert forall|x: SymbolId| #[trigger] kind_lookup(w, x) == if x == s { Some(val) } else { kind_lookup(v, x) } by {
            assert(kind_lookup(w, x) == if w[0].0 == x { Some(w[0].1) } else { kind_lookup(w.drop_first(), x) });
            assert(w.drop_first().len() == 0);
        }
    }
}

/// Adds kinds `dk` to symbol `s` in the keyed list `v`.
fn merge_kind(v: &mut Vec<(SymbolId, NeededKindFlags)>, s: SymbolId, dk: NeededKindFlags) -> (changed: bool)
    ensures
        kind_map(flag_views(final(v)@)) == merge_one(kind_map(flag_views(old(v)@)), s, dk.0),
        changed == (kind_map(flag_views(final(v)@)) != kind_map(flag_views(old(v)@))),
{
    let ghost fv = flag_views(v@);
    let mut i: usize = 0;
    while i < v.len()
        invariant
            0 <= i <= v@.len(),
            v@ == old(v)@,
            fv == flag_views(v@),
            forall|j: int| 0 <= j < i ==> fv[j].0 != s,
        decreases v@.len() - i,
    {
        if v[i].0 == s {
            let old_kinds = v[i].1;
            let merged = v[i].1.union(dk);
            v.set(i, (s, merged));
            proof {
                assert(fv[i as int].0 == s);
                lemma_kind_lookup_update(fv, i as int, merged.0);
                assert(flag_views(v@) =~= fv.update(i as int, (s, merged.0)));
                assert(kind_lookup(fv, s) == Some(fv[i as int].1)) by {
                    lemma_kind_lookup_first(fv, i as int);
                }
                assert(kind_map(flag_views(v@)) =~= merge_one(kind_map(fv), s, dk.0));
                if merged.0 == old_kinds.0 {
                    assert(kind_map(flag_views(v@)) =~= kind_map(fv));
                } else {
                    assert(kind_map(flag_views(v@))[s] != kind_map(fv)[s]);
                }
            }
            return merged.0 != old_kinds.0;
        }
        i += 1;
    }
    proof {
        lemma_kind_lookup_absent(fv, s);
    }
    v.push((s, dk));
    proof {
        lemma_kind_lookup_push(fv, s, dk.0);
        assert(flag_views(v@) =~= fv.push((s, dk.0)));
        let d: u8 = dk.0;
        assert(0u8 | d == d) by (bit_vector);
        assert(kind_map(flag_views(v@)) =~= merge_one(kind_map(fv), s, dk.0));
        assert(kind_map(flag_views(v@)).contains_key(s));
        assert(!kind_map(fv).contains_key(s));
    }
    true
}

proof fn lemma_kind_lookup_first(v: Seq<(SymbolId, u8)>, i: int)
    requires
        0 <= i < v.len(),
        forall|j: int| 0 <= j < i ==> v[j].0 != v[i].0,
    ensures
        kind_lookup(v, v[i].0) == Some(v[i].1),
    decreases i,
{
    if i > 0 {
        assert forall|j: int| 0 <= j < i - 1 implies (#[trigger] v.drop_first()[j]).0 != v.drop_first()[i - 1].0 by {
            assert(v[j + 1].0 != v[i].0);
        }
        lemma_kind_lookup_first(v.drop_first(), i - 1);
    }
}

proof fn lemma_kind_lookup_absent(v: Seq<(SymbolId, u8)>, s: SymbolId)
    requires
        forall|j: int| 0 <= j < v.len() ==> v[j].0 != s,
    ensures
        kind_lookup(v, s) is None,
    decreases v.len(),
{
    if v.len() > 0 {
        lemma_kind_lookup_absent(v.drop_first(), s);
    }
}


/// The kinds of symbol `s` in `v`.
fn lookup_kind(v: &Vec<(SymbolId, NeededKindFlags)>, s: SymbolId) -> (r: Option<u8>)
    ensures
        r == kind_lookup(flag_views(v@), s),
{
    let ghost fv = flag_views(v@);
    let mut i: usize = 0;
    while i < v.len()
        invariant
            0 <= i <= v@.len(),
            fv == flag_views(v@),
            forall|j: int| 0 <= j < i ==> fv[j].0 != s,
        decreases v@.len() - i,
    {
        if v[i].0 == s {
            proof {
                lemma_kind_lookup_first(fv, i as int);
            }
            return Some(v[i].1.0);
        }
        i += 1;
    }
    proof {
        lemma_kind_lookup_absent(fv, s);
    }
    None
}

/// Whether `node` is active under the needed symbols `v`.
fn node_is_active(node: &DeclarationNode, v: &Vec<(SymbolId, NeededKindFlags)>, is_whole: bool) -> (r: bool)
    ensures
        r == node_active(node@, kind_map(flag_views(v@)), is_whole),
{
    if is_whole || node.is_always_retained {
        return true;
    }
    let ghost mp = kind_map(flag_views(v@));
    let mut i: usize = 0;
    while i < node.declared_root_symbols.len()
        invariant
            0 <= i <= node.declared_root_symbols@.len(),
            mp == kind_map(flag_views(v@)),
            forall|j: int| 0 <= j < i ==> !(mp.contains_key(#[trigger] node@.declared[j].0) && mp[node@.declared[j].0] & node@.declared[j].1 != 0),
        decreases node.declared_root_symbols@.len() - i,
    {
        let (sym, dk) = node.declared_root_symbols[i];
        assert(node@.declared[i as int] == (sym, dk.0));
        if let Some(k) = lookup_kind(v, sym) {
            if k & dk.0 != 0 {
                assert(mp.contains_key(node@.declared[i as int].0) && mp[node@.declared[i as int].0] & node@.declared[i as int].1 != 0);
                return true;
            }
        }
        i += 1;
    }
    false
}

/// `a` and `b` hold each other: they are equal.
proof fn lemma_kinds_below_antisym(a: KindMap, b: KindMap)
    requires
        kinds_below(a, b),
        kinds_below(b, a),
    ensures
        a == b,
{
    assert forall|s: SymbolId| #[trigger] a.contains_key(s) implies a[s] == b[s] by {
        let (x, y) = (a[s], b[s]);
        assert((y | x == y && x | y == x) ==> x == y) by (bit_vector);
    }
    assert(a =~= b);
}


/// Fewer unset flags when flags only get set.
proof fn lemma_count_false_sub(a: Seq<bool>, b: Seq<bool>)
    requires
        a.len() == b.len(),
        forall|i: int| 0 <= i < a.len() && #[trigger] a[i] ==> b[i],
    ensures
        count_false(b) <= count_false(a),
        (exists|i: int| 0 <= i < a.len() && !a[i] && #[trigger] b[i]) ==> count_false(b) < count_false(a),
    decreases a.len(),
{
    if a.len() > 0 {
        lemma_count_false_sub(a.drop_last(), b.drop_last());
        if exists|i: int| 0 <= i < a.len() && !a[i] && #[trigger] b[i] {
            let i = choose|i: int| 0 <= i < a.len() && !a[i] && #[trigger] b[i];
            if i < a.len() - 1 {
                assert(!a.drop_last()[i] && b.drop_last()[i]);
            }
        }
    }
}

/// Expansion has reached a fixed point after `k` steps.
pub open spec fn exp_stable(mp: KindMap, nodes: Seq<NodeView>, is_whole: bool, k: nat) -> bool {
    exp_step(exp_steps(mp, nodes, is_whole, k), nodes, is_whole) == exp_steps(mp, nodes, is_whole, k)
}

/// The fixed point of expansion from `mp`.
pub open spec fn exp_fix(mp: KindMap, nodes: Seq<NodeView>, is_whole: bool) -> KindMap {
    exp_steps(mp, nodes, is_whole, choose|k: nat| exp_stable(mp, nodes, is_whole, k))
}

proof fn lemma_exp_stable_stays(mp: KindMap, nodes: Seq<NodeView>, is_whole: bool, k: nat, j: nat)
    requires
        exp_stable(mp, nodes, is_whole, k),
        k <= j,
    ensures
        exp_steps(mp, nodes, is_whole, j) == exp_steps(mp, nodes, is_whole, k),
    decreases j - k,
{
    if j > k {
        lemma_exp_stable_stays(mp, nodes, is_whole, k, (j - 1) as nat);
    }
}

proof fn lemma_exp_fix_is(mp: KindMap, nodes: Seq<NodeView>, is_whole: bool, k: nat)
    requires
        exp_stable(mp, nodes, is_whole, k),
    ensures
        exp_fix(mp, nodes, is_whole) == exp_steps(mp, nodes, is_whole, k),
{
    let k2 = choose|k2: nat| exp_stable(mp, nodes, is_whole, k2);
    if k2 <= k {
        lemma_exp_stable_stays(mp, nodes, is_whole, k2, k);
    } else {
        lemma_exp_stable_stays(mp, nodes, is_whole, k, k2);
    }
}

/// The needed symbols of a module once expansion reaches its fixed point.
fn expand_symbols(init: Vec<(SymbolId, NeededKindFlags)>, nodes: &Vec<DeclarationNode>, is_whole: bool) -> (r: Vec<(SymbolId, NeededKindFlags)>)
    ensures
        kind_map(flag_views(r@)) == exp_fix(kind_map(flag_views(init@)), node_views(nodes@), is_whole),
        exp_step(kind_map(flag_views(r@)), node_views(nodes@), is_whole) == kind_map(flag_views(r@)),
{
    let ghost m0 = kind_map(flag_views(init@));
    let ghost ns = node_views(nodes@);
    let n = nodes.len();
    let mut cur = init;
    let mut act_prev: Vec<bool> = Vec::new();
    let mut q: usize = 0;
    while q < n
        invariant
            0 <= q <= n,
            act_prev@ =~= Seq::new(q as nat, |i: int| false),
        decreases n - q,
    {
        act_prev.push(false);
        q += 1;
    }
    let ghost mut k: nat = 0;
    let mut progress = true;
    while progress
        invariant
            n == nodes@.len(),
            ns == node_views(nodes@),
            act_prev@.len() == n,
            kind_map(flag_views(cur@)) == exp_steps(m0, ns, is_whole, k),
            forall|j: int| 0 <= j < n && #[trigger] act_prev@[j] ==> node_active(ns[j], kind_map(flag_views(cur@)), is_whole)
                && absorbed(kind_map(flag_views(cur@)), ns[j].deps),
            !progress ==> exp_stable(m0, ns, is_whole, k),
        decreases count_false(act_prev@) + (if progress { 1nat } else { 0nat }),
    {
        let ghost before = kind_map(flag_views(cur@));
        let mut act: Vec<bool> = Vec::new();
        let mut j: usize = 0;
        while j < n
            invariant
                0 <= j <= n,
                n == nodes@.len(),
                ns == node_views(nodes@),
                before == kind_map(flag_views(cur@)),
                act@ =~= active_vec(ns, before, is_whole).take(j as int),
            decreases n - j,
        {
            let a = node_is_active(&nodes[j], &cur, is_whole);
            assert(ns[j as int] == nodes@[j as int]@);
            act.push(a);
            j += 1;
        }
        assert(act@ =~= active_vec(ns, before, is_whole));
        let mut changed = false;
        let mut j: usize = 0;
        while j < n
            invariant
                0 <= j <= n,
                n == nodes@.len(),
                ns == node_views(nodes@),
                act@ == active_vec(ns, before, is_whole),
                kind_map(flag_views(cur@)) == merge_nodes(before, ns, act@, j as nat),
                changed == (kind_map(flag_views(cur@)) != before),
            decreases n - j,
        {
            let ghost at_j = kind_map(flag_views(cur@));
            if act[j] {
                let node = &nodes[j];
                assert(ns[j as int] == node@);
                proof {
                    lemma_merge_nodes(before, ns, act@, j as nat);
                    assert(node@.deps.take(0) =~= Seq::<(SymbolId, u8)>::empty());
                }
                let mut i: usize = 0;
                while i < node.local_symbol_deps.len()
                    invariant
                        0 <= i <= node.local_symbol_deps@.len(),
                        ns[j as int] == node@,
                        kind_map(flag_views(cur@)) == merge_deps(at_j, node@.deps.take(i as int)),
                        kinds_below(before, at_j),
                        at_j == merge_nodes(before, ns, act@, j as nat),
                        act@.len() == n,
                        j < n,
                        changed == (kind_map(flag_views(cur@)) != before),
                    decreases node.local_symbol_deps@.len() - i,
                {
                    let (sym, dk) = node.local_symbol_deps[i];
                    let ghost b2 = kind_map(flag_views(cur@));
                    let c = merge_kind(&mut cur, sym, dk);
                    proof {
                        assert(node@.deps[i as int] == (sym, dk.0));
                        assert(node@.deps.take(i + 1).drop_last() =~= node@.deps.take(i as int));
                        lemma_merge_deps_grows(at_j, node@.deps.take(i as int));
                        lemma_merge_one_grows(b2, sym, dk.0);
                        lemma_kinds_below_trans(before, at_j, b2);
                        lemma_kinds_below_trans(before, b2, kind_map(flag_views(cur@)));
                        if !c && b2 == before {
                            assert(kind_map(flag_views(cur@)) == before);
                        }
                        if kind_map(flag_views(cur@)) == before && b2 != before {
                            lemma_kinds_below_antisym(b2, before);
                        }
                    }
                    if c {
                        changed = true;
                    }
                    i += 1;
                }
                proof {
                    assert(node@.deps.take(i as int) =~= node@.deps);
                    assert(act@[j as int]);
                }
            }
            proof {
                lemma_merge_nodes(before, ns, act@, j as nat);
            }
            j += 1;
        }
        proof {
            lemma_merge_nodes(before, ns, act@, n as nat);
            let after = kind_map(flag_views(cur@));
            assert(after == exp_step(before, ns, is_whole));
            assert forall|x: int| 0 <= x < n && #[trigger] act_prev@[x] implies act@[x] by {
                assert(node_active(ns[x], before, is_whole));
            }
            if !changed {
                assert(exp_stable(m0, ns, is_whole, k));
            } else {
                if forall|x: int| 0 <= x < n && #[trigger] act@[x] ==> act_prev@[x] {
                    assert(flagged_absorbed(before, ns, act@));
                    assert(false);
                }
                let x = choose|x: int| !(0 <= x < n && #[trigger] act@[x] ==> act_prev@[x]);
                assert(0 <= x < n && !act_prev@[x] && act@[x]);
            }
            lemma_count_false_sub(act_prev@, act@);
            assert forall|x: int| 0 <= x < n && #[trigger] act@[x] implies node_active(ns[x], after, is_whole)
                && absorbed(after, ns[x].deps) by {
                lemma_active_mono(ns[x], before, after, is_whole);
            }
            k = k + 1;
        }
        act_prev = act;
        if !changed {
            progress = false;
        }
    }
    proof {
        lemma_exp_fix_is(m0, ns, is_whole, k);
    }
    cur
}


/// Directly needed names among the first `j` names of the list (flagged in
/// `row`) bind root symbol `s`, which can be referenced.
pub open spec fn direct_upto(m: Module, names: Seq<Seq<char>>, row: Seq<bool>, j: int, s: SymbolId) -> bool {
    exists|q: int| 0 <= q < j && row[q] && #[trigger] root_binding_of(m.scoping.root_bindings@, names[q]) == Some(s)
        && symbol_kinds(m, s) != 0
}

/// The seeded symbols of an expansion as a map.
pub open spec fn seeded_map(seeded: Option<&Vec<(SymbolId, NeededKindFlags)>>) -> KindMap {
    match seeded {
        Some(v) => kind_map(flag_views(v@)),
        None => Map::empty(),
    }
}

impl NeededState {
    /// The needed symbols expansion of module `m` starts from.
    fn expansion_init(
        &self,
        m: usize,
        module: &Module,
        is_whole: bool,
        seeded: Option<&Vec<(SymbolId, NeededKindFlags)>>,
    ) -> (r: Vec<(SymbolId, NeededKindFlags)>)
        requires
            self.wf(self.rows@.len()),
            m < self.rows@.len(),
        ensures
            kind_map(flag_views(r@)) == exp_init(*module, self@.needed[m as int], is_whole, seeded_map(seeded)),
    {
        let ghost sm = seeded_map(seeded);
        let ghost nv = str_views(self.names@);
        let mut cur: Vec<(SymbolId, NeededKindFlags)> = Vec::new();
        if let Some(v) = seeded {
            let mut i: usize = 0;
            while i < v.len()
                invariant
                    0 <= i <= v@.len(),
                    flag_views(cur@) == flag_views(v@).take(i as int),
                decreases v@.len() - i,
            {
                let e = v[i];
                let ghost before = flag_views(cur@);
                cur.push(e);
                assert(flag_views(cur@) =~= before.push((e.0, e.1.0)));
                assert(flag_views(v@).take(i + 1) =~= flag_views(v@).take(i as int).push(flag_views(v@)[i as int]));
                i += 1;
            }
            assert(flag_views(v@).take(i as int) =~= flag_views(v@));
        }
        assert(kind_map(flag_views(cur@)) =~= sm);
        if is_whole {
            return cur;
        }
        let row = &self.rows[m];
        let mut j: usize = 0;
        while j < self.names.len()
            invariant
                0 <= j <= self.names@.len(),
                self.wf(self.rows@.len()),
                m < self.rows@.len(),
                *row == self.rows@[m as int],
                nv == str_views(self.names@),
                kind_map(flag_views(cur@)) == Map::new(
                    |s: SymbolId| sm.contains_key(s) || direct_upto(*module, nv, row@, j as int, s),
                    |s: SymbolId| if sm.contains_key(s) { sm[s] } else { symbol_kinds(*module, s) },
                ),
            decreases self.names@.len() - j,
        {
            let ghost before = kind_map(flag_views(cur@));
            let ghost target = Map::new(
                |s: SymbolId| sm.contains_key(s) || direct_upto(*module, nv, row@, j + 1, s),
                |s: SymbolId| if sm.contains_key(s) { sm[s] } else { symbol_kinds(*module, s) },
            );
            proof {
                assert forall|s: SymbolId| #[trigger] direct_upto(*module, nv, row@, j + 1, s) <==> (direct_upto(*module, nv, row@, j as int, s) || (
                row@[j as int] && root_binding_of(module.scoping.root_bindings@, nv[j as int]) == Some(s) && symbol_kinds(*module, s) != 0)) by {
                    if direct_upto(*module, nv, row@, j + 1, s) {
                        let q = choose|q: int| 0 <= q < j + 1 && row@[q] && #[trigger] root_binding_of(module.scoping.root_bindings@, nv[q]) == Some(s)
                            && symbol_kinds(*module, s) != 0;
                        if q < j {
                            assert(direct_upto(*module, nv, row@, j as int, s));
                        }
                    }
                    if direct_upto(*module, nv, row@, j as int, s) {
                        let q = choose|q: int| 0 <= q < j && row@[q] && #[trigger] root_binding_of(module.scoping.root_bindings@, nv[q]) == Some(s)
                            && symbol_kinds(*module, s) != 0;
                        assert(root_binding_of(module.scoping.root_bindings@, nv[q]) == Some(s));
                    }
                    if row@[j as int] && root_binding_of(module.scoping.root_bindings@, nv[j as int]) == Some(s) && symbol_kinds(*module, s) != 0 {
                        assert(root_binding_of(module.scoping.root_bindings@, nv[j as int]) == Some(s));
                    }
                }
            }
            if row[j] {
                if let Some(sym) = module.scoping.get_root_binding(self.names[j].as_str()) {
                    assert(nv[j as int] == self.names@[j as int]@);
                    if lookup_kind(&cur, sym).is_none() {
                        let kinds = NeededKindFlags::all().intersection(
                            NeededKindFlags::from_symbol_flags(module.scoping.symbol_flags(sym)),
                        );
                        assert(kinds.0 == symbol_kinds(*module, sym));
                        if !kinds.is_empty() {
                            proof {
                                lemma_kind_lookup_push(flag_views(cur@), sym, kinds.0);
                            }
                            let ghost fb = flag_views(cur@);
                            assert(!before.contains_key(sym));
                            assert(!sm.contains_key(sym));
                            cur.push((sym, kinds));
                            assert(flag_views(cur@) =~= fb.push((sym, kinds.0)));
                            let ghost after = kind_map(flag_views(cur@));
                            assert forall|x: SymbolId| #[trigger] after.contains_key(x) <==> target.contains_key(x) by {
                                assert(after.contains_key(x) <==> (x == sym || before.contains_key(x)));
                                assert(direct_upto(*module, nv, row@, j + 1, sym));
                            }
                            assert forall|x: SymbolId| #[trigger] after.contains_key(x) implies after[x] == target[x] by {
                                assert(kind_lookup(flag_views(cur@), x) == kind_lookup(fb.push((sym, kinds.0)), x));
                                if x != sym {
                                    assert(kind_lookup(fb, x) is Some);
                                    assert(before.contains_key(x));
                                    assert(before[x] == kind_lookup(fb, x)->0);
                                } else {
                                    assert(after[x] == kinds.0);
                                }
                            }
                            assert(after =~= target);
                        } else {
                            assert(kind_map(flag_views(cur@)) =~= target);
                        }
                    } else {
                        assert(before.contains_key(sym));
                        assert(kind_map(flag_views(cur@)) =~= target);
                    }
                } else {
                    assert(kind_map(flag_views(cur@)) =~= target);
                }
            } else {
                assert(kind_map(flag_views(cur@)) =~= target);
            }
            j += 1;
        }
        proof {
            let direct = self@.needed[m as int];
            assert forall|s: SymbolId| direct_upto(*module, nv, row@, j as int, s) <==> direct_symbol(*module, direct, s) by {
                if direct_upto(*module, nv, row@, j as int, s) {
                    let q = choose|q: int| 0 <= q < j && row@[q] && #[trigger] root_binding_of(module.scoping.root_bindings@, nv[q]) == Some(s)
                        && symbol_kinds(*module, s) != 0;
                    assert(direct.contains(nv[q]));
                }
                if direct_symbol(*module, direct, s) {
                    let x = choose|x: Seq<char>| #[trigger] direct.contains(x) && root_binding_of(module.scoping.root_bindings@, x) == Some(s)
                        && symbol_kinds(*module, s) != 0;
                    let q = choose|q: int| 0 <= q < row@.len() && row@[q] && nv[q] == x;
                }
            }
            assert(kind_map(flag_views(cur@)) =~= exp_init(*module, direct, is_whole, sm));
        }
        cur
    }
}


/// Some node declares root symbol `s`.
pub open spec fn declared_by_nodes(nodes: Seq<NodeView>, s: SymbolId) -> bool {
    exists|k: int, i: int| 0 <= k < nodes.len() && 0 <= i < nodes[k].declared.len() && #[trigger] nodes[k].declared[i].0 == s
}

/// Active nodes among the first `k` declare name `y`.
pub open spec fn active_declares(nodes: Seq<NodeView>, mp: KindMap, w: bool, k: int, y: Seq<char>) -> bool {
    exists|k2: int, i: int|
        0 <= k2 < k && k2 < nodes.len() && node_active(nodes[k2], mp, w) && 0 <= i < nodes[k2].declared_names.len()
            && #[trigger] nodes[k2].declared_names[i] == y
}

/// Active nodes among the first `k` depend on name `y` of module `z`
/// (`None`: on module `z` whole).
pub open spec fn active_targets(nodes: Seq<NodeView>, mp: KindMap, w: bool, k: int, z: int, y: Option<Seq<char>>) -> bool {
    exists|k2: int, i: int|
        0 <= k2 < k && k2 < nodes.len() && node_active(nodes[k2], mp, w) && 0 <= i < nodes[k2].targets.len()
            && (#[trigger] nodes[k2].targets[i]).0 as int == z && nodes[k2].targets[i].1 == y
}

/// Among the first `b` root bindings of `m`, one named `y` binds a needed
/// symbol that no node declares.
pub open spec fn binding_needed(m: Module, nodes: Seq<NodeView>, mp: KindMap, b: int, y: Seq<char>) -> bool {
    exists|b2: int|
        0 <= b2 < b && b2 < m.scoping.root_bindings@.len() && #[trigger] m.scoping.root_bindings@[b2].name@ == y
            && mp.contains_key(m.scoping.root_bindings@[b2].symbol) && !declared_by_nodes(nodes, m.scoping.root_bindings@[b2].symbol)
}

/// The names expansion makes needed in the module itself: those the active
/// nodes declare, and the root names of needed symbols no node declares.
pub open spec fn exp_names(m: Module, nodes: Seq<NodeView>, mp: KindMap, w: bool) -> Set<Seq<char>> {
    Set::new(
        |y: Seq<char>| active_declares(nodes, mp, w, nodes.len() as int, y) || binding_needed(
            m,
            nodes,
            mp,
            m.scoping.root_bindings@.len() as int,
            y,
        ),
    )
}

/// The modules `wholes` lists.
pub open spec fn whole_set(wholes: Seq<usize>, z: int) -> bool {
    exists|i: int| 0 <= i < wholes.len() && #[trigger] wholes[i] as int == z
}

/// Whether some node declares root symbol `s`.
fn nodes_declare(nodes: &Vec<DeclarationNode>, s: SymbolId) -> (r: bool)
    ensures
        r == declared_by_nodes(node_views(nodes@), s),
{
    let ghost ns = node_views(nodes@);
    let mut k: usize = 0;
    while k < nodes.len()
        invariant
            0 <= k <= nodes@.len(),
            ns == node_views(nodes@),
            forall|k2: int, i: int| 0 <= k2 < k && 0 <= i < ns[k2].declared.len() ==> #[trigger] ns[k2].declared[i].0 != s,
        decreases nodes@.len() - k,
    {
        let node = &nodes[k];
        assert(ns[k as int] == node@);
        let mut i: usize = 0;
        while i < node.declared_root_symbols.len()
            invariant
                0 <= i <= node.declared_root_symbols@.len(),
                ns == node_views(nodes@),
                ns[k as int] == node@,
                k < ns.len(),
                forall|k2: int, i2: int| 0 <= k2 < k && 0 <= i2 < ns[k2].declared.len() ==> #[trigger] ns[k2].declared[i2].0 != s,
                forall|i2: int| 0 <= i2 < i ==> #[trigger] ns[k as int].declared[i2].0 != s,
            decreases node.declared_root_symbols@.len() - i,
        {
            assert(ns[k as int].declared[i as int].0 == node.declared_root_symbols@[i as int].0);
            if node.declared_root_symbols[i].0 == s {
                return true;
            }
            i += 1;
        }
        k += 1;
    }
    false
}

/// Appends a module to the list of modules needed whole.
fn push_whole(wholes: &mut Vec<usize>, whole_reasons: &mut Vec<NeededReason>, x: usize, reason: NeededReason)
    ensures
        final(wholes)@ == old(wholes)@.push(x),
        final(whole_reasons)@ == old(whole_reasons)@.push(reason),
        forall|z: int| #[trigger] whole_set(final(wholes)@, z) <==> (whole_set(old(wholes)@, z) || z == x),
{
    let ghost w0 = wholes@;
    wholes.push(x);
    whole_reasons.push(reason);
    assert forall|z: int| #[trigger] whole_set(wholes@, z) <==> (whole_set(w0, z) || z == x) by {
        if whole_set(wholes@, z) {
            let i = choose|i: int| 0 <= i < wholes@.len() && #[trigger] wholes@[i] as int == z;
            if i < w0.len() {
                assert(w0[i] == wholes@[i]);
            }
        }
        if whole_set(w0, z) {
            let i = choose|i: int| 0 <= i < w0.len() && #[trigger] w0[i] as int == z;
            assert(wholes@[i] == w0[i]);
        }
        if z == x {
            assert(wholes@[w0.len() as int] as int == z);
        }
    }
}


/// Adds what an active node asks for: its declared names in module `m`,
/// and its dependency targets (names, or whole modules).
fn node_outputs(
    node: &DeclarationNode,
    m: usize,
    pairs: &mut Vec<(usize, String, NeededReason)>,
    wholes: &mut Vec<usize>,
    whole_reasons: &mut Vec<NeededReason>,
    Ghost(n): Ghost<nat>,
    Ghost(u): Ghost<Seq<Seq<char>>>,
)
    requires
        old(whole_reasons)@.len() == old(wholes)@.len(),
        m < n,
        pairs_ok(old(pairs)@, n, u),
        forall|i: int| 0 <= i < old(wholes)@.len() ==> (#[trigger] old(wholes)@[i]) < n,
        forall|i: int| 0 <= i < node@.declared_names.len() ==> u.contains(#[trigger] node@.declared_names[i]),
        forall|i: int| 0 <= i < node@.targets.len() ==> target_in(u, #[trigger] node@.targets[i]) && node@.targets[i].0 < n,
    ensures
        final(whole_reasons)@.len() == final(wholes)@.len(),
        pairs_ok(final(pairs)@, n, u),
        forall|i: int| 0 <= i < final(wholes)@.len() ==> (#[trigger] final(wholes)@[i]) < n,
        forall|z: int, y: Seq<char>| #[trigger] pair_set(final(pairs)@, z).contains(y) <==> (pair_set(old(pairs)@, z).contains(y)
            || (z == m && node@.declared_names.contains(y)) || exists|i: int|
            0 <= i < node@.targets.len() && (#[trigger] node@.targets[i]).0 as int == z && node@.targets[i].1 == Some(y)),
        forall|z: int| #[trigger] whole_set(final(wholes)@, z) <==> (whole_set(old(wholes)@, z) || exists|i: int|
            0 <= i < node@.targets.len() && (#[trigger] node@.targets[i]).0 as int == z && node@.targets[i].1 is None),
{
    let ghost p0 = pairs@;
    let ghost w0 = wholes@;
    let ghost nv = node@;
    let mut i: usize = 0;
    while i < node.declared_names.len()
        invariant
            whole_reasons@.len() == wholes@.len(),
            0 <= i <= nv.declared_names.len(),
            nv == node@,
            m < n,
            pairs_ok(pairs@, n, u),
            forall|q: int| 0 <= q < nv.declared_names.len() ==> u.contains(#[trigger] nv.declared_names[q]),
            forall|z: int, y: Seq<char>| #[trigger] pair_set(pairs@, z).contains(y) <==> (pair_set(p0, z).contains(y)
                || (z == m && exists|q: int| 0 <= q < i && #[trigger] nv.declared_names[q] == y)),
        decreases nv.declared_names.len() - i,
    {
        assert(nv.declared_names[i as int] == node.declared_names@[i as int]@);
        let ghost pb = pairs@;
        push_pair(pairs, m, string_clone(node.declared_names[i].as_str()), NeededReason::SemanticDependency);
        proof {
            assert forall|z: int, y: Seq<char>| #[trigger] pair_set(pairs@, z).contains(y) <==> (pair_set(p0, z).contains(y)
                || (z == m && exists|q: int| 0 <= q < i + 1 && #[trigger] nv.declared_names[q] == y)) by {
                if z == m && y == nv.declared_names[i as int] {
                    assert(exists|q: int| 0 <= q < i + 1 && #[trigger] nv.declared_names[q] == y);
                }
                if z == m && exists|q: int| 0 <= q < i + 1 && #[trigger] nv.declared_names[q] == y {
                    let q = choose|q: int| 0 <= q < i + 1 && #[trigger] nv.declared_names[q] == y;
                    if q < i {
                        assert(exists|q2: int| 0 <= q2 < i && #[trigger] nv.declared_names[q2] == y);
                    }
                }
            }
        }
        i += 1;
    }
    let ghost p1 = pairs@;
    let nc = node.cross_module_deps.len();
    let mut i: usize = 0;
    while i < nc
        invariant
            whole_reasons@.len() == wholes@.len(),
            0 <= i <= nc,
            nc == node.cross_module_deps@.len(),
            nv == node@,
            nv.targets.len() == nc + node.inline_import_deps@.len(),
            pairs_ok(pairs@, n, u),
            forall|q: int| 0 <= q < old(wholes)@.len() ==> (#[trigger] old(wholes)@[q]) < n,
            forall|q: int| 0 <= q < wholes@.len() ==> (#[trigger] wholes@[q]) < n,
            forall|q: int| 0 <= q < nv.targets.len() ==> target_in(u, #[trigger] nv.targets[q]) && nv.targets[q].0 < n,
            forall|z: int, y: Seq<char>| #[trigger] pair_set(pairs@, z).contains(y) <==> (pair_set(p1, z).contains(y)
                || exists|q: int| 0 <= q < i && (#[trigger] nv.targets[q]).0 as int == z && nv.targets[q].1 == Some(y)),
            forall|z: int| #[trigger] whole_set(wholes@, z) <==> (whole_set(w0, z) || exists|q: int|
                0 <= q < i && (#[trigger] nv.targets[q]).0 as int == z && nv.targets[q].1 is None),
        decreases nc - i,
    {
        let d = &node.cross_module_deps[i];
        assert(nv.targets[i as int] == (d.target_module_idx, opt_view(d.target_name)));
        assert(target_in(u, nv.targets[i as int]));
        let ghost pb = pairs@;
        let ghost wb = wholes@;
        match &d.target_name {
            Some(y) => {
                push_pair(pairs, d.target_module_idx, string_clone(y.as_str()), d.reason);
            },
            None => {
                push_whole(wholes, whole_reasons, d.target_module_idx, d.reason);
            },
        }
        proof {
            assert forall|z: int, y: Seq<char>| #[trigger] pair_set(pairs@, z).contains(y) <==> (pair_set(p1, z).contains(y)
                || exists|q: int| 0 <= q < i + 1 && (#[trigger] nv.targets[q]).0 as int == z && nv.targets[q].1 == Some(y)) by {
                if exists|q: int| 0 <= q < i + 1 && (#[trigger] nv.targets[q]).0 as int == z && nv.targets[q].1 == Some(y) {
                    let q = choose|q: int| 0 <= q < i + 1 && (#[trigger] nv.targets[q]).0 as int == z && nv.targets[q].1 == Some(y);
                    if q < i {
                        assert(exists|q2: int| 0 <= q2 < i && (#[trigger] nv.targets[q2]).0 as int == z && nv.targets[q2].1 == Some(y));
                    }
                }
                if pair_set(pairs@, z).contains(y) && !pair_set(pb, z).contains(y) {
                    assert(nv.targets[i as int].0 as int == z && nv.targets[i as int].1 == Some(y));
                }
            }
            assert forall|z: int| #[trigger] whole_set(wholes@, z) <==> (whole_set(w0, z) || exists|q: int|
                0 <= q < i + 1 && (#[trigger] nv.targets[q]).0 as int == z && nv.targets[q].1 is None) by {
                if exists|q: int| 0 <= q < i + 1 && (#[trigger] nv.targets[q]).0 as int == z && nv.targets[q].1 is None {
                    let q = choose|q: int| 0 <= q < i + 1 && (#[trigger] nv.targets[q]).0 as int == z && nv.targets[q].1 is None;
                    if q < i {
                        assert(exists|q2: int| 0 <= q2 < i && (#[trigger] nv.targets[q2]).0 as int == z && nv.targets[q2].1 is None);
                    }
                }
                if whole_set(wholes@, z) && !whole_set(wb, z) {
                    assert(nv.targets[i as int].0 as int == z && nv.targets[i as int].1 is None);
                }
            }
            assert forall|q: int| 0 <= q < wholes@.len() implies (#[trigger] wholes@[q]) < n by {
                if q < wb.len() {
                    assert(wholes@[q] == wb[q]);
                }
            }
        }
        i += 1;
    }
    let mut j: usize = 0;
    while j < node.inline_import_deps.len()
        invariant
            whole_reasons@.len() == wholes@.len(),
            0 <= j <= node.inline_import_deps@.len(),
            nc == node.cross_module_deps@.len(),
            nv == node@,
            nv.targets.len() == nc + node.inline_import_deps@.len(),
            pairs_ok(pairs@, n, u),
            forall|q: int| 0 <= q < wholes@.len() ==> (#[trigger] wholes@[q]) < n,
            forall|q: int| 0 <= q < nv.targets.len() ==> target_in(u, #[trigger] nv.targets[q]) && nv.targets[q].0 < n,
            forall|z: int, y: Seq<char>| #[trigger] pair_set(pairs@, z).contains(y) <==> (pair_set(p1, z).contains(y)
                || exists|q: int| 0 <= q < nc + j && (#[trigger] nv.targets[q]).0 as int == z && nv.targets[q].1 == Some(y)),
            forall|z: int| #[trigger] whole_set(wholes@, z) <==> (whole_set(w0, z) || exists|q: int|
                0 <= q < nc + j && (#[trigger] nv.targets[q]).0 as int == z && nv.targets[q].1 is None),
        decreases node.inline_import_deps@.len() - j,
    {
        let d = &node.inline_import_deps[j];
        let ghost p = nc + j;
        assert(nv.targets[p] == (d.target_module_idx, opt_view(d.target_name)));
        assert(target_in(u, nv.targets[p]));
        let ghost pb = pairs@;
        let ghost wb = wholes@;
        match &d.target_name {
            Some(y) => {
                push_pair(pairs, d.target_module_idx, string_clone(y.as_str()), NeededReason::InlineImportReference);
            },
            None => {
                push_whole(wholes, whole_reasons, d.target_module_idx, NeededReason::InlineImportReference);
            },
        }
        proof {
            assert forall|z: int, y: Seq<char>| #[trigger] pair_set(pairs@, z).contains(y) <==> (pair_set(p1, z).contains(y)
                || exists|q: int| 0 <= q < p + 1 && (#[trigger] nv.targets[q]).0 as int == z && nv.targets[q].1 == Some(y)) by {
                if exists|q: int| 0 <= q < p + 1 && (#[trigger] nv.targets[q]).0 as int == z && nv.targets[q].1 == Some(y) {
                    let q = choose|q: int| 0 <= q < p + 1 && (#[trigger] nv.targets[q]).0 as int == z && nv.targets[q].1 == Some(y);
                    if q < p {
                        assert(exists|q2: int| 0 <= q2 < p && (#[trigger] nv.targets[q2]).0 as int == z && nv.targets[q2].1 == Some(y));
                    }
                }
                if pair_set(pairs@, z).contains(y) && !pair_set(pb, z).contains(y) {
                    assert(nv.targets[p].0 as int == z && nv.targets[p].1 == Some(y));
                }
            }
            assert forall|z: int| #[trigger] whole_set(wholes@, z) <==> (whole_set(w0, z) || exists|q: int|
                0 <= q < p + 1 && (#[trigger] nv.targets[q]).0 as int == z && nv.targets[q].1 is None) by {
                if exists|q: int| 0 <= q < p + 1 && (#[trigger] nv.targets[q]).0 as int == z && nv.targets[q].1 is None {
                    let q = choose|q: int| 0 <= q < p + 1 && (#[trigger] nv.targets[q]).0 as int == z && nv.targets[q].1 is None;
                    if q < p {
                        assert(exists|q2: int| 0 <= q2 < p && (#[trigger] nv.targets[q2]).0 as int == z && nv.targets[q2].1 is None);
                    }
                }
                if whole_set(wholes@, z) && !whole_set(wb, z) {
                    assert(nv.targets[p].0 as int == z && nv.targets[p].1 is None);
                }
            }
            assert forall|q: int| 0 <= q < wholes@.len() implies (#[trigger] wholes@[q]) < n by {
                if q < wb.len() {
                    assert(wholes@[q] == wb[q]);
                }
            }
        }
        j += 1;
    }
    proof {
        assert forall|z: int, y: Seq<char>| #[trigger] pair_set(pairs@, z).contains(y) <==> (pair_set(p0, z).contains(y)
            || (z == m && nv.declared_names.contains(y)) || exists|i: int|
            0 <= i < nv.targets.len() && (#[trigger] nv.targets[i]).0 as int == z && nv.targets[i].1 == Some(y)) by {
            assert(pair_set(p1, z).contains(y) <==> (pair_set(p0, z).contains(y) || (z == m && exists|q: int| 0 <= q < nv.declared_names.len() && #[trigger] nv.declared_names[q] == y)));
            if z == m && nv.declared_names.contains(y) {
                let q = choose|q: int| 0 <= q < nv.declared_names.len() && nv.declared_names[q] == y;
                assert(exists|q2: int| 0 <= q2 < nv.declared_names.len() && #[trigger] nv.declared_names[q2] == y);
            }
        }
    }
}


/// Adds what an expansion of module `m` to the needed symbols `fix` asks
/// for: the names it makes needed in `m`, and the dependency targets of its
/// active nodes.
fn expansion_outputs(
    m: usize,
    module: &Module,
    nodes: &Vec<DeclarationNode>,
    fix: &Vec<(SymbolId, NeededKindFlags)>,
    is_whole: bool,
    pairs: &mut Vec<(usize, String, NeededReason)>,
    wholes: &mut Vec<usize>,
    whole_reasons: &mut Vec<NeededReason>,
    Ghost(n): Ghost<nat>,
    Ghost(u): Ghost<Seq<Seq<char>>>,
)
    requires
        old(whole_reasons)@.len() == old(wholes)@.len(),
        m < n,
        pairs_ok(old(pairs)@, n, u),
        forall|i: int| 0 <= i < old(wholes)@.len() ==> (#[trigger] old(wholes)@[i]) < n,
        module_names_in(u, *module),
        nodes_names_in(u, node_views(nodes@)),
        forall|k: int, i: int|
            0 <= k < nodes@.len() && 0 <= i < nodes@[k]@.targets.len() ==> (#[trigger] nodes@[k]@.targets[i]).0 < n,
    ensures
        final(whole_reasons)@.len() == final(wholes)@.len(),
        pairs_ok(final(pairs)@, n, u),
        forall|i: int| 0 <= i < final(wholes)@.len() ==> (#[trigger] final(wholes)@[i]) < n,
        forall|z: int, y: Seq<char>| #[trigger] pair_set(final(pairs)@, z).contains(y) <==> (pair_set(old(pairs)@, z).contains(y)
            || (z == m && exp_names(*module, node_views(nodes@), kind_map(flag_views(fix@)), is_whole).contains(y))
            || active_targets(node_views(nodes@), kind_map(flag_views(fix@)), is_whole, nodes@.len() as int, z, Some(y))),
        forall|z: int| #[trigger] whole_set(final(wholes)@, z) <==> (whole_set(old(wholes)@, z) || active_targets(
            node_views(nodes@),
            kind_map(flag_views(fix@)),
            is_whole,
            nodes@.len() as int,
            z,
            None,
        )),
{
    let ghost ns = node_views(nodes@);
    let ghost mp = kind_map(flag_views(fix@));
    let ghost p0 = pairs@;
    let ghost w0 = wholes@;
    let mut k: usize = 0;
    while k < nodes.len()
        invariant
            whole_reasons@.len() == wholes@.len(),
            0 <= k <= nodes@.len(),
            ns == node_views(nodes@),
            mp == kind_map(flag_views(fix@)),
            m < n,
            pairs_ok(pairs@, n, u),
            forall|i: int| 0 <= i < wholes@.len() ==> (#[trigger] wholes@[i]) < n,
            nodes_names_in(u, ns),
            forall|k2: int, i: int|
                0 <= k2 < nodes@.len() && 0 <= i < nodes@[k2]@.targets.len() ==> (#[trigger] nodes@[k2]@.targets[i]).0 < n,
            forall|z: int, y: Seq<char>| #[trigger] pair_set(pairs@, z).contains(y) <==> (pair_set(p0, z).contains(y)
                || (z == m && active_declares(ns, mp, is_whole, k as int, y)) || active_targets(ns, mp, is_whole, k as int, z, Some(y))),
            forall|z: int| #[trigger] whole_set(wholes@, z) <==> (whole_set(w0, z) || active_targets(ns, mp, is_whole, k as int, z, None)),
        decreases nodes@.len() - k,
    {
        let node = &nodes[k];
        assert(ns[k as int] == node@);
        let ghost pb = pairs@;
        let ghost wb = wholes@;
        let active = node_is_active(node, fix, is_whole);
        if active {
            assert forall|i: int| 0 <= i < node@.targets.len() implies target_in(u, #[trigger] node@.targets[i]) && node@.targets[i].0 < n by {
                assert(nodes@[k as int]@.targets[i].0 < n);
                assert(target_in(u, ns[k as int].targets[i]));
            }
            assert forall|i: int| 0 <= i < node@.declared_names.len() implies u.contains(#[trigger] node@.declared_names[i]) by {
                assert(u.contains(ns[k as int].declared_names[i]));
            }
            node_outputs(node, m, pairs, wholes, whole_reasons, Ghost(n), Ghost(u));
        }
        proof {
            assert forall|z: int, y: Seq<char>| #[trigger] pair_set(pairs@, z).contains(y) <==> (pair_set(p0, z).contains(y)
                || (z == m && active_declares(ns, mp, is_whole, k + 1, y)) || active_targets(ns, mp, is_whole, k + 1, z, Some(y))) by {
                if active_declares(ns, mp, is_whole, k + 1, y) {
                    let (k2, i) = choose|k2: int, i: int|
                        0 <= k2 < k + 1 && k2 < ns.len() && node_active(ns[k2], mp, is_whole) && 0 <= i < ns[k2].declared_names.len()
                            && #[trigger] ns[k2].declared_names[i] == y;
                    if k2 < k {
                        assert(active_declares(ns, mp, is_whole, k as int, y));
                    } else {
                        assert(node@.declared_names.contains(y));
                    }
                }
                if active_targets(ns, mp, is_whole, k + 1, z, Some(y)) {
                    let (k2, i) = choose|k2: int, i: int|
                        0 <= k2 < k + 1 && k2 < ns.len() && node_active(ns[k2], mp, is_whole) && 0 <= i < ns[k2].targets.len()
                            && (#[trigger] ns[k2].targets[i]).0 as int == z && ns[k2].targets[i].1 == Some(y);
                    if k2 < k {
                        assert(active_targets(ns, mp, is_whole, k as int, z, Some(y)));
                    } else {
                        assert(node@.targets[i].0 as int == z && node@.targets[i].1 == Some(y));
                    }
                }
                if active && pair_set(pairs@, z).contains(y) && !pair_set(pb, z).contains(y) {
                    if z == m && node@.declared_names.contains(y) {
                        let i = choose|i: int| 0 <= i < node@.declared_names.len() && node@.declared_names[i] == y;
                        assert(ns[k as int].declared_names[i] == y);
                    }
                    if exists|i: int| 0 <= i < node@.targets.len() && (#[trigger] node@.targets[i]).0 as int == z && node@.targets[i].1 == Some(y) {
                        let i = choose|i: int| 0 <= i < node@.targets.len() && (#[trigger] node@.targets[i]).0 as int == z && node@.targets[i].1 == Some(y);
                        assert(ns[k as int].targets[i].0 as int == z);
                    }
                }
            }
            assert forall|z: int| #[trigger] whole_set(wholes@, z) <==> (whole_set(w0, z) || active_targets(ns, mp, is_whole, k + 1, z, None)) by {
                if active_targets(ns, mp, is_whole, k + 1, z, None) {
                    let (k2, i) = choose|k2: int, i: int|
                        0 <= k2 < k + 1 && k2 < ns.len() && node_active(ns[k2], mp, is_whole) && 0 <= i < ns[k2].targets.len()
                            && (#[trigger] ns[k2].targets[i]).0 as int == z && ns[k2].targets[i].1 == None::<Seq<char>>;
                    if k2 < k {
                        assert(active_targets(ns, mp, is_whole, k as int, z, None));
                    } else {
                        assert(node@.targets[i].0 as int == z && node@.targets[i].1 is None);
                    }
                }
                if active && whole_set(wholes@, z) && !whole_set(wb, z) {
                    let i = choose|i: int| 0 <= i < node@.targets.len() && (#[trigger] node@.targets[i]).0 as int == z && node@.targets[i].1 is None;
                    assert(ns[k as int].targets[i].0 as int == z);
                    assert(ns[k as int].targets[i].1 == None::<Seq<char>>);
                }
            }
        }
        k += 1;
    }
    let ghost p1 = pairs@;
    let bindings = &module.scoping.root_bindings;
    let mut b: usize = 0;
    while b < bindings.len()
        invariant
            whole_reasons@.len() == wholes@.len(),
            0 <= b <= bindings@.len(),
            *bindings == module.scoping.root_bindings,
            ns == node_views(nodes@),
            mp == kind_map(flag_views(fix@)),
            m < n,
            pairs_ok(pairs@, n, u),
            module_names_in(u, *module),
            forall|z: int, y: Seq<char>| #[trigger] pair_set(pairs@, z).contains(y) <==> (pair_set(p1, z).contains(y)
                || (z == m && binding_needed(*module, ns, mp, b as int, y))),
        decreases bindings@.len() - b,
    {
        let bd = &bindings[b];
        let ghost pb = pairs@;
        let needed = lookup_kind(fix, bd.symbol).is_some() && !nodes_declare(nodes, bd.symbol);
        if needed {
            assert(u.contains(bindings@[b as int].name@));
            push_pair(pairs, m, string_clone(bd.name.as_str()), NeededReason::SemanticDependency);
        }
        proof {
            assert forall|z: int, y: Seq<char>| #[trigger] pair_set(pairs@, z).contains(y) <==> (pair_set(p1, z).contains(y)
                || (z == m && binding_needed(*module, ns, mp, b + 1, y))) by {
                if binding_needed(*module, ns, mp, b + 1, y) {
                    let b2 = choose|b2: int|
                        0 <= b2 < b + 1 && b2 < module.scoping.root_bindings@.len() && #[trigger] module.scoping.root_bindings@[b2].name@ == y
                            && mp.contains_key(module.scoping.root_bindings@[b2].symbol) && !declared_by_nodes(ns, module.scoping.root_bindings@[b2].symbol);
                    if b2 < b {
                        assert(binding_needed(*module, ns, mp, b as int, y));
                    }
                }
                if z == m && binding_needed(*module, ns, mp, b as int, y) {
                    let b2 = choose|b2: int|
                        0 <= b2 < b && b2 < module.scoping.root_bindings@.len() && #[trigger] module.scoping.root_bindings@[b2].name@ == y
                            && mp.contains_key(module.scoping.root_bindings@[b2].symbol) && !declared_by_nodes(ns, module.scoping.root_bindings@[b2].symbol);
                    assert(binding_needed(*module, ns, mp, b + 1, y));
                }
            }
        }
        b += 1;
    }
    proof {
        assert forall|z: int, y: Seq<char>| #[trigger] pair_set(pairs@, z).contains(y) <==> (pair_set(p0, z).contains(y)
            || (z == m && exp_names(*module, ns, mp, is_whole).contains(y))
            || active_targets(ns, mp, is_whole, ns.len() as int, z, Some(y))) by {
            assert(pair_set(p1, z).contains(y) <==> (pair_set(p0, z).contains(y)
                || (z == m && active_declares(ns, mp, is_whole, k as int, y)) || active_targets(ns, mp, is_whole, k as int, z, Some(y))));
        }
    }
}


// ---------------------------------------------------------------------------
// Rounds: propagation, then expansion of every needed module.

/// The needed symbols of a module, as the rounds keep them.
pub enum SymbolKinds {
    /// The module was not expanded.
    Absent,
    /// The module is needed whole.
    All,
    /// The needed symbols, with the spaces they are needed in.
    Kinds(Vec<(SymbolId, NeededKindFlags)>),
}

/// `SymbolKinds` as the contracts see it.
pub enum KindsView {
    Absent,
    All,
    Kinds(KindMap),
}

impl View for SymbolKinds {
    type V = KindsView;

    open spec fn view(&self) -> KindsView {
        match self {
            SymbolKinds::Absent => KindsView::Absent,
            SymbolKinds::All => KindsView::All,
            SymbolKinds::Kinds(v) => KindsView::Kinds(kind_map(flag_views(v@))),
        }
    }
}

/// The views of the per-module needed symbols.
pub open spec fn kinds_views(v: Seq<SymbolKinds>) -> Seq<KindsView> {
    v.map_values(|k: SymbolKinds| k@)
}

/// Propagation has settled after `k` steps.
pub open spec fn prop_stable(s: NView, t: Seq<Module>, k: nat) -> bool {
    prop_round(prop_rounds(s, t, k), t) == prop_rounds(s, t, k)
}

/// The state once propagation has settled.
pub open spec fn prop_fix(s: NView, t: Seq<Module>) -> NView {
    prop_rounds(s, t, choose|k: nat| prop_stable(s, t, k))
}

proof fn lemma_prop_stable_stays(s: NView, t: Seq<Module>, k: nat, j: nat)
    requires
        prop_stable(s, t, k),
        k <= j,
    ensures
        prop_rounds(s, t, j) == prop_rounds(s, t, k),
    decreases j - k,
{
    if j > k {
        lemma_prop_stable_stays(s, t, k, (j - 1) as nat);
    }
}

proof fn lemma_prop_fix_is(s: NView, t: Seq<Module>, k: nat)
    requires
        prop_stable(s, t, k),
    ensures
        prop_fix(s, t) == prop_rounds(s, t, k),
{
    let k2 = choose|k2: nat| prop_stable(s, t, k2);
    if k2 <= k {
        lemma_prop_stable_stays(s, t, k2, k);
    } else {
        lemma_prop_stable_stays(s, t, k, k2);
    }
}

/// Module `m` is needed whole (or holds augmentations, which are kept whole).
pub open spec fn whole_in(s: NView, t: Seq<Module>, m: int) -> bool {
    s.whole[m] || t[m].has_augmentation
}

/// Module `m` is expanded in a round: it is not the entry, and some of its
/// names are needed or it is needed whole.
pub open spec fn expanded(s: NView, t: Seq<Module>, m: int, entry: int) -> bool {
    m != entry && (s.needed[m] != Set::<Seq<char>>::empty() || whole_in(s, t, m))
}

/// The needed symbols module `m` starts from in a round: those of the
/// previous round.
pub open spec fn seeded_of(kv: Seq<KindsView>, m: int) -> KindMap {
    match kv[m] {
        KindsView::Kinds(mp) => mp,
        _ => Map::empty(),
    }
}

/// The needed symbols of module `m` after its expansion in a round.
pub open spec fn fix_of(s: NView, t: Seq<Module>, g: Seq<Seq<NodeView>>, kv: Seq<KindsView>, m: int) -> KindMap {
    exp_fix(exp_init(t[m], s.needed[m], whole_in(s, t, m), seeded_of(kv, m)), g[m], whole_in(s, t, m))
}

/// The names a round's expansions make needed in module `x`.
pub open spec fn round_adds(s: NView, t: Seq<Module>, g: Seq<Seq<NodeView>>, kv: Seq<KindsView>, entry: int, x: int) -> Set<Seq<char>> {
    Set::new(
        |y: Seq<char>|
            exists|m: int|
                0 <= m < t.len() && #[trigger] expanded(s, t, m, entry) && ((x == m && exp_names(
                    t[m],
                    g[m],
                    fix_of(s, t, g, kv, m),
                    whole_in(s, t, m),
                ).contains(y)) || active_targets(g[m], fix_of(s, t, g, kv, m), whole_in(s, t, m), g[m].len() as int, x, Some(y))),
    )
}

/// A round's expansions need module `x` whole.
pub open spec fn round_whole(s: NView, t: Seq<Module>, g: Seq<Seq<NodeView>>, kv: Seq<KindsView>, entry: int, x: int) -> bool {
    exists|m: int|
        0 <= m < t.len() && #[trigger] expanded(s, t, m, entry) && active_targets(
            g[m],
            fix_of(s, t, g, kv, m),
            whole_in(s, t, m),
            g[m].len() as int,
            x,
            None,
        )
}

/// One round: propagation until it settles, then every expanded module's
/// expansion (from the symbols of the previous round), whose names and
/// dependencies become needed; the round's symbols replace the previous.
pub open spec fn outer_step(s: NView, kv: Seq<KindsView>, t: Seq<Module>, g: Seq<Seq<NodeView>>, entry: int) -> (NView, Seq<KindsView>) {
    let s1 = prop_fix(s, t);
    let needed = Seq::new(
        t.len(),
        |x: int|
            s1.needed[x].union(round_adds(s1, t, g, kv, entry, x)).union(
                if round_whole(s1, t, g, kv, entry, x) {
                    all_exported_names(t[x])
                } else {
                    Set::empty()
                },
            ),
    );
    let whole = Seq::new(t.len(), |x: int| s1.whole[x] || round_whole(s1, t, g, kv, entry, x));
    let kv2 = Seq::new(
        t.len(),
        |m: int|
            if expanded(s1, t, m, entry) {
                if whole_in(s1, t, m) {
                    KindsView::All
                } else {
                    KindsView::Kinds(fix_of(s1, t, g, kv, m))
                }
            } else {
                KindsView::Absent
            },
    );
    (NView { needed, whole }, kv2)
}

impl NeededState {
    /// Whether some name of module `m` is needed.
    fn has_any(&self, m: usize) -> (r: bool)
        requires
            self.wf(self.rows@.len()),
            m < self.rows@.len(),
        ensures
            r == (self@.needed[m as int] != Set::<Seq<char>>::empty()),
    {
        let row = &self.rows[m];
        let mut j: usize = 0;
        while j < row.len()
            invariant
                0 <= j <= row@.len(),
                self.wf(self.rows@.len()),
                m < self.rows@.len(),
                *row == self.rows@[m as int],
                forall|q: int| 0 <= q < j ==> !row@[q],
            decreases row@.len() - j,
        {
            if row[j] {
                assert(row@.len() == self.names@.len());
                assert(row@[j as int] && str_views(self.names@)[j as int] == str_views(self.names@)[j as int]);
                assert(self@.needed[m as int].contains(str_views(self.names@)[j as int]));
                return true;
            }
            j += 1;
        }
        assert(self@.needed[m as int] =~= Set::<Seq<char>>::empty());
        false
    }

    /// Marks each listed module as needed whole.
    fn apply_wholes(
        &mut self,
        wholes: &Vec<usize>,
        whole_reasons: &Vec<NeededReason>,
        table: &ModuleTable,
        Ghost(g): Ghost<Seq<Seq<NodeView>>>,
    ) -> (changed: bool)
        requires
            whole_reasons@.len() == wholes@.len(),
            state_ok(*old(self), table.modules@, g),
            forall|i: int| 0 <= i < wholes@.len() ==> (#[trigger] wholes@[i]) < table.modules@.len(),
        ensures
            log_extends(old(self).reasons@, final(self).reasons@),
            state_ok(*final(self), table.modules@, g),
            final(self).names@ == old(self).names@,
            final(self)@.needed == Seq::new(
                table.modules@.len(),
                |x: int| old(self)@.needed[x].union(if whole_set(wholes@, x) { all_exported_names(table.modules@[x]) } else { Set::empty() }),
            ),
            final(self)@.whole == Seq::new(table.modules@.len(), |x: int| old(self)@.whole[x] || whole_set(wholes@, x)),
            changed == (final(self)@ != old(self)@),
            changed ==> final(self).measure() < old(self).measure(),
            !changed ==> final(self).measure() == old(self).measure(),
    {
        let ghost t = table.modules@;
        let ghost s0 = self@;
        let ghost n = t.len();
        let mut changed = false;
        proof {
            assert forall|x: int| !#[trigger] whole_set(wholes@.take(0), x) by {}
            assert(self@.needed =~= Seq::new(n, |x: int| s0.needed[x].union(if whole_set(wholes@.take(0), x) { all_exported_names(t[x]) } else { Set::empty() }))) by {
                assert forall|x: int| 0 <= x < n implies self@.needed[x] =~= s0.needed[x].union(if whole_set(wholes@.take(0), x) { all_exported_names(t[x]) } else { Set::empty() }) by {}
            }
            assert(self@.whole =~= Seq::new(n, |x: int| s0.whole[x] || whole_set(wholes@.take(0), x)));
        }
        let mut i: usize = 0;
        while i < wholes.len()
            invariant
                log_extends(old(self).reasons@, self.reasons@),
                whole_reasons@.len() == wholes@.len(),
                0 <= i <= wholes@.len(),
                t == table.modules@,
                n == t.len(),
                s0 == old(self)@,
                s0.needed.len() == n,
                s0.whole.len() == n,
                state_ok(*self, t, g),
                self.names@ == old(self).names@,
                forall|q: int| 0 <= q < wholes@.len() ==> (#[trigger] wholes@[q]) < n,
                self@.needed == Seq::new(n, |x: int| s0.needed[x].union(if whole_set(wholes@.take(i as int), x) { all_exported_names(t[x]) } else { Set::empty() })),
                self@.whole == Seq::new(n, |x: int| s0.whole[x] || whole_set(wholes@.take(i as int), x)),
                changed == (self@ != s0),
                changed ==> self.measure() < old(self).measure(),
                !changed ==> self.measure() == old(self).measure(),
            decreases wholes@.len() - i,
        {
            let x = wholes[i];
            let ghost before = self@;
            assert(module_names_in(str_views(self.names@), t[x as int]));
            let c = self.mark_whole(x, &table.modules[x], whole_reasons[i]);
            proof {
                let w1 = wholes@.take(i as int);
                let w2 = wholes@.take(i + 1);
                assert forall|z: int| #[trigger] whole_set(w2, z) <==> (whole_set(w1, z) || z == x) by {
                    if whole_set(w2, z) {
                        let q = choose|q: int| 0 <= q < w2.len() && #[trigger] w2[q] as int == z;
                        if q < i {
                            assert(w1[q] == w2[q]);
                        }
                    }
                    if whole_set(w1, z) {
                        let q = choose|q: int| 0 <= q < w1.len() && #[trigger] w1[q] as int == z;
                        assert(w2[q] == w1[q]);
                    }
                    if z == x {
                        assert(w2[i as int] as int == z);
                    }
                }
                assert(self@.needed =~= Seq::new(n, |z: int| s0.needed[z].union(if whole_set(w2, z) { all_exported_names(t[z]) } else { Set::empty() }))) by {
                    assert forall|z: int| 0 <= z < n implies self@.needed[z] =~= s0.needed[z].union(if whole_set(w2, z) { all_exported_names(t[z]) } else { Set::empty() }) by {
                        if z == x {
                            if whole_set(w1, z) {
                                assert(before.needed[z] =~= s0.needed[z].union(all_exported_names(t[z])));
                            } else {
                                assert(before.needed[z] =~= s0.needed[z].union(Set::empty()));
                            }
                        }
                    }
                }
                assert(self@.whole =~= Seq::new(n, |z: int| s0.whole[z] || whole_set(w2, z)));
                if c {
                    if self@ == s0 {
                        assert(!before.whole[x as int] || !all_exported_names(t[x as int]).subset_of(before.needed[x as int]));
                        if !before.whole[x as int] {
                            assert(!s0.whole[x as int]);
                            assert(self@.whole[x as int]);
                        } else {
                            assert(s0.needed[x as int].subset_of(before.needed[x as int]));
                            assert(all_exported_names(t[x as int]).subset_of(self@.needed[x as int]));
                        }
                    }
                } else {
                    assert(self@.whole =~= before.whole);
                    assert(self@.needed =~= before.needed) by {
                        assert(before.needed[x as int].union(all_exported_names(t[x as int])) =~= before.needed[x as int]);
                    }
                }
            }
            if c {
                changed = true;
            }
            i += 1;
        }
        assert(wholes@.take(i as int) =~= wholes@);
        changed
    }
}


impl NeededState {
    /// One round (see `outer_step`); whether the needed names changed.
    fn outer_round(
        &mut self,
        kinds: &mut Vec<SymbolKinds>,
        table: &ModuleTable,
        graph: &Vec<Vec<DeclarationNode>>,
        entry_idx: ModuleIdx,
    ) -> (changed: bool)
        requires
            table.wf(),
            state_ok(*old(self), table.modules@, graph_views(graph@)),
            graph_ok(table.modules@, graph_views(graph@)),
            old(kinds)@.len() == table.modules@.len(),
        ensures
            log_extends(old(self).reasons@, final(self).reasons@),
            state_ok(*final(self), table.modules@, graph_views(graph@)),
            final(self).names@ == old(self).names@,
            final(kinds)@.len() == table.modules@.len(),
            (final(self)@, kinds_views(final(kinds)@)) == outer_step(
                old(self)@,
                kinds_views(old(kinds)@),
                table.modules@,
                graph_views(graph@),
                entry_idx as int,
            ),
            kinds_closed(kinds_views(final(kinds)@), graph_views(graph@)),
            changed == (final(self)@ != old(self)@),
            changed ==> final(self).measure() < old(self).measure(),
            !changed ==> final(self).measure() == old(self).measure(),
    {
        let ghost t = table.modules@;
        let ghost g = graph_views(graph@);
        let ghost n = t.len();
        let ghost s0 = self@;
        let ghost kv = kinds_views(kinds@);
        let c1 = self.propagate_needed_names(table, Ghost(g));
        proof {
            let k = choose|k: nat| self@ == prop_rounds(s0, t, k);
            lemma_prop_fix_is(s0, t, k);
        }
        let ghost s1 = self@;
        let ghost u = str_views(self.names@);
        let mut pairs: Vec<(usize, String, NeededReason)> = Vec::new();
        let mut wholes: Vec<usize> = Vec::new();
        let mut whole_reasons: Vec<NeededReason> = Vec::new();
        let mut next: Vec<SymbolKinds> = Vec::new();
        let mut m: usize = 0;
        while m < table.modules.len()
            invariant
                log_extends(old(self).reasons@, self.reasons@),
                whole_reasons@.len() == wholes@.len(),
                0 <= m <= n,
                t == table.modules@,
                g == graph_views(graph@),
                n == t.len(),
                table.wf(),
                state_ok(*self, t, g),
                graph_ok(t, g),
                self@ == s1,
                u == str_views(self.names@),
                kv == kinds_views(kinds@),
                kinds@.len() == n,
                pairs_ok(pairs@, n, u),
                forall|i: int| 0 <= i < wholes@.len() ==> (#[trigger] wholes@[i]) < n,
                next@.len() == m,
                forall|x: int, y: Seq<char>| #[trigger] pair_set(pairs@, x).contains(y) <==> exists|m2: int|
                    0 <= m2 < m && #[trigger] expanded(s1, t, m2, entry_idx as int) && ((x == m2 && exp_names(
                        t[m2],
                        g[m2],
                        fix_of(s1, t, g, kv, m2),
                        whole_in(s1, t, m2),
                    ).contains(y)) || active_targets(g[m2], fix_of(s1, t, g, kv, m2), whole_in(s1, t, m2), g[m2].len() as int, x, Some(y))),
                forall|x: int| #[trigger] whole_set(wholes@, x) <==> exists|m2: int|
                    0 <= m2 < m && #[trigger] expanded(s1, t, m2, entry_idx as int) && active_targets(
                        g[m2],
                        fix_of(s1, t, g, kv, m2),
                        whole_in(s1, t, m2),
                        g[m2].len() as int,
                        x,
                        None,
                    ),
                forall|m2: int| 0 <= m2 < m ==> (#[trigger] next@[m2])@ == (if expanded(s1, t, m2, entry_idx as int) {
                    if whole_in(s1, t, m2) {
                        KindsView::All
                    } else {
                        KindsView::Kinds(fix_of(s1, t, g, kv, m2))
                    }
                } else {
                    KindsView::Absent
                }),
                forall|m2: int|
                    0 <= m2 < m && expanded(s1, t, m2, entry_idx as int) && !whole_in(s1, t, m2) ==> exp_step(
                        #[trigger] fix_of(s1, t, g, kv, m2),
                        g[m2],
                        false,
                    ) == fix_of(s1, t, g, kv, m2),
            decreases n - m,
        {
            let ghost p0 = pairs@;
            let ghost w0 = wholes@;
            let module = &table.modules[m];
            let is_whole = self.whole[m] || module.has_augmentation;
            let any = self.has_any(m);
            let ghost ne = next@;
            if m == entry_idx || (!any && !is_whole) {
                next.push(SymbolKinds::Absent);
                proof {
                    assert(!expanded(s1, t, m as int, entry_idx as int));
                    assert forall|x: int, y: Seq<char>| #[trigger] pair_set(pairs@, x).contains(y) <==> exists|m2: int|
                        0 <= m2 < m + 1 && #[trigger] expanded(s1, t, m2, entry_idx as int) && ((x == m2 && exp_names(
                            t[m2],
                            g[m2],
                            fix_of(s1, t, g, kv, m2),
                            whole_in(s1, t, m2),
                        ).contains(y)) || active_targets(g[m2], fix_of(s1, t, g, kv, m2), whole_in(s1, t, m2), g[m2].len() as int, x, Some(y))) by {
                        if exists|m2: int|
                            0 <= m2 < m + 1 && #[trigger] expanded(s1, t, m2, entry_idx as int) && ((x == m2 && exp_names(
                                t[m2],
                                g[m2],
                                fix_of(s1, t, g, kv, m2),
                                whole_in(s1, t, m2),
                            ).contains(y)) || active_targets(g[m2], fix_of(s1, t, g, kv, m2), whole_in(s1, t, m2), g[m2].len() as int, x, Some(y))) {
                            let m2 = choose|m2: int|
                                0 <= m2 < m + 1 && #[trigger] expanded(s1, t, m2, entry_idx as int) && ((x == m2 && exp_names(
                                    t[m2],
                                    g[m2],
                                    fix_of(s1, t, g, kv, m2),
                                    whole_in(s1, t, m2),
                                ).contains(y)) || active_targets(g[m2], fix_of(s1, t, g, kv, m2), whole_in(s1, t, m2), g[m2].len() as int, x, Some(y)));
                            assert(m2 < m);
                        }
                    }
                    assert forall|x: int| #[trigger] whole_set(wholes@, x) <==> exists|m2: int|
                        0 <= m2 < m + 1 && #[trigger] expanded(s1, t, m2, entry_idx as int) && active_targets(
                            g[m2],
                            fix_of(s1, t, g, kv, m2),
                            whole_in(s1, t, m2),
                            g[m2].len() as int,
                            x,
                            None,
                        ) by {
                        if exists|m2: int|
                            0 <= m2 < m + 1 && #[trigger] expanded(s1, t, m2, entry_idx as int) && active_targets(
                                g[m2],
                                fix_of(s1, t, g, kv, m2),
                                whole_in(s1, t, m2),
                                g[m2].len() as int,
                                x,
                                None,
                            ) {
                            let m2 = choose|m2: int|
                                0 <= m2 < m + 1 && #[trigger] expanded(s1, t, m2, entry_idx as int) && active_targets(
                                    g[m2],
                                    fix_of(s1, t, g, kv, m2),
                                    whole_in(s1, t, m2),
                                    g[m2].len() as int,
                                    x,
                                    None,
                                );
                            assert(m2 < m);
                        }
                    }
                    assert forall|m2: int| 0 <= m2 < m + 1 implies (#[trigger] next@[m2])@ == (if expanded(s1, t, m2, entry_idx as int) {
                        if whole_in(s1, t, m2) {
                            KindsView::All
                        } else {
                            KindsView::Kinds(fix_of(s1, t, g, kv, m2))
                        }
                    } else {
                        KindsView::Absent
                    }) by {
                        if m2 < m {
                            assert(next@[m2] == ne[m2]);
                        }
                    }
                }
            } else {
                assert(expanded(s1, t, m as int, entry_idx as int));
                let seeded: Option<&Vec<(SymbolId, NeededKindFlags)>> = match &kinds[m] {
                    SymbolKinds::Kinds(v) => Some(v),
                    _ => None,
                };
                assert(seeded_map(seeded) == seeded_of(kv, m as int));
                let init = self.expansion_init(m, module, is_whole, seeded);
                let fix = expand_symbols(init, &graph[m], is_whole);
                assert(g[m as int] == node_views(graph@[m as int]@));
                assert(kind_map(flag_views(fix@)) == fix_of(s1, t, g, kv, m as int));
                assert(is_whole == whole_in(s1, t, m as int));
                assert(module_names_in(u, t[m as int]));
                assert(nodes_names_in(u, g[m as int]));
                assert forall|k: int, i: int|
                    0 <= k < graph@[m as int]@.len() && 0 <= i < graph@[m as int]@[k]@.targets.len() implies (#[trigger] graph@[m as int]@[k]@.targets[i]).0 < n by {
                    assert(g[m as int][k] == graph@[m as int]@[k]@);
                }
                expansion_outputs(m, module, &graph[m], &fix, is_whole, &mut pairs, &mut wholes, &mut whole_reasons, Ghost(n), Ghost(u));
                if is_whole {
                    next.push(SymbolKinds::All);
                } else {
                    next.push(SymbolKinds::Kinds(fix));
                }
                proof {
                    let f = fix_of(s1, t, g, kv, m as int);
                    let w = whole_in(s1, t, m as int);
                    assert forall|x: int, y: Seq<char>| #[trigger] pair_set(pairs@, x).contains(y) <==> exists|m2: int|
                        0 <= m2 < m + 1 && #[trigger] expanded(s1, t, m2, entry_idx as int) && ((x == m2 && exp_names(
                            t[m2],
                            g[m2],
                            fix_of(s1, t, g, kv, m2),
                            whole_in(s1, t, m2),
                        ).contains(y)) || active_targets(g[m2], fix_of(s1, t, g, kv, m2), whole_in(s1, t, m2), g[m2].len() as int, x, Some(y))) by {
                        if exists|m2: int|
                            0 <= m2 < m + 1 && #[trigger] expanded(s1, t, m2, entry_idx as int) && ((x == m2 && exp_names(
                                t[m2],
                                g[m2],
                                fix_of(s1, t, g, kv, m2),
                                whole_in(s1, t, m2),
                            ).contains(y)) || active_targets(g[m2], fix_of(s1, t, g, kv, m2), whole_in(s1, t, m2), g[m2].len() as int, x, Some(y))) {
                            let m2 = choose|m2: int|
                                0 <= m2 < m + 1 && #[trigger] expanded(s1, t, m2, entry_idx as int) && ((x == m2 && exp_names(
                                    t[m2],
                                    g[m2],
                                    fix_of(s1, t, g, kv, m2),
                                    whole_in(s1, t, m2),
                                ).contains(y)) || active_targets(g[m2], fix_of(s1, t, g, kv, m2), whole_in(s1, t, m2), g[m2].len() as int, x, Some(y)));
                            if m2 < m {
                                assert(pair_set(p0, x).contains(y));
                            }
                        }
                        if pair_set(pairs@, x).contains(y) && !pair_set(p0, x).contains(y) {
                            assert(expanded(s1, t, m as int, entry_idx as int));
                        }
                    }
                    assert forall|x: int| #[trigger] whole_set(wholes@, x) <==> exists|m2: int|
                        0 <= m2 < m + 1 && #[trigger] expanded(s1, t, m2, entry_idx as int) && active_targets(
                            g[m2],
                            fix_of(s1, t, g, kv, m2),
                            whole_in(s1, t, m2),
                            g[m2].len() as int,
                            x,
                            None,
                        ) by {
                        if exists|m2: int|
                            0 <= m2 < m + 1 && #[trigger] expanded(s1, t, m2, entry_idx as int) && active_targets(
                                g[m2],
                                fix_of(s1, t, g, kv, m2),
                                whole_in(s1, t, m2),
                                g[m2].len() as int,
                                x,
                                None,
                            ) {
                            let m2 = choose|m2: int|
                                0 <= m2 < m + 1 && #[trigger] expanded(s1, t, m2, entry_idx as int) && active_targets(
                                    g[m2],
                                    fix_of(s1, t, g, kv, m2),
                                    whole_in(s1, t, m2),
                                    g[m2].len() as int,
                                    x,
                                    None,
                                );
                            if m2 < m {
                                assert(whole_set(w0, x));
                            }
                        }
                    }
                    assert forall|m2: int| 0 <= m2 < m + 1 implies (#[trigger] next@[m2])@ == (if expanded(s1, t, m2, entry_idx as int) {
                        if whole_in(s1, t, m2) {
                            KindsView::All
                        } else {
                            KindsView::Kinds(fix_of(s1, t, g, kv, m2))
                        }
                    } else {
                        KindsView::Absent
                    }) by {
                        if m2 < m {
                            assert(next@[m2] == ne[m2]);
                        }
                    }
                }
            }
            m += 1;
        }
        let mut before: Vec<Vec<bool>> = Vec::new();
        let mut q: usize = 0;
        while q < self.rows.len()
            invariant
                0 <= q <= self.rows@.len(),
                before@.len() == q,
                forall|a: int| 0 <= a < q ==> (#[trigger] before@[a])@ == self.rows@[a]@,
            decreases self.rows@.len() - q,
        {
            let mut row: Vec<bool> = Vec::new();
            let mut c: usize = 0;
            while c < self.rows[q].len()
                invariant
                    0 <= c <= self.rows@[q as int]@.len(),
                    q < self.rows@.len(),
                    row@ == self.rows@[q as int]@.take(c as int),
                decreases self.rows@[q as int]@.len() - c,
            {
                row.push(self.rows[q][c]);
                assert(row@ =~= self.rows@[q as int]@.take(c + 1));
                c += 1;
            }
            assert(row@ =~= self.rows@[q as int]@);
            before.push(row);
            q += 1;
        }
        let ghost rows1 = self.rows@;
        let c2 = self.apply_wholes(&wholes, &whole_reasons, table, Ghost(g));
        let ghost s2 = self@;
        proof {
            assert forall|a: int, b: int|
                0 <= a < before@.len() && 0 <= b < before@[a]@.len() && #[trigger] before@[a]@[b] implies self@.needed[a].contains(
                self.names@[b]@,
            ) by {
                assert(rows1[a]@[b]);
                assert(s1.needed[a].contains(str_views(self.names@)[b]));
            }
        }
        let c3 = self.apply_pairs(&pairs, Some(&before));
        *kinds = next;
        proof {
            let st = outer_step(s0, kv, t, g, entry_idx as int);
            assert(self@.needed =~= st.0.needed) by {
                assert forall|x: int| 0 <= x < n implies self@.needed[x] =~= st.0.needed[x] by {
                    assert(pair_set(pairs@, x) =~= round_adds(s1, t, g, kv, entry_idx as int, x)) by {
                        assert forall|y: Seq<char>| pair_set(pairs@, x).contains(y) <==> round_adds(s1, t, g, kv, entry_idx as int, x).contains(y) by {
                            assert(pair_set(pairs@, x).contains(y) <==> exists|m2: int|
                                0 <= m2 < n && #[trigger] expanded(s1, t, m2, entry_idx as int) && ((x == m2 && exp_names(
                                    t[m2],
                                    g[m2],
                                    fix_of(s1, t, g, kv, m2),
                                    whole_in(s1, t, m2),
                                ).contains(y)) || active_targets(g[m2], fix_of(s1, t, g, kv, m2), whole_in(s1, t, m2), g[m2].len() as int, x, Some(y))));
                        }
                    }
                    assert(whole_set(wholes@, x) == round_whole(s1, t, g, kv, entry_idx as int, x));
                }
            }
            assert(self@.whole =~= st.0.whole) by {
                assert forall|x: int| 0 <= x < n implies self@.whole[x] == st.0.whole[x] by {
                    assert(whole_set(wholes@, x) == round_whole(s1, t, g, kv, entry_idx as int, x));
                }
            }
            assert(kinds_views(kinds@) =~= st.1);
            assert forall|m2: int| 0 <= m2 < kinds_views(kinds@).len() && (#[trigger] kinds_views(kinds@)[m2]) is Kinds implies exp_step(
                kinds_views(kinds@)[m2]->Kinds_0,
                g[m2],
                false,
            ) == kinds_views(kinds@)[m2]->Kinds_0 by {
                assert(kinds_views(kinds@)[m2] == next@[m2]@);
                assert(fix_of(s1, t, g, kv, m2) == fix_of(s1, t, g, kv, m2));
            }
            if self@ == s0 {
                assert forall|x: int| 0 <= x < n implies s1.needed[x] =~= s0.needed[x] && s2.needed[x] =~= s1.needed[x] by {
                    assert(s0.needed[x].subset_of(s1.needed[x]));
                    assert(s1.needed[x].subset_of(s2.needed[x]));
                    assert(s2.needed[x].subset_of(self@.needed[x]));
                }
                assert(s1.needed =~= s0.needed);
                assert(s2.needed =~= s1.needed);
                assert(s2.whole =~= s1.whole) by {
                    assert forall|x: int| 0 <= x < n implies s2.whole[x] == s1.whole[x] by {
                        assert(self@.whole[x] == s2.whole[x]);
                    }
                }
                assert(s1 == s0);
                assert(s2 == s1);
            }
        }
        c1 || c2 || c3
    }
}


/// `k` rounds.
pub open spec fn outer_steps(s: NView, kv: Seq<KindsView>, t: Seq<Module>, g: Seq<Seq<NodeView>>, entry: int, k: nat) -> (NView, Seq<KindsView>)
    decreases k,
{
    if k == 0 {
        (s, kv)
    } else {
        let p = outer_steps(s, kv, t, g, entry, (k - 1) as nat);
        outer_step(p.0, p.1, t, g, entry)
    }
}

/// The round after `k` rounds changes no needed name.
pub open spec fn outer_stable(s: NView, kv: Seq<KindsView>, t: Seq<Module>, g: Seq<Seq<NodeView>>, entry: int, k: nat) -> bool {
    let p = outer_steps(s, kv, t, g, entry, k);
    outer_step(p.0, p.1, t, g, entry).0 == p.0
}

/// `k` is the first such round.
pub open spec fn first_stable(s: NView, kv: Seq<KindsView>, t: Seq<Module>, g: Seq<Seq<NodeView>>, entry: int, k: nat) -> bool {
    outer_stable(s, kv, t, g, entry, k) && forall|j: nat| j < k ==> !#[trigger] outer_stable(s, kv, t, g, entry, j)
}

/// The needed names and symbols once a round changes no needed name: the
/// state after that round.
pub open spec fn needed_fix(s: NView, kv: Seq<KindsView>, t: Seq<Module>, g: Seq<Seq<NodeView>>, entry: int) -> (NView, Seq<KindsView>) {
    let k = choose|k: nat| first_stable(s, kv, t, g, entry, k);
    let p = outer_steps(s, kv, t, g, entry, k);
    outer_step(p.0, p.1, t, g, entry)
}

/// The result of tree-shaking for one entry.
pub struct NeededNamesPlan {
    /// Per module: not needed (`None`), needed whole (`Some(None)`), or the
    /// needed root symbols.
    pub map: Vec<Option<Option<Vec<SymbolId>>>>,
    /// Per module: the needed symbols with the spaces they are needed in.
    pub symbol_kinds: Vec<SymbolKinds>,
    /// Why names became needed: (module, name, reason) records.
    pub reasons: Vec<(usize, String, NeededReason)>,
}

/// The plan as the contracts see it.
pub struct PlanView {
    pub map: Seq<Option<Option<Set<SymbolId>>>>,
    pub kinds: Seq<KindsView>,
}

impl View for NeededNamesPlan {
    type V = PlanView;

    open spec fn view(&self) -> PlanView {
        PlanView {
            map: self.map@.map_values(|e: Option<Option<Vec<SymbolId>>>| map_entry_view(e)),
            kinds: kinds_views(self.symbol_kinds@),
        }
    }
}

/// A plan entry as the contracts see it.
pub open spec fn map_entry_view(e: Option<Option<Vec<SymbolId>>>) -> Option<Option<Set<SymbolId>>> {
    match e {
        Some(Some(v)) => Some(Some(v@.to_set())),
        Some(None) => Some(None),
        None => None,
    }
}

/// The root symbols the names `xs` of module `m` bind.
pub open spec fn bound_symbols(m: Module, xs: Set<Seq<char>>) -> Set<SymbolId> {
    Set::new(|s: SymbolId| exists|x: Seq<char>| #[trigger] xs.contains(x) && root_binding_of(m.scoping.root_bindings@, x) == Some(s))
}

/// The plan for the final state `s` and symbols `kv`: each module with
/// needed names is in the map, whole (or holding augmentations) or with the
/// root symbols of its needed names; its symbols are all, or those of the
/// last round (none when it was not expanded).
pub open spec fn plan_of(s: NView, kv: Seq<KindsView>, t: Seq<Module>) -> PlanView {
    PlanView {
        map: Seq::new(
            t.len(),
            |m: int|
                if s.needed[m] != Set::<Seq<char>>::empty() {
                    if whole_in(s, t, m) {
                        Some(None)
                    } else {
                        Some(Some(bound_symbols(t[m], s.needed[m])))
                    }
                } else {
                    None
                },
        ),
        kinds: Seq::new(
            t.len(),
            |m: int|
                if s.needed[m] != Set::<Seq<char>>::empty() {
                    if whole_in(s, t, m) {
                        KindsView::All
                    } else {
                        match kv[m] {
                            KindsView::Absent => KindsView::Kinds(Map::empty()),
                            other => other,
                        }
                    }
                } else {
                    kv[m]
                },
        ),
    }
}

/// The state before anything is needed, for `n` modules.
pub open spec fn empty_view(n: nat) -> NView {
    NView { needed: Seq::new(n, |m: int| Set::<Seq<char>>::empty()), whole: Seq::new(n, |m: int| false) }
}

/// Each module's needed symbols absorb the symbol dependencies of its active
/// declarations.
pub open spec fn kinds_closed(kv: Seq<KindsView>, g: Seq<Seq<NodeView>>) -> bool {
    forall|m: int|
        0 <= m < kv.len() && (#[trigger] kv[m]) is Kinds ==> exp_step(kv[m]->Kinds_0, g[m], false) == kv[m]->Kinds_0
}

/// Whether the plan keeps a declaration node, given the module's needed
/// symbols: every node of a module needed whole, else the nodes that declare
/// a needed symbol in a needed space (or are always kept).
pub open spec fn kept_node(kv: KindsView, node: NodeView) -> bool {
    match kv {
        KindsView::All => true,
        KindsView::Kinds(mp) => node_active(node, mp, false),
        KindsView::Absent => false,
    }
}

/// The root symbols a kept node depends on are needed, in the spaces it uses them.
pub open spec fn local_deps_kept(kv: KindsView, node: NodeView) -> bool {
    match kv {
        KindsView::Kinds(mp) => absorbed(mp, node.deps),
        _ => true,
    }
}

/// The names (or whole modules) the dependencies `ts` target are needed.
pub open spec fn targets_kept(nv: NView, ts: Seq<DepView>) -> bool {
    forall|i: int|
        0 <= i < ts.len() ==> match (#[trigger] ts[i]).1 {
            Some(y) => nv.needed[ts[i].0 as int].contains(y),
            None => nv.whole[ts[i].0 as int],
        }
}

/// Every needed name of `a` is needed in `b`, and every module needed
/// whole in `a` is needed whole in `b`.
pub open spec fn view_below(a: NView, b: NView) -> bool {
    &&& a.needed.len() == b.needed.len()
    &&& a.whole.len() == b.whole.len()
    &&& forall|x: int| 0 <= x < a.needed.len() ==> #[trigger] a.needed[x].subset_of(b.needed[x])
    &&& forall|x: int| 0 <= x < a.whole.len() && #[trigger] a.whole[x] ==> b.whole[x]
}

/// The dependency `d` is met in `nv`: its name is needed in its module, or
/// its module is needed whole.
pub open spec fn dep_met(nv: NView, d: DepView) -> bool {
    match d.1 {
        Some(y) => nv.needed[d.0 as int].contains(y),
        None => nv.whole[d.0 as int],
    }
}

proof fn lemma_view_below_trans(a: NView, b: NView, c: NView)
    requires
        view_below(a, b),
        view_below(b, c),
    ensures
        view_below(a, c),
{
    assert forall|x: int| 0 <= x < a.needed.len() implies #[trigger] a.needed[x].subset_of(c.needed[x]) by {
        assert(a.needed[x].subset_of(b.needed[x]) && b.needed[x].subset_of(c.needed[x]));
    }
    assert forall|x: int| 0 <= x < a.whole.len() && #[trigger] a.whole[x] implies c.whole[x] by {
        assert(b.whole[x]);
    }
}

proof fn lemma_dep_met_mono(a: NView, b: NView, d: DepView)
    requires
        view_below(a, b),
        d.0 < a.needed.len(),
        a.needed.len() == a.whole.len(),
        dep_met(a, d),
    ensures
        dep_met(b, d),
{
    assert(a.needed[d.0 as int].subset_of(b.needed[d.0 as int]));
    if d.1 is None {
        assert(a.whole[d.0 as int]);
    }
}

proof fn lemma_dep_actions_applied(s: NView, ds: Seq<DepView>, t: Seq<Module>)
    requires
        s.needed.len() == s.whole.len(),
        forall|i: int| 0 <= i < ds.len() ==> (#[trigger] ds[i]).0 < s.needed.len(),
    ensures
        view_below(s, apply_actions(s, dep_actions(ds), t)),
        forall|i: int| 0 <= i < ds.len() ==> dep_met(apply_actions(s, dep_actions(ds), t), #[trigger] ds[i]),
    decreases ds.len(),
{
    if ds.len() > 0 {
        let init = ds.drop_last();
        assert forall|i: int| 0 <= i < init.len() implies (#[trigger] init[i]).0 < s.needed.len() by {
            assert(init[i] == ds[i]);
        }
        lemma_dep_actions_applied(s, init, t);
        assert(dep_actions(ds).drop_last() =~= dep_actions(init));
        let prev = apply_actions(s, dep_actions(init), t);
        let d = ds.last();
        let r = apply_actions(s, dep_actions(ds), t);
        assert(r == apply_action(prev, dep_action(d), t));
        assert(view_below(prev, r)) by {
            assert forall|x: int| 0 <= x < prev.needed.len() implies #[trigger] prev.needed[x].subset_of(r.needed[x]) by {
                if x == d.0 as int {
                } else {
                }
            }
        }
        lemma_view_below_trans(s, prev, r);
        assert forall|i: int| 0 <= i < ds.len() implies dep_met(r, #[trigger] ds[i]) by {
            if i < init.len() {
                assert(init[i] == ds[i]);
                lemma_dep_met_mono(prev, r, ds[i]);
            }
        }
    }
}

proof fn lemma_node_deps_applied(s: NView, ns: Seq<NodeView>, t: Seq<Module>)
    requires
        s.needed.len() == s.whole.len(),
        forall|k: int, i: int| 0 <= k < ns.len() && 0 <= i < ns[k].targets.len() ==> (#[trigger] ns[k].targets[i]).0 < s.needed.len(),
    ensures
        view_below(s, apply_actions(s, nodes_dep_actions(ns), t)),
        forall|k: int, i: int|
            0 <= k < ns.len() && 0 <= i < ns[k].targets.len() ==> dep_met(
                apply_actions(s, nodes_dep_actions(ns), t),
                #[trigger] ns[k].targets[i],
            ),
    decreases ns.len(),
{
    if ns.len() > 0 {
        let init = ns.drop_last();
        assert forall|k: int, i: int| 0 <= k < init.len() && 0 <= i < init[k].targets.len() implies (
        #[trigger] init[k].targets[i]).0 < s.needed.len() by {
            assert(init[k] == ns[k]);
        }
        lemma_node_deps_applied(s, init, t);
        let prev = apply_actions(s, nodes_dep_actions(init), t);
        let last = ns.last();
        assert forall|i: int| 0 <= i < last.targets.len() implies (#[trigger] last.targets[i]).0 < prev.needed.len() by {
            assert(ns[ns.len() - 1].targets[i] == last.targets[i]);
        }
        lemma_dep_actions_applied(prev, last.targets, t);
        lemma_apply_actions_concat(s, nodes_dep_actions(init), dep_actions(last.targets), t);
        let r = apply_actions(s, nodes_dep_actions(ns), t);
        lemma_view_below_trans(s, prev, r);
        assert forall|k: int, i: int| 0 <= k < ns.len() && 0 <= i < ns[k].targets.len() implies dep_met(
            r,
            #[trigger] ns[k].targets[i],
        ) by {
            if k < init.len() {
                assert(init[k] == ns[k]);
                assert(dep_met(prev, init[k].targets[i]));
                lemma_dep_met_mono(prev, r, ns[k].targets[i]);
            } else {
                assert(ns[k] == last);
            }
        }
    }
}

proof fn lemma_outer_steps_grow(s: NView, kv: Seq<KindsView>, t: Seq<Module>, g: Seq<Seq<NodeView>>, entry: int, k: nat)
    requires
        s.needed.len() == t.len(),
        s.whole.len() == t.len(),
    ensures
        view_below(s, outer_steps(s, kv, t, g, entry, k).0),
    decreases k,
{
    if k == 0 {
        assert(view_below(s, s));
    } else {
        lemma_outer_steps_grow(s, kv, t, g, entry, (k - 1) as nat);
        let p = outer_steps(s, kv, t, g, entry, (k - 1) as nat);
        lemma_outer_step_grows(p.0, p.1, t, g, entry);
        lemma_view_below_trans(s, p.0, outer_step(p.0, p.1, t, g, entry).0);
    }
}

proof fn lemma_outer_step_grows(s: NView, kv: Seq<KindsView>, t: Seq<Module>, g: Seq<Seq<NodeView>>, entry: int)
    requires
        s.needed.len() == t.len(),
        s.whole.len() == t.len(),
    ensures
        view_below(s, outer_step(s, kv, t, g, entry).0),
{
    let s1 = prop_fix(s, t);
    lemma_prop_rounds_grow(s, t, choose|k: nat| prop_stable(s, t, k));
    let r = outer_step(s, kv, t, g, entry).0;
    assert forall|x: int| 0 <= x < s.needed.len() implies #[trigger] s.needed[x].subset_of(r.needed[x]) by {
        assert(s.needed[x].subset_of(s1.needed[x]));
    }
    assert forall|x: int| 0 <= x < s.whole.len() && #[trigger] s.whole[x] implies r.whole[x] by {
        assert(s1.whole[x] == s.whole[x]);
    }
}

/// What tree-shaking keeps of the entry is closed too: every dependency of
/// a declaration of the entry (the entry keeps all of them) is met.
proof fn lemma_entry_deps_kept(seeded: NView, t: Seq<Module>, g: Seq<Seq<NodeView>>, entry: int)
    requires
        seeded.needed.len() == t.len(),
        seeded.whole.len() == t.len(),
        0 <= entry < t.len(),
        graph_ok(t, g),
        forall|k: int, i: int|
            0 <= k < g[entry].len() && 0 <= i < g[entry][k].targets.len() ==> dep_met(seeded, #[trigger] g[entry][k].targets[i]),
    ensures
        forall|k: int|
            0 <= k < g[entry].len() ==> targets_kept(
                needed_fix(seeded, Seq::new(t.len(), |m: int| KindsView::Absent), t, g, entry).0,
                #[trigger] g[entry][k].targets,
            ),
{
    let kv0 = Seq::new(t.len(), |m: int| KindsView::Absent);
    let k0 = choose|k: nat| first_stable(seeded, kv0, t, g, entry, k);
    let p = outer_steps(seeded, kv0, t, g, entry, k0);
    lemma_outer_steps_grow(seeded, kv0, t, g, entry, k0);
    lemma_outer_step_grows(p.0, p.1, t, g, entry);
    let fin = needed_fix(seeded, kv0, t, g, entry).0;
    assert(fin == outer_step(p.0, p.1, t, g, entry).0);
    lemma_view_below_trans(seeded, p.0, fin);
    assert forall|k: int| 0 <= k < g[entry].len() implies targets_kept(fin, #[trigger] g[entry][k].targets) by {
        assert forall|i: int| 0 <= i < g[entry][k].targets.len() implies dep_met(fin, #[trigger] g[entry][k].targets[i]) by {
            lemma_dep_met_mono(seeded, fin, g[entry][k].targets[i]);
        }
        assert forall|i: int| 0 <= i < g[entry][k].targets.len() implies match (#[trigger] g[entry][k].targets[i]).1 {
            Some(y) => fin.needed[g[entry][k].targets[i].0 as int].contains(y),
            None => fin.whole[g[entry][k].targets[i].0 as int],
        } by {
            assert(dep_met(fin, g[entry][k].targets[i]));
        }
    }
}

/// The plan is closed under the declaration graph: in every module but the
/// entry, each kept declaration has its root-symbol dependencies kept and its
/// dependencies on other modules kept there.
pub open spec fn needed_closed(t: Seq<Module>, g: Seq<Seq<NodeView>>, entry: int, plan: PlanView, nv: NView) -> bool {
    forall|m: int, k: int|
        0 <= m < t.len() && m != entry && 0 <= k < g[m].len() && kept_node(plan.kinds[m], #[trigger] g[m][k]) ==> local_deps_kept(
            plan.kinds[m],
            g[m][k],
        ) && targets_kept(nv, g[m][k].targets)
}

proof fn lemma_prop_rounds_grow(s: NView, t: Seq<Module>, k: nat)
    ensures
        prop_rounds(s, t, k).needed.len() == s.needed.len(),
        prop_rounds(s, t, k).whole == s.whole,
        forall|x: int| 0 <= x < s.needed.len() ==> s.needed[x].subset_of(#[trigger] prop_rounds(s, t, k).needed[x]),
    decreases k,
{
    if k > 0 {
        lemma_prop_rounds_grow(s, t, (k - 1) as nat);
        let prev = prop_rounds(s, t, (k - 1) as nat);
        assert forall|x: int| 0 <= x < s.needed.len() implies s.needed[x].subset_of(#[trigger] prop_rounds(s, t, k).needed[x]) by {
            assert(s.needed[x].subset_of(prev.needed[x]));
            assert(prop_rounds(s, t, k).needed[x] == prev.needed[x].union(propagated_to(prev, t, x)));
        }
    }
}

/// Once a round changes no needed name, the result of that round is closed
/// under the declaration graph.
proof fn lemma_needed_closed(t: Seq<Module>, g: Seq<Seq<NodeView>>, entry: int, p: (NView, Seq<KindsView>))
    requires
        outer_step(p.0, p.1, t, g, entry).0 == p.0,
        kinds_closed(outer_step(p.0, p.1, t, g, entry).1, g),
        graph_ok(t, g),
    ensures
        ({
            let fin = outer_step(p.0, p.1, t, g, entry);
            needed_closed(t, g, entry, plan_of(fin.0, fin.1, t), fin.0)
        }),
{
    let fin = outer_step(p.0, p.1, t, g, entry);
    let nv = fin.0;
    let kv = p.1;
    let s1 = prop_fix(p.0, t);
    lemma_prop_rounds_grow(p.0, t, choose|k: nat| prop_stable(p.0, t, k));
    let plan = plan_of(fin.0, fin.1, t);
    assert forall|m: int| 0 <= m < t.len() implies #[trigger] s1.needed[m] == nv.needed[m] && s1.whole[m] == nv.whole[m] by {
        assert(p.0.needed[m].subset_of(s1.needed[m]));
        assert(nv.needed[m] == s1.needed[m].union(round_adds(s1, t, g, kv, entry, m)).union(
            if round_whole(s1, t, g, kv, entry, m) { all_exported_names(t[m]) } else { Set::empty() },
        ));
        assert(s1.needed[m] =~= nv.needed[m]);
    }
    assert forall|m: int, k: int|
        0 <= m < t.len() && m != entry && 0 <= k < g[m].len() && kept_node(plan.kinds[m], #[trigger] g[m][k]) implies local_deps_kept(
            plan.kinds[m],
            g[m][k],
        ) && targets_kept(nv, g[m][k].targets) by {
        assert(s1.needed[m] == nv.needed[m] && s1.whole[m] == nv.whole[m]);
        assert(plan.kinds[m] == fin.1[m]);
        let f = fix_of(s1, t, g, kv, m);
        let w = whole_in(s1, t, m);
        assert(expanded(s1, t, m, entry));
        assert(node_active(g[m][k], f, w));
        let ts = g[m][k].targets;
        assert forall|i: int| 0 <= i < ts.len() implies match (#[trigger] ts[i]).1 {
            Some(y) => nv.needed[ts[i].0 as int].contains(y),
            None => nv.whole[ts[i].0 as int],
        } by {
            let x = ts[i].0 as int;
            assert(x < t.len());
            match ts[i].1 {
                Some(y) => {
                    assert(active_targets(g[m], f, w, g[m].len() as int, x, Some(y)));
                    assert(round_adds(s1, t, g, kv, entry, x).contains(y));
                },
                None => {
                    assert(active_targets(g[m], f, w, g[m].len() as int, x, None));
                    assert(round_whole(s1, t, g, kv, entry, x));
                },
            }
        }
        if !w {
            assert(fin.1[m] == KindsView::Kinds(f));
            assert(exp_step(f, g[m], false) == f);
            lemma_merge_nodes(f, g[m], active_vec(g[m], f, false), g[m].len());
            assert(active_vec(g[m], f, false)[k]);
        }
    }
}

/// The needed names and modules needed whole once tree-shaking settles.
pub open spec fn needed_view(t: Seq<Module>, g: Seq<Seq<NodeView>>, entry: int) -> NView {
    let seeded = apply_actions(empty_view(t.len()), seed_actions(t, g, entry as ModuleIdx), t);
    needed_fix(seeded, Seq::new(t.len(), |m: int| KindsView::Absent), t, g, entry).0
}

/// What tree-shaking computes for entry `entry` of table `t` with
/// declaration graph `g`.
pub open spec fn needed_plan(t: Seq<Module>, g: Seq<Seq<NodeView>>, entry: int) -> PlanView {
    let seeded = apply_actions(empty_view(t.len()), seed_actions(t, g, entry as ModuleIdx), t);
    let r = needed_fix(seeded, Seq::new(t.len(), |m: int| KindsView::Absent), t, g, entry);
    plan_of(r.0, r.1, t)
}

impl NeededState {
    /// The root symbols the needed names of module `m` bind.
    fn needed_symbols_of(&self, m: usize, module: &Module) -> (r: Vec<SymbolId>)
        requires
            self.wf(self.rows@.len()),
            m < self.rows@.len(),
        ensures
            r@.to_set() == bound_symbols(*module, self@.needed[m as int]),
    {
        let ghost nv = str_views(self.names@);
        let row = &self.rows[m];
        let mut out: Vec<SymbolId> = Vec::new();
        let mut j: usize = 0;
        while j < self.names.len()
            invariant
                0 <= j <= self.names@.len(),
                self.wf(self.rows@.len()),
                m < self.rows@.len(),
                *row == self.rows@[m as int],
                nv == str_views(self.names@),
                forall|s: SymbolId| #[trigger] out@.contains(s) <==> exists|q: int|
                    0 <= q < j && row@[q] && root_binding_of(module.scoping.root_bindings@, #[trigger] nv[q]) == Some(s),
            decreases self.names@.len() - j,
        {
            let ghost ob = out@;
            if row[j] {
                if let Some(sym) = module.scoping.get_root_binding(self.names[j].as_str()) {
                    out.push(sym);
                    assert(out@[ob.len() as int] == sym);
                }
            }
            proof {
                assert forall|s: SymbolId| #[trigger] out@.contains(s) <==> exists|q: int|
                    0 <= q < j + 1 && row@[q] && root_binding_of(module.scoping.root_bindings@, #[trigger] nv[q]) == Some(s) by {
                    if out@.contains(s) && !ob.contains(s) {
                        assert(row@[j as int] && root_binding_of(module.scoping.root_bindings@, nv[j as int]) == Some(s));
                    }
                    if ob.contains(s) {
                        let q = choose|q: int| 0 <= q < ob.len() && ob[q] == s;
                        assert(out@[q] == s);
                    }
                    if exists|q: int| 0 <= q < j + 1 && row@[q] && root_binding_of(module.scoping.root_bindings@, #[trigger] nv[q]) == Some(s) {
                        let q = choose|q: int| 0 <= q < j + 1 && row@[q] && root_binding_of(module.scoping.root_bindings@, #[trigger] nv[q]) == Some(s);
                        if q == j {
                            assert(out@[ob.len() as int] == s);
                        } else {
                            assert(ob.contains(s));
                            let q2 = choose|q2: int| 0 <= q2 < ob.len() && ob[q2] == s;
                            assert(out@[q2] == s);
                        }
                    }
                }
            }
            j += 1;
        }
        proof {
            assert forall|s: SymbolId| #[trigger] out@.to_set().contains(s) <==> bound_symbols(*module, self@.needed[m as int]).contains(s) by {
                if bound_symbols(*module, self@.needed[m as int]).contains(s) {
                    let x = choose|x: Seq<char>| #[trigger] self@.needed[m as int].contains(x)
                        && root_binding_of(module.scoping.root_bindings@, x) == Some(s);
                    let q = choose|q: int| 0 <= q < row@.len() && row@[q] && nv[q] == x;
                    assert(root_binding_of(module.scoping.root_bindings@, nv[q]) == Some(s));
                }
                if out@.contains(s) {
                    let q = choose|q: int| 0 <= q < j && row@[q] && root_binding_of(module.scoping.root_bindings@, #[trigger] nv[q]) == Some(s);
                    assert(self@.needed[m as int].contains(nv[q]));
                }
            }
            assert(out@.to_set() =~= bound_symbols(*module, self@.needed[m as int]));
        }
        out
    }
}


proof fn lemma_first_stable_unique(s: NView, kv: Seq<KindsView>, t: Seq<Module>, g: Seq<Seq<NodeView>>, entry: int, k: nat)
    requires
        first_stable(s, kv, t, g, entry, k),
    ensures
        needed_fix(s, kv, t, g, entry) == ({
            let p = outer_steps(s, kv, t, g, entry, k);
            outer_step(p.0, p.1, t, g, entry)
        }),
{
    let k2 = choose|k2: nat| first_stable(s, kv, t, g, entry, k2);
    if k2 < k {
        assert(!outer_stable(s, kv, t, g, entry, k2));
    } else if k < k2 {
        assert(!outer_stable(s, kv, t, g, entry, k));
    }
}

/// Determines which names of each module the bundle of entry `entry_idx`
/// needs (tree-shaking). The entry's re-exports, the imports behind its
/// exports and the dependencies of all its declarations seed the needed
/// names; then rounds alternate propagation along re-exports (until it
/// settles) with the expansion of every needed module other than the entry
/// (needed declarations pull in the declarations, names and modules they
/// depend on), until a round adds nothing. `graph` holds every module's
/// declarations.
///
/// What it keeps is closed under the declaration graph: every dependency of
/// a kept declaration (the entry keeps all of its own) is kept, root
/// symbols in the spaces the declaration uses them, names of other modules
/// as needed names, whole modules as needed whole. Every needed name has a
/// recorded reason, and every recorded reason names a needed name.
pub fn build_needed_names(entry_idx: ModuleIdx, table: &ModuleTable, graph: &Vec<Vec<DeclarationNode>>) -> (plan: NeededNamesPlan)
    requires
        table.wf(),
        entry_idx < table.modules@.len(),
        graph_ok(table.modules@, graph_views(graph@)),
    ensures
        plan@ == needed_plan(table.modules@, graph_views(graph@), entry_idx as int),
        needed_closed(
            table.modules@,
            graph_views(graph@),
            entry_idx as int,
            plan@,
            needed_view(table.modules@, graph_views(graph@), entry_idx as int),
        ),
        forall|k: int|
            0 <= k < graph_views(graph@)[entry_idx as int].len() ==> targets_kept(
                needed_view(table.modules@, graph_views(graph@), entry_idx as int),
                #[trigger] graph_views(graph@)[entry_idx as int][k].targets,
            ),
        forall|m: int, x: Seq<char>|
            0 <= m < table.modules@.len() && #[trigger] needed_view(table.modules@, graph_views(graph@), entry_idx as int).needed[m].contains(x)
                ==> reasons_of(plan.reasons@, m, x) != Set::<NeededReason>::empty(),
        forall|i: int|
            0 <= i < plan.reasons@.len() ==> (#[trigger] plan.reasons@[i]).0 < table.modules@.len() && needed_view(
                table.modules@,
                graph_views(graph@),
                entry_idx as int,
            ).needed[plan.reasons@[i].0 as int].contains(plan.reasons@[i].1@),
{
    let ghost t = table.modules@;
    let ghost g = graph_views(graph@);
    let n = table.modules.len();
    let names = collect_name_universe(table, graph);
    let mut state = NeededState::new(names, n);
    assert(state@ =~= empty_view(n as nat)) by {
        assert(state@.needed =~= empty_view(n as nat).needed);
    }
    state.seed_entry_exports(entry_idx, table, graph);
    let ghost seeded = state@;
    let mut kinds: Vec<SymbolKinds> = Vec::new();
    assert(kinds_views(kinds@) =~= Seq::new(0 as nat, |m: int| KindsView::Absent));
    let mut i: usize = 0;
    while i < n
        invariant
            0 <= i <= n,
            kinds_views(kinds@) == Seq::new(i as nat, |m: int| KindsView::Absent),
        decreases n - i,
    {
        let ghost kb = kinds@;
        kinds.push(SymbolKinds::Absent);
        assert(kinds_views(kinds@) =~= kinds_views(kb).push(KindsView::Absent));
        assert(kinds_views(kinds@) =~= Seq::new((i + 1) as nat, |m: int| KindsView::Absent));
        i += 1;
    }
    let ghost kv0 = kinds_views(kinds@);
    let ghost mut k: nat = 0;
    let mut progress = true;
    while progress
        invariant
            table.wf(),
            t == table.modules@,
            g == graph_views(graph@),
            n == t.len(),
            entry_idx < n,
            graph_ok(t, g),
            state_ok(state, t, g),
            kinds@.len() == n,
            kinds_closed(kinds_views(kinds@), g),
            progress ==> (state@, kinds_views(kinds@)) == outer_steps(seeded, kv0, t, g, entry_idx as int, k),
            progress ==> forall|j: nat| j < k ==> !#[trigger] outer_stable(seeded, kv0, t, g, entry_idx as int, j),
            !progress ==> first_stable(seeded, kv0, t, g, entry_idx as int, k) && (state@, kinds_views(kinds@)) == ({
                let p = outer_steps(seeded, kv0, t, g, entry_idx as int, k);
                outer_step(p.0, p.1, t, g, entry_idx as int)
            }),
        decreases state.measure() + (if progress { 1nat } else { 0nat }),
    {
        let ghost before = state@;
        let changed = state.outer_round(&mut kinds, table, graph, entry_idx);
        if changed {
            proof {
                k = k + 1;
                assert forall|j: nat| j < k implies !#[trigger] outer_stable(seeded, kv0, t, g, entry_idx as int, j) by {
                    if j == k - 1 {
                        assert(outer_steps(seeded, kv0, t, g, entry_idx as int, (k - 1) as nat).0 == before);
                    }
                }
            }
        } else {
            progress = false;
        }
    }
    proof {
        lemma_first_stable_unique(seeded, kv0, t, g, entry_idx as int, k);
        let p = outer_steps(seeded, kv0, t, g, entry_idx as int, k);
        assert(outer_stable(seeded, kv0, t, g, entry_idx as int, k));
        lemma_needed_closed(t, g, entry_idx as int, p);
        lemma_entry_deps_kept(seeded, t, g, entry_idx as int);
    }
    let ghost fin = needed_fix(seeded, kv0, t, g, entry_idx as int);
    let mut map: Vec<Option<Option<Vec<SymbolId>>>> = Vec::new();
    let mut symbol_kinds: Vec<SymbolKinds> = Vec::new();
    let ghost target = plan_of(fin.0, fin.1, t);
    let mut m: usize = 0;
    while m < n
        invariant
            0 <= m <= n,
            t == table.modules@,
            n == t.len(),
            state_ok(state, t, g),
            kinds@.len() == n,
            state@ == fin.0,
            kinds_views(kinds@) == fin.1,
            target == plan_of(fin.0, fin.1, t),
            map@.len() == m,
            symbol_kinds@.len() == m,
            forall|q: int| 0 <= q < m ==> map_entry_view(#[trigger] map@[q]) == target.map[q],
            forall|q: int| 0 <= q < m ==> (#[trigger] symbol_kinds@[q])@ == target.kinds[q],
        decreases n - m,
    {
        let module = &table.modules[m];
        let ghost kb = symbol_kinds@;
        let ghost mb = map@;
        if state.has_any(m) {
            if state.whole[m] || module.has_augmentation {
                map.push(Some(None));
                symbol_kinds.push(SymbolKinds::All);
            } else {
                let syms = state.needed_symbols_of(m, module);
                map.push(Some(Some(syms)));
                let sk = match &kinds[m] {
                    SymbolKinds::Absent => {
                        let e: Vec<(SymbolId, NeededKindFlags)> = Vec::new();
                        proof {
                            assert(flag_views(e@) =~= Seq::<(SymbolId, u8)>::empty());
                            assert(kind_map(flag_views(e@)) =~= Map::<SymbolId, u8>::empty());
                        }
                        SymbolKinds::Kinds(e)
                    },
                    SymbolKinds::All => SymbolKinds::All,
                    SymbolKinds::Kinds(v) => {
                        let mut c: Vec<(SymbolId, NeededKindFlags)> = Vec::new();
                        let mut q: usize = 0;
                        while q < v.len()
                            invariant
                                0 <= q <= v@.len(),
                                flag_views(c@) == flag_views(v@).take(q as int),
                            decreases v@.len() - q,
                        {
                            let e = v[q];
                            let ghost cb = flag_views(c@);
                            c.push(e);
                            assert(flag_views(c@) =~= cb.push((e.0, e.1.0)));
                            assert(flag_views(v@).take(q + 1) =~= flag_views(v@).take(q as int).push(flag_views(v@)[q as int]));
                            q += 1;
                        }
                        assert(flag_views(v@).take(q as int) =~= flag_views(v@));
                        SymbolKinds::Kinds(c)
                    },
                };
                symbol_kinds.push(sk);
            }
        } else {
            let sk = match &kinds[m] {
                SymbolKinds::Absent => SymbolKinds::Absent,
                SymbolKinds::All => SymbolKinds::All,
                SymbolKinds::Kinds(v) => {
                    let mut c: Vec<(SymbolId, NeededKindFlags)> = Vec::new();
                    let mut q: usize = 0;
                    while q < v.len()
                        invariant
                            0 <= q <= v@.len(),
                            flag_views(c@) == flag_views(v@).take(q as int),
                        decreases v@.len() - q,
                    {
                        let e = v[q];
                        let ghost cb = flag_views(c@);
                        c.push(e);
                        assert(flag_views(c@) =~= cb.push((e.0, e.1.0)));
                        assert(flag_views(v@).take(q + 1) =~= flag_views(v@).take(q as int).push(flag_views(v@)[q as int]));
                        q += 1;
                    }
                    assert(flag_views(v@).take(q as int) =~= flag_views(v@));
                    SymbolKinds::Kinds(c)
                },
            };
            map.push(None);
            symbol_kinds.push(sk);
        }
        proof {
            assert(kinds_views(kinds@)[m as int] == kinds@[m as int]@);
            assert forall|q: int| 0 <= q < m + 1 implies (#[trigger] symbol_kinds@[q])@ == target.kinds[q] by {
                if q < m {
                    assert(symbol_kinds@[q] == kb[q]);
                }
            }
            assert forall|q: int| 0 <= q < m + 1 implies map_entry_view(#[trigger] map@[q]) == target.map[q] by {
                if q < m {
                    assert(map@[q] == mb[q]);
                }
            }
        }
        m += 1;
    }
    proof {
        assert(state.wf(n as nat));
        assert(needed_view(t, g, entry_idx as int) == fin.0);
        assert forall|m: int, x: Seq<char>| 0 <= m < t.len() && #[trigger] fin.0.needed[m].contains(x) implies reasons_of(
            state.reasons@,
            m,
            x,
        ) != Set::<NeededReason>::empty() by {
            let j = choose|j: int| 0 <= j < state.rows@[m]@.len() && state.rows@[m]@[j] && str_views(state.names@)[j] == x;
            assert(state.names@[j]@ == x);
        }
    }
    let plan = NeededNamesPlan { map, symbol_kinds, reasons: state.reasons };
    proof {
        assert(plan@.kinds =~= target.kinds);
        assert(plan@.map =~= target.map);
    }
    plan
}


// ---------------------------------------------------------------------------
// Declaration nodes from what a statement declares and refers to.

/// The name of the first root binding of symbol `s`.
pub open spec fn root_name_of(bs: Seq<crate::model::RootBinding>, s: SymbolId) -> Option<Seq<char>>
    decreases bs.len(),
{
    if bs.len() == 0 {
        None
    } else if bs[0].symbol == s {
        Some(bs[0].name@)
    } else {
        root_name_of(bs.drop_first(), s)
    }
}

/// How a reference to a root symbol counts for a declaration.
pub enum RefClass {
    /// A dependency on a root symbol of the module itself.
    Local(SymbolId, u8),
    /// A dependency on a name of another module (`None`: the whole module).
    Cross(ModuleIdx, Option<Seq<char>>),
    /// Not a dependency the analysis follows (an import of an external module).
    Dropped,
}

/// The class of reference `(s, k)` from module `m`: an imported symbol is a
/// dependency on what it imports from an internal module (through the
/// source's export aliases); an import binding that is not recorded stays
/// local; other symbols are local.
pub open spec fn ref_class(m: Module, t: Seq<Module>, s: SymbolId, k: u8) -> RefClass {
    if flags_of(m.scoping.root_bindings@, s) & crate::flags::IMPORT_MASK != 0 {
        match root_name_of(m.scoping.root_bindings@, s) {
            None => RefClass::Dropped,
            Some(ln) => match assoc_get(m.export_import_info.named_imports@, ln) {
                None => RefClass::Local(s, k),
                Some(b) => match resolve_internal(m, b.source_specifier@) {
                    None => RefClass::Dropped,
                    Some(ti) => RefClass::Cross(
                        ti,
                        match b.kind {
                            ImportBindingKind::Named(imp) => Some(resolved_local(t[ti as int], imp@)),
                            ImportBindingKind::Default => Some(resolved_local(t[ti as int], "default"@)),
                            ImportBindingKind::Namespace => None,
                        },
                    ),
                },
            },
        }
    } else {
        RefClass::Local(s, k)
    }
}

/// The local symbol dependencies among the references `refs`, in order.
pub open spec fn local_refs(m: Module, t: Seq<Module>, refs: Seq<(SymbolId, u8)>) -> Seq<(SymbolId, u8)>
    decreases refs.len(),
{
    if refs.len() == 0 {
        Seq::empty()
    } else {
        let prev = local_refs(m, t, refs.drop_last());
        match ref_class(m, t, refs.last().0, refs.last().1) {
            RefClass::Local(s, k) => prev.push((s, k)),
            _ => prev,
        }
    }
}

/// The cross-module dependencies among the references `refs`, in order.
pub open spec fn cross_refs(m: Module, t: Seq<Module>, refs: Seq<(SymbolId, u8)>) -> Seq<DepView>
    decreases refs.len(),
{
    if refs.len() == 0 {
        Seq::empty()
    } else {
        let prev = cross_refs(m, t, refs.drop_last());
        match ref_class(m, t, refs.last().0, refs.last().1) {
            RefClass::Cross(ti, name) => prev.push((ti, name)),
            _ => prev,
        }
    }
}

/// The targets of the inline `import("..")` types `raw` (specifier and the
/// first name of the qualifier): internal modules, with the local name the
/// qualifier stands for there.
pub open spec fn inline_refs(m: Module, t: Seq<Module>, raw: Seq<(Seq<char>, Option<Seq<char>>)>) -> Seq<DepView>
    decreases raw.len(),
{
    if raw.len() == 0 {
        Seq::empty()
    } else {
        let prev = inline_refs(m, t, raw.drop_last());
        match resolve_internal(m, raw.last().0) {
            Some(ti) => prev.push((
                ti,
                match raw.last().1 {
                    Some(q) => Some(resolved_local(t[ti as int], q)),
                    None => None,
                },
            )),
            None => prev,
        }
    }
}

/// The root symbols the names `names` declare, in the spaces `dk` that the
/// symbols can be referenced from.
pub open spec fn declared_symbols(m: Module, names: Seq<Seq<char>>, dk: u8) -> Seq<(SymbolId, u8)>
    decreases names.len(),
{
    if names.len() == 0 {
        Seq::empty()
    } else {
        let prev = declared_symbols(m, names.drop_last(), dk);
        match root_binding_of(m.scoping.root_bindings@, names.last()) {
            Some(s) => {
                let k = dk & kinds_of_symbol_flags(flags_of(m.scoping.root_bindings@, s));
                if k != 0 {
                    prev.push((s, k))
                } else {
                    prev
                }
            },
            None => prev,
        }
    }
}

/// The node of a statement of module `m`: none when it declares nothing
/// (or nothing in any space) and is not always kept.
pub open spec fn node_of(
    m: Module,
    t: Seq<Module>,
    names: Seq<Seq<char>>,
    dk: u8,
    always: bool,
    refs: Seq<(SymbolId, u8)>,
    raw: Seq<(Seq<char>, Option<Seq<char>>)>,
) -> Option<NodeView> {
    if (names.len() == 0 || dk == 0) && !always {
        None
    } else {
        Some(NodeView {
            declared_names: names,
            declared: if dk == 0 { Seq::empty() } else { declared_symbols(m, names, dk) },
            deps: local_refs(m, t, refs),
            targets: cross_refs(m, t, refs) + inline_refs(m, t, raw),
            dep_reasons: Seq::new(cross_refs(m, t, refs).len(), |i: int| NeededReason::CrossModuleImportDependency),
            always,
        })
    }
}

/// The name of the first root binding of `symbol`.
fn root_name(module: &Module, symbol: SymbolId) -> (r: Option<&str>)
    ensures
        match r {
            Some(x) => root_name_of(module.scoping.root_bindings@, symbol) == Some(x@),
            None => root_name_of(module.scoping.root_bindings@, symbol) is None,
        },
{
    let bs = &module.scoping.root_bindings;
    let mut i: usize = 0;
    assert(bs@.skip(0) =~= bs@);
    while i < bs.len()
        invariant
            0 <= i <= bs@.len(),
            *bs == module.scoping.root_bindings,
            root_name_of(bs@, symbol) == root_name_of(bs@.skip(i as int), symbol),
        decreases bs@.len() - i,
    {
        assert(bs@.skip(i as int).drop_first() =~= bs@.skip(i + 1));
        if bs[i].symbol == symbol {
            return Some(bs[i].name.as_str());
        }
        i += 1;
    }
    None
}

/// Builds the node of a statement of module `module_idx` from what the
/// statement declares (`declared_names`, in the spaces `declared_kinds`),
/// whether it is always kept, the root symbols it refers to (with the
/// spaces used) and its inline `import("..")` types (specifier and first
/// qualifier name). An imported symbol becomes a dependency on what it
/// imports from an internal module.
pub fn declaration_node(
    module_idx: ModuleIdx,
    table: &ModuleTable,
    declared_names: Vec<String>,
    declared_kinds: NeededKindFlags,
    is_always_retained: bool,
    referenced: &Vec<(SymbolId, NeededKindFlags)>,
    inline_imports: &Vec<(String, Option<String>, NeededKindFlags)>,
) -> (r: Option<DeclarationNode>)
    requires
        table.wf(),
        module_idx < table.modules@.len(),
    ensures
        match r {
            Some(node) => node_of(
                table.modules@[module_idx as int],
                table.modules@,
                str_views(declared_names@),
                declared_kinds.0,
                is_always_retained,
                flag_views(referenced@),
                inline_imports@.map_values(|e: (String, Option<String>, NeededKindFlags)| (e.0@, opt_view(e.1))),
            ) == Some(node@) && forall|i: int| 0 <= i < node.cross_module_deps@.len() ==> (#[trigger] node.cross_module_deps@[i]).reason
                == NeededReason::CrossModuleImportDependency,
            None => node_of(
                table.modules@[module_idx as int],
                table.modules@,
                str_views(declared_names@),
                declared_kinds.0,
                is_always_retained,
                flag_views(referenced@),
                inline_imports@.map_values(|e: (String, Option<String>, NeededKindFlags)| (e.0@, opt_view(e.1))),
            ) is None,
        },
{
    let ghost t = table.modules@;
    let module = &table.modules[module_idx];
    let ghost names = str_views(declared_names@);
    let ghost refs = flag_views(referenced@);
    let ghost raw = inline_imports@.map_values(|e: (String, Option<String>, NeededKindFlags)| (e.0@, opt_view(e.1)));
    if (declared_names.len() == 0 || declared_kinds.is_empty()) && !is_always_retained {
        return None;
    }
    let mut declared_root_symbols: Vec<(SymbolId, NeededKindFlags)> = Vec::new();
    if !declared_kinds.is_empty() {
        let mut i: usize = 0;
        while i < declared_names.len()
            invariant
                0 <= i <= declared_names@.len(),
                names == str_views(declared_names@),
                declared_kinds.0 != 0,
                flag_views(declared_root_symbols@) == declared_symbols(*module, names.take(i as int), declared_kinds.0),
            decreases declared_names@.len() - i,
        {
            proof {
                let tk = names.take(i + 1);
                assert(tk.drop_last() =~= names.take(i as int));
                assert(tk.last() == declared_names@[i as int]@);
            }
            if let Some(sym) = module.scoping.get_root_binding(declared_names[i].as_str()) {
                let kinds = declared_kinds.intersection(NeededKindFlags::from_symbol_flags(module.scoping.symbol_flags(sym)));
                if !kinds.is_empty() {
                    let ghost b = flag_views(declared_root_symbols@);
                    declared_root_symbols.push((sym, kinds));
                    assert(flag_views(declared_root_symbols@) =~= b.push((sym, kinds.0)));
                }
            }
            i += 1;
        }
        assert(names.take(i as int) =~= names);
    } else {
        assert(flag_views(declared_root_symbols@) =~= Seq::<(SymbolId, u8)>::empty());
    }
    let mut local_symbol_deps: Vec<(SymbolId, NeededKindFlags)> = Vec::new();
    let mut cross_module_deps: Vec<CrossModuleDep> = Vec::new();
    let mut i: usize = 0;
    while i < referenced.len()
        invariant
            0 <= i <= referenced@.len(),
            table.wf(),
            t == table.modules@,
            module_idx < t.len(),
            *module == t[module_idx as int],
            refs == flag_views(referenced@),
            flag_views(local_symbol_deps@) == local_refs(*module, t, refs.take(i as int)),
            cross_module_deps@.map_values(|d: CrossModuleDep| (d.target_module_idx, opt_view(d.target_name))) == cross_refs(*module, t, refs.take(i as int)),
            forall|q: int| 0 <= q < cross_module_deps@.len() ==> (#[trigger] cross_module_deps@[q]).reason == NeededReason::CrossModuleImportDependency,
        decreases referenced@.len() - i,
    {
        let (sym, kind) = referenced[i];
        proof {
            let tk = refs.take(i + 1);
            assert(tk.drop_last() =~= refs.take(i as int));
            assert(tk.last() == (sym, kind.0));
        }
        let ghost lb = flag_views(local_symbol_deps@);
        let ghost cb = cross_module_deps@.map_values(|d: CrossModuleDep| (d.target_module_idx, opt_view(d.target_name)));
        let flags = module.scoping.symbol_flags(sym);
        if crate::flags::symbol_is_import(flags) {
            if let Some(local_name) = root_name(module, sym) {
                match crate::model::assoc_find(&module.export_import_info.named_imports, local_name) {
                    None => {
                        local_symbol_deps.push((sym, kind));
                        assert(flag_views(local_symbol_deps@) =~= lb.push((sym, kind.0)));
                    },
                    Some(binding) => {
                        if let Some(ti) = module.resolve_internal_specifier(binding.source_specifier.as_str()) {
                            proof {
                                lemma_internal_below(table, module_idx, binding.source_specifier@);
                            }
                            let target_name = match &binding.kind {
                                ImportBindingKind::Named(imp) => Some(resolved_local_name(&table.modules[ti], imp.as_str())),
                                ImportBindingKind::Default => {
                                    let d = "default";
                                    proof {
                                        reveal_strlit("default");
                                    }
                                    Some(resolved_local_name(&table.modules[ti], d))
                                },
                                ImportBindingKind::Namespace => None,
                            };
                            let dep = CrossModuleDep {
                                target_module_idx: ti,
                                target_name,
                                reason: NeededReason::CrossModuleImportDependency,
                            };
                            let ghost dv = (dep.target_module_idx, opt_view(dep.target_name));
                            cross_module_deps.push(dep);
                            assert(cross_module_deps@.map_values(|d: CrossModuleDep| (d.target_module_idx, opt_view(d.target_name))) =~= cb.push(dv));
                        }
                    },
                }
            }
        } else {
            local_symbol_deps.push((sym, kind));
            assert(flag_views(local_symbol_deps@) =~= lb.push((sym, kind.0)));
        }
        i += 1;
    }
    assert(refs.take(i as int) =~= refs);
    let mut inline_import_deps: Vec<InlineImportDep> = Vec::new();
    let mut i: usize = 0;
    while i < inline_imports.len()
        invariant
            0 <= i <= inline_imports@.len(),
            table.wf(),
            t == table.modules@,
            module_idx < t.len(),
            *module == t[module_idx as int],
            raw == inline_imports@.map_values(|e: (String, Option<String>, NeededKindFlags)| (e.0@, opt_view(e.1))),
            inline_import_deps@.map_values(|d: InlineImportDep| (d.target_module_idx, opt_view(d.target_name))) == inline_refs(*module, t, raw.take(i as int)),
        decreases inline_imports@.len() - i,
    {
        let (ref spec, ref qual, kind) = inline_imports[i];
        proof {
            let tk = raw.take(i + 1);
            assert(tk.drop_last() =~= raw.take(i as int));
            assert(tk.last() == (spec@, opt_view(*qual)));
        }
        let ghost ib = inline_import_deps@.map_values(|d: InlineImportDep| (d.target_module_idx, opt_view(d.target_name)));
        if let Some(ti) = module.resolve_internal_specifier(spec.as_str()) {
            proof {
                lemma_internal_below(table, module_idx, spec@);
            }
            let target_name = match qual {
                Some(q) => Some(resolved_local_name(&table.modules[ti], q.as_str())),
                None => None,
            };
            let dep = InlineImportDep { target_module_idx: ti, target_name, kind };
            let ghost dv = (dep.target_module_idx, opt_view(dep.target_name));
            inline_import_deps.push(dep);
            assert(inline_import_deps@.map_values(|d: InlineImportDep| (d.target_module_idx, opt_view(d.target_name))) =~= ib.push(dv));
        }
        i += 1;
    }
    assert(raw.take(i as int) =~= raw);
    let node = DeclarationNode {
        declared_names,
        declared_root_symbols,
        local_symbol_deps,
        cross_module_deps,
        inline_import_deps,
        is_always_retained,
    };
    assert(node@.declared_names == names);
    assert(node@.targets =~= cross_refs(*module, t, refs) + inline_refs(*module, t, raw));
    assert(node@.dep_reasons =~= Seq::new(cross_refs(*module, t, refs).len(), |i: int| NeededReason::CrossModuleImportDependency));
    Some(node)
}


/// All names module `module_idx` exports, by their local names (the
/// exported name for re-exports from other modules); `default` only when it
/// names something other than an `export default` declaration.
pub fn collect_all_exported_names(module_idx: ModuleIdx, table: &ModuleTable) -> (r: Vec<String>)
    requires
        module_idx < table.modules@.len(),
    ensures
        str_views(r@).to_set() == all_exported_names(table.modules@[module_idx as int]),
        str_views(r@).no_duplicates(),
{
    let module = &table.modules[module_idx];
    let info = &module.export_import_info;
    let key = "default";
    proof {
        reveal_strlit("default");
    }
    let default_named = match crate::model::assoc_find(&info.named_exports, key) {
        Some(e) => match e.source {
            ExportSource::Default => false,
            _ => true,
        },
        None => false,
    };
    let mut out: Vec<String> = Vec::new();
    let mut i: usize = 0;
    while i < info.named_exports.len()
        invariant
            0 <= i <= info.named_exports@.len(),
            *info == module.export_import_info,
            default_named == default_is_named(*module),
            key@ == "default"@,
            forall|x: Seq<char>| #[trigger] str_views(out@).contains(x) <==> exported_prefix(*module, i as int).contains(x),
            str_views(out@).no_duplicates(),
        decreases info.named_exports@.len() - i,
    {
        let e = &info.named_exports[i];
        let name: &str = match &e.1.source {
            ExportSource::SourceReexport { .. } => e.0.as_str(),
            _ => e.1.local_name.as_str(),
        };
        assert(name@ == entry_name(info.named_exports@[i as int]));
        let keep = !str_eq(name, key) || default_named;
        let ghost ob = str_views(out@);
        assert(forall|x: Seq<char>| #[trigger] ob.contains(x) <==> exported_prefix(*module, i as int).contains(x));
        let fresh = !crate::rename::contains_name(&out, name);
        assert(out@.map_values(|s: String| s@) == ob);
        if keep && fresh {
            out.push(string_clone(name));
            assert(str_views(out@) =~= ob.push(name@));
            assert(str_views(out@).no_duplicates()) by {
                assert forall|a: int, b: int| 0 <= a < b < str_views(out@).len() implies str_views(out@)[a] != str_views(out@)[b] by {
                    if b == ob.len() {
                        assert(ob[a] == str_views(out@)[a]);
                        assert(ob.contains(ob[a]));
                    } else {
                        assert(ob[a] == str_views(out@)[a]);
                        assert(ob[b] == str_views(out@)[b]);
                    }
                }
            }
        } else {
            assert(str_views(out@) == ob);
        }
        proof {
            assert forall|x: Seq<char>| #[trigger] str_views(out@).contains(x) <==> exported_prefix(*module, i + 1).contains(x) by {
                if str_views(out@).contains(x) {
                    let q = choose|q: int| 0 <= q < str_views(out@).len() && str_views(out@)[q] == x;
                    if q < ob.len() {
                        assert(ob.contains(x));
                        let j = choose|j: int|
                            0 <= j < i && j < module.export_import_info.named_exports@.len() && #[trigger] entry_name(
                                module.export_import_info.named_exports@[j],
                            ) == x && (x != "default"@ || default_is_named(*module));
                    } else {
                        assert(entry_name(module.export_import_info.named_exports@[i as int]) == x);
                    }
                }
                if exported_prefix(*module, i + 1).contains(x) {
                    let j = choose|j: int|
                        0 <= j < i + 1 && j < module.export_import_info.named_exports@.len() && #[trigger] entry_name(
                            module.export_import_info.named_exports@[j],
                        ) == x && (x != "default"@ || default_is_named(*module));
                    if j < i {
                        assert(exported_prefix(*module, i as int).contains(x));
                        assert(ob.contains(x));
                        let q = choose|q: int| 0 <= q < ob.len() && ob[q] == x;
                        if keep && fresh {
                            assert(str_views(out@)[q] == x);
                        }
                    } else if keep && fresh {
                        assert(str_views(out@)[ob.len() as int] == x);
                    } else {
                        assert(ob.contains(x));
                    }
                }
            }
        }
        i += 1;
    }
    proof {
        assert(str_views(out@).to_set() =~= all_exported_names(*module)) by {
            assert forall|x: Seq<char>| #[trigger] all_exported_names(*module).contains(x) <==> exported_prefix(*module, i as int).contains(x) by {
                if all_exported_names(*module).contains(x) {
                    let j = choose|j: int|
                        0 <= j < module.export_import_info.named_exports@.len() && #[trigger] entry_name(
                            module.export_import_info.named_exports@[j],
                        ) == x && (x != "default"@ || default_is_named(*module));
                    assert(entry_name(module.export_import_info.named_exports@[j]) == x);
                }
            }
        }
    }
    out
}

/// The names module `module_idx` declares with `export <declaration>`.
pub fn collect_exported_names_from_program(module_idx: ModuleIdx, table: &ModuleTable) -> (r: Vec<String>)
    requires
        module_idx < table.modules@.len(),
    ensures
        str_views(r@).to_set() == declared_exports(table.modules@[module_idx as int]),
{
    let names = &table.modules[module_idx].export_import_info.declared_export_names;
    let mut out: Vec<String> = Vec::new();
    let mut i: usize = 0;
    while i < names.len()
        invariant
            0 <= i <= names@.len(),
            str_views(out@) == str_views(names@).take(i as int),
        decreases names@.len() - i,
    {
        let ghost ob = str_views(out@);
        out.push(string_clone(names[i].as_str()));
        assert(str_views(out@) =~= ob.push(names@[i as int]@));
        assert(str_views(names@).take(i + 1) =~= str_views(names@).take(i as int).push(str_views(names@)[i as int]));
        i += 1;
    }
    assert(str_views(names@).take(i as int) =~= str_views(names@));
    out
}


// ---------------------------------------------------------------------------
// Tree-shaking stays within what the entry reaches.

/// Module `m` has an internal specifier resolving to module `x`.
pub open spec fn links(m: Module, x: ModuleIdx) -> bool {
    exists|j: int| 0 <= j < m.resolved_internal_specifiers@.len() && (#[trigger] m.resolved_internal_specifiers@[j]).1 == x
}

/// `r` is closed under internal specifiers: every module a module of `r`
/// imports or re-exports from is in `r`.
pub open spec fn closed_under_links(t: Seq<Module>, r: Set<int>) -> bool {
    forall|a: int, x: ModuleIdx| #![trigger r.contains(a), links(t[a], x)]
        0 <= a < t.len() && r.contains(a) && links(t[a], x) ==> r.contains(x as int)
}

/// Every dependency target of a module's declarations is a module it imports
/// or re-exports from (as the nodes built by `declaration_node` are).
pub open spec fn graph_follows_imports(t: Seq<Module>, g: Seq<Seq<NodeView>>) -> bool {
    forall|m: int, k: int, i: int|
        0 <= m < g.len() && 0 <= k < g[m].len() && 0 <= i < g[m][k].targets.len() ==> links(t[m], (#[trigger] g[m][k].targets[i]).0)
}

/// Only modules of `r` have needed names or are needed whole.
pub open spec fn within(s: NView, t: Seq<Module>, r: Set<int>) -> bool {
    &&& s.needed.len() == t.len()
    &&& s.whole.len() == t.len()
    &&& forall|m: int| #![trigger s.needed[m]] #![trigger s.whole[m]]
        0 <= m < t.len() && (s.needed[m] != Set::<Seq<char>>::empty() || s.whole[m]) ==> r.contains(m)
}

/// The module an action changes.
pub open spec fn action_module(a: NeedAction) -> ModuleIdx {
    match a {
        NeedAction::Add(m, _) => m,
        NeedAction::Whole(m) => m,
    }
}

/// Every action changes a module of `r` below `n`.
pub open spec fn actions_in(acts: Seq<NeedAction>, r: Set<int>, n: nat) -> bool {
    forall|i: int| 0 <= i < acts.len() ==> r.contains(action_module(#[trigger] acts[i]) as int) && action_module(acts[i]) < n
}

proof fn lemma_nonempty_choose(s: Set<Seq<char>>)
    requires
        s != Set::<Seq<char>>::empty(),
    ensures
        s.contains(s.choose()),
{
    if !(exists|y: Seq<char>| s.contains(y)) {
        assert(s =~= Set::<Seq<char>>::empty());
    }
}

proof fn lemma_resolve_links(m: Module, spec: Seq<char>)
    ensures
        resolve_internal(m, spec) matches Some(x) ==> links(m, x),
{
    crate::model::lemma_assoc_get_in(m.resolved_internal_specifiers@, spec);
}

proof fn lemma_apply_within(s: NView, acts: Seq<NeedAction>, t: Seq<Module>, r: Set<int>)
    requires
        within(s, t, r),
        actions_in(acts, r, t.len()),
    ensures
        within(apply_actions(s, acts, t), t, r),
    decreases acts.len(),
{
    if acts.len() > 0 {
        assert(actions_in(acts.drop_last(), r, t.len())) by {
            assert forall|i: int| 0 <= i < acts.drop_last().len() implies r.contains(action_module(#[trigger] acts.drop_last()[i]) as int)
                && action_module(acts.drop_last()[i]) < t.len() by {
                assert(acts.drop_last()[i] == acts[i]);
            }
        }
        lemma_apply_within(s, acts.drop_last(), t, r);
        let prev = apply_actions(s, acts.drop_last(), t);
        let a = acts.last();
        assert(a == acts[acts.len() - 1]);
        let cur = apply_action(prev, a, t);
        assert forall|m: int| #![trigger cur.needed[m]] 0 <= m < t.len() && (cur.needed[m] != Set::<Seq<char>>::empty() || cur.whole[m])
            implies r.contains(m) by {
            if m != action_module(a) as int {
                assert(cur.needed[m] == prev.needed[m] && cur.whole[m] == prev.whole[m]);
            }
        }
    }
}

proof fn lemma_named_reexport_actions_in(entry: Module, t: Seq<Module>, ne: Seq<(String, crate::model::ExportEntry)>, r: Set<int>)
    requires
        modules_below(entry, t.len()),
        r.contains(entry.idx as int),
        entry.idx < t.len(),
        t[entry.idx as int] == entry,
        closed_under_links(t, r),
    ensures
        actions_in(named_reexport_actions(entry, t, ne), r, t.len()),
    decreases ne.len(),
{
    if ne.len() > 0 {
        lemma_named_reexport_actions_in(entry, t, ne.drop_last(), r);
        match ne.last().1.source {
            ExportSource::SourceReexport { specifier, imported_name } => {
                lemma_resolve_links(entry, specifier@);
                lemma_resolve_below(entry, specifier@, t.len());
            },
            _ => {},
        }
    }
}

/// Every internal specifier of `m` resolves below `n`.
pub open spec fn modules_below(m: Module, n: nat) -> bool {
    forall|j: int| 0 <= j < m.resolved_internal_specifiers@.len() ==> (#[trigger] m.resolved_internal_specifiers@[j]).1 < n
}

proof fn lemma_resolve_below(m: Module, spec: Seq<char>, n: nat)
    requires
        modules_below(m, n),
    ensures
        resolve_internal(m, spec) matches Some(x) ==> x < n,
{
    crate::model::lemma_assoc_get_in(m.resolved_internal_specifiers@, spec);
}

proof fn lemma_star_actions_in(entry: Module, t: Seq<Module>, stars: Seq<crate::model::StarReexport>, r: Set<int>)
    requires
        modules_below(entry, t.len()),
        r.contains(entry.idx as int),
        entry.idx < t.len(),
        t[entry.idx as int] == entry,
        closed_under_links(t, r),
    ensures
        actions_in(star_actions(entry, t, stars), r, t.len()),
    decreases stars.len(),
{
    if stars.len() > 0 {
        lemma_star_actions_in(entry, t, stars.drop_last(), r);
        lemma_resolve_links(entry, stars.last().specifier@);
        lemma_resolve_below(entry, stars.last().specifier@, t.len());
    }
}

proof fn lemma_import_actions_in(entry: Module, t: Seq<Module>, stmts: Seq<crate::model::StatementSummary>, e: Set<Seq<char>>, r: Set<int>)
    requires
        modules_below(entry, t.len()),
        r.contains(entry.idx as int),
        entry.idx < t.len(),
        t[entry.idx as int] == entry,
        closed_under_links(t, r),
    ensures
        actions_in(import_actions(entry, t, stmts, e), r, t.len()),
    decreases stmts.len(),
{
    if stmts.len() > 0 {
        lemma_import_actions_in(entry, t, stmts.drop_last(), e, r);
        let st = stmts.last();
        let prev = import_actions(entry, t, stmts.drop_last(), e);
        let cur = import_statement_actions(entry, t, st, e);
        if st.kind == StatementKind::Import && st.source is Some && resolve_internal(entry, st.source->0@) is Some
            && st.import_specifiers is Some {
            lemma_resolve_links(entry, st.source->0@);
            lemma_resolve_below(entry, st.source->0@, t.len());
        }
        assert forall|i: int| 0 <= i < cur.len() implies r.contains(action_module(#[trigger] cur[i]) as int) && action_module(cur[i]) < t.len() by {
            let ti = resolve_internal(entry, st.source->0@)->0;
            let specs = st.import_specifiers->0@;
            assert(cur[i] == import_spec_action(t, ti, specs[i]));
        }
        let all = prev + cur;
        assert forall|i: int| 0 <= i < all.len() implies r.contains(action_module(#[trigger] all[i]) as int) && action_module(all[i]) < t.len() by {
            if i < prev.len() {
                assert(all[i] == prev[i]);
            } else {
                assert(all[i] == cur[i - prev.len()]);
            }
        }
    }
}

proof fn lemma_node_actions_in(t: Seq<Module>, g: Seq<Seq<NodeView>>, mi: int, ns: Seq<NodeView>, r: Set<int>)
    requires
        0 <= mi < t.len(),
        graph_ok(t, g),
        graph_follows_imports(t, g),
        r.contains(mi),
        closed_under_links(t, r),
        ns.len() <= g[mi].len(),
        ns == g[mi].take(ns.len() as int),
    ensures
        actions_in(nodes_dep_actions(ns), r, t.len()),
    decreases ns.len(),
{
    if ns.len() > 0 {
        let d = ns.drop_last();
        assert(d == g[mi].take(d.len() as int));
        lemma_node_actions_in(t, g, mi, d, r);
        let k = ns.len() - 1;
        assert(ns.last() == g[mi][k]);
        let prev = nodes_dep_actions(d);
        let cur = dep_actions(ns.last().targets);
        assert forall|i: int| 0 <= i < cur.len() implies r.contains(action_module(#[trigger] cur[i]) as int) && action_module(cur[i]) < t.len() by {
            let tg = g[mi][k].targets[i];
            assert(cur[i] == dep_action(tg));
            assert(links(t[mi], tg.0));
            assert(r.contains(mi) && links(t[mi], tg.0));
        }
        let all = prev + cur;
        assert forall|i: int| 0 <= i < all.len() implies r.contains(action_module(#[trigger] all[i]) as int) && action_module(all[i]) < t.len() by {
            if i < prev.len() {
                assert(all[i] == prev[i]);
            } else {
                assert(all[i] == cur[i - prev.len()]);
            }
        }
    }
}

proof fn lemma_actions_in_concat(a: Seq<NeedAction>, b: Seq<NeedAction>, r: Set<int>, n: nat)
    requires
        actions_in(a, r, n),
        actions_in(b, r, n),
    ensures
        actions_in(a + b, r, n),
{
    assert forall|i: int| 0 <= i < (a + b).len() implies r.contains(action_module(#[trigger] (a + b)[i]) as int) && action_module((a + b)[i]) < n by {
        if i < a.len() {
            assert((a + b)[i] == a[i]);
        } else {
            assert((a + b)[i] == b[i - a.len()]);
        }
    }
}

proof fn lemma_prop_round_within(s: NView, t: Seq<Module>, r: Set<int>)
    requires
        within(s, t, r),
        closed_under_links(t, r),
    ensures
        within(prop_round(s, t), t, r),
{
    let p = prop_round(s, t);
    assert forall|x: int| #![trigger p.needed[x]] 0 <= x < t.len() && (p.needed[x] != Set::<Seq<char>>::empty() || p.whole[x])
        implies r.contains(x) by {
        if s.needed[x] == Set::<Seq<char>>::empty() && !s.whole[x] {
            assert(propagated_to(s, t, x) != Set::<Seq<char>>::empty()) by {
                assert(p.needed[x] == s.needed[x].union(propagated_to(s, t, x)));
                if propagated_to(s, t, x) == Set::<Seq<char>>::empty() {
                    assert(p.needed[x] =~= Set::<Seq<char>>::empty());
                }
            }
            let y = propagated_to(s, t, x).choose();
            lemma_nonempty_choose(propagated_to(s, t, x));
            let m = choose|m: int| 0 <= m < t.len() && (#[trigger] named_contributes(s, t, m, x, y) || star_contributes(s, t, m, x, y));
            let mm = t[m];
            if named_contributes(s, t, m, x, y) {
                let i = choose|i: int|
                    0 <= i < mm.export_import_info.named_exports@.len() && #[trigger] named_edge(mm, t, mm.export_import_info.named_exports@[i], x, y)
                        && s.needed[m].contains(mm.export_import_info.named_exports@[i].0@) && !declared_exports(mm).contains(
                        mm.export_import_info.named_exports@[i].0@,
                    );
                assert(s.needed[m] != Set::<Seq<char>>::empty());
                match mm.export_import_info.named_exports@[i].1.source {
                    ExportSource::SourceReexport { specifier, imported_name } => {
                        lemma_resolve_links(mm, specifier@);
                    },
                    _ => {},
                }
            } else {
                let j = choose|j: int| #[trigger] first_star_declaring(t, mm, j, x, y);
                assert(s.needed[m].contains(y));
                assert(s.needed[m] != Set::<Seq<char>>::empty());
                lemma_resolve_links(mm, mm.export_import_info.star_reexports@[j].specifier@);
            }
            assert(r.contains(m));
        }
    }
}

proof fn lemma_prop_rounds_within(s: NView, t: Seq<Module>, r: Set<int>, k: nat)
    requires
        within(s, t, r),
        closed_under_links(t, r),
    ensures
        within(prop_rounds(s, t, k), t, r),
    decreases k,
{
    if k > 0 {
        lemma_prop_rounds_within(s, t, r, (k - 1) as nat);
        lemma_prop_round_within(prop_rounds(s, t, (k - 1) as nat), t, r);
    }
}

/// Modules holding augmentations are in `r`.
pub open spec fn holds_augmentations(t: Seq<Module>, r: Set<int>) -> bool {
    forall|m: int| 0 <= m < t.len() && (#[trigger] t[m]).has_augmentation ==> r.contains(m)
}

proof fn lemma_outer_step_within(s: NView, kv: Seq<KindsView>, t: Seq<Module>, g: Seq<Seq<NodeView>>, entry: int, r: Set<int>)
    requires
        within(s, t, r),
        closed_under_links(t, r),
        holds_augmentations(t, r),
        graph_ok(t, g),
        graph_follows_imports(t, g),
    ensures
        within(outer_step(s, kv, t, g, entry).0, t, r),
{
    let s1 = prop_fix(s, t);
    lemma_prop_rounds_within(s, t, r, choose|k: nat| prop_stable(s, t, k));
    let o = outer_step(s, kv, t, g, entry).0;
    assert forall|x: int| #![trigger o.needed[x]] 0 <= x < t.len() && (o.needed[x] != Set::<Seq<char>>::empty() || o.whole[x])
        implies r.contains(x) by {
        if !(s1.needed[x] != Set::<Seq<char>>::empty() || s1.whole[x]) {
            let adds = round_adds(s1, t, g, kv, entry, x);
            let w = round_whole(s1, t, g, kv, entry, x);
            if w {
                let m = choose|m: int| 0 <= m < t.len() && #[trigger] expanded(s1, t, m, entry) && active_targets(
                    g[m], fix_of(s1, t, g, kv, m), whole_in(s1, t, m), g[m].len() as int, x, None);
                let (k2, i) = choose|k2: int, i: int|
                    0 <= k2 < g[m].len() as int && k2 < g[m].len() && node_active(g[m][k2], fix_of(s1, t, g, kv, m), whole_in(s1, t, m))
                        && 0 <= i < g[m][k2].targets.len() && (#[trigger] g[m][k2].targets[i]).0 as int == x && g[m][k2].targets[i].1 == None::<Seq<char>>;
                assert(links(t[m], g[m][k2].targets[i].0));
                assert(r.contains(m)) by {
                    if !t[m].has_augmentation {
                        assert(s1.needed[m] != Set::<Seq<char>>::empty() || s1.whole[m]);
                    }
                }
            } else {
                assert(o.needed[x] == s1.needed[x].union(adds).union(Set::<Seq<char>>::empty()));
                assert(adds != Set::<Seq<char>>::empty()) by {
                    if adds == Set::<Seq<char>>::empty() {
                        assert(o.needed[x] =~= Set::<Seq<char>>::empty());
                    }
                }
                let y = adds.choose();
                lemma_nonempty_choose(adds);
                let m = choose|m: int|
                    0 <= m < t.len() && #[trigger] expanded(s1, t, m, entry) && ((x == m && exp_names(
                        t[m],
                        g[m],
                        fix_of(s1, t, g, kv, m),
                        whole_in(s1, t, m),
                    ).contains(y)) || active_targets(g[m], fix_of(s1, t, g, kv, m), whole_in(s1, t, m), g[m].len() as int, x, Some(y)));
                assert(r.contains(m)) by {
                    if !t[m].has_augmentation {
                        assert(s1.needed[m] != Set::<Seq<char>>::empty() || s1.whole[m]);
                    }
                }
                if x != m {
                    let (k2, i) = choose|k2: int, i: int|
                        0 <= k2 < g[m].len() as int && k2 < g[m].len() && node_active(g[m][k2], fix_of(s1, t, g, kv, m), whole_in(s1, t, m))
                            && 0 <= i < g[m][k2].targets.len() && (#[trigger] g[m][k2].targets[i]).0 as int == x && g[m][k2].targets[i].1 == Some(y);
                    assert(links(t[m], g[m][k2].targets[i].0));
                }
            }
        }
    }
}

proof fn lemma_outer_steps_within(s: NView, kv: Seq<KindsView>, t: Seq<Module>, g: Seq<Seq<NodeView>>, entry: int, r: Set<int>, k: nat)
    requires
        within(s, t, r),
        closed_under_links(t, r),
        holds_augmentations(t, r),
        graph_ok(t, g),
        graph_follows_imports(t, g),
    ensures
        within(outer_steps(s, kv, t, g, entry, k).0, t, r),
    decreases k,
{
    if k > 0 {
        lemma_outer_steps_within(s, kv, t, g, entry, r, (k - 1) as nat);
        let p = outer_steps(s, kv, t, g, entry, (k - 1) as nat);
        lemma_outer_step_within(p.0, p.1, t, g, entry, r);
    }
}

/// Law (tree-shaking stays within reach): a module the bundle of an entry
/// needs anything of is reachable, through internal imports and
/// re-exports, from the entry or from a module holding global or module
/// augmentations (which are always kept). Stated for any set of modules
/// holding those and closed under internal specifiers.
pub proof fn law_needed_modules_are_reachable(t: Seq<Module>, g: Seq<Seq<NodeView>>, entry: ModuleIdx, r: Set<int>)
    requires
        forall|i: int| 0 <= i < t.len() ==> (#[trigger] t[i]).idx == i && modules_below(t[i], t.len()),
        graph_ok(t, g),
        graph_follows_imports(t, g),
        entry < t.len(),
        r.contains(entry as int),
        holds_augmentations(t, r),
        closed_under_links(t, r),
    ensures
        forall|m: int| 0 <= m < t.len() && (#[trigger] needed_plan(t, g, entry as int).map[m]) is Some ==> r.contains(m),
{
    let n = t.len();
    let e = t[entry as int];
    let s0 = empty_view(n);
    assert(within(s0, t, r)) by {
        assert forall|m: int| #![trigger s0.needed[m]] 0 <= m < t.len() && (s0.needed[m] != Set::<Seq<char>>::empty() || s0.whole[m])
            implies r.contains(m) by {
            assert(s0.needed[m] == Set::<Seq<char>>::empty());
        }
    }
    assert(e.idx == entry);
    lemma_named_reexport_actions_in(e, t, e.export_import_info.named_exports@, r);
    lemma_star_actions_in(e, t, e.export_import_info.star_reexports@, r);
    lemma_import_actions_in(e, t, e.statements@, entry_export_locals(e.statements@), r);
    assert(g[entry as int] == g[entry as int].take(g[entry as int].len() as int));
    lemma_node_actions_in(t, g, entry as int, g[entry as int], r);
    let a1 = named_reexport_actions(e, t, e.export_import_info.named_exports@);
    let a2 = star_actions(e, t, e.export_import_info.star_reexports@);
    let a3 = import_actions(e, t, e.statements@, entry_export_locals(e.statements@));
    let a4 = nodes_dep_actions(g[entry as int]);
    lemma_actions_in_concat(a1, a2, r, n);
    lemma_actions_in_concat(a1 + a2, a3, r, n);
    lemma_actions_in_concat(a1 + a2 + a3, a4, r, n);
    let seeded = apply_actions(s0, seed_actions(t, g, entry), t);
    lemma_apply_within(s0, seed_actions(t, g, entry), t, r);
    let kv0 = Seq::new(n, |m: int| KindsView::Absent);
    let k = choose|k: nat| first_stable(seeded, kv0, t, g, entry as int, k);
    lemma_outer_steps_within(seeded, kv0, t, g, entry as int, r, k);
    let p = outer_steps(seeded, kv0, t, g, entry as int, k);
    lemma_outer_step_within(p.0, p.1, t, g, entry as int, r);
    let fin = needed_fix(seeded, kv0, t, g, entry as int);
    assert(fin.0 == outer_step(p.0, p.1, t, g, entry as int).0);
    let plan = needed_plan(t, g, entry as int);
    assert forall|m: int| 0 <= m < t.len() && (#[trigger] plan.map[m]) is Some implies r.contains(m) by {
        assert(fin.0.needed[m] != Set::<Seq<char>>::empty());
    }
}


proof fn lemma_cross_refs_link(m: Module, t: Seq<Module>, refs: Seq<(SymbolId, u8)>)
    ensures
        forall|i: int| 0 <= i < cross_refs(m, t, refs).len() ==> links(m, (#[trigger] cross_refs(m, t, refs)[i]).0),
    decreases refs.len(),
{
    if refs.len() > 0 {
        lemma_cross_refs_link(m, t, refs.drop_last());
        let prev = cross_refs(m, t, refs.drop_last());
        let cur = cross_refs(m, t, refs);
        match ref_class(m, t, refs.last().0, refs.last().1) {
            RefClass::Cross(ti, name) => {
                let ln = root_name_of(m.scoping.root_bindings@, refs.last().0)->0;
                let b = assoc_get(m.export_import_info.named_imports@, ln)->0;
                lemma_resolve_links(m, b.source_specifier@);
                assert forall|i: int| 0 <= i < cur.len() implies links(m, (#[trigger] cur[i]).0) by {
                    if i < prev.len() {
                        assert(cur[i] == prev[i]);
                    }
                }
            },
            _ => {},
        }
    }
}

proof fn lemma_inline_refs_link(m: Module, t: Seq<Module>, raw: Seq<(Seq<char>, Option<Seq<char>>)>)
    ensures
        forall|i: int| 0 <= i < inline_refs(m, t, raw).len() ==> links(m, (#[trigger] inline_refs(m, t, raw)[i]).0),
    decreases raw.len(),
{
    if raw.len() > 0 {
        lemma_inline_refs_link(m, t, raw.drop_last());
        let prev = inline_refs(m, t, raw.drop_last());
        let cur = inline_refs(m, t, raw);
        lemma_resolve_links(m, raw.last().0);
        assert forall|i: int| 0 <= i < cur.len() implies links(m, (#[trigger] cur[i]).0) by {
            if i < prev.len() {
                assert(cur[i] == prev[i]);
            }
        }
    }
}

/// The nodes `declaration_node` builds depend only on modules their module
/// imports or re-exports from: graphs built from them satisfy
/// `graph_follows_imports`.
pub proof fn lemma_node_targets_follow_imports(
    m: Module,
    t: Seq<Module>,
    names: Seq<Seq<char>>,
    dk: u8,
    always: bool,
    refs: Seq<(SymbolId, u8)>,
    raw: Seq<(Seq<char>, Option<Seq<char>>)>,
)
    ensures
        node_of(m, t, names, dk, always, refs, raw) matches Some(nv) ==> forall|i: int|
            0 <= i < nv.targets.len() ==> links(m, (#[trigger] nv.targets[i]).0),
{
    lemma_cross_refs_link(m, t, refs);
    lemma_inline_refs_link(m, t, raw);
    let a = cross_refs(m, t, refs);
    let b = inline_refs(m, t, raw);
    assert forall|i: int| 0 <= i < (a + b).len() implies links(m, (#[trigger] (a + b)[i]).0) by {
        if i < a.len() {
            assert((a + b)[i] == a[i]);
        } else {
            assert((a + b)[i] == b[i - a.len()]);
        }
    }
}


/// Whether module `m` is emitted in the bundle of entry `entry`: it is the
/// entry, the plan needs something of it, or it holds augmentations.
pub open spec fn emitted(plan_map: Seq<Option<Option<Vec<SymbolId>>>>, t: Seq<Module>, entry: int, m: int) -> bool {
    m == entry || plan_map[m] is Some || t[m].has_augmentation
}

/// The emitted modules among the first `k`, from the last backwards.
pub open spec fn emitted_order(plan_map: Seq<Option<Option<Vec<SymbolId>>>>, t: Seq<Module>, entry: int, k: nat) -> Seq<ModuleIdx>
    decreases k,
{
    if k == 0 {
        Seq::empty()
    } else {
        let rest = emitted_order(plan_map, t, entry, (k - 1) as nat);
        if emitted(plan_map, t, entry, k - 1) { seq![(k - 1) as ModuleIdx] + rest } else { rest }
    }
}

/// The modules the bundle of entry `entry_idx` emits, from the last module
/// backwards (dependencies end up first once the outputs are reversed).
pub fn emitted_modules(entry_idx: ModuleIdx, plan: &NeededNamesPlan, table: &ModuleTable) -> (r: Vec<ModuleIdx>)
    requires
        plan.map@.len() == table.modules@.len(),
    ensures
        r@ == emitted_order(plan.map@, table.modules@, entry_idx as int, table.modules@.len()),
{
    let n = table.modules.len();
    let mut out: Vec<ModuleIdx> = Vec::new();
    let mut k: usize = n;
    assert(out@ + emitted_order(plan.map@, table.modules@, entry_idx as int, n as nat) =~= emitted_order(plan.map@, table.modules@, entry_idx as int, n as nat));
    while k > 0
        invariant
            0 <= k <= n,
            n == table.modules@.len(),
            plan.map@.len() == n,
            out@ + emitted_order(plan.map@, table.modules@, entry_idx as int, k as nat) == emitted_order(plan.map@, table.modules@, entry_idx as int, n as nat),
        decreases k,
    {
        let m = k - 1;
        let rest = Ghost(emitted_order(plan.map@, table.modules@, entry_idx as int, m as nat));
        if m == entry_idx || plan.map[m].is_some() || table.modules[m].has_augmentation {
            let ghost before = out@;
            out.push(m);
            assert(before + (seq![m] + rest@) =~= out@ + rest@);
        } else {
            assert(emitted_order(plan.map@, table.modules@, entry_idx as int, k as nat) == rest@);
        }
        k = m;
    }
    assert(out@ + Seq::<ModuleIdx>::empty() =~= out@);
    out
}

/// The needed symbols the statements of module `module_idx` are filtered
/// by in the bundle of entry `entry_idx`: none for the entry (it keeps
/// everything), for a module not needed, or for one needed whole; else the
/// symbols the plan needs.
pub fn needed_kinds_for(plan: &NeededNamesPlan, module_idx: ModuleIdx, entry_idx: ModuleIdx) -> (r: Option<&Vec<(SymbolId, NeededKindFlags)>>)
    requires
        module_idx < plan.map@.len(),
        module_idx < plan.symbol_kinds@.len(),
    ensures
        match r {
            Some(v) => module_idx != entry_idx && plan.map@[module_idx as int] is Some
                && plan.symbol_kinds@[module_idx as int] == SymbolKinds::Kinds(*v),
            None => module_idx == entry_idx || plan.map@[module_idx as int] is None
                || !(plan.symbol_kinds@[module_idx as int] is Kinds),
        },
{
    if module_idx == entry_idx || plan.map[module_idx].is_none() {
        return None;
    }
    match &plan.symbol_kinds[module_idx] {
        SymbolKinds::Kinds(v) => Some(v),
        _ => None,
    }
}


/// Whether `v` holds `s`.
fn symbols_contain(v: &Vec<SymbolId>, s: SymbolId) -> (r: bool)
    ensures
        r == v@.contains(s),
{
    let mut i: usize = 0;
    while i < v.len()
        invariant
            0 <= i <= v@.len(),
            forall|j: int| 0 <= j < i ==> v@[j] != s,
        decreases v@.len() - i,
    {
        if v[i] == s {
            return true;
        }
        i += 1;
    }
    false
}

impl NeededNamesPlan {
    /// The reasons recorded for name `name` of module `module_idx`, each once.
    pub fn reasons_for(&self, module_idx: ModuleIdx, name: &str) -> (r: Vec<NeededReason>)
        ensures
            r@.to_set() == reasons_of(self.reasons@, module_idx as int, name@),
            r@.no_duplicates(),
    {
        let ghost log = self.reasons@;
        let mut out: Vec<NeededReason> = Vec::new();
        let mut i: usize = 0;
        while i < self.reasons.len()
            invariant
                0 <= i <= log.len(),
                log == self.reasons@,
                out@.no_duplicates(),
                forall|r: NeededReason| #[trigger] out@.contains(r) <==> exists|k: int|
                    0 <= k < i && log[k].0 == module_idx && log[k].1@ == name@ && #[trigger] log[k].2 == r,
            decreases log.len() - i,
        {
            let e = &self.reasons[i];
            if e.0 == module_idx && str_eq(e.1.as_str(), name) {
                let mut seen = false;
                let mut j: usize = 0;
                while j < out.len()
                    invariant
                        0 <= j <= out@.len(),
                        seen == exists|q: int| 0 <= q < j && out@[q] == e.2,
                    decreases out@.len() - j,
                {
                    if out[j] == e.2 {
                        seen = true;
                    }
                    j += 1;
                }
                let ghost o0 = out@;
                if !seen {
                    out.push(e.2);
                }
                proof {
                    assert forall|r: NeededReason| #[trigger] out@.contains(r) <==> exists|k: int|
                        0 <= k < i + 1 && log[k].0 == module_idx && log[k].1@ == name@ && #[trigger] log[k].2 == r by {
                        if out@.contains(r) && !o0.contains(r) {
                            assert(out@[o0.len() as int] == r);
                            assert(log[i as int].2 == r);
                        }
                        if exists|k: int| 0 <= k < i + 1 && log[k].0 == module_idx && log[k].1@ == name@ && #[trigger] log[k].2 == r {
                            let k = choose|k: int| 0 <= k < i + 1 && log[k].0 == module_idx && log[k].1@ == name@ && #[trigger] log[k].2 == r;
                            if k == i {
                                if seen {
                                    let q = choose|q: int| 0 <= q < out@.len() && o0[q] == e.2;
                                    assert(o0.contains(r));
                                } else {
                                    assert(out@[o0.len() as int] == r);
                                }
                            }
                            if o0.contains(r) {
                                let q = choose|q: int| 0 <= q < o0.len() && o0[q] == r;
                                assert(out@[q] == r);
                            }
                        }
                    }
                }
            } else {
                proof {
                    assert forall|r: NeededReason| #[trigger] out@.contains(r) <==> exists|k: int|
                        0 <= k < i + 1 && log[k].0 == module_idx && log[k].1@ == name@ && #[trigger] log[k].2 == r by {
                        if exists|k: int| 0 <= k < i + 1 && log[k].0 == module_idx && log[k].1@ == name@ && #[trigger] log[k].2 == r {
                            let k = choose|k: int| 0 <= k < i + 1 && log[k].0 == module_idx && log[k].1@ == name@ && #[trigger] log[k].2 == r;
                            assert(k != i);
                        }
                    }
                }
            }
            i += 1;
        }
        assert(out@.to_set() =~= reasons_of(log, module_idx as int, name@));
        out
    }

    /// Whether the plan needs the root symbol `name` of `module`: the module
    /// is needed whole, or the symbol is among its needed symbols.
    pub fn contains_symbol(&self, module: &Module, name: &str) -> (r: bool)
        ensures
            r == (module.idx < self@.map.len() && match self@.map[module.idx as int] {
                Some(None) => true,
                Some(Some(set)) => match root_binding_of(module.scoping.root_bindings@, name@) {
                    Some(s) => set.contains(s),
                    None => false,
                },
                None => false,
            }),
    {
        assert(self@.map.len() == self.map@.len());
        if module.idx >= self.map.len() {
            return false;
        }
        assert(self@.map[module.idx as int] == map_entry_view(self.map@[module.idx as int]));
        match &self.map[module.idx] {
            None => false,
            Some(None) => true,
            Some(Some(symbols)) => match module.scoping.get_root_binding(name) {
                Some(s) => {
                    let found = symbols_contain(symbols, s);
                    assert(symbols@.to_set().contains(s) == symbols@.contains(s));
                    found
                },
                None => false,
            },
        }
    }
}

} // verus!
