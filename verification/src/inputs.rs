//! Checks of what the linking functions assume of their inputs: that module
//! indices and dependency targets stay inside the module table, that every
//! module path has a file name, and that renaming stays within its counter.

use vstd::prelude::*;

use crate::analysis::{module_chains_end, statement_chains_end};
use crate::chains::{entries_before, law_long_chains_never_end};
use crate::exports::{external_source_within, reexport_chain_ends};
use crate::model::{Module, assoc_find, resolve_internal, ExportSource, ModuleTable, ModuleIdx, SymbolId, StatementKind, StatementSummary};
use crate::link_types::NamespaceWrapInfo;
use crate::namespace::{all_alias_views, namespace_inputs_ok, wraps_ok};
use crate::needed_names::{graph_ok, graph_views, DeclarationNode};
use crate::paths::{file_name, path_file_name};
use crate::rename::{bare_statement_names, rename_budget, rename_cap, total_cap, total_nested};

verus! {

/// Whether the table is well formed: each module sits at its own index and
/// every internal specifier resolves to a module of the table.
pub fn table_is_wf(table: &ModuleTable) -> (r: bool)
    ensures
        r == table.wf(),
{
    let n = table.modules.len();
    let mut i: usize = 0;
    while i < n
        invariant
            0 <= i <= n,
            n == table.modules@.len(),
            forall|a: int|
                0 <= a < i ==> {
                    &&& #[trigger] table.modules@[a].idx == a
                    &&& forall|j: int|
                        0 <= j < table.modules@[a].resolved_internal_specifiers@.len()
                            ==> #[trigger] table.modules@[a].resolved_internal_specifiers@[j].1 < n
                },
        decreases n - i,
    {
        let m = &table.modules[i];
        if m.idx != i {
            return false;
        }
        let mut j: usize = 0;
        while j < m.resolved_internal_specifiers.len()
            invariant
                0 <= j <= m.resolved_internal_specifiers@.len(),
                n == table.modules@.len(),
                i < n,
                *m == table.modules@[i as int],
                forall|k: int| 0 <= k < j ==> #[trigger] m.resolved_internal_specifiers@[k].1 < n,
            decreases m.resolved_internal_specifiers@.len() - j,
        {
            if m.resolved_internal_specifiers[j].1 >= n {
                proof {
                    if table.wf() {
                        assert(table.modules@[i as int].idx == i);
                        assert(table.modules@[i as int].resolved_internal_specifiers@[j as int].1 < n);
                    }
                }
                return false;
            }
            j += 1;
        }
        assert forall|jj: int| 0 <= jj < table.modules@[i as int].resolved_internal_specifiers@.len() implies #[trigger] table.modules@[i as int].resolved_internal_specifiers@[jj].1
            < n by {
            assert(m.resolved_internal_specifiers@[jj].1 < n);
        }
        assert(table.modules@[i as int].idx == i);
        i += 1;
    }
    true
}

/// Whether the declaration graph has one node list per module and every
/// dependency of a node targets a module of the table.
pub fn graph_is_ok(table: &ModuleTable, graph: &Vec<Vec<DeclarationNode>>) -> (r: bool)
    ensures
        r == graph_ok(table.modules@, graph_views(graph@)),
{
    let n = table.modules.len();
    if graph.len() != n {
        return false;
    }
    let ghost g = graph_views(graph@);
    let mut m: usize = 0;
    while m < graph.len()
        invariant
            0 <= m <= graph@.len(),
            n == table.modules@.len(),
            graph@.len() == n,
            g == graph_views(graph@),
            forall|a: int, k: int, i: int|
                0 <= a < m && 0 <= k < g[a].len() && 0 <= i < g[a][k].targets.len() ==> (#[trigger] g[a][k].targets[i]).0 < n,
        decreases graph@.len() - m,
    {
        let nodes = &graph[m];
        let mut k: usize = 0;
        while k < nodes.len()
            invariant
                0 <= k <= nodes@.len(),
                m < graph@.len(),
                n == table.modules@.len(),
                g == graph_views(graph@),
                *nodes == graph@[m as int],
                g[m as int] == nodes@.map_values(|d: DeclarationNode| d@),
                forall|a: int, kk: int, i: int|
                    0 <= a < m && 0 <= kk < g[a].len() && 0 <= i < g[a][kk].targets.len() ==> (#[trigger] g[a][kk].targets[i]).0 < n,
                forall|kk: int, i: int|
                    0 <= kk < k && 0 <= i < g[m as int][kk].targets.len() ==> (#[trigger] g[m as int][kk].targets[i]).0 < n,
            decreases nodes@.len() - k,
        {
            let node = &nodes[k];
            let ghost tv = node@.targets;
            let nc = node.cross_module_deps.len();
            let mut i: usize = 0;
            while i < nc
                invariant
                    k < nodes@.len(),
                    *node == nodes@[k as int],
                    m < graph@.len(),
                    g == graph_views(graph@),
                    g[m as int] == nodes@.map_values(|d: DeclarationNode| d@),
                    n == table.modules@.len(),
                    0 <= i <= nc,
                    nc == node.cross_module_deps@.len(),
                    tv == node@.targets,
                    forall|q: int| 0 <= q < i ==> (#[trigger] tv[q]).0 < n,
                decreases nc - i,
            {
                if node.cross_module_deps[i].target_module_idx >= n {
                    assert(tv[i as int].0 >= n);
                    assert(g[m as int][k as int] == node@);
                    return false;
                }
                i += 1;
            }
            let mut j: usize = 0;
            while j < node.inline_import_deps.len()
                invariant
                    k < nodes@.len(),
                    *node == nodes@[k as int],
                    m < graph@.len(),
                    g == graph_views(graph@),
                    g[m as int] == nodes@.map_values(|d: DeclarationNode| d@),
                    n == table.modules@.len(),
                    0 <= j <= node.inline_import_deps@.len(),
                    nc == node.cross_module_deps@.len(),
                    tv == node@.targets,
                    forall|q: int| 0 <= q < nc + j ==> (#[trigger] tv[q]).0 < n,
                decreases node.inline_import_deps@.len() - j,
            {
                if node.inline_import_deps[j].target_module_idx >= n {
                    assert(tv[nc + j].0 >= n);
                    assert(g[m as int][k as int] == node@);
                    return false;
                }
                j += 1;
            }
            assert(g[m as int][k as int] == node@);
            k += 1;
        }
        m += 1;
    }
    true
}

/// Whether every module path has a file name and every namespace alias
/// targets a module of the table.
pub fn namespace_inputs_are_ok(table: &ModuleTable, all_module_aliases: &Vec<(ModuleIdx, Vec<(SymbolId, ModuleIdx)>)>) -> (r: bool)
    ensures
        r == namespace_inputs_ok(table.modules@, all_alias_views(all_module_aliases@)),
{
    let n = table.modules.len();
    let mut i: usize = 0;
    while i < n
        invariant
            0 <= i <= n,
            n == table.modules@.len(),
            forall|a: int| 0 <= a < i ==> (#[trigger] file_name(table.modules@[a].path@)) is Some,
        decreases n - i,
    {
        if path_file_name(table.modules[i].path.as_str()).is_none() {
            return false;
        }
        i += 1;
    }
    let ghost all = all_alias_views(all_module_aliases@);
    let mut a: usize = 0;
    while a < all_module_aliases.len()
        invariant
            0 <= a <= all_module_aliases@.len(),
            n == table.modules@.len(),
            all == all_alias_views(all_module_aliases@),
            forall|x: int| 0 <= x < n ==> (#[trigger] file_name(table.modules@[x].path@)) is Some,
            forall|x: int, j: int| 0 <= x < a && 0 <= j < all[x].1.len() ==> (#[trigger] all[x].1[j]).1 < n,
        decreases all_module_aliases@.len() - a,
    {
        let list = &all_module_aliases[a].1;
        let mut j: usize = 0;
        while j < list.len()
            invariant
                0 <= j <= list@.len(),
                a < all_module_aliases@.len(),
                n == table.modules@.len(),
                all == all_alias_views(all_module_aliases@),
                all[a as int].1 == list@,
                forall|x: int, jj: int| 0 <= x < a && 0 <= jj < all[x].1.len() ==> (#[trigger] all[x].1[jj]).1 < n,
                forall|jj: int| 0 <= jj < j ==> (#[trigger] list@[jj]).1 < n,
            decreases list@.len() - j,
        {
            if list[j].1 >= n {
                return false;
            }
            j += 1;
        }
        a += 1;
    }
    true
}

/// Whether every wrapper belongs to a module below `n`, each module at most once.
pub fn wraps_are_ok(wraps: &Vec<(ModuleIdx, NamespaceWrapInfo)>, n: usize) -> (r: bool)
    ensures
        r == wraps_ok(wraps@, n as nat),
{
    let mut i: usize = 0;
    while i < wraps.len()
        invariant
            0 <= i <= wraps@.len(),
            forall|a: int| 0 <= a < i ==> (#[trigger] wraps@[a]).0 < n,
            forall|a: int, b: int| 0 <= a < b < i ==> (#[trigger] wraps@[a]).0 != (#[trigger] wraps@[b]).0,
        decreases wraps@.len() - i,
    {
        if wraps[i].0 >= n {
            return false;
        }
        let mut j: usize = 0;
        while j < i
            invariant
                0 <= j <= i,
                i < wraps@.len(),
                forall|a: int| 0 <= a < j ==> (#[trigger] wraps@[a]).0 != wraps@[i as int].0,
            decreases i - j,
        {
            if wraps[j].0 == wraps[i].0 {
                assert(wraps@[j as int].0 == wraps@[i as int].0);
                return false;
            }
            j += 1;
        }
        i += 1;
    }
    true
}

/// Whether the re-export chain from exported name `name` of module `m` ends
/// within `fuel` steps.
pub fn chain_ends_within(table: &ModuleTable, m: ModuleIdx, name: &str, fuel: u128) -> (r: bool)
    requires
        table.wf(),
    ensures
        r == external_source_within(table.modules@, m as int, name@, fuel as nat).is_some(),
{
    let ghost t = table.modules@;
    let mut cur = m;
    let mut cur_name = crate::text::string_clone(name);
    let mut f = fuel;
    loop
        invariant
            table.wf(),
            t == table.modules@,
            external_source_within(t, cur as int, cur_name@, f as nat).is_some() == external_source_within(
                t,
                m as int,
                name@,
                fuel as nat,
            ).is_some(),
        decreases f,
    {
        if f == 0 {
            return false;
        }
        if cur >= table.modules.len() {
            return true;
        }
        let entry = match assoc_find(&table.modules[cur].export_import_info.named_exports, cur_name.as_str()) {
            Some(e) => e,
            None => return true,
        };
        match &entry.source {
            ExportSource::SourceReexport { specifier, imported_name } => {
                match table.modules[cur].resolve_internal_specifier(specifier.as_str()) {
                    Some(target) => {
                        cur = target;
                        cur_name = crate::text::string_clone(imported_name.as_str());
                        f = f - 1;
                    },
                    None => return true,
                }
            },
            _ => return true,
        }
    }
}

proof fn lemma_statement_chain_fails(t: Seq<Module>, m: Module, s: StatementSummary, smi: ModuleIdx, j: int)
    requires
        s.kind == StatementKind::ExportNamed,
        !s.has_declaration,
        s.source is Some,
        m.is_entry,
        resolve_internal(m, s.source->0@) == Some(smi),
        0 <= j < s.specifiers@.len(),
        !reexport_chain_ends(t, smi as int, s.specifiers@[j].local@),
    ensures
        !statement_chains_end(t, m, s),
{
    assert(!(forall|q: int| 0 <= q < s.specifiers@.len() ==> #[trigger] reexport_chain_ends(t, smi as int, s.specifiers@[q].local@)));
    assert(resolve_internal(m, s.source->0@) matches Some(x) && x == smi);
    if statement_chains_end(t, m, s) {
        assert(forall|q: int| 0 <= q < s.specifiers@.len() ==> #[trigger] reexport_chain_ends(t, smi as int, s.specifiers@[q].local@));
    }
}

/// The number of named export entries of the table, plus one.
fn export_entry_bound(table: &ModuleTable) -> (r: u128)
    ensures
        r == entries_before(table.modules@, table.modules@.len() as int) + 1,
{
    let ghost t = table.modules@;
    let mut total: u128 = 1;
    let mut i: usize = 0;
    while i < table.modules.len()
        invariant
            0 <= i <= t.len(),
            t == table.modules@,
            total == entries_before(t, i as int) + 1,
            total <= 1 + i * 0x1_0000_0000_0000_0000,
        decreases t.len() - i,
    {
        let len = table.modules[i].export_import_info.named_exports.len();
        assert(total + len <= 1 + (i + 1) * 0x1_0000_0000_0000_0000) by (nonlinear_arith)
            requires
                total <= 1 + i * 0x1_0000_0000_0000_0000,
                len < 0x1_0000_0000_0000_0000,
        ;
        assert((i + 1) * 0x1_0000_0000_0000_0000 <= 0x1_0000_0000_0000_0000 * 0x1_0000_0000_0000_0000) by (nonlinear_arith)
            requires
                i + 1 <= 0x1_0000_0000_0000_0000,
        ;
        total = total + len as u128;
        i += 1;
    }
    total
}

/// Whether every re-export chain that the statements of module
/// `module_idx` follow ends; a chain that does not end within as many steps
/// as the table has named export entries goes round a cycle.
pub fn module_chains_checked(table: &ModuleTable, module_idx: ModuleIdx) -> (b: bool)
    requires
        table.wf(),
        module_idx < table.modules@.len(),
    ensures
        b == module_chains_end(table.modules@, table.modules@[module_idx as int]),
{
    let ghost t = table.modules@;
    let module = &table.modules[module_idx];
    let bound = export_entry_bound(table);
    let mut i: usize = 0;
    while i < module.statements.len()
        invariant
            0 <= i <= module.statements@.len(),
            table.wf(),
            t == table.modules@,
            module_idx < t.len(),
            *module == t[module_idx as int],
            bound == entries_before(t, t.len() as int) + 1,
            forall|q: int| 0 <= q < i ==> #[trigger] statement_chains_end(t, *module, module.statements@[q]),
        decreases module.statements@.len() - i,
    {
        let st = &module.statements[i];
        if st.kind == StatementKind::ExportNamed && !st.has_declaration && module.is_entry {
            if let Some(source) = &st.source {
                if let Some(smi) = module.resolve_internal_specifier(source.as_str()) {
                    let mut j: usize = 0;
                    while j < st.specifiers.len()
                        invariant
                            0 <= j <= st.specifiers@.len(),
                            table.wf(),
                            t == table.modules@,
                            bound == entries_before(t, t.len() as int) + 1,
                            module_idx < t.len(),
                            *module == t[module_idx as int],
                            i < module.statements@.len(),
                            *st == module.statements@[i as int],
                            st.kind == StatementKind::ExportNamed && !st.has_declaration && module.is_entry,
                            st.source == Some(*source),
                            resolve_internal(*module, source@) == Some(smi),
                            forall|q: int| 0 <= q < j ==> #[trigger] reexport_chain_ends(t, smi as int, st.specifiers@[q].local@),
                        decreases st.specifiers@.len() - j,
                    {
                        if !chain_ends_within(table, smi, st.specifiers[j].local.as_str(), bound) {
                            proof {
                                law_long_chains_never_end(t, smi as int, st.specifiers@[j as int].local@, bound as nat);
                                let s = module.statements@[i as int];
                                assert(s == *st);
                                assert(s.source->0@ == source@);
                                assert(resolve_internal(*module, s.source->0@) == Some(smi));
                                lemma_statement_chain_fails(t, *module, s, smi, j as int);
                                assert(!statement_chains_end(t, *module, module.statements@[i as int]));
                                assert(!module_chains_end(t, *module));
                            }
                            return false;
                        }
                        assert(external_source_within(t, smi as int, st.specifiers@[j as int].local@, bound as nat).is_some());
                        j += 1;
                    }
                }
            }
        }
        i += 1;
    }
    true
}

/// The number of names the non-export statements declare.
fn bare_name_count(stmts: &Vec<StatementSummary>) -> (r: u64)
    ensures
        r == if bare_statement_names(stmts@).len() <= u64::MAX { bare_statement_names(stmts@).len() } else { u64::MAX as nat },
{
    let mut total: u64 = 0;
    let mut i: usize = 0;
    assert(stmts@.take(0) =~= Seq::<StatementSummary>::empty());
    while i < stmts.len()
        invariant
            0 <= i <= stmts@.len(),
            total == if bare_statement_names(stmts@.take(i as int)).len() <= u64::MAX {
                bare_statement_names(stmts@.take(i as int)).len()
            } else {
                u64::MAX as nat
            },
        decreases stmts@.len() - i,
    {
        let st = &stmts[i];
        let add: usize = if st.kind == StatementKind::ExportNamed || st.kind == StatementKind::ExportDefault {
            0
        } else {
            st.declared_names.len()
        };
        proof {
            let tk = stmts@.take(i + 1);
            assert(tk.drop_last() =~= stmts@.take(i as int));
            assert(tk.last() == *st);
        }
        total = total.saturating_add(add as u64);
        i += 1;
    }
    assert(stmts@.take(i as int) =~= stmts@);
    total
}

/// Whether the rename plan of `entry_idx` stays within its `u32` counter.
pub fn rename_budget_fits(table: &ModuleTable, entry_idx: ModuleIdx) -> (r: bool)
    requires
        entry_idx < table.modules@.len(),
    ensures
        r == (rename_budget(table.modules@, table.modules@[entry_idx as int]) < u32::MAX),
{
    let ghost t = table.modules@;
    let n = table.modules.len();
    let mut cap: u64 = 0;
    let mut nested: u64 = 0;
    let mut i: usize = 0;
    while i < n
        invariant
            0 <= i <= n,
            n == t.len(),
            t == table.modules@,
            cap == if total_cap(t, i as nat) <= u64::MAX { total_cap(t, i as nat) } else { u64::MAX as nat },
            nested == if total_nested(t, i as nat) <= u64::MAX { total_nested(t, i as nat) } else { u64::MAX as nat },
        decreases n - i,
    {
        let m = &table.modules[i];
        let bare = bare_name_count(&m.statements);
        let c = (m.export_import_info.declared_export_names.len() as u64).saturating_add(1).saturating_add(bare);
        assert(c == if rename_cap(t[i as int]) <= u64::MAX { rename_cap(t[i as int]) } else { u64::MAX as nat });
        cap = cap.saturating_add(c);
        nested = nested.saturating_add(m.scoping.nested_binding_names.len() as u64);
        i += 1;
    }
    let limit: u64 = 4294967295;
    let stmts = table.modules[entry_idx].statements.len() as u64;
    let nn = n as u64;
    let ghost cap_t = total_cap(t, t.len());
    let ghost nest_t = total_nested(t, t.len());
    let ghost s_t = t[entry_idx as int].statements@.len();
    proof {
        lemma_total_cap_at_least(t, t.len());
        assert(rename_budget(t, t[entry_idx as int]) == 1 + 2 * t.len() + 2 * (s_t + 2 * t.len()) * cap_t + nest_t);
    }
    if cap >= limit || nested >= limit || stmts >= limit || nn >= limit {
        proof {
            assert(2 * (s_t + 2 * t.len()) * cap_t >= cap_t) by (nonlinear_arith)
                requires
                    s_t + 2 * t.len() >= 1,
            ;
            assert(2 * (s_t + 2 * t.len()) * cap_t >= 2 * s_t) by (nonlinear_arith)
                requires
                    cap_t >= 1,
            ;
        }
        return false;
    }
    assert(2 * (stmts as u128 + 2 * nn as u128) * (cap as u128) < 0x1_0000_0000_0000_0000_0000) by (nonlinear_arith)
        requires
            stmts < 0x1_0000_0000,
            nn < 0x1_0000_0000,
            cap < 0x1_0000_0000,
    ;
    let factor: u128 = 2 * (stmts as u128 + 2 * nn as u128);
    let product: u128 = factor * cap as u128;
    let budget: u128 = 1 + 2 * nn as u128 + product + nested as u128;
    budget < limit as u128
}

proof fn lemma_total_cap_at_least(t: Seq<crate::model::Module>, k: nat)
    requires
        k <= t.len(),
    ensures
        total_cap(t, k) >= k,
    decreases k,
{
    if k > 0 {
        lemma_total_cap_at_least(t, (k - 1) as nat);
    }
}

} // verus!
