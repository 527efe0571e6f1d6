//! The bookkeeping of module discovery: the list of known paths, the
//! renumbering of modules once they are sorted, and the assembly of each
//! module of the table from what its scan found.

use vstd::prelude::*;

use crate::model::{Module, ModuleIdx, Scoping, StatementSummary};
use crate::paths::{components, diff_paths, relative_comps, render};
use crate::scan_info::{collect_export_import_info, info_spec, info_view};
use crate::text::{str_eq, string_clone};

verus! {

/// The views of a list of strings.
pub open spec fn path_views(paths: Seq<String>) -> Seq<Seq<char>> {
    paths.map_values(|p: String| p@)
}

/// The first position of `p` in `paths`.
pub open spec fn path_position(paths: Seq<Seq<char>>, p: Seq<char>) -> Option<int>
    decreases paths.len(),
{
    if paths.len() == 0 {
        None
    } else {
        match path_position(paths.drop_last(), p) {
            Some(i) => Some(i),
            None => if paths.last() == p {
                Some(paths.len() - 1)
            } else {
                None
            },
        }
    }
}

proof fn lemma_path_position(paths: Seq<Seq<char>>, p: Seq<char>)
    ensures
        match path_position(paths, p) {
            Some(i) => 0 <= i < paths.len() && paths[i] == p && forall|j: int| 0 <= j < i ==> paths[j] != p,
            None => forall|j: int| 0 <= j < paths.len() ==> paths[j] != p,
        },
    decreases paths.len(),
{
    if paths.len() > 0 {
        let init = paths.drop_last();
        lemma_path_position(init, p);
        assert(forall|j: int| 0 <= j < init.len() ==> init[j] == paths[j]);
    }
}

/// The first position of `path` in `paths`.
pub fn path_index(paths: &Vec<String>, path: &str) -> (r: Option<usize>)
    ensures
        match r {
            Some(i) => path_position(path_views(paths@), path@) == Some(i as int),
            None => path_position(path_views(paths@), path@) is None,
        },
{
    let ghost pv = path_views(paths@);
    proof {
        lemma_path_position(pv, path@);
    }
    let mut i: usize = 0;
    while i < paths.len()
        invariant
            0 <= i <= paths@.len(),
            pv == path_views(paths@),
            forall|j: int| 0 <= j < i ==> pv[j] != path@,
            match path_position(pv, path@) {
                Some(k) => 0 <= k < pv.len() && pv[k] == path@ && forall|j: int| 0 <= j < k ==> pv[j] != path@,
                None => forall|j: int| 0 <= j < pv.len() ==> pv[j] != path@,
            },
        decreases paths@.len() - i,
    {
        if str_eq(paths[i].as_str(), path) {
            assert(pv[i as int] == path@);
            return Some(i);
        }
        i += 1;
    }
    None
}

/// Registers `path` among the known paths: the index it has, and whether it
/// was new (then it is appended).
pub fn intern_path(paths: &mut Vec<String>, path: &str) -> (r: (usize, bool))
    ensures
        path_views(final(paths)@) == if r.1 {
            path_views(old(paths)@).push(path@)
        } else {
            path_views(old(paths)@)
        },
        r.1 == (path_position(path_views(old(paths)@), path@) is None),
        path_position(path_views(final(paths)@), path@) == Some(r.0 as int),
{
    match path_index(paths, path) {
        Some(i) => (i, false),
        None => {
            let ghost before = path_views(paths@);
            paths.push(string_clone(path));
            proof {
                assert(path_views(paths@) =~= before.push(path@));
                assert(path_views(paths@).drop_last() =~= before);
            }
            (paths.len() - 1, true)
        },
    }
}

/// The views of a module's pending internal edges (specifier, target path).
pub open spec fn pending_views(edges: Seq<(String, String)>) -> Seq<(Seq<char>, Seq<char>)> {
    edges.map_values(|e: (String, String)| (e.0@, e.1@))
}

/// The views of internal specifiers with the modules they resolve to.
pub open spec fn resolved_views(edges: Seq<(String, ModuleIdx)>) -> Seq<(Seq<char>, ModuleIdx)> {
    edges.map_values(|e: (String, ModuleIdx)| (e.0@, e.1))
}

/// The new index of the module at old position `o`, if it has one.
pub open spec fn new_index_of(new_index: Seq<Option<usize>>, o: int) -> Option<usize> {
    if 0 <= o < new_index.len() {
        new_index[o]
    } else {
        None
    }
}

/// The internal edges of a module in the new numbering: each edge whose
/// target path is known and whose module has a new index, in order.
pub open spec fn reindexed_edges(
    edges: Seq<(Seq<char>, Seq<char>)>,
    paths: Seq<Seq<char>>,
    new_index: Seq<Option<usize>>,
) -> Seq<(Seq<char>, ModuleIdx)>
    decreases edges.len(),
{
    if edges.len() == 0 {
        Seq::empty()
    } else {
        let prev = reindexed_edges(edges.drop_last(), paths, new_index);
        let e = edges.last();
        match path_position(paths, e.1) {
            Some(o) => match new_index_of(new_index, o) {
                Some(t) => prev.push((e.0, t as ModuleIdx)),
                None => prev,
            },
            None => prev,
        }
    }
}

/// The internal edges of a module, renumbered (see [`reindexed_edges`]).
pub fn reindex_edges(edges: &Vec<(String, String)>, paths: &Vec<String>, new_index: &Vec<Option<usize>>) -> (r: Vec<
    (String, ModuleIdx),
>)
    ensures
        resolved_views(r@) == reindexed_edges(pending_views(edges@), path_views(paths@), new_index@),
{
    let ghost ev = pending_views(edges@);
    let mut out: Vec<(String, ModuleIdx)> = Vec::new();
    let mut i: usize = 0;
    while i < edges.len()
        invariant
            0 <= i <= edges@.len(),
            ev == pending_views(edges@),
            resolved_views(out@) == reindexed_edges(ev.take(i as int), path_views(paths@), new_index@),
        decreases edges@.len() - i,
    {
        proof {
            assert(ev.take(i + 1).drop_last() =~= ev.take(i as int));
            assert(ev.take(i + 1).last() == (edges@[i as int].0@, edges@[i as int].1@));
        }
        let ghost before = out@;
        match path_index(paths, edges[i].1.as_str()) {
            Some(o) => {
                if o < new_index.len() {
                    match new_index[o] {
                        Some(t) => {
                            out.push((string_clone(edges[i].0.as_str()), t));
                            assert(resolved_views(out@) =~= resolved_views(before).push((edges@[i as int].0@, t)));
                        },
                        None => {},
                    }
                }
            },
            None => {},
        }
        i += 1;
    }
    assert(ev.take(edges@.len() as int) =~= ev);
    out
}

/// The entries in the new numbering, in order, dropping those without a
/// new index.
pub open spec fn reindexed_entries(entries: Seq<ModuleIdx>, new_index: Seq<Option<usize>>) -> Seq<ModuleIdx>
    decreases entries.len(),
{
    if entries.len() == 0 {
        Seq::empty()
    } else {
        let prev = reindexed_entries(entries.drop_last(), new_index);
        match new_index_of(new_index, entries.last() as int) {
            Some(t) => prev.push(t as ModuleIdx),
            None => prev,
        }
    }
}

/// The entries renumbered (see [`reindexed_entries`]).
pub fn reindex_entries(entries: &Vec<ModuleIdx>, new_index: &Vec<Option<usize>>) -> (r: Vec<ModuleIdx>)
    ensures
        r@ == reindexed_entries(entries@, new_index@),
{
    let mut out: Vec<ModuleIdx> = Vec::new();
    let mut i: usize = 0;
    while i < entries.len()
        invariant
            0 <= i <= entries@.len(),
            out@ == reindexed_entries(entries@.take(i as int), new_index@),
        decreases entries@.len() - i,
    {
        proof {
            assert(entries@.take(i + 1).drop_last() =~= entries@.take(i as int));
        }
        let old_idx = entries[i];
        if old_idx < new_index.len() {
            match new_index[old_idx] {
                Some(t) => out.push(t),
                None => {},
            }
        }
        i += 1;
    }
    assert(entries@.take(entries@.len() as int) =~= entries@);
    out
}

/// What the scan found in one module.
pub struct ModuleParts {
    /// Absolute path of the source file.
    pub path: String,
    /// Root-scope symbols.
    pub scoping: Scoping,
    /// Leading `/// <reference ... />` directives.
    pub reference_directives: Vec<String>,
    /// Whether the module holds top-level augmentations.
    pub has_augmentation: bool,
    /// Internal edges: specifier and the path it resolved to.
    pub internal: Vec<(String, String)>,
    /// External specifiers, each once.
    pub external: Vec<String>,
    /// The top-level statements.
    pub statements: Vec<StatementSummary>,
}

/// The module of the table at index `new_idx`, assembled from what the scan
/// found in it: its path relative to `cwd`, its internal edges renumbered,
/// whether it is an entry (`old_idx` among `entries`), and the export and
/// import information of its statements.
pub fn build_module(
    new_idx: ModuleIdx,
    old_idx: ModuleIdx,
    parts: ModuleParts,
    cwd: &str,
    paths: &Vec<String>,
    new_index: &Vec<Option<usize>>,
    entries: &Vec<ModuleIdx>,
) -> (m: Module)
    ensures
        m.idx == new_idx,
        m.path@ == parts.path@,
        m.relative_path@ == render(relative_comps(components(parts.path@), components(cwd@))),
        m.scoping == parts.scoping,
        m.reference_directives == parts.reference_directives,
        m.has_augmentation == parts.has_augmentation,
        resolved_views(m.resolved_internal_specifiers@) == reindexed_edges(
            pending_views(parts.internal@),
            path_views(paths@),
            new_index@,
        ),
        m.resolved_external_specifiers == parts.external,
        m.is_entry == entries@.contains(old_idx),
        info_view(m.export_import_info) == info_spec(parts.statements@),
        m.statements == parts.statements,
{
    let relative_path = diff_paths(parts.path.as_str(), cwd);
    let resolved_internal_specifiers = reindex_edges(&parts.internal, paths, new_index);
    let export_import_info = collect_export_import_info(&parts.statements);
    let mut is_entry = false;
    let mut i: usize = 0;
    while i < entries.len()
        invariant
            0 <= i <= entries@.len(),
            is_entry == exists|j: int| 0 <= j < i && entries@[j] == old_idx,
        decreases entries@.len() - i,
    {
        if entries[i] == old_idx {
            is_entry = true;
        }
        i += 1;
    }
    proof {
        if is_entry {
            let j = choose|j: int| 0 <= j < entries@.len() && entries@[j] == old_idx;
            assert(entries@.contains(old_idx));
        }
    }
    Module {
        idx: new_idx,
        path: parts.path,
        relative_path,
        scoping: parts.scoping,
        reference_directives: parts.reference_directives,
        has_augmentation: parts.has_augmentation,
        resolved_internal_specifiers,
        resolved_external_specifiers: parts.external,
        is_entry,
        export_import_info,
        statements: parts.statements,
    }
}

} // verus!

verus! {

/// Records an external specifier of a module: appended unless the module
/// has it already.
pub fn record_external_specifier(external: &mut Vec<String>, specifier: &str)
    ensures
        path_views(final(external)@) == if path_position(path_views(old(external)@), specifier@) is Some {
            path_views(old(external)@)
        } else {
            path_views(old(external)@).push(specifier@)
        },
{
    let _ = intern_path(external, specifier);
}

} // verus!
