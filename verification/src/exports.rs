//! Export lookup and resolution over the module table.

use vstd::prelude::*;

use crate::model::{
    assoc_find, assoc_get, lemma_assoc_get_in, resolve_internal, ExportSource, Module, ModuleIdx,
    ModuleTable,
};
use crate::text::{str_eq, string_clone};

verus! {

/// The view of an optional pair of strings.
pub open spec fn opt_pair_view(r: Option<(String, String)>) -> Option<(Seq<char>, Seq<char>)> {
    match r {
        Some(p) => Some((p.0@, p.1@)),
        None => None,
    }
}

/// The external package that exported name `name` of module `m` is re-exported
/// from, following internal `export { .. } from` chains for at most `fuel` steps.
/// `None` means the chain is longer than `fuel`; `Some(None)` that the name is not
/// a pass-through of an external package.
pub open spec fn external_source_within(t: Seq<Module>, m: int, name: Seq<char>, fuel: nat)
    -> Option<Option<(Seq<char>, Seq<char>)>>
    decreases fuel,
{
    if fuel == 0 {
        None
    } else if m < 0 || m >= t.len() {
        Some(None)
    } else {
        match assoc_get(t[m].export_import_info.named_exports@, name) {
            Some(entry) => match entry.source {
                ExportSource::SourceReexport { specifier, imported_name } => {
                    match resolve_internal(t[m], specifier@) {
                        Some(target) => external_source_within(
                            t,
                            target as int,
                            imported_name@,
                            (fuel - 1) as nat,
                        ),
                        None => Some(Some((specifier@, imported_name@))),
                    }
                },
                _ => Some(None),
            },
            None => Some(None),
        }
    }
}

/// The re-export chain starting at (`m`, `name`) ends after finitely many steps.
pub open spec fn reexport_chain_ends(t: Seq<Module>, m: int, name: Seq<char>) -> bool {
    exists|fuel: nat| (#[trigger] external_source_within(t, m, name, fuel)).is_some()
}

/// More fuel than a chain needs does not change its outcome.
pub proof fn lemma_external_source_fuel(t: Seq<Module>, m: int, name: Seq<char>, f1: nat, f2: nat)
    requires
        external_source_within(t, m, name, f1).is_some(),
        f1 <= f2,
    ensures
        external_source_within(t, m, name, f2) == external_source_within(t, m, name, f1),
    decreases f1,
{
    if m >= 0 && m < t.len() {
        match assoc_get(t[m].export_import_info.named_exports@, name) {
            Some(entry) => match entry.source {
                ExportSource::SourceReexport { specifier, imported_name } => {
                    match resolve_internal(t[m], specifier@) {
                        Some(target) => {
                            lemma_external_source_fuel(
                                t,
                                target as int,
                                imported_name@,
                                (f1 - 1) as nat,
                                (f2 - 1) as nat,
                            );
                        },
                        None => {},
                    }
                },
                _ => {},
            },
            None => {},
        }
    }
}

/// Traces an exported name through module re-export chains to its external
/// source: `Some((source, imported_name))` when the name is a pass-through
/// from an external package.
pub fn find_external_reexport_source(
    module_idx: ModuleIdx,
    exported_name: &str,
    scan_result: &ModuleTable,
) -> (r: Option<(String, String)>)
    requires
        scan_result.wf(),
        module_idx < scan_result.modules@.len(),
        reexport_chain_ends(scan_result.modules@, module_idx as int, exported_name@),
    ensures
        forall|fuel: nat|
            #[trigger] external_source_within(scan_result.modules@, module_idx as int, exported_name@, fuel)
                is Some ==> opt_pair_view(r) == external_source_within(
                scan_result.modules@,
                module_idx as int,
                exported_name@,
                fuel,
            )->0,
{
    let ghost t = scan_result.modules@;
    let ghost f0: nat = choose|fuel: nat| (#[trigger] external_source_within(t, module_idx as int, exported_name@, fuel)).is_some();
    let mut cur_module = module_idx;
    let mut cur_name = string_clone(exported_name);
    let ghost mut fuel: nat = f0;
    loop
        invariant
            scan_result.wf(),
            t == scan_result.modules@,
            cur_module < t.len(),
            external_source_within(t, cur_module as int, cur_name@, fuel).is_some(),
            external_source_within(t, cur_module as int, cur_name@, fuel)
                == external_source_within(t, module_idx as int, exported_name@, f0),
            external_source_within(t, module_idx as int, exported_name@, f0).is_some(),
        decreases fuel,
    {
        let module = &scan_result.modules[cur_module];
        assert(t[cur_module as int].idx == cur_module);
        let entry = match assoc_find(&module.export_import_info.named_exports, cur_name.as_str()) {
            Some(e) => e,
            None => {
                proof {
                    assert forall|f: nat| #[trigger] external_source_within(t, module_idx as int, exported_name@, f) is Some
                        implies opt_pair_view(None) == external_source_within(t, module_idx as int, exported_name@, f)->0 by {
                        if f <= f0 { lemma_external_source_fuel(t, module_idx as int, exported_name@, f, f0); }
                        else { lemma_external_source_fuel(t, module_idx as int, exported_name@, f0, f); }
                    }
                }
                return None;
            },
        };
        match &entry.source {
            ExportSource::SourceReexport { specifier, imported_name } => {
                match module.resolve_internal_specifier(specifier.as_str()) {
                    Some(target) => {
                        proof {
                            lemma_assoc_get_in(t[cur_module as int].resolved_internal_specifiers@, specifier@);
                        }
                        cur_module = target;
                        cur_name = string_clone(imported_name.as_str());
                        proof { fuel = (fuel - 1) as nat; }
                    },
                    None => {
                        let r = Some((string_clone(specifier.as_str()), string_clone(imported_name.as_str())));
                        proof {
                            assert forall|f: nat| #[trigger] external_source_within(t, module_idx as int, exported_name@, f) is Some
                                implies opt_pair_view(r) == external_source_within(t, module_idx as int, exported_name@, f)->0 by {
                                if f <= f0 { lemma_external_source_fuel(t, module_idx as int, exported_name@, f, f0); }
                                else { lemma_external_source_fuel(t, module_idx as int, exported_name@, f0, f); }
                            }
                        }
                        return r;
                    },
                }
            },
            _ => {
                proof {
                    assert forall|f: nat| #[trigger] external_source_within(t, module_idx as int, exported_name@, f) is Some
                        implies opt_pair_view(None) == external_source_within(t, module_idx as int, exported_name@, f)->0 by {
                        if f <= f0 { lemma_external_source_fuel(t, module_idx as int, exported_name@, f, f0); }
                        else { lemma_external_source_fuel(t, module_idx as int, exported_name@, f0, f); }
                    }
                }
                return None;
            },
        }
    }
}

/// The local name behind export `exported_name` of a module, when the
/// module itself declares or binds it (not for `export { .. } from` re-exports).
pub open spec fn export_local_name(m: Module, exported_name: Seq<char>) -> Option<Seq<char>> {
    match assoc_get(m.export_import_info.named_exports@, exported_name) {
        Some(entry) => match entry.source {
            ExportSource::SourceReexport { .. } => None,
            _ => Some(entry.local_name@),
        },
        None => None,
    }
}

/// Resolves an exported name (possibly an alias) back to the local declaration name.
pub fn resolve_export_local_name(module: &Module, exported_name: &str) -> (r: Option<String>)
    ensures
        match r {
            Some(s) => export_local_name(*module, exported_name@) == Some(s@),
            None => export_local_name(*module, exported_name@).is_none(),
        },
{
    let entry = match assoc_find(&module.export_import_info.named_exports, exported_name) {
        Some(e) => e,
        None => return None,
    };
    match &entry.source {
        ExportSource::SourceReexport { .. } => None,
        _ => Some(string_clone(entry.local_name.as_str())),
    }
}

/// The local name of a module's default export, if it has one.
pub open spec fn default_export_name(m: Module) -> Option<Seq<char>> {
    match assoc_get(m.export_import_info.named_exports@, seq!['d', 'e', 'f', 'a', 'u', 'l', 't']) {
        Some(entry) => Some(entry.local_name@),
        None => None,
    }
}

/// Resolves the name of a module's default export: for `export default class Foo {}`,
/// `Some("Foo")`.
pub fn resolve_default_export_name(module_idx: ModuleIdx, scan_result: &ModuleTable) -> (r: Option<String>)
    requires
        module_idx < scan_result.modules@.len(),
    ensures
        match r {
            Some(s) => default_export_name(scan_result.modules@[module_idx as int]) == Some(s@),
            None => default_export_name(scan_result.modules@[module_idx as int]).is_none(),
        },
{
    let info = &scan_result.modules[module_idx].export_import_info;
    let key = "default";
    proof {
        reveal_strlit("default");
        assert(key@ =~= seq!['d', 'e', 'f', 'a', 'u', 'l', 't']);
    }
    match assoc_find(&info.named_exports, key) {
        Some(entry) => Some(string_clone(entry.local_name.as_str())),
        None => None,
    }
}

/// Enough fuel for the re-export chain at (`m`, `name`), when it ends.
pub open spec fn chain_fuel(t: Seq<Module>, m: int, name: Seq<char>) -> nat {
    choose|fuel: nat| (#[trigger] external_source_within(t, m, name, fuel)).is_some()
}

/// The external package an exported name passes through from, if any
/// (meaningful when the chain ends).
pub open spec fn external_source(t: Seq<Module>, m: int, name: Seq<char>) -> Option<(Seq<char>, Seq<char>)> {
    external_source_within(t, m, name, chain_fuel(t, m, name))->0
}

/// The module that declares exported name `name` of module `m` and its local
/// name there, following internal `export { .. } from` chains for at most
/// `fuel` steps: `None` means the chain is longer than `fuel`; `Some(None)`
/// that it ends at an external package or a missing export.
pub open spec fn origin_within(t: Seq<Module>, m: int, name: Seq<char>, fuel: nat) -> Option<Option<(ModuleIdx, Seq<char>)>>
    decreases fuel,
{
    if fuel == 0 {
        None
    } else if m < 0 || m >= t.len() {
        Some(None)
    } else {
        match assoc_get(t[m].export_import_info.named_exports@, name) {
            Some(entry) => match entry.source {
                ExportSource::SourceReexport { specifier, imported_name } => match resolve_internal(t[m], specifier@) {
                    Some(target) => origin_within(t, target as int, imported_name@, (fuel - 1) as nat),
                    None => Some(None),
                },
                _ => Some(Some((m as ModuleIdx, entry.local_name@))),
            },
            None => Some(None),
        }
    }
}

/// The origin chain and the external-source chain have the same length.
proof fn lemma_origin_same_chain(t: Seq<Module>, m: int, name: Seq<char>, fuel: nat)
    ensures
        origin_within(t, m, name, fuel).is_some() == external_source_within(t, m, name, fuel).is_some(),
    decreases fuel,
{
    if fuel > 0 && m >= 0 && m < t.len() {
        match assoc_get(t[m].export_import_info.named_exports@, name) {
            Some(entry) => match entry.source {
                ExportSource::SourceReexport { specifier, imported_name } => match resolve_internal(t[m], specifier@) {
                    Some(target) => lemma_origin_same_chain(t, target as int, imported_name@, (fuel - 1) as nat),
                    None => {},
                },
                _ => {},
            },
            None => {},
        }
    }
}

/// More fuel than a chain needs does not change its origin.
proof fn lemma_origin_fuel(t: Seq<Module>, m: int, name: Seq<char>, f1: nat, f2: nat)
    requires
        origin_within(t, m, name, f1).is_some(),
        f1 <= f2,
    ensures
        origin_within(t, m, name, f2) == origin_within(t, m, name, f1),
    decreases f1,
{
    if m >= 0 && m < t.len() {
        match assoc_get(t[m].export_import_info.named_exports@, name) {
            Some(entry) => match entry.source {
                ExportSource::SourceReexport { specifier, imported_name } => match resolve_internal(t[m], specifier@) {
                    Some(target) => lemma_origin_fuel(t, target as int, imported_name@, (f1 - 1) as nat, (f2 - 1) as nat),
                    None => {},
                },
                _ => {},
            },
            None => {},
        }
    }
}

/// The declaring module and local name of an exported name (meaningful when
/// its re-export chain ends).
pub open spec fn export_origin(t: Seq<Module>, m: int, name: Seq<char>) -> Option<(ModuleIdx, Seq<char>)> {
    origin_within(t, m, name, chain_fuel(t, m, name))->0
}

/// Follows `export { .. } from` chains from exported name `name` of module
/// `module_idx` to the module that declares it: `Some((module, local name))`,
/// or `None` when the chain ends at an external package or a missing export.
pub fn resolve_export_origin(module_idx: ModuleIdx, name: &str, scan_result: &ModuleTable) -> (r: Option<(ModuleIdx, String)>)
    requires
        scan_result.wf(),
        module_idx < scan_result.modules@.len(),
        reexport_chain_ends(scan_result.modules@, module_idx as int, name@),
    ensures
        match r {
            Some((mi, n)) => export_origin(scan_result.modules@, module_idx as int, name@) == Some((mi, n@)),
            None => export_origin(scan_result.modules@, module_idx as int, name@) is None,
        },
{
    let ghost t = scan_result.modules@;
    let ghost f0: nat = chain_fuel(t, module_idx as int, name@);
    proof { lemma_origin_same_chain(t, module_idx as int, name@, f0); }
    let mut cur_module = module_idx;
    let mut cur_name = string_clone(name);
    let ghost mut fuel: nat = f0;
    loop
        invariant
            scan_result.wf(),
            t == scan_result.modules@,
            cur_module < t.len(),
            f0 == chain_fuel(t, module_idx as int, name@),
            origin_within(t, cur_module as int, cur_name@, fuel).is_some(),
            origin_within(t, cur_module as int, cur_name@, fuel) == origin_within(t, module_idx as int, name@, f0),
        decreases fuel,
    {
        let module = &scan_result.modules[cur_module];
        assert(t[cur_module as int].idx == cur_module);
        let entry = match assoc_find(&module.export_import_info.named_exports, cur_name.as_str()) {
            Some(e) => e,
            None => return None,
        };
        match &entry.source {
            ExportSource::SourceReexport { specifier, imported_name } => {
                match module.resolve_internal_specifier(specifier.as_str()) {
                    Some(target) => {
                        proof {
                            lemma_assoc_get_in(t[cur_module as int].resolved_internal_specifiers@, specifier@);
                        }
                        cur_module = target;
                        cur_name = string_clone(imported_name.as_str());
                        proof { fuel = (fuel - 1) as nat; }
                    },
                    None => return None,
                }
            },
            _ => {
                return Some((cur_module, string_clone(entry.local_name.as_str())));
            },
        }
    }
}

/// The external source of an exported name, as `find_external_reexport_source`
/// gives it.
pub proof fn lemma_external_source_is(t: Seq<Module>, m: int, name: Seq<char>, r: Option<(Seq<char>, Seq<char>)>)
    requires
        reexport_chain_ends(t, m, name),
        forall|fuel: nat| #[trigger] external_source_within(t, m, name, fuel) is Some ==> r == external_source_within(t, m, name, fuel)->0,
    ensures
        r == external_source(t, m, name),
{
    let f = chain_fuel(t, m, name);
    assert(external_source_within(t, m, name, f) is Some);
}

/// The origin module of an exported name is a module of the table.
pub proof fn lemma_origin_below(t: Seq<Module>, m: int, name: Seq<char>)
    requires
        reexport_chain_ends(t, m, name),
    ensures
        export_origin(t, m, name) matches Some((om, _)) ==> (om as int) < t.len(),
{
    let f = chain_fuel(t, m, name);
    assert(external_source_within(t, m, name, f) is Some);
    lemma_origin_same_chain(t, m, name, f);
    lemma_origin_within_below(t, m, name, f);
}

proof fn lemma_origin_within_below(t: Seq<Module>, m: int, name: Seq<char>, fuel: nat)
    ensures
        origin_within(t, m, name, fuel) matches Some(Some((om, _))) ==> (om as int) < t.len(),
    decreases fuel,
{
    if fuel > 0 && m >= 0 && m < t.len() {
        match assoc_get(t[m].export_import_info.named_exports@, name) {
            Some(entry) => match entry.source {
                ExportSource::SourceReexport { specifier, imported_name } => match resolve_internal(t[m], specifier@) {
                    Some(target) => lemma_origin_within_below(t, target as int, imported_name@, (fuel - 1) as nat),
                    None => {},
                },
                _ => {},
            },
            None => {},
        }
    }
}

} // verus!
